//! Start placement: which province each nation starts in, over one or more
//! planes joined by gates, keeping the starts far apart and, where it can,
//! giving each nation the ground it wants.
use vstd::prelude::*;
use crate::terrain::{CAVE, CAVE_WALL, DEEP_SEA, NO_START, SEA, VOID_LAND};

verus! {

/// One plane's provinces as the placement sees them: each province's
/// terrain mask, its neighbours and its size, indexed by province number
/// (index 0 stands for no province).
pub struct PlaneGraph {
    pub flags: Vec<u64>,
    pub nbors: Vec<Vec<u32>>,
    pub areas: Vec<u32>,
    pub cave: bool,
}

/// What a nation wants of its start: water, a coast, the caves (0 never,
/// 2 or 3 always, any other number either way), and the terrain it likes.
#[derive(Clone, Copy, Debug, PartialEq, Eq, Structural)]
pub struct Want {
    pub nation: u32,
    pub uw: bool,
    pub coast: bool,
    pub cave: u8,
    pub likesterr: u64,
}

/// Where a nation starts: a plane and a province on it.
#[derive(Clone, Copy, Debug, PartialEq, Eq, Structural)]
pub struct Placed {
    pub nation: u32,
    pub plane: usize,
    pub prov: u32,
}

/// The distance at and beyond which starts count as equally far apart.
pub const FAR: u32 = 8;

/// Where a plane's provinces begin in the numbering of all provinces of all planes.
pub open spec fn offset(ps: Seq<PlaneGraph>, k: int) -> int
    decreases k,
{
    if k <= 0 {
        0
    } else {
        offset(ps, k - 1) + ps[k - 1].flags@.len()
    }
}

/// A province's size; one where none is given.
pub open spec fn area_of(p: PlaneGraph, prov: int) -> int {
    if prov < p.areas@.len() {
        p.areas@[prov] as int
    } else {
        1
    }
}

/// A province can hold a start: it has a size, its terrain allows a start
/// (it is no no-start, cave-wall or void province), and it has neighbours.
pub open spec fn province_usable(p: PlaneGraph, prov: int) -> bool {
    &&& 1 <= prov < p.flags@.len()
    &&& area_of(p, prov) > 0
    &&& p.flags@[prov] & (NO_START | CAVE_WALL | VOID_LAND) == 0
    &&& prov < p.nbors@.len()
    &&& p.nbors@[prov]@.len() > 0
}

/// A land province with a sea province among its neighbours.
pub open spec fn province_coastal(p: PlaneGraph, prov: int) -> bool {
    &&& p.flags@[prov] & SEA == 0
    &&& prov < p.nbors@.len()
    &&& exists|j: int|
        0 <= j < p.nbors@[prov]@.len() && 0 < #[trigger] p.nbors@[prov]@[j] < p.flags@.len()
            && p.flags@[p.nbors@[prov]@[j] as int] & SEA != 0
}

/// All provinces of all planes in one numbering, with what the placement
/// reads of each.
pub struct Graph {
    pub offsets: Vec<usize>,
    pub adj: Vec<Vec<usize>>,
    pub flags: Vec<u64>,
    pub cave: Vec<bool>,
    pub usable: Vec<bool>,
    pub coastal: Vec<bool>,
}

impl Graph {
    /// The number of provinces of all planes.
    pub open spec fn n(&self) -> int {
        self.flags@.len() as int
    }

    pub open spec fn wf(&self) -> bool {
        &&& self.adj@.len() == self.n()
        &&& self.cave@.len() == self.n()
        &&& self.usable@.len() == self.n()
        &&& self.coastal@.len() == self.n()
        &&& forall|v: int, j: int|
            0 <= v < self.n() && 0 <= j < self.adj@[v]@.len() ==> #[trigger] self.adj@[v]@[j]
                < self.n()
    }

    /// The graph stands for the planes: its numbering follows the planes, and
    /// each province keeps its terrain and whether it can hold a start.
    pub open spec fn stands_for(&self, ps: Seq<PlaneGraph>) -> bool {
        &&& self.wf()
        &&& self.offsets@.len() == ps.len() + 1
        &&& forall|k: int| 0 <= k <= ps.len() ==> #[trigger] self.offsets@[k] == offset(ps, k)
        &&& self.n() == offset(ps, ps.len() as int)
        &&& forall|k: int, prov: int|
            0 <= k < ps.len() && 0 <= prov < ps[k].flags@.len() ==> #[trigger] self.node_is(
                ps,
                k,
                prov,
            )
    }

    /// The graph joins the provinces as the planes' borders and the gates do.
    pub open spec fn joins(&self, ps: Seq<PlaneGraph>, gates: Seq<Link>) -> bool {
        forall|k: int, prov: int|
            0 <= k < ps.len() && 0 <= prov < ps[k].flags@.len() ==> self.adj@[offset(ps, k) + prov]@
                == #[trigger] adj_at(ps, gates, k, prov)
    }

    /// What the graph holds for province `prov` of plane `k`.
    pub open spec fn node_is(&self, ps: Seq<PlaneGraph>, k: int, prov: int) -> bool {
        let node = offset(ps, k) + prov;
        &&& self.usable@[node] == province_usable(ps[k], prov)
        &&& self.flags@[node] == if prov == 0 {
            0u64
        } else {
            ps[k].flags@[prov]
        }
        &&& self.cave@[node] == (prov > 0 && (ps[k].cave || ps[k].flags@[prov] & CAVE != 0))
        &&& self.coastal@[node] == (prov > 0 && province_coastal(ps[k], prov))
    }
}

proof fn lemma_offset_mono(ps: Seq<PlaneGraph>, a: int, b: int)
    requires
        0 <= a <= b <= ps.len(),
    ensures
        offset(ps, a) <= offset(ps, b),
    decreases b - a,
{
    if a < b {
        lemma_offset_mono(ps, a, b - 1);
    }
}

fn plane_row(p: &PlaneGraph, prov: usize) -> (r: (bool, bool))
    requires
        1 <= prov < p.flags@.len(),
    ensures
        r.0 == province_usable(*p, prov as int),
        r.1 == province_coastal(*p, prov as int),
{
    let f = p.flags[prov];
    let area: u32 = if prov < p.areas.len() {
        p.areas[prov]
    } else {
        1
    };
    let has_nbors = prov < p.nbors.len() && p.nbors[prov].len() > 0;
    let usable = area > 0 && f & (NO_START | CAVE_WALL | VOID_LAND) == 0 && has_nbors;
    let mut coastal = false;
    if f & SEA == 0 && prov < p.nbors.len() {
        let ns = &p.nbors[prov];
        let mut j: usize = 0;
        while j < ns.len()
            invariant
                j <= ns@.len(),
                prov < p.nbors@.len(),
                *ns == p.nbors@[prov as int],
                coastal == exists|i: int|
                    0 <= i < j && 0 < #[trigger] ns@[i] < p.flags@.len() && p.flags@[ns@[i] as int]
                        & SEA != 0,
            decreases ns@.len() - j,
        {
            let n = ns[j];
            if 0 < n && (n as usize) < p.flags.len() && p.flags[n as usize] & SEA != 0 {
                coastal = true;
            }
            j += 1;
        }
    }
    (usable, coastal)
}


/// A gate joins a province of one plane to a province of another.
pub type Link = ((usize, u32), (usize, u32));

/// The nodes a node is joined to by the gates, in the gates' order: for
/// each gate between two provinces on the planes, the other end where one
/// end is the node (both where a gate joins the node to itself).
pub open spec fn gate_nodes(offs: Seq<usize>, total: int, gates: Seq<Link>, node: int) -> Seq<usize>
    decreases gates.len(),
{
    if gates.len() == 0 {
        Seq::empty()
    } else {
        let rest = gate_nodes(offs, total, gates.drop_last(), node);
        let ((pa, a), (pb, b)) = gates.last();
        if pa < offs.len() - 1 && pb < offs.len() - 1 {
            let na = offs[pa as int] + a;
            let nb = offs[pb as int] + b;
            if na < total && nb < total {
                let r1 = if na == node {
                    rest.push(nb as usize)
                } else {
                    rest
                };
                if nb == node {
                    r1.push(na as usize)
                } else {
                    r1
                }
            } else {
                rest
            }
        } else {
            rest
        }
    }
}

/// The nodes of the neighbours of a province that are provinces of its
/// plane, in the order the neighbours are listed.
pub open spec fn nbor_nodes(base: int, flen: int, ns: Seq<u32>) -> Seq<usize>
    decreases ns.len(),
{
    if ns.len() == 0 {
        Seq::empty()
    } else {
        let rest = nbor_nodes(base, flen, ns.drop_last());
        let n = ns.last();
        if n > 0 && n < flen {
            rest.push((base + n) as usize)
        } else {
            rest
        }
    }
}

/// Where the planes begin, one after another, and where they end.
pub open spec fn offsets_of(ps: Seq<PlaneGraph>) -> Seq<usize> {
    Seq::new((ps.len() + 1) as nat, |k: int| offset(ps, k) as usize)
}

/// The nodes province `prov` of plane `k` is joined to: its neighbours on
/// its plane, then the far ends of its gates.
pub open spec fn adj_at(ps: Seq<PlaneGraph>, gates: Seq<Link>, k: int, prov: int) -> Seq<usize> {
    let p = ps[k];
    let own = if prov == 0 {
        Seq::empty()
    } else if prov < p.nbors@.len() {
        nbor_nodes(offset(ps, k), p.flags@.len() as int, p.nbors@[prov]@)
    } else {
        Seq::empty()
    };
    own + gate_nodes(offsets_of(ps), offset(ps, ps.len() as int), gates, offset(ps, k) + prov)
}

fn gate_partners(offsets: &Vec<usize>, total: usize, gates: &[Link], node: usize, out: &mut Vec<usize>)
    requires
        forall|k: int| 0 <= k < offsets@.len() ==> #[trigger] offsets@[k] <= total,
        offsets@.len() >= 1,
        total < u32::MAX,
        forall|j: int| 0 <= j < old(out)@.len() ==> #[trigger] old(out)@[j] < total,
    ensures
        forall|j: int| 0 <= j < final(out)@.len() ==> #[trigger] final(out)@[j] < total,
        final(out)@ == old(out)@ + gate_nodes(offsets@, total as int, gates@, node as int),
{
    let planes = offsets.len() - 1;
    let mut i: usize = 0;
    assert(old(out)@ + gate_nodes(offsets@, total as int, gates@.take(0), node as int) =~= old(out)@);
    while i < gates.len()
        invariant
            i <= gates@.len(),
            planes + 1 == offsets@.len(),
            total < u32::MAX,
            forall|k: int| 0 <= k < offsets@.len() ==> #[trigger] offsets@[k] <= total,
            forall|j: int| 0 <= j < out@.len() ==> #[trigger] out@[j] < total,
            out@ == old(out)@ + gate_nodes(offsets@, total as int, gates@.take(i as int), node as int),
        decreases gates@.len() - i,
    {
        proof {
            assert(gates@.take(i + 1).drop_last() =~= gates@.take(i as int));
            assert(gates@.take(i + 1).last() == gates@[i as int]);
        }
        let ((pa, a), (pb, b)) = gates[i];
        if pa < planes && pb < planes {
            let na = offsets[pa] as u64 + a as u64;
            let nb = offsets[pb] as u64 + b as u64;
            if na < total as u64 && nb < total as u64 {
                if na as usize == node {
                    out.push(nb as usize);
                }
                if nb as usize == node {
                    out.push(na as usize);
                }
            }
        }
        proof {
            let g = gate_nodes(offsets@, total as int, gates@.take(i as int), node as int);
            let g1 = gate_nodes(offsets@, total as int, gates@.take(i + 1), node as int);
            if pa < planes && pb < planes {
                let na = offsets@[pa as int] + a;
                let nb = offsets@[pb as int] + b;
                if na < total && nb < total {
                    if na == node && nb == node {
                        assert(out@ =~= old(out)@ + g.push(nb as usize).push(na as usize));
                    } else if na == node {
                        assert(out@ =~= old(out)@ + g.push(nb as usize));
                    } else if nb == node {
                        assert(out@ =~= old(out)@ + g.push(na as usize));
                    }
                }
            }
            assert(out@ =~= old(out)@ + g1);
        }
        i += 1;
    }
    proof {
        assert(gates@.take(gates@.len() as int) =~= gates@);
    }
}

impl Graph {
    /// Numbers the provinces of all planes one after another and joins them
    /// by their borders and by the gates.
    #[verifier::rlimit(40)]
    fn build(planes: &[PlaneGraph], gates: &[Link]) -> (g: Graph)
        requires
            offset(planes@, planes@.len() as int) < u32::MAX,
        ensures
            g.stands_for(planes@),
            g.joins(planes@, gates@),
    {
        let ghost ps = planes@;
        let np = planes.len();
        let mut offsets: Vec<usize> = Vec::new();
        let mut total: usize = 0;
        let mut pi: usize = 0;
        while pi < np
            invariant
                pi <= np,
                np == ps.len(),
                ps == planes@,
                offset(ps, np as int) < u32::MAX,
                total == offset(ps, pi as int),
                offsets@.len() == pi,
                forall|k: int| 0 <= k < pi ==> #[trigger] offsets@[k] == offset(ps, k),
            decreases np - pi,
        {
            proof {
                lemma_offset_mono(ps, pi + 1, np as int);
            }
            offsets.push(total);
            total = total + planes[pi].flags.len();
            pi += 1;
        }
        offsets.push(total);
        proof {
            assert forall|k: int| 0 <= k <= np implies #[trigger] offsets@[k] <= total by {
                lemma_offset_mono(ps, k, np as int);
            }
            assert(offsets@ =~= offsets_of(ps));
        }
        let mut flags: Vec<u64> = Vec::new();
        let mut cave: Vec<bool> = Vec::new();
        let mut usable: Vec<bool> = Vec::new();
        let mut coastal: Vec<bool> = Vec::new();
        let mut adj: Vec<Vec<usize>> = Vec::new();
        pi = 0;
        while pi < np
            invariant
                pi <= np,
                np == ps.len(),
                ps == planes@,
                total == offset(ps, np as int),
                total < u32::MAX,
                offsets@.len() == np + 1,
                forall|k: int| 0 <= k <= np ==> #[trigger] offsets@[k] == offset(ps, k),
                forall|k: int| 0 <= k <= np ==> #[trigger] offsets@[k] <= total,
                flags@.len() == offset(ps, pi as int),
                cave@.len() == flags@.len(),
                usable@.len() == flags@.len(),
                coastal@.len() == flags@.len(),
                adj@.len() == flags@.len(),
                forall|v: int, j: int|
                    0 <= v < adj@.len() && 0 <= j < adj@[v]@.len() ==> #[trigger] adj@[v]@[j]
                        < total,
                offsets@ == offsets_of(ps),
                forall|k: int, prov: int|
                    0 <= k < pi && 0 <= prov < ps[k].flags@.len() ==> adj@[offset(ps, k) + prov]@
                        == #[trigger] adj_at(ps, gates@, k, prov),
                forall|k: int, prov: int|
                    0 <= k < pi && 0 <= prov < ps[k].flags@.len() ==> #[trigger] (Graph {
                        offsets,
                        adj,
                        flags,
                        cave,
                        usable,
                        coastal,
                    }).node_is(ps, k, prov),
            decreases np - pi,
        {
            let p = &planes[pi];
            let base = offsets[pi];
            proof {
                lemma_offset_mono(ps, pi + 1, np as int);
            }
            let mut prov: usize = 0;
            while prov < p.flags.len()
                invariant
                    pi < np,
                    np == ps.len(),
                    ps == planes@,
                    *p == ps[pi as int],
                    base == offset(ps, pi as int),
                    offset(ps, pi + 1) <= total,
                    total == offset(ps, np as int),
                    total < u32::MAX,
                    prov <= p.flags@.len(),
                    offsets@.len() == np + 1,
                    forall|k: int| 0 <= k <= np ==> #[trigger] offsets@[k] == offset(ps, k),
                    forall|k: int| 0 <= k <= np ==> #[trigger] offsets@[k] <= total,
                    flags@.len() == base + prov,
                    cave@.len() == flags@.len(),
                    usable@.len() == flags@.len(),
                    coastal@.len() == flags@.len(),
                    adj@.len() == flags@.len(),
                    forall|v: int, j: int|
                        0 <= v < adj@.len() && 0 <= j < adj@[v]@.len() ==> #[trigger] adj@[v]@[j]
                            < total,
                    offsets@ == offsets_of(ps),
                    forall|k: int, q: int|
                        ((0 <= k < pi && 0 <= q < ps[k].flags@.len()) || (k == pi && 0 <= q < prov))
                            ==> adj@[offset(ps, k) + q]@ == #[trigger] adj_at(ps, gates@, k, q),
                    forall|k: int, q: int|
                        (0 <= k < pi && 0 <= q < ps[k].flags@.len()) || (k == pi && 0 <= q
                            < prov) ==> #[trigger] (Graph {
                            offsets,
                            adj,
                            flags,
                            cave,
                            usable,
                            coastal,
                        }).node_is(ps, k, q),
                decreases p.flags@.len() - prov,
            {
                let ghost g0 = Graph { offsets, adj, flags, cave, usable, coastal };
                let ghost f0 = flags@;
                let ghost c0 = cave@;
                assert(g0.flags@.len() == base + prov);
                let mut near: Vec<usize> = Vec::new();
                let ghost a0 = adj@;
                proof {
                    assert(nbor_nodes(base as int, p.flags@.len() as int, Seq::<u32>::empty().take(0)) =~= Seq::<usize>::empty());
                }
                if prov == 0 {
                    flags.push(0);
                    cave.push(false);
                    usable.push(false);
                    coastal.push(false);
                } else {
                    let f = p.flags[prov];
                    let (u, c) = plane_row(p, prov);
                    flags.push(f);
                    cave.push(p.cave || f & CAVE != 0);
                    usable.push(u);
                    coastal.push(c);
                    if prov < p.nbors.len() {
                        let ns = &p.nbors[prov];
                        let mut j: usize = 0;
                        while j < ns.len()
                            invariant
                                j <= ns@.len(),
                                base + p.flags@.len() <= total,
                                forall|t: int| 0 <= t < near@.len() ==> #[trigger] near@[t] < total,
                                near@ == nbor_nodes(base as int, p.flags@.len() as int, ns@.take(j as int)),
                            decreases ns@.len() - j,
                        {
                            let n = ns[j];
                            proof {
                                assert(ns@.take(j + 1).drop_last() =~= ns@.take(j as int));
                            }
                            if n > 0 && (n as usize) < p.flags.len() {
                                near.push(base + n as usize);
                            }
                            j += 1;
                        }
                        proof {
                            assert(ns@.take(ns@.len() as int) =~= ns@);
                        }
                    }
                }
                let ghost own = near@;
                gate_partners(&offsets, total, gates, base + prov, &mut near);
                adj.push(near);
                proof {
                    assert(own == if prov == 0 {
                        Seq::<usize>::empty()
                    } else if prov < p.nbors@.len() {
                        nbor_nodes(offset(ps, pi as int), p.flags@.len() as int, p.nbors@[prov as int]@)
                    } else {
                        Seq::<usize>::empty()
                    });
                    assert(a0.len() == base + prov);
                    assert(adj@[base + prov] == near);
                    assert(near@ == own + gate_nodes(offsets@, total as int, gates@, (base + prov) as int));
                    assert(offsets@ == offsets_of(ps));
                    assert(total == offset(ps, ps.len() as int));
                    assert(ps[pi as int] == *p);
                    assert(adj@[base + prov]@ == adj_at(ps, gates@, pi as int, prov as int));
                    assert forall|k: int, q: int|
                        ((0 <= k < pi && 0 <= q < ps[k].flags@.len()) || (k == pi && 0 <= q < prov + 1))
                            implies adj@[offset(ps, k) + q]@ == #[trigger] adj_at(ps, gates@, k, q) by {
                        if k < pi || q < prov {
                            if k < pi {
                                lemma_offset_mono(ps, k + 1, pi as int);
                            }
                            lemma_offset_mono(ps, 0, k);
                            assert(offset(ps, k) + q < base + prov);
                            assert(adj@[offset(ps, k) + q] == a0[offset(ps, k) + q]);
                        }
                    }
                }
                proof {
                    let g1 = Graph { offsets, adj, flags, cave, usable, coastal };
                    let old_len = base + prov;
                    assert(f0 == g0.flags@);
                    assert(flags@.len() == old_len + 1);
                    assert(flags@ =~= f0.push(flags@[old_len as int]));
                    assert(cave@ =~= c0.push(cave@[old_len as int]));
                    assert(usable@ =~= g0.usable@.push(usable@[old_len as int]));
                    assert(coastal@ =~= g0.coastal@.push(coastal@[old_len as int]));
                    assert forall|v: int| 0 <= v < old_len implies g1.flags@[v] == g0.flags@[v]
                        && g1.cave@[v] == g0.cave@[v] && g1.usable@[v] == g0.usable@[v]
                        && g1.coastal@[v] == g0.coastal@[v] by {}
                    assert forall|k: int, q: int|
                        (0 <= k < pi && 0 <= q < ps[k].flags@.len()) || (k == pi && 0 <= q < prov
                            + 1) implies #[trigger] g1.node_is(ps, k, q) by {
                        if k < pi || q < prov {
                            if k < pi {
                                lemma_offset_mono(ps, k + 1, pi as int);
                            }
                            lemma_offset_mono(ps, 0, k);
                            assert(g0.node_is(ps, k, q));
                            let v = offset(ps, k) + q;
                            assert(v < old_len);
                            assert(g1.flags@[v] == g0.flags@[v]);
                            assert(g1.cave@[v] == g0.cave@[v]);
                            assert(g1.usable@[v] == g0.usable@[v]);
                            assert(g1.coastal@[v] == g0.coastal@[v]);
                        } else {
                            assert(offset(ps, k) + q == old_len);
                            assert(g1.usable@[old_len] == province_usable(ps[k], q));
                            assert(g1.cave@[old_len] == (q > 0 && (ps[k].cave || ps[k].flags@[q]
                                & CAVE != 0)));
                            assert(g1.coastal@[old_len] == (q > 0 && province_coastal(ps[k], q)));
                            assert(g1.flags@[old_len] == if q == 0 {
                                0u64
                            } else {
                                ps[k].flags@[q]
                            });
                        }
                    }
                }
                prov += 1;
            }
            pi += 1;
        }
        let g = Graph { offsets, adj, flags, cave, usable, coastal };
        g
    }
}


/// How many entries are still unreached.
pub open spec fn count_max(d: Seq<u32>) -> nat
    decreases d.len(),
{
    if d.len() == 0 {
        0
    } else {
        count_max(d.drop_last()) + if d.last() == u32::MAX {
            1nat
        } else {
            0nat
        }
    }
}

proof fn lemma_count_max_bound(d: Seq<u32>)
    ensures
        count_max(d) <= d.len(),
    decreases d.len(),
{
    if d.len() > 0 {
        lemma_count_max_bound(d.drop_last());
    }
}

proof fn lemma_count_max_update(d: Seq<u32>, m: int, x: u32)
    requires
        0 <= m < d.len(),
        d[m] == u32::MAX,
        x != u32::MAX,
    ensures
        count_max(d.update(m, x)) + 1 == count_max(d),
    decreases d.len(),
{
    let e = d.update(m, x);
    if m == d.len() - 1 {
        assert(e.drop_last() =~= d.drop_last());
    } else {
        assert(e.drop_last() =~= d.drop_last().update(m, x));
        lemma_count_max_update(d.drop_last(), m, x);
    }
}

/// The breadth-first distances from the sources: sources are at 0, no
/// other node is; from a reached node every neighbour is reached, at most one
/// step further; and every reached node but the sources is one step beyond
/// some reached node. Unreached nodes hold `u32::MAX`.
pub open spec fn bfs_props(adj: Seq<Vec<usize>>, sources: Seq<usize>, d: Seq<u32>) -> bool {
    &&& d.len() == adj.len()
    &&& forall|i: int| 0 <= i < sources.len() ==> d[#[trigger] sources[i] as int] == 0
    &&& forall|v: int| 0 <= v < d.len() && #[trigger] d[v] == 0 ==> sources.contains(v as usize)
    &&& forall|v: int, j: int|
        0 <= v < d.len() && d[v] != u32::MAX && 0 <= j < adj[v]@.len() ==> {
            let w = #[trigger] adj[v]@[j] as int;
            d[w] != u32::MAX && d[w] <= d[v] + 1
        }
    &&& forall|v: int|
        0 <= v < d.len() && #[trigger] d[v] != u32::MAX && d[v] > 0 ==> exists|u: int, j: int|
            0 <= u < d.len() && 0 <= j < adj[u]@.len() && #[trigger] adj[u]@[j] == v && d[u]
                != u32::MAX && d[u] + 1 == d[v]
}

proof fn lemma_bfs_below(adj: Seq<Vec<usize>>, sources: Seq<usize>, d1: Seq<u32>, d2: Seq<u32>, k: nat)
    requires
        bfs_props(adj, sources, d1),
        bfs_props(adj, sources, d2),
        adj.len() <= usize::MAX,
    ensures
        forall|v: int|
            0 <= v < d2.len() && #[trigger] d2[v] != u32::MAX && d2[v] <= k ==> d1[v] != u32::MAX && d1[v] <= d2[v],
    decreases k,
{
    assert forall|v: int|
        0 <= v < d2.len() && #[trigger] d2[v] != u32::MAX && d2[v] <= k implies d1[v] != u32::MAX && d1[v] <= d2[v] by {
        if d2[v] == 0 {
            assert((v as usize) as int == v);
            assert(sources.contains(v as usize));
            let i = choose|i: int| 0 <= i < sources.len() && sources[i] == v as usize;
            assert(d1[sources[i] as int] == 0);
        } else {
            let (u, j) = choose|u: int, j: int|
                0 <= u < d2.len() && 0 <= j < adj[u]@.len() && #[trigger] adj[u]@[j] == v && d2[u]
                    != u32::MAX && d2[u] + 1 == d2[v];
            lemma_bfs_below(adj, sources, d1, d2, (d2[v] - 1) as nat);
            assert(d2[u] <= (d2[v] - 1) as nat);
            assert(d1[u] != u32::MAX && d1[u] <= d2[u]);
            assert(adj[u]@[j] as int == v);
        }
    }
}

/// Breadth-first distances from the same sources are the same: they are
/// the lengths of the shortest paths.
proof fn lemma_bfs_unique(adj: Seq<Vec<usize>>, sources: Seq<usize>, d1: Seq<u32>, d2: Seq<u32>)
    requires
        bfs_props(adj, sources, d1),
        bfs_props(adj, sources, d2),
        adj.len() <= usize::MAX,
    ensures
        d1 == d2,
{
    assert forall|v: int| 0 <= v < d1.len() implies d1[v] == d2[v] by {
        if d2[v] != u32::MAX {
            lemma_bfs_below(adj, sources, d1, d2, d2[v] as nat);
        }
        if d1[v] != u32::MAX {
            lemma_bfs_below(adj, sources, d2, d1, d1[v] as nat);
        }
    }
    assert(d1 =~= d2);
}

/// The breadth-first distances from the sources.
pub open spec fn dist_from(adj: Seq<Vec<usize>>, sources: Seq<usize>) -> Seq<u32> {
    choose|d: Seq<u32>| bfs_props(adj, sources, d)
}

proof fn lemma_dist_from(adj: Seq<Vec<usize>>, sources: Seq<usize>, d: Seq<u32>)
    requires
        bfs_props(adj, sources, d),
        adj.len() <= usize::MAX,
    ensures
        dist_from(adj, sources) == d,
{
    lemma_bfs_unique(adj, sources, d, dist_from(adj, sources));
}

impl Graph {
    /// The breadth-first distances from the sources.
    #[verifier::rlimit(60)]
    fn distances(&self, sources: &Vec<usize>) -> (dist: Vec<u32>)
        requires
            self.wf(),
            forall|i: int| 0 <= i < sources@.len() ==> #[trigger] sources@[i] < self.n(),
            sources@.len() + self.n() < u32::MAX,
        ensures
            bfs_props(self.adj@, sources@, dist@),
    {
        let n = self.adj.len();
        let ghost adj = self.adj@;
        let ghost ns = sources@.len() + n;
        let mut dist: Vec<u32> = Vec::new();
        while dist.len() < n
            invariant
                dist@.len() <= n,
                forall|v: int| 0 <= v < dist@.len() ==> dist@[v] == u32::MAX,
            decreases n - dist@.len(),
        {
            dist.push(u32::MAX);
        }
        let mut queue: Vec<usize> = Vec::new();
        let mut i: usize = 0;
        while i < sources.len()
            invariant
                i <= sources@.len(),
                dist@.len() == n,
                n == self.n(),
                self.wf(),
                forall|i: int| 0 <= i < sources@.len() ==> #[trigger] sources@[i] < self.n(),
                queue@ == sources@.take(i as int),
                forall|v: int| 0 <= v < n ==> (#[trigger] dist@[v] == 0 || dist@[v] == u32::MAX),
                forall|v: int| 0 <= v < n && #[trigger] dist@[v] == 0 ==> queue@.contains(v as usize),
                forall|k: int| 0 <= k < i ==> dist@[#[trigger] sources@[k] as int] == 0,
            decreases sources@.len() - i,
        {
            let s = sources[i];
            dist.set(s, 0);
            queue.push(s);
            proof {
                assert(queue@ =~= sources@.take(i + 1));
                assert forall|v: int| 0 <= v < n && #[trigger] dist@[v] == 0 implies queue@.contains(
                    v as usize,
                ) by {
                    if v == s as int {
                        assert(queue@[i as int] == s);
                    } else {
                        let k = choose|k: int| 0 <= k < i && queue@[k] == v as usize;
                        assert(queue@[k] == v as usize);
                    }
                }
            }
            i += 1;
        }
        proof {
            assert(sources@.take(sources@.len() as int) =~= sources@);
            lemma_count_max_bound(dist@);
        }
        let mut head: usize = 0;
        while head < queue.len()
            invariant
                n == self.n(),
                self.wf(),
                adj == self.adj@,
                ns == sources@.len() + n,
                ns < u32::MAX,
                dist@.len() == n,
                head <= queue@.len(),
                queue@.len() + count_max(dist@) <= ns,
                forall|k: int| 0 <= k < queue@.len() ==> #[trigger] queue@[k] < n,
                forall|k: int|
                    0 <= k < queue@.len() ==> dist@[#[trigger] queue@[k] as int] != u32::MAX
                        && dist@[queue@[k] as int] <= k,
                forall|v: int|
                    0 <= v < n && #[trigger] dist@[v] != u32::MAX ==> queue@.contains(v as usize),
                forall|a: int, b: int|
                    0 <= a < b < queue@.len() ==> dist@[#[trigger] queue@[a] as int]
                        <= dist@[#[trigger] queue@[b] as int],
                head < queue@.len() ==> forall|b: int|
                    head <= b < queue@.len() ==> dist@[#[trigger] queue@[b] as int] <= dist@[queue@[head as int] as int] + 1,
                forall|a: int, j: int|
                    0 <= a < head && 0 <= j < adj[queue@[a] as int]@.len() ==> {
                        let w = #[trigger] adj[queue@[a] as int]@[j] as int;
                        dist@[w] != u32::MAX && dist@[w] <= dist@[queue@[a] as int] + 1
                    },
                forall|k: int| 0 <= k < sources@.len() ==> #[trigger] sources@[k] < n,
                forall|k: int| 0 <= k < sources@.len() ==> dist@[#[trigger] sources@[k] as int] == 0,
                forall|v: int| 0 <= v < n && #[trigger] dist@[v] == 0 ==> sources@.contains(v as usize),
                forall|v: int|
                    0 <= v < n && #[trigger] dist@[v] != u32::MAX && dist@[v] > 0 ==> exists|u: int, j: int|
                        0 <= u < n && 0 <= j < adj[u]@.len() && #[trigger] adj[u]@[j] == v
                            && dist@[u] != u32::MAX && dist@[u] + 1 == dist@[v],
            decreases ns - head,
        {
            let u = queue[head];
            let du = dist[u];
            let d = du + 1;
            let nb = &self.adj[u];
            let mut j: usize = 0;
            while j < nb.len()
                invariant
                    n == self.n(),
                    self.wf(),
                    adj == self.adj@,
                    *nb == adj[u as int],
                    u < n,
                    ns == sources@.len() + n,
                    ns < u32::MAX,
                    dist@.len() == n,
                    head < queue@.len(),
                    queue@[head as int] == u,
                    dist@[u as int] == du,
                    du != u32::MAX,
                    d == du + 1,
                    d <= queue@.len(),
                    j <= nb@.len(),
                    queue@.len() + count_max(dist@) <= ns,
                    forall|k: int| 0 <= k < queue@.len() ==> #[trigger] queue@[k] < n,
                    forall|k: int|
                        0 <= k < queue@.len() ==> dist@[#[trigger] queue@[k] as int] != u32::MAX
                            && dist@[queue@[k] as int] <= k,
                    forall|v: int|
                        0 <= v < n && #[trigger] dist@[v] != u32::MAX ==> queue@.contains(v as usize),
                    forall|a: int, b: int|
                        0 <= a < b < queue@.len() ==> dist@[#[trigger] queue@[a] as int]
                            <= dist@[#[trigger] queue@[b] as int],
                    forall|b: int|
                        head <= b < queue@.len() ==> dist@[#[trigger] queue@[b] as int] <= du + 1,
                    forall|a: int, jj: int|
                        0 <= a < head && 0 <= jj < adj[queue@[a] as int]@.len() ==> {
                            let w = #[trigger] adj[queue@[a] as int]@[jj] as int;
                            dist@[w] != u32::MAX && dist@[w] <= dist@[queue@[a] as int] + 1
                        },
                    forall|jj: int|
                        0 <= jj < j ==> {
                            let w = #[trigger] nb@[jj] as int;
                            dist@[w] != u32::MAX && dist@[w] <= du + 1
                        },
                    forall|k: int| 0 <= k < sources@.len() ==> #[trigger] sources@[k] < n,
                    forall|k: int| 0 <= k < sources@.len() ==> dist@[#[trigger] sources@[k] as int] == 0,
                    forall|v: int| 0 <= v < n && #[trigger] dist@[v] == 0 ==> sources@.contains(v as usize),
                    forall|v: int|
                        0 <= v < n && #[trigger] dist@[v] != u32::MAX && dist@[v] > 0 ==> exists|w: int, jj: int|
                            0 <= w < n && 0 <= jj < adj[w]@.len() && #[trigger] adj[w]@[jj] == v
                                && dist@[w] != u32::MAX && dist@[w] + 1 == dist@[v],
                decreases nb@.len() - j,
            {
                let m = nb[j];
                assert(adj[u as int]@[j as int] == m);
                if dist[m] == u32::MAX {
                    let ghost before = dist@;
                    let ghost qb = queue@;
                    proof {
                        lemma_count_max_update(before, m as int, d);
                        lemma_count_max_bound(before.update(m as int, d));
                    }
                    dist.set(m, d);
                    queue.push(m);
                    proof {
                        assert forall|v: int|
                            0 <= v < n && #[trigger] dist@[v] != u32::MAX implies queue@.contains(
                            v as usize,
                        ) by {
                            if v == m as int {
                                assert(queue@[qb.len() as int] == m);
                            } else {
                                assert(before[v] != u32::MAX);
                                let k = choose|k: int| 0 <= k < qb.len() && qb[k] == v as usize;
                                assert(queue@[k] == v as usize);
                            }
                        }
                        assert forall|v: int|
                            0 <= v < n && #[trigger] dist@[v] != u32::MAX && dist@[v] > 0 implies exists|w: int, jj: int|
                                0 <= w < n && 0 <= jj < adj[w]@.len() && #[trigger] adj[w]@[jj] == v
                                    && dist@[w] != u32::MAX && dist@[w] + 1 == dist@[v] by {
                            if v == m as int {
                                assert(adj[u as int]@[j as int] == v);
                                assert(dist@[u as int] == du);
                            } else {
                                assert(before[v] != u32::MAX);
                                let (w, jj) = choose|w: int, jj: int|
                                    0 <= w < n && 0 <= jj < adj[w]@.len() && #[trigger] adj[w]@[jj] == v
                                        && before[w] != u32::MAX && before[w] + 1 == before[v];
                                assert(adj[w]@[jj] == v);
                                assert(w != m as int);
                            }
                        }
                        assert forall|k: int| 0 <= k < sources@.len() implies dist@[#[trigger] sources@[k] as int] == 0 by {
                            assert(before[sources@[k] as int] == 0);
                        }
                        assert forall|k: int| 0 <= k < queue@.len() implies dist@[#[trigger] queue@[k] as int]
                            != u32::MAX && dist@[queue@[k] as int] <= k by {
                            if k < qb.len() {
                                assert(queue@[k] == qb[k]);
                                assert(qb[k] != m);
                            }
                        }
                        assert forall|a: int, b: int|
                            0 <= a < b < queue@.len() implies dist@[#[trigger] queue@[a] as int]
                                <= dist@[#[trigger] queue@[b] as int] by {
                            if b == qb.len() {
                                assert(qb[a] != m);
                                if a < head {
                                    assert(before[qb[a] as int] <= before[qb[head as int] as int]);
                                }
                            } else {
                                assert(qb[a] != m && qb[b] != m);
                            }
                        }
                    }
                } else {
                    proof {
                        let k = choose|k: int| 0 <= k < queue@.len() && queue@[k] == m;
                        assert(queue@[k] == m);
                        if k < head {
                            assert(dist@[queue@[k] as int] <= dist@[queue@[head as int] as int]);
                        } else {
                            assert(dist@[queue@[k] as int] <= du + 1);
                        }
                    }
                }
                j += 1;
            }
            proof {
                assert forall|a: int, jj: int|
                    0 <= a < head + 1 && 0 <= jj < adj[queue@[a] as int]@.len() implies {
                        let w = #[trigger] adj[queue@[a] as int]@[jj] as int;
                        dist@[w] != u32::MAX && dist@[w] <= dist@[queue@[a] as int] + 1
                    } by {
                    if a == head {
                        assert(nb@[jj] == adj[queue@[a] as int]@[jj]);
                    }
                }
                if head + 1 < queue@.len() {
                    assert forall|b: int|
                        head + 1 <= b < queue@.len() implies dist@[#[trigger] queue@[b] as int]
                            <= dist@[queue@[head + 1] as int] + 1 by {
                        assert(dist@[queue@[head as int] as int] <= dist@[queue@[head + 1] as int]);
                    }
                }
            }
            head += 1;
        }
        proof {
            assert forall|v: int, j: int|
                0 <= v < n && dist@[v] != u32::MAX && 0 <= j < adj[v]@.len() implies {
                    let w = #[trigger] adj[v]@[j] as int;
                    dist@[w] != u32::MAX && dist@[w] <= dist@[v] + 1
                } by {
                let k = choose|k: int| 0 <= k < queue@.len() && queue@[k] == v as usize;
                assert(queue@[k] == v as usize);
                assert(adj[queue@[k] as int]@[j] == adj[v]@[j]);
            }
        }
        dist
    }
}


/// Whether a node suits a want once `relax` of the wishes are given up:
/// from the first relaxed, the coast; then the caves; then the water. A
/// node that cannot hold a start never suits.
pub open spec fn fits_spec(g: Graph, node: int, want: Want, relax: u8) -> bool {
    &&& g.usable@[node]
    &&& relax < 3 ==> ((g.flags@[node] & SEA != 0) == want.uw)
    &&& relax < 2 ==> (want.cave == 0 ==> !g.cave@[node])
    &&& relax < 2 ==> ((want.cave == 2 || want.cave == 3) ==> g.cave@[node])
    &&& (relax < 1 && want.coast) ==> g.coastal@[node]
}

fn fits(g: &Graph, node: usize, want: &Want, relax: u8) -> (b: bool)
    requires
        g.wf(),
        node < g.n(),
    ensures
        b == fits_spec(*g, node as int, *want, relax),
{
    if !g.usable[node] {
        return false;
    }
    let f = g.flags[node];
    let water = f & SEA != 0;
    if relax < 3 && water != want.uw {
        return false;
    }
    if relax < 2 {
        if want.cave == 0 {
            if g.cave[node] {
                return false;
            }
        } else if want.cave == 2 || want.cave == 3 {
            if !g.cave[node] {
                return false;
            }
        }
    }
    if relax < 1 && want.coast && !g.coastal[node] {
        return false;
    }
    true
}

/// How well a node's terrain pleases a nation: a point for terrain it
/// likes, and for a water nation that likes the deep a point for deep sea.
pub open spec fn tier_spec(f: u64, want: Want) -> int {
    (if want.likesterr != 0 && f & want.likesterr != 0 {
        1int
    } else {
        0int
    }) + (if want.uw && want.likesterr & DEEP_SEA != 0 && f & DEEP_SEA != 0 {
        1int
    } else {
        0int
    })
}

fn tier(g: &Graph, node: usize, want: &Want) -> (t: u64)
    requires
        g.wf(),
        node < g.n(),
    ensures
        t == tier_spec(g.flags@[node as int], *want),
        t <= 2,
{
    let f = g.flags[node];
    let mut t: u64 = 0;
    if want.likesterr != 0 && f & want.likesterr != 0 {
        t += 1;
    }
    if want.uw && want.likesterr & DEEP_SEA != 0 && f & DEEP_SEA != 0 {
        t += 1;
    }
    t
}

/// A small number, below 65536, that the seed, the node and the round pick
/// to break ties between equally good nodes.
pub open spec fn jitter_spec(seed: u64, node: u64, round: u32) -> u64 {
    let x0 = seed ^ node.wrapping_mul(0x9e37_79b9_7f4a_7c15u64) ^ ((round as u64) << 40u64);
    let x1 = x0 ^ (x0 >> 33u64);
    let x2 = x1.wrapping_mul(0xff51_afd7_ed55_8ccdu64);
    let x3 = x2 ^ (x2 >> 33u64);
    x3 & 0xffffu64
}

fn jitter(seed: u64, node: usize, round: u32) -> (j: u64)
    ensures
        j == jitter_spec(seed, node as u64, round),
        j < 65536,
{
    let mut x = seed ^ (node as u64).wrapping_mul(0x9e37_79b9_7f4a_7c15u64) ^ ((round as u64)
        << 40u64);
    x = x ^ (x >> 33u64);
    x = x.wrapping_mul(0xff51_afd7_ed55_8ccdu64);
    x = x ^ (x >> 33u64);
    let j = x & 0xffffu64;
    assert(j < 65536) by (bit_vector)
        requires
            j == x & 0xffffu64,
    ;
    j
}

/// Which nations choose first: water, then the deep caves, then the coast,
/// then any liked terrain.
pub open spec fn rank_spec(want: Want) -> int {
    (if want.uw {
        8int
    } else {
        0int
    }) + (if want.cave >= 2 {
        4int
    } else {
        0int
    }) + (if want.coast {
        2int
    } else {
        0int
    }) + (if want.likesterr != 0 {
        1int
    } else {
        0int
    })
}

fn rank(want: &Want) -> (r: u32)
    ensures
        r == rank_spec(*want),
{
    let mut r: u32 = 0;
    if want.uw {
        r += 8;
    }
    if want.cave >= 2 {
        r += 4;
    }
    if want.coast {
        r += 2;
    }
    if want.likesterr != 0 {
        r += 1;
    }
    r
}

fn has_node(v: &Vec<usize>, x: usize) -> (b: bool)
    ensures
        b == v@.contains(x),
{
    let mut i: usize = 0;
    while i < v.len()
        invariant
            i <= v@.len(),
            forall|j: int| 0 <= j < i ==> v@[j] != x,
        decreases v@.len() - i,
    {
        if v[i] == x {
            assert(v@[i as int] == x);
            return true;
        }
        i += 1;
    }
    false
}

/// How far a node counts as from the starts already taken: as far as can
/// be where none is taken, else its distance, capped at `FAR`.
pub open spec fn reach(taken: Seq<usize>, d: Seq<u32>, node: int) -> int {
    if taken.len() == 0 {
        FAR as int
    } else if d[node] < FAR {
        d[node] as int
    } else {
        FAR as int
    }
}

/// A node that can be chosen at this relaxation: not taken, suiting the
/// want, and not itself a start.
pub open spec fn candidate(g: Graph, want: Want, taken: Seq<usize>, d: Seq<u32>, relax: u8, node: int) -> bool {
    &&& !taken.contains(node as usize)
    &&& fits_spec(g, node, want, relax)
    &&& reach(taken, d, node) != 0
}

/// A node's score, in 65536ths: four points a step of distance, six a
/// point of liked terrain, and the tie-breaker below one point.
pub open spec fn score_spec(g: Graph, want: Want, taken: Seq<usize>, d: Seq<u32>, seed: u64, round: u32, node: int) -> int {
    (reach(taken, d, node) * 4 + tier_spec(g.flags@[node], want) * 6) * 65536 + jitter_spec(
        seed,
        node as u64,
        round,
    ) as int
}

/// The best candidate among the first `k` nodes: the first one with the
/// highest score, with that score.
pub open spec fn top_upto(
    g: Graph,
    want: Want,
    taken: Seq<usize>,
    d: Seq<u32>,
    relax: u8,
    seed: u64,
    round: u32,
    k: int,
) -> Option<(int, int)>
    decreases k,
{
    if k <= 0 {
        None
    } else {
        let prev = top_upto(g, want, taken, d, relax, seed, round, k - 1);
        let n = k - 1;
        let sc = score_spec(g, want, taken, d, seed, round, n);
        if candidate(g, want, taken, d, relax, n) && match prev {
            None => true,
            Some((s, _)) => sc > s,
        } {
            Some((sc, n))
        } else {
            prev
        }
    }
}

/// The node chosen for a want: the best candidate at the least relaxation
/// that has any.
pub open spec fn best_from(g: Graph, want: Want, taken: Seq<usize>, d: Seq<u32>, seed: u64, round: u32, relax: u8) -> Option<
    usize,
>
    decreases 4 - relax,
{
    if relax >= 4 {
        None
    } else {
        match top_upto(g, want, taken, d, relax, seed, round, g.n()) {
            Some((_, node)) => Some(node as usize),
            None => best_from(g, want, taken, d, seed, round, (relax + 1) as u8),
        }
    }
}

proof fn lemma_top_is_candidate(
    g: Graph,
    want: Want,
    taken: Seq<usize>,
    d: Seq<u32>,
    relax: u8,
    seed: u64,
    round: u32,
    k: int,
)
    ensures
        top_upto(g, want, taken, d, relax, seed, round, k) matches Some((_, n)) ==> 0 <= n < k
            && candidate(g, want, taken, d, relax, n),
        (exists|n: int| 0 <= n < k && candidate(g, want, taken, d, relax, n)) ==> top_upto(
            g,
            want,
            taken,
            d,
            relax,
            seed,
            round,
            k,
        ) is Some,
    decreases k,
{
    if k > 0 {
        lemma_top_is_candidate(g, want, taken, d, relax, seed, round, k - 1);
        if exists|n: int| 0 <= n < k && candidate(g, want, taken, d, relax, n) {
            let n = choose|n: int| 0 <= n < k && candidate(g, want, taken, d, relax, n);
            if n < k - 1 {
            }
        }
    }
}

proof fn lemma_deep_bits(f: u64, l: u64)
    by (bit_vector)
    requires
        f & 2048u64 != 0,
        l & 2048u64 != 0,
    ensures
        l != 0,
        f & l != 0,
{
}

proof fn lemma_low16(x: u64)
    by (bit_vector)
    ensures
        x & 0xffffu64 < 65536,
{
}

/// For a water nation that likes the deep, a deep sea province pleases it
/// more than any province without deep sea: the deep scores both terrain
/// points, anything else at most one.
pub proof fn lemma_the_deep_pleases_deep_water_nations(deep: u64, other: u64, want: Want)
    requires
        want.uw,
        want.likesterr & DEEP_SEA != 0,
        deep & DEEP_SEA != 0,
        other & DEEP_SEA == 0,
    ensures
        tier_spec(deep, want) == 2,
        tier_spec(other, want) <= 1,
        tier_spec(deep, want) > tier_spec(other, want),
{
    lemma_deep_bits(deep, want.likesterr);
}

proof fn lemma_and_nonzero(f: u64, l: u64)
    by (bit_vector)
    ensures
        f & l != 0 ==> l != 0,
{
}

/// A province's terrain scores for a nation exactly when it has terrain
/// the nation likes: none liked, no point at all; something liked, at
/// least one.
pub proof fn lemma_liked_terrain_scores(f: u64, want: Want)
    ensures
        f & want.likesterr == 0 ==> tier_spec(f, want) == 0,
        f & want.likesterr != 0 ==> tier_spec(f, want) >= 1,
{
    lemma_and_nonzero(f, want.likesterr);
    if f & DEEP_SEA != 0 && want.likesterr & DEEP_SEA != 0 {
        lemma_deep_bits(f, want.likesterr);
    }
}

/// The best candidate scores at least as much as every candidate before it.
proof fn lemma_top_is_best(
    g: Graph,
    want: Want,
    taken: Seq<usize>,
    d: Seq<u32>,
    relax: u8,
    seed: u64,
    round: u32,
    k: int,
)
    ensures
        top_upto(g, want, taken, d, relax, seed, round, k) matches Some((s, n)) ==> s == score_spec(
            g,
            want,
            taken,
            d,
            seed,
            round,
            n,
        ) && forall|m: int|
            0 <= m < k && candidate(g, want, taken, d, relax, m) ==> #[trigger] score_spec(
                g,
                want,
                taken,
                d,
                seed,
                round,
                m,
            ) <= s,
    decreases k,
{
    if k > 0 {
        lemma_top_is_best(g, want, taken, d, relax, seed, round, k - 1);
        lemma_top_is_candidate(g, want, taken, d, relax, seed, round, k - 1);
        let prev = top_upto(g, want, taken, d, relax, seed, round, k - 1);
        let top = top_upto(g, want, taken, d, relax, seed, round, k);
        if top is Some {
            let (s, _n) = top->0;
            assert forall|m: int|
                0 <= m < k && candidate(g, want, taken, d, relax, m) implies #[trigger] score_spec(
                g,
                want,
                taken,
                d,
                seed,
                round,
                m,
            ) <= s by {
                if m < k - 1 {
                    assert(prev is Some);
                }
            }
        }
    }
}

/// For a water nation that likes the deep, a free deep sea province beats
/// any province without deep sea as far from the starts already taken:
/// whatever the seed and round, the node chosen among the candidates is
/// never the one without deep sea.
pub proof fn lemma_deep_sea_wins_at_equal_distance(
    g: Graph,
    want: Want,
    taken: Seq<usize>,
    d: Seq<u32>,
    relax: u8,
    seed: u64,
    round: u32,
    deep: int,
    other: int,
)
    requires
        want.uw,
        want.likesterr & DEEP_SEA != 0,
        0 <= deep < g.n(),
        0 <= other < g.n(),
        g.flags@[deep] & DEEP_SEA != 0,
        g.flags@[other] & DEEP_SEA == 0,
        candidate(g, want, taken, d, relax, deep),
        reach(taken, d, deep) == reach(taken, d, other),
    ensures
        top_upto(g, want, taken, d, relax, seed, round, g.n() as int) matches Some((_, n)) && n != other,
{
    let k = g.n() as int;
    lemma_top_is_candidate(g, want, taken, d, relax, seed, round, k);
    lemma_top_is_best(g, want, taken, d, relax, seed, round, k);
    lemma_the_deep_pleases_deep_water_nations(g.flags@[deep], g.flags@[other], want);
    assert forall|x: u64| #[trigger] (x & 0xffffu64) < 65536 by {
        lemma_low16(x);
    }
    let sd = score_spec(g, want, taken, d, seed, round, deep);
    let so = score_spec(g, want, taken, d, seed, round, other);
    assert(jitter_spec(seed, deep as u64, round) < 65536);
    assert(jitter_spec(seed, other as u64, round) < 65536);
    assert(so < sd);
}

proof fn lemma_best_from(g: Graph, want: Want, taken: Seq<usize>, d: Seq<u32>, seed: u64, round: u32, relax: u8)
    requires
        relax <= 4,
        g.n() <= usize::MAX,
    ensures
        best_from(g, want, taken, d, seed, round, relax) matches Some(n) ==> 0 <= n < g.n()
            && candidate(g, want, taken, d, 3, n as int),
        relax <= 3 && (exists|n: int| 0 <= n < g.n() && candidate(g, want, taken, d, 3, n))
            ==> best_from(g, want, taken, d, seed, round, relax) is Some,
    decreases 4 - relax,
{
    if relax < 4 {
        lemma_top_is_candidate(g, want, taken, d, relax, seed, round, g.n());
        lemma_best_from(g, want, taken, d, seed, round, (relax + 1) as u8);
        match top_upto(g, want, taken, d, relax, seed, round, g.n()) {
            Some((_, node)) => {
                assert(candidate(g, want, taken, d, relax, node));
                assert(0 <= node < g.n());
                assert((node as usize) as int == node);
                assert(candidate(g, want, taken, d, relax, (node as usize) as int));
                assert(candidate(g, want, taken, d, 3, (node as usize) as int));
            },
            None => {
                assert(best_from(g, want, taken, d, seed, round, relax) == best_from(
                    g,
                    want,
                    taken,
                    d,
                    seed,
                    round,
                    (relax + 1) as u8,
                ));
            },
        }
    }
}

/// Node `x` suits the want at the least relaxation at which any node that
/// `others` leaves free suits it.
pub open spec fn least_fit(g: Graph, want: Want, others: Seq<usize>, x: int) -> bool {
    exists|r: u8|
        r <= 3 && #[trigger] fits_spec(g, x, want, r) && forall|r2: u8, v: int|
            r2 < r && 0 <= v < g.n() && !others.contains(v as usize) ==> !#[trigger] fits_spec(
                g,
                v,
                want,
                r2,
            )
}

/// A node chosen for a want: it suits the want at the least relaxation that
/// the starts held by fewer than `n` others left open.
pub open spec fn picked(g: Graph, want: Want, x: int, n: int) -> bool {
    exists|others: Seq<usize>|
        others.len() < n && !others.contains(x as usize) && #[trigger] least_fit(g, want, others, x)
}

/// Node `x` suits the want at relaxation `r`, and no node that `taken`
/// leaves free suits it at a relaxation from `relax` up to below `r`.
pub open spec fn least_from(g: Graph, want: Want, taken: Seq<usize>, x: int, relax: u8, r: u8) -> bool {
    &&& relax <= r <= 3
    &&& fits_spec(g, x, want, r)
    &&& forall|r2: u8, v: int|
        relax <= r2 < r && 0 <= v < g.n() && !taken.contains(v as usize) ==> !#[trigger] fits_spec(
            g,
            v,
            want,
            r2,
        )
}

#[verifier::spinoff_prover]
#[verifier::rlimit(100)]
proof fn lemma_best_from_least(
    g: Graph,
    want: Want,
    taken: Seq<usize>,
    d: Seq<u32>,
    seed: u64,
    round: u32,
    relax: u8,
)
    requires
        relax <= 4,
        g.wf(),
        g.n() <= usize::MAX,
        bfs_props(g.adj@, taken, d),
    ensures
        match best_from(g, want, taken, d, seed, round, relax) {
            Some(x) => exists|r: u8| #[trigger] least_from(g, want, taken, x as int, relax, r),
            None => true,
        },
    decreases 4 - relax,
{
    if relax < 4 {
        lemma_top_is_candidate(g, want, taken, d, relax, seed, round, g.n());
        lemma_best_from_least(g, want, taken, d, seed, round, (relax + 1) as u8);
        match top_upto(g, want, taken, d, relax, seed, round, g.n()) {
            Some((_, node)) => {
                assert(candidate(g, want, taken, d, relax, node));
                assert(0 <= node < g.n());
                let x = node as usize;
                assert(x as int == node);
                assert(best_from(g, want, taken, d, seed, round, relax) == Some(x));
                assert(least_from(g, want, taken, x as int, relax, relax));
                let bx = best_from(g, want, taken, d, seed, round, relax)->0;
                assert(bx == x);
                assert(least_from(g, want, taken, bx as int, relax, relax));
                assert(match best_from(g, want, taken, d, seed, round, relax) {
            Some(x) => exists|r: u8| #[trigger] least_from(g, want, taken, x as int, relax, r),
            None => true,
        });
            },
            None => {
                assert forall|v: int| 0 <= v < g.n() && !taken.contains(v as usize) implies !fits_spec(
                    g,
                    v,
                    want,
                    relax,
                ) by {
                    if fits_spec(g, v, want, relax) {
                        if taken.len() > 0 && d[v] == 0 {
                            assert(taken.contains(v as usize));
                        }
                        assert(candidate(g, want, taken, d, relax, v));
                    }
                }
                let nr = (relax + 1) as u8;
                assert(best_from(g, want, taken, d, seed, round, relax) == best_from(g, want, taken, d, seed, round, nr));
                match best_from(g, want, taken, d, seed, round, relax) {
                    Some(x) => {
                        let r = choose|r: u8| #[trigger] least_from(g, want, taken, x as int, nr, r);
                        assert(least_from(g, want, taken, x as int, nr, r));
                        assert forall|r2: u8, v: int|
                            relax <= r2 < r && 0 <= v < g.n() && !taken.contains(v as usize) implies !#[trigger] fits_spec(
                                g,
                                v,
                                want,
                                r2,
                            ) by {
                            if r2 == relax {
                            }
                        }
                        assert(least_from(g, want, taken, x as int, relax, r));
                        assert(exists|r: u8| #[trigger] least_from(g, want, taken, x as int, relax, r));
                    },
                    None => {},
                }
                assert(match best_from(g, want, taken, d, seed, round, relax) {
            Some(x) => exists|r: u8| #[trigger] least_from(g, want, taken, x as int, relax, r),
            None => true,
        });
            },
        }
    } else {
        assert(best_from(g, want, taken, d, seed, round, relax) is None);
    }
}

impl Graph {
    /// The node chosen for a want, given the starts already taken.
    #[verifier::rlimit(40)]
    fn best(&self, want: &Want, taken: &Vec<usize>, seed: u64, round: u32) -> (r: Option<usize>)
        requires
            self.wf(),
            forall|i: int| 0 <= i < taken@.len() ==> #[trigger] taken@[i] < self.n(),
            taken@.len() + self.n() < u32::MAX,
        ensures
            bfs_props(self.adj@, taken@, dist_from(self.adj@, taken@)),
            r == best_from(*self, *want, taken@, dist_from(self.adj@, taken@), seed, round, 0),
            r matches Some(x) ==> x < self.n() && self.usable@[x as int] && !taken@.contains(x),
            r is None ==> forall|v: int|
                0 <= v < self.n() && #[trigger] self.usable@[v] ==> taken@.contains(v as usize),
    {
        let dist = self.distances(taken);
        let ghost d = dist@;
        proof {
            lemma_dist_from(self.adj@, taken@, d);
        }
        let n = self.flags.len();
        let mut relax: u8 = 0;
        while relax < 4
            invariant
                relax <= 4,
                self.wf(),
                n == self.n(),
                d == dist@,
                d == dist_from(self.adj@, taken@),
                bfs_props(self.adj@, taken@, d),
                best_from(*self, *want, taken@, d, seed, round, 0) == best_from(
                    *self,
                    *want,
                    taken@,
                    d,
                    seed,
                    round,
                    relax,
                ),
            decreases 4 - relax,
        {
            let mut top: Option<(u64, usize)> = None;
            let mut node: usize = 0;
            while node < n
                invariant
                    node <= n,
                    relax < 4,
                    self.wf(),
                    n == self.n(),
                    d == dist@,
                    bfs_props(self.adj@, taken@, d),
                    match top {
                        None => top_upto(*self, *want, taken@, d, relax, seed, round, node as int)
                            is None,
                        Some((s, x)) => top_upto(*self, *want, taken@, d, relax, seed, round, node as int)
                            == Some((s as int, x as int)),
                    },
                decreases n - node,
            {
                let ghost prev = top_upto(*self, *want, taken@, d, relax, seed, round, node as int);
                if !has_node(taken, node) && fits(self, node, want, relax) {
                    let dn = dist[node];
                    let dd: u64 = if taken.len() == 0 {
                        FAR as u64
                    } else if dn < FAR {
                        dn as u64
                    } else {
                        FAR as u64
                    };
                    if dd != 0 {
                        let t = tier(self, node, want);
                        let score = (dd * 4 + t * 6) * 65536 + jitter(seed, node, round);
                        let better = match top {
                            None => true,
                            Some((s, _)) => score > s,
                        };
                        if better {
                            top = Some((score, node));
                        }
                    }
                }
                node += 1;
            }
            proof {
                lemma_top_is_candidate(*self, *want, taken@, d, relax, seed, round, n as int);
            }
            match top {
                Some((_, x)) => {
                    return Some(x);
                },
                None => {},
            }
            relax += 1;
        }
        proof {
            lemma_best_from(*self, *want, taken@, d, seed, round, 0);
            assert forall|v: int| 0 <= v < self.n() && #[trigger] self.usable@[v] implies taken@.contains(
                v as usize,
            ) by {
                if !taken@.contains(v as usize) {
                    if taken@.len() > 0 {
                        if d[v] == 0 {
                            assert(taken@.contains(v as usize));
                        }
                    }
                    assert(candidate(*self, *want, taken@, d, 3, v));
                }
            }
        }
        None
    }
}


proof fn lemma_offset_step(ps: Seq<PlaneGraph>, k: int)
    requires
        0 <= k < ps.len(),
    ensures
        offset(ps, k + 1) == offset(ps, k) + ps[k].flags@.len(),
{
}

/// A node lies on one plane only: the plane whose provinces' numbers run over it.
proof fn lemma_plane_unique(ps: Seq<PlaneGraph>, k1: int, k2: int, node: int)
    requires
        0 <= k1 < ps.len(),
        0 <= k2 < ps.len(),
        offset(ps, k1) <= node < offset(ps, k1 + 1),
        offset(ps, k2) <= node < offset(ps, k2 + 1),
    ensures
        k1 == k2,
{
    if k1 < k2 {
        lemma_offset_mono(ps, k1 + 1, k2);
    } else if k2 < k1 {
        lemma_offset_mono(ps, k2 + 1, k1);
    }
}

impl Graph {
    /// The plane and province that a node stands for.
    fn locate(&self, node: usize, Ghost(ps): Ghost<Seq<PlaneGraph>>) -> (r: (usize, u32))
        requires
            self.stands_for(ps),
            node < self.n(),
            self.n() < u32::MAX,
        ensures
            r.0 < ps.len(),
            offset(ps, r.0 as int) <= node < offset(ps, r.0 + 1),
            r.1 == node - offset(ps, r.0 as int),
    {
        let len = self.offsets.len();
        let mut i: usize = len;
        assert(self.offsets@[ps.len() as int] == offset(ps, ps.len() as int));
        loop
            invariant
                self.stands_for(ps),
                node < self.n(),
                len == self.offsets@.len(),
                len == ps.len() + 1,
                1 <= i <= len,
                forall|j: int| i <= j < len ==> node < #[trigger] self.offsets@[j],
            ensures
                1 <= i <= len,
                self.offsets@[i - 1] <= node,
                forall|j: int| i <= j < len ==> node < #[trigger] self.offsets@[j],
            decreases i,
        {
            if self.offsets[i - 1] <= node {
                break;
            }
            assert(i - 1 > 0) by {
                assert(self.offsets@[0] == offset(ps, 0));
            }
            i -= 1;
        }
        let k0 = i - 1;
        let k = if k0 > len - 2 {
            len - 2
        } else {
            k0
        };
        assert(k == k0) by {
            if k0 == ps.len() {
                assert(self.offsets@[ps.len() as int] == offset(ps, ps.len() as int));
            }
        }
        assert(self.offsets@[k as int] == offset(ps, k as int));
        assert(self.offsets@[k + 1] == offset(ps, k + 1));
        proof {
            lemma_offset_mono(ps, k + 1, ps.len() as int);
        }
        (k, (node - self.offsets[k]) as u32)
    }
}

/// The positions of the wants in the order they choose: higher rank first,
/// and among equal ranks the earlier want first.
pub open spec fn ordered(wants: Seq<Want>, o: Seq<usize>) -> bool {
    &&& o.len() == wants.len()
    &&& forall|a: int| 0 <= a < o.len() ==> #[trigger] o[a] < wants.len()
    &&& forall|x: usize| x < wants.len() ==> #[trigger] o.contains(x)
    &&& forall|a: int, b: int| 0 <= a < b < o.len() ==> #[trigger] o[a] != #[trigger] o[b]
    &&& forall|a: int, b: int|
        0 <= a < b < o.len() ==> rank_spec(wants[#[trigger] o[a] as int]) > rank_spec(
            wants[#[trigger] o[b] as int],
        ) || (rank_spec(wants[o[a] as int]) == rank_spec(wants[o[b] as int]) && o[a] < o[b])
}

fn order_by_rank(wants: &[Want]) -> (o: Vec<usize>)
    ensures
        ordered(wants@, o@),
{
    let n = wants.len();
    let mut o: Vec<usize> = Vec::new();
    let mut i: usize = 0;
    while i < n
        invariant
            i <= n,
            n == wants@.len(),
            o@.len() == i,
            forall|a: int| 0 <= a < o@.len() ==> #[trigger] o@[a] < i,
            forall|x: usize| x < i ==> #[trigger] o@.contains(x),
            forall|a: int, b: int| 0 <= a < b < o@.len() ==> #[trigger] o@[a] != #[trigger] o@[b],
            forall|a: int, b: int|
                0 <= a < b < o@.len() ==> rank_spec(wants@[#[trigger] o@[a] as int]) > rank_spec(
                    wants@[#[trigger] o@[b] as int],
                ) || (rank_spec(wants@[o@[a] as int]) == rank_spec(wants@[o@[b] as int]) && o@[a]
                    < o@[b]),
        decreases n - i,
    {
        let ri = rank(&wants[i]);
        let mut p: usize = 0;
        while p < o.len() && rank(&wants[o[p]]) >= ri
            invariant
                p <= o@.len(),
                o@.len() == i,
                i < n,
                n == wants@.len(),
                forall|a: int| 0 <= a < o@.len() ==> #[trigger] o@[a] < i,
                forall|a: int| 0 <= a < p ==> rank_spec(wants@[#[trigger] o@[a] as int]) >= ri,
            decreases o@.len() - p,
        {
            p += 1;
        }
        let ghost before = o@;
        o.insert(p, i);
        proof {
            assert forall|a: int| 0 <= a < o@.len() implies #[trigger] o@[a] < i + 1 by {
                if a < p {
                    assert(o@[a] == before[a]);
                } else if a > p {
                    assert(o@[a] == before[a - 1]);
                }
            }
            assert forall|x: usize| x < i + 1 implies #[trigger] o@.contains(x) by {
                if x == i {
                    assert(o@[p as int] == i);
                } else {
                    assert(before.contains(x));
                    let k = choose|k: int| 0 <= k < before.len() && before[k] == x;
                    if k < p {
                        assert(o@[k] == x);
                    } else {
                        assert(o@[k + 1] == x);
                    }
                }
            }
            assert forall|a: int, b: int| 0 <= a < b < o@.len() implies #[trigger] o@[a] != #[trigger] o@[b] by {
                if b < p {
                    assert(o@[a] == before[a] && o@[b] == before[b]);
                } else if b == p {
                    assert(o@[a] == before[a]);
                } else if a == p {
                    assert(o@[b] == before[b - 1]);
                } else if a < p {
                    assert(o@[a] == before[a] && o@[b] == before[b - 1]);
                } else {
                    assert(o@[a] == before[a - 1] && o@[b] == before[b - 1]);
                }
            }
            assert forall|a: int, b: int| 0 <= a < b < o@.len() implies rank_spec(
                wants@[#[trigger] o@[a] as int],
            ) > rank_spec(wants@[#[trigger] o@[b] as int]) || (rank_spec(wants@[o@[a] as int])
                == rank_spec(wants@[o@[b] as int]) && o@[a] < o@[b]) by {
                if b < p {
                    assert(o@[a] == before[a] && o@[b] == before[b]);
                } else if b == p {
                    assert(o@[a] == before[a]);
                } else if a == p {
                    assert(o@[b] == before[b - 1]);
                    if p < before.len() {
                        assert(rank_spec(wants@[before[p as int] as int]) < ri);
                        if b - 1 > p {
                            assert(rank_spec(wants@[before[p as int] as int]) >= rank_spec(
                                wants@[before[b - 1] as int],
                            ));
                        }
                    }
                } else if a < p {
                    assert(o@[a] == before[a] && o@[b] == before[b - 1]);
                } else {
                    assert(o@[a] == before[a - 1] && o@[b] == before[b - 1]);
                }
            }
        }
        i += 1;
    }
    o
}

fn others_of(chosen: &Vec<Option<usize>>, i: usize) -> (v: Vec<usize>)
    ensures
        v@.len() <= chosen@.len(),
        i < chosen@.len() ==> v@.len() < chosen@.len(),
        forall|x: usize|
            v@.contains(x) <==> exists|j: int|
                0 <= j < chosen@.len() && j != i && #[trigger] chosen@[j] == Some(x),
        v@ == others_spec(chosen@, i as int),
{
    let mut v: Vec<usize> = Vec::new();
    let mut j: usize = 0;
    while j < chosen.len()
        invariant
            j <= chosen@.len(),
            v@.len() <= j,
            i < j ==> v@.len() < j,
            forall|x: usize|
                v@.contains(x) <==> exists|k: int| 0 <= k < j && k != i && #[trigger] chosen@[k] == Some(x),
            v@ == others_spec(chosen@.take(j as int), i as int),
        decreases chosen@.len() - j,
    {
        let ghost before = v@;
        assert(chosen@.take(j + 1).drop_last() =~= chosen@.take(j as int));
        if j != i {
            match chosen[j] {
                Some(x) => {
                    v.push(x);
                },
                None => {},
            }
        }
        proof {
            assert(forall|t: int| 0 <= t < before.len() ==> v@[t] == before[t]);
            assert forall|x: usize| v@.contains(x) <==> exists|k: int|
                0 <= k < j + 1 && k != i && #[trigger] chosen@[k] == Some(x) by {
                if v@.contains(x) && !before.contains(x) {
                    assert(chosen@[j as int] == Some(x));
                }
                if exists|k: int| 0 <= k < j + 1 && k != i && #[trigger] chosen@[k] == Some(x) {
                    let k = choose|k: int| 0 <= k < j + 1 && k != i && #[trigger] chosen@[k] == Some(x);
                    if k == j {
                        assert(v@[v@.len() - 1] == x);
                    } else {
                        assert(chosen@[k] == Some(x));
                        assert(before.contains(x));
                        let t = choose|t: int| 0 <= t < before.len() && before[t] == x;
                        assert(v@[t] == x);
                    }
                }
            }
        }
        j += 1;
    }
    assert(chosen@.take(j as int) =~= chosen@);
    v
}

/// The least of `m` and the distances from `nodes[i]` to the nodes after it
/// and before `j`.
pub open spec fn row_min(adj: Seq<Vec<usize>>, nodes: Seq<usize>, i: int, j: int, m: u32) -> u32
    decreases j - i,
{
    if j <= i + 1 {
        m
    } else {
        let r = row_min(adj, nodes, i, j - 1, m);
        let x = dist_from(adj, seq![nodes[i]])[nodes[j - 1] as int];
        if x < r {
            x
        } else {
            r
        }
    }
}

/// The least distance between two of the nodes, the first of them before
/// `i`; `u32::MAX` where there is none.
pub open spec fn pair_min(adj: Seq<Vec<usize>>, nodes: Seq<usize>, i: int) -> u32
    decreases i,
{
    if i <= 0 {
        u32::MAX
    } else {
        row_min(adj, nodes, i - 1, nodes.len() as int, pair_min(adj, nodes, i - 1))
    }
}

/// Some breadth-first distances from `nodes[a]` put `nodes[b]` no nearer than `m`.
pub open spec fn pair_bound(adj: Seq<Vec<usize>>, nodes: Seq<usize>, m: u32, a: int, b: int) -> bool {
    exists|d: Seq<u32>| bfs_props(adj, seq![nodes[a]], d) && m <= d[nodes[b] as int]
}

proof fn lemma_pair_bound_weaken(adj: Seq<Vec<usize>>, nodes: Seq<usize>, m0: u32, m: u32, a: int, b: int)
    requires
        pair_bound(adj, nodes, m0, a, b),
        m <= m0,
    ensures
        pair_bound(adj, nodes, m, a, b),
{
    let d = choose|d: Seq<u32>| bfs_props(adj, seq![nodes[a]], d) && m0 <= d[nodes[b] as int];
    assert(bfs_props(adj, seq![nodes[a]], d) && m <= d[nodes[b] as int]);
}

impl Graph {
    /// The least distance between two of the nodes; `u32::MAX` where there are
    /// fewer than two, or none reaches another.
    #[verifier::spinoff_prover]
    #[verifier::rlimit(60)]
    fn min_pairwise(&self, nodes: &Vec<usize>) -> (m: u32)
        requires
            self.wf(),
            forall|i: int| 0 <= i < nodes@.len() ==> #[trigger] nodes@[i] < self.n(),
            1 + self.n() < u32::MAX,
        ensures
            nodes@.len() < 2 ==> m == u32::MAX,
            forall|a: int, b: int|
                0 <= a < b < nodes@.len() ==> #[trigger] pair_bound(self.adj@, nodes@, m, a, b),
            m == pair_min(self.adj@, nodes@, nodes@.len() as int),
    {
        let mut m: u32 = u32::MAX;
        let mut i: usize = 0;
        while i < nodes.len()
            invariant
                i <= nodes@.len(),
                self.wf(),
                forall|i: int| 0 <= i < nodes@.len() ==> #[trigger] nodes@[i] < self.n(),
                1 + self.n() < u32::MAX,
                nodes@.len() < 2 ==> m == u32::MAX,
                forall|a: int, b: int|
                    0 <= a < i && a < b < nodes@.len() ==> #[trigger] pair_bound(self.adj@, nodes@, m, a, b),
                m == pair_min(self.adj@, nodes@, i as int),
            decreases nodes@.len() - i,
        {
            let ghost m_start = m;
            let src = vec![nodes[i]];
            assert(src@ =~= seq![nodes@[i as int]]);
            let dist = self.distances(&src);
            proof {
                lemma_dist_from(self.adj@, seq![nodes@[i as int]], dist@);
            }
            let mut j: usize = i + 1;
            while j < nodes.len()
                invariant
                    i < j <= nodes@.len(),
                    self.wf(),
                    forall|i: int| 0 <= i < nodes@.len() ==> #[trigger] nodes@[i] < self.n(),
                    bfs_props(self.adj@, seq![nodes@[i as int]], dist@),
                    nodes@.len() < 2 ==> m == u32::MAX,
                    forall|b: int| i < b < j ==> m <= #[trigger] dist@[nodes@[b] as int],
                    forall|a: int, b: int|
                        0 <= a < i && a < b < nodes@.len() ==> #[trigger] pair_bound(self.adj@, nodes@, m, a, b),
                    dist@ == dist_from(self.adj@, seq![nodes@[i as int]]),
                    m == row_min(self.adj@, nodes@, i as int, j as int, m_start),
                decreases nodes@.len() - j,
            {
                let db = dist[nodes[j]];
                let ghost m0 = m;
                if db < m {
                    m = db;
                }
                proof {
                    assert forall|a: int, b: int|
                        0 <= a < i && a < b < nodes@.len() implies #[trigger] pair_bound(self.adj@, nodes@, m, a, b) by {
                        lemma_pair_bound_weaken(self.adj@, nodes@, m0, m, a, b);
                    }
                }
                j += 1;
            }
            proof {
                assert forall|a: int, b: int|
                    0 <= a < i + 1 && a < b < nodes@.len() implies #[trigger] pair_bound(self.adj@, nodes@, m, a, b) by {
                    if a == i {
                        assert(m <= dist@[nodes@[b] as int]);
                        assert(bfs_props(self.adj@, seq![nodes@[a]], dist@));
                    }
                }
            }
            i += 1;
        }
        m
    }
}


/// The starts of the wants that got one, in the wants' order.
pub open spec fn placed_of(wants: Seq<Want>, chosen: Seq<Option<(usize, u32)>>) -> Seq<Placed>
    decreases wants.len(),
{
    if wants.len() == 0 || chosen.len() == 0 {
        Seq::empty()
    } else {
        let rest = placed_of(wants.drop_last(), chosen.drop_last());
        match chosen.last() {
            Some((k, prov)) => rest.push(Placed { nation: wants.last().nation, plane: k, prov }),
            None => rest,
        }
    }
}

/// What each want got: nothing, or a province of a plane. Every start can
/// hold one; no province holds two; and a want goes without only when every
/// province that could hold a start holds one.
pub open spec fn placement(ps: Seq<PlaneGraph>, wants: Seq<Want>, chosen: Seq<Option<(usize, u32)>>) -> bool {
    &&& chosen.len() == wants.len()
    &&& forall|i: int|
        0 <= i < chosen.len() && #[trigger] chosen[i] is Some ==> {
            let (k, prov) = chosen[i]->0;
            k < ps.len() && province_usable(ps[k as int], prov as int)
        }
    &&& forall|i: int, j: int|
        0 <= i < j < chosen.len() && #[trigger] chosen[i] is Some ==> chosen[i] != #[trigger] chosen[j]
    &&& forall|i: int|
        0 <= i < chosen.len() && #[trigger] chosen[i] is None ==> forall|k: int, prov: int|
            0 <= k < ps.len() && #[trigger] province_usable(ps[k], prov) ==> exists|j: int|
                0 <= j < chosen.len() && #[trigger] chosen[j] == Some((k as usize, prov as u32))
}

/// Province `prov` of plane `k` suits a want once `relax` of its wishes are
/// given up: it can hold a start; below the third relaxation its water is
/// the want's; below the second it lies in a cave exactly where the want
/// asks for one (kinds 2 and 3 always, 0 never); below the first it is
/// coastal where the want asks for a coast.
pub open spec fn suits(ps: Seq<PlaneGraph>, k: int, prov: int, want: Want, relax: u8) -> bool {
    let f = ps[k].flags@[prov];
    let cave = ps[k].cave || f & CAVE != 0;
    &&& province_usable(ps[k], prov)
    &&& relax < 3 ==> ((f & SEA != 0) == want.uw)
    &&& relax < 2 ==> (want.cave == 0 ==> !cave)
    &&& relax < 2 ==> ((want.cave == 2 || want.cave == 3) ==> cave)
    &&& (relax < 1 && want.coast) ==> province_coastal(ps[k], prov)
}

/// A start chosen with care: some starts, fewer than `n` and not this one,
/// numbered across the planes, were held by the other nations when it was
/// chosen, and it suits the want at the least relaxation at which any
/// province they left free suits it.
pub open spec fn well_chosen(ps: Seq<PlaneGraph>, want: Want, k: int, prov: int, n: int) -> bool {
    exists|others: Seq<usize>|
        #![trigger others.contains((offset(ps, k) + prov) as usize)]
        others.len() < n && !others.contains((offset(ps, k) + prov) as usize) && exists|r: u8|
            r <= 3 && #[trigger] suits(ps, k, prov, want, r) && forall|r2: u8, k2: int, p2: int|
                r2 < r && 0 <= k2 < ps.len() && 0 <= p2 < ps[k2].flags@.len() && !others.contains(
                    (offset(ps, k2) + p2) as usize,
                ) ==> !#[trigger] suits(ps, k2, p2, want, r2)
}

proof fn lemma_fits_suits(g: Graph, ps: Seq<PlaneGraph>, want: Want, k: int, prov: int, r: u8)
    requires
        g.stands_for(ps),
        0 <= k < ps.len(),
        0 <= prov < ps[k].flags@.len(),
    ensures
        0 <= offset(ps, k) + prov < g.n(),
        fits_spec(g, offset(ps, k) + prov, want, r) == suits(ps, k, prov, want, r),
{
    lemma_offset_step(ps, k);
    lemma_offset_mono(ps, k + 1, ps.len() as int);
    lemma_offset_mono(ps, 0, k);
    assert(g.node_is(ps, k, prov));
}

proof fn lemma_picked_well(g: Graph, ps: Seq<PlaneGraph>, want: Want, k: int, prov: int, n: int)
    requires
        g.stands_for(ps),
        0 <= k < ps.len(),
        0 <= prov < ps[k].flags@.len(),
        picked(g, want, offset(ps, k) + prov, n),
    ensures
        well_chosen(ps, want, k, prov, n),
{
    let x = offset(ps, k) + prov;
    let others = choose|others: Seq<usize>|
        others.len() < n && !others.contains(x as usize) && #[trigger] least_fit(g, want, others, x);
    let r = choose|r: u8|
        r <= 3 && #[trigger] fits_spec(g, x, want, r) && forall|r2: u8, v: int|
            r2 < r && 0 <= v < g.n() && !others.contains(v as usize) ==> !#[trigger] fits_spec(g, v, want, r2);
    lemma_fits_suits(g, ps, want, k, prov, r);
    assert forall|r2: u8, k2: int, p2: int|
        r2 < r && 0 <= k2 < ps.len() && 0 <= p2 < ps[k2].flags@.len() && !others.contains(
            (offset(ps, k2) + p2) as usize,
        ) implies !#[trigger] suits(ps, k2, p2, want, r2) by {
        lemma_fits_suits(g, ps, want, k2, p2, r2);
        assert(!fits_spec(g, offset(ps, k2) + p2, want, r2));
    }
    assert(suits(ps, k, prov, want, r));
}

fn with_node(v: &Vec<usize>, x: usize) -> (r: Vec<usize>)
    ensures
        r@ == v@.push(x),
{
    let mut r: Vec<usize> = Vec::new();
    let mut i: usize = 0;
    while i < v.len()
        invariant
            i <= v@.len(),
            r@ == v@.take(i as int),
        decreases v@.len() - i,
    {
        r.push(v[i]);
        assert(r@ =~= v@.take(i + 1));
        i += 1;
    }
    r.push(x);
    assert(r@ =~= v@.push(x));
    r
}

/// The invariants of the chosen nodes while starts are handed out and moved.
pub open spec fn chosen_ok(g: Graph, chosen: Seq<Option<usize>>) -> bool {
    &&& forall|i: int|
        0 <= i < chosen.len() && #[trigger] chosen[i] is Some ==> chosen[i]->0 < g.n()
            && g.usable@[chosen[i]->0 as int]
    &&& forall|i: int, j: int|
        0 <= i < chosen.len() && 0 <= j < chosen.len() && i != j && #[trigger] chosen[i] is Some
            ==> chosen[i] != #[trigger] chosen[j]
}

/// Where some want went without, every node that can hold a start is chosen.
pub open spec fn all_taken(g: Graph, chosen: Seq<Option<usize>>) -> bool {
    (exists|i: int| 0 <= i < chosen.len() && #[trigger] chosen[i] is None) ==> forall|v: int|
        0 <= v < g.n() && #[trigger] g.usable@[v] ==> exists|j: int|
            0 <= j < chosen.len() && #[trigger] chosen[j] == Some(v as usize)
}

/// The first pass over the first `k` wants in the order `o`: each takes the
/// best node for it given the nodes taken before it, or nothing. Gives what
/// each want holds and the nodes taken, in the order they were taken.
pub open spec fn first_pass(g: Graph, wants: Seq<Want>, o: Seq<usize>, seed: u64, k: int) -> (
    Seq<Option<usize>>,
    Seq<usize>,
)
    decreases k,
{
    if k <= 0 {
        (Seq::new(wants.len(), |j: int| None::<usize>), Seq::empty())
    } else {
        let (c, t) = first_pass(g, wants, o, seed, k - 1);
        let i = o[k - 1] as int;
        match best_from(g, wants[i], t, dist_from(g.adj@, t), seed, 0, 0) {
            Some(node) => (c.update(i, Some(node)), t.push(node)),
            None => (c, t),
        }
    }
}

/// The nodes held by the wants other than `i`, in the wants' order.
pub open spec fn others_spec(ch: Seq<Option<usize>>, i: int) -> Seq<usize>
    decreases ch.len(),
{
    if ch.len() == 0 {
        Seq::empty()
    } else {
        let rest = others_spec(ch.drop_last(), i);
        if ch.len() - 1 != i && ch.last() is Some {
            rest.push(ch.last()->0)
        } else {
            rest
        }
    }
}

/// A round of moves over the first `k` wants in the order `o`: a want that
/// holds a node moves to the best node for it given the others' nodes, where
/// that node differs and leaves the closest two of them farther apart than
/// before. Gives what each want holds and whether any moved.
pub open spec fn move_step(
    g: Graph,
    wants: Seq<Want>,
    o: Seq<usize>,
    seed: u64,
    round: u32,
    ch: Seq<Option<usize>>,
    k: int,
) -> (Seq<Option<usize>>, bool)
    decreases k,
{
    if k <= 0 {
        (ch, false)
    } else {
        let (c, moved) = move_step(g, wants, o, seed, round, ch, k - 1);
        let i = o[k - 1] as int;
        match c[i] {
            None => (c, moved),
            Some(cur) => {
                let others = others_spec(c, i);
                match best_from(g, wants[i], others, dist_from(g.adj@, others), seed, round, 0) {
                    Some(node) => if node != cur && pair_min(g.adj@, others.push(node), (others.len() + 1) as int)
                        > pair_min(g.adj@, others.push(cur), (others.len() + 1) as int) {
                        (c.update(i, Some(node)), true)
                    } else {
                        (c, moved)
                    },
                    None => (c, moved),
                }
            },
        }
    }
}

/// The rounds of moves from round `round` on, up to the third, stopping
/// after a round in which no want moved.
pub open spec fn rounds(g: Graph, wants: Seq<Want>, o: Seq<usize>, seed: u64, ch: Seq<Option<usize>>, round: u32) -> Seq<
    Option<usize>,
>
    decreases 4 - round,
{
    if round >= 4 {
        ch
    } else {
        let (c, moved) = move_step(g, wants, o, seed, round, ch, o.len() as int);
        if moved {
            rounds(g, wants, o, seed, c, (round + 1) as u32)
        } else {
            c
        }
    }
}

/// The node each want ends with: the first pass, then the rounds of moves.
pub open spec fn place_nodes(g: Graph, wants: Seq<Want>, o: Seq<usize>, seed: u64) -> Seq<Option<usize>> {
    rounds(g, wants, o, seed, first_pass(g, wants, o, seed, o.len() as int).0, 1)
}

/// The starts as nodes numbered across the planes.
pub open spec fn as_nodes(ps: Seq<PlaneGraph>, chosen: Seq<Option<(usize, u32)>>) -> Seq<Option<usize>> {
    Seq::new(
        chosen.len(),
        |j: int|
            match chosen[j] {
                None => None,
                Some((k, prov)) => Some((offset(ps, k as int) + prov) as usize),
            },
    )
}

/// The starts are the ones the placement computes. The provinces of all
/// planes are numbered in one graph, joined by their borders and by the
/// gates; the wants choose in order of rank, higher first, and among equal
/// ranks the earlier first. In the first pass each takes, among the
/// provinces left free that suit it at the least relaxation at which any
/// does and that do not sit on a start, the one of highest score: four
/// points a step of distance from the starts taken (capped, and the cap
/// where none is taken), six a point of liked terrain, and a tie-breaker
/// drawn from the seed and the province, the first such where scores tie.
/// Then, for rounds one to three, stopping after a round without a move,
/// each want that holds a start picks again in the same way among the
/// others' starts, the tie-breaker drawn with the round, and moves there
/// where that differs from its start and leaves the closest two starts
/// farther apart.
pub open spec fn placed_as(
    ps: Seq<PlaneGraph>,
    gates: Seq<Link>,
    wants: Seq<Want>,
    seed: u64,
    chosen: Seq<Option<(usize, u32)>>,
) -> bool {
    exists|g: Graph, o: Seq<usize>|
        #![trigger g.joins(ps, gates), ordered(wants, o)]
        g.stands_for(ps) && g.joins(ps, gates) && ordered(wants, o) && as_nodes(ps, chosen)
            == place_nodes(g, wants, o, seed)
}

/// The first pass: in the order `order`, each want takes the node that
/// suits it best given the nodes taken before it.
#[verifier::spinoff_prover]
#[verifier::rlimit(80)]
fn first_choices(g: &Graph, wants: &[Want], order: &Vec<usize>, seed: u64) -> (chosen: Vec<Option<usize>>)
    requires
        g.wf(),
        ordered(wants@, order@),
        g.n() + wants@.len() < u32::MAX,
    ensures
        chosen@ == first_pass(*g, wants@, order@, seed, wants@.len() as int).0,
        chosen@.len() == wants@.len(),
        chosen_ok(*g, chosen@),
        all_taken(*g, chosen@),
        forall|j: int|
            0 <= j < wants@.len() && #[trigger] chosen@[j] is Some ==> picked(
                *g,
                wants@[j],
                chosen@[j]->0 as int,
                wants@.len() as int,
            ),
{
    let big_n = g.flags.len();
    let n = wants.len();
    let mut chosen: Vec<Option<usize>> = Vec::new();
    while chosen.len() < n
        invariant
            chosen@.len() <= n,
            forall|i: int| 0 <= i < chosen@.len() ==> #[trigger] chosen@[i] is None,
        decreases n - chosen@.len(),
    {
        chosen.push(None);
    }
    assert(chosen@ =~= Seq::new(n as nat, |j: int| None::<usize>));
    let mut taken: Vec<usize> = Vec::new();
    let ghost mut tried: Seq<bool> = Seq::new(n as nat, |i: int| false);
    let mut k: usize = 0;
    while k < n
        invariant
            k <= n,
            n == wants@.len(),
            big_n == g.n(),
            g.wf(),
            ordered(wants@, order@),
            chosen@.len() == n,
            (chosen@, taken@) == first_pass(*g, wants@, order@, seed, k as int),
            tried.len() == n,
            taken@.len() <= k,
            big_n + n < u32::MAX,
            chosen_ok(*g, chosen@),
            forall|j: int|
                0 <= j < n && #[trigger] chosen@[j] is Some ==> picked(*g, wants@[j], chosen@[j]->0 as int, n as int),
            forall|t: int| 0 <= t < taken@.len() ==> #[trigger] taken@[t] < big_n,
            forall|x: usize|
                taken@.contains(x) <==> exists|j: int| 0 <= j < n && #[trigger] chosen@[j] == Some(x),
            forall|j: int| 0 <= j < n ==> (#[trigger] tried[j] <==> exists|t: int| 0 <= t < k && order@[t] == j),
            forall|j: int| 0 <= j < n && #[trigger] chosen@[j] is Some ==> tried[j],
            forall|j: int|
                0 <= j < n && #[trigger] tried[j] && chosen@[j] is None ==> forall|v: int|
                    0 <= v < big_n && #[trigger] g.usable@[v] ==> taken@.contains(v as usize),
        decreases n - k,
    {
        let i = order[k];
        proof {
            assert(!tried[i as int]) by {
                if tried[i as int] {
                    let t = choose|t: int| 0 <= t < k && order@[t] == i;
                    assert(order@[t] != order@[k as int]);
                }
            }
        }
        let ghost before = chosen@;
        let ghost tb = taken@;
        match g.best(&wants[i], &taken, seed, 0) {
            Some(node) => {
                proof {
                    let d = dist_from(g.adj@, tb);
                    lemma_best_from_least(*g, wants@[i as int], tb, d, seed, 0, 0);
                    let r = choose|r: u8| #[trigger] least_from(*g, wants@[i as int], tb, node as int, 0, r);
                    assert(least_from(*g, wants@[i as int], tb, node as int, 0, r));
                    assert(least_fit(*g, wants@[i as int], tb, node as int));
                    assert(picked(*g, wants@[i as int], node as int, n as int));
                }
                chosen.set(i, Some(node));
                taken.push(node);
                proof {
                    assert forall|x: usize| taken@.contains(x) <==> exists|j: int|
                        0 <= j < n && #[trigger] chosen@[j] == Some(x) by {
                        if x == node {
                            assert(chosen@[i as int] == Some(x));
                            assert(taken@[tb.len() as int] == x);
                        } else {
                            if taken@.contains(x) {
                                let t = choose|t: int| 0 <= t < taken@.len() && taken@[t] == x;
                                assert(tb[t] == x);
                                assert(tb.contains(x));
                                let j = choose|j: int| 0 <= j < n && #[trigger] before[j] == Some(x);
                                assert(chosen@[j] == Some(x));
                            }
                            if exists|j: int| 0 <= j < n && #[trigger] chosen@[j] == Some(x) {
                                let j = choose|j: int| 0 <= j < n && #[trigger] chosen@[j] == Some(x);
                                assert(j != i);
                                assert(before[j] == Some(x));
                                assert(tb.contains(x));
                                let t = choose|t: int| 0 <= t < tb.len() && tb[t] == x;
                                assert(taken@[t] == x);
                            }
                        }
                    }
                    assert forall|a: int, b: int|
                        0 <= a < n && 0 <= b < n && a != b && #[trigger] chosen@[a] is Some implies chosen@[a]
                            != #[trigger] chosen@[b] by {
                        if a == i && before[b] == Some(node) {
                            assert(tb.contains(node));
                        }
                        if b == i && before[a] == Some(node) {
                            assert(tb.contains(node));
                        }
                    }
                }
            },
            None => {},
        }
        proof {
            tried = tried.update(i as int, true);
            assert forall|j: int| 0 <= j < n implies (#[trigger] tried[j] <==> exists|t: int|
                0 <= t < k + 1 && order@[t] == j) by {
                if j == i {
                    assert(order@[k as int] == j);
                }
            }
            assert forall|j: int|
                0 <= j < n && #[trigger] tried[j] && chosen@[j] is None implies forall|v: int|
                    0 <= v < big_n && #[trigger] g.usable@[v] ==> taken@.contains(v as usize) by {
                assert forall|v: int| 0 <= v < big_n && #[trigger] g.usable@[v] implies taken@.contains(
                    v as usize,
                ) by {
                    if j != i {
                        assert(before[j] is None);
                        assert(tb.contains(v as usize));
                        let t = choose|t: int| 0 <= t < tb.len() && tb[t] == v as usize;
                        assert(taken@[t] == v as usize);
                    }
                }
            }
        }
        k += 1;
    }
    proof {
        assert forall|j: int| 0 <= j < n implies #[trigger] tried[j] by {
            assert(order@.contains(j as usize));
            let t = choose|t: int| 0 <= t < n && order@[t] == j as usize;
            assert(order@[t] == j);
        }
        assert(all_taken(*g, chosen@)) by {
            if exists|i: int| 0 <= i < chosen@.len() && #[trigger] chosen@[i] is None {
                let i = choose|i: int| 0 <= i < chosen@.len() && #[trigger] chosen@[i] is None;
                assert(tried[i]);
                assert forall|v: int| 0 <= v < g.n() && #[trigger] g.usable@[v] implies exists|j: int|
                    0 <= j < chosen@.len() && #[trigger] chosen@[j] == Some(v as usize) by {
                    assert(taken@.contains(v as usize));
                }
            }
        }
    }
    chosen
}

/// One round of moves: in the order `order`, each want that holds a node
/// moves to the node that suits it best given the others' nodes, where that
/// leaves the closest two nodes farther apart. Says whether any moved.
#[verifier::spinoff_prover]
#[verifier::rlimit(80)]
fn improve(g: &Graph, wants: &[Want], order: &Vec<usize>, seed: u64, round: u32, chosen: &mut Vec<Option<usize>>) -> (improved: bool)
    requires
        g.wf(),
        ordered(wants@, order@),
        old(chosen)@.len() == wants@.len(),
        g.n() + wants@.len() < u32::MAX,
        chosen_ok(*g, old(chosen)@),
        all_taken(*g, old(chosen)@),
        forall|j: int|
            0 <= j < wants@.len() && #[trigger] old(chosen)@[j] is Some ==> picked(
                *g,
                wants@[j],
                old(chosen)@[j]->0 as int,
                wants@.len() as int,
            ),
    ensures
        (final(chosen)@, improved) == move_step(*g, wants@, order@, seed, round, old(chosen)@, wants@.len() as int),
        final(chosen)@.len() == wants@.len(),
        chosen_ok(*g, final(chosen)@),
        all_taken(*g, final(chosen)@),
        forall|j: int|
            0 <= j < wants@.len() && #[trigger] final(chosen)@[j] is Some ==> picked(
                *g,
                wants@[j],
                final(chosen)@[j]->0 as int,
                wants@.len() as int,
            ),
{
    let ghost c0 = chosen@;
    let big_n = g.flags.len();
    let n = wants.len();
    let mut improved = false;
    let mut k: usize = 0;
    while k < n
        invariant
            k <= n,
            n == wants@.len(),
            big_n == g.n(),
            g.wf(),
            ordered(wants@, order@),
            chosen@.len() == n,
            (chosen@, improved) == move_step(*g, wants@, order@, seed, round, c0, k as int),
            big_n + n < u32::MAX,
            chosen_ok(*g, chosen@),
            all_taken(*g, chosen@),
            forall|j: int|
                0 <= j < n && #[trigger] chosen@[j] is Some ==> picked(*g, wants@[j], chosen@[j]->0 as int, n as int),
        decreases n - k,
    {
        let i = order[k];
        match chosen[i] {
            None => {},
            Some(current) => {
                let others = others_of(&chosen, i);
                proof {
                    assert forall|t: int| 0 <= t < others@.len() implies #[trigger] others@[t] < big_n by {
                        assert(others@.contains(others@[t]));
                        let j = choose|j: int| 0 <= j < chosen@.len() && j != i && #[trigger] chosen@[j] == Some(others@[t]);
                    }
                }
                let all = with_node(&others, current);
                let before = g.min_pairwise(&all);
                match g.best(&wants[i], &others, seed, round) {
                    Some(node) => {
                        if node != current {
                            let all2 = with_node(&others, node);
                            let after = g.min_pairwise(&all2);
                            if after > before {
                                proof {
                                    if exists|j: int| 0 <= j < chosen@.len() && #[trigger] chosen@[j] is None {
                                        let j = choose|t: int| 0 <= t < chosen@.len() && #[trigger] chosen@[t] == Some(node);
                                        assert(g.usable@[node as int]);
                                        if j == i {
                                            assert(false);
                                        } else {
                                            assert(others@.contains(node));
                                        }
                                    }
                                }
                                let ghost prev = chosen@;
                                proof {
                                    let ob = others@;
                                    let d = dist_from(g.adj@, ob);
                                    lemma_best_from_least(*g, wants@[i as int], ob, d, seed, round, 0);
                                    let r = choose|r: u8| #[trigger] least_from(*g, wants@[i as int], ob, node as int, 0, r);
                                    assert(least_from(*g, wants@[i as int], ob, node as int, 0, r));
                                    assert(least_fit(*g, wants@[i as int], ob, node as int));
                                    assert(picked(*g, wants@[i as int], node as int, n as int));
                                }
                                chosen.set(i, Some(node));
                                improved = true;
                                proof {
                                    assert forall|a: int, b: int|
                                        0 <= a < n && 0 <= b < n && a != b && #[trigger] chosen@[a] is Some implies chosen@[a]
                                            != #[trigger] chosen@[b] by {
                                        if a == i && prev[b] == Some(node) {
                                            assert(others@.contains(node));
                                        }
                                        if b == i && prev[a] == Some(node) {
                                            assert(others@.contains(node));
                                        }
                                    }
                                    assert(!(exists|j: int| 0 <= j < chosen@.len() && #[trigger] chosen@[j] is None)) by {
                                        if exists|j: int| 0 <= j < chosen@.len() && #[trigger] chosen@[j] is None {
                                            let j = choose|j: int| 0 <= j < chosen@.len() && #[trigger] chosen@[j] is None;
                                            assert(prev[j] is None);
                                        }
                                    }
                                }
                            }
                        }
                    },
                    None => {},
                }
            },
        }
        k += 1;
    }
    improved
}

/// Places each nation: the nations that want the most choose first, each
/// taking the province that suits it best and lies farthest from the starts
/// already taken; then, for up to three rounds, a nation moves to a better
/// province where that leaves the nearest two starts farther apart. The
/// starts come back in the order of the wants, for those that got one.
#[verifier::rlimit(60)]
pub fn place(planes: &[PlaneGraph], gates: &[Link], wants: &[Want], seed: u64) -> (r: Vec<Placed>)
    requires
        offset(planes@, planes@.len() as int) + wants@.len() < u32::MAX,
    ensures
        exists|chosen: Seq<Option<(usize, u32)>>|
            #[trigger] placement(planes@, wants@, chosen) && r@ == placed_of(wants@, chosen) && placed_as(
                planes@,
                gates@,
                wants@,
                seed,
                chosen,
            ) && forall|i: int|
                0 <= i < chosen.len() && #[trigger] chosen[i] is Some ==> {
                    let (k, prov) = chosen[i]->0;
                    well_chosen(planes@, wants@[i], k as int, prov as int, wants@.len() as int)
                },
{
    let g = Graph::build(planes, gates);
    let ghost ps = planes@;
    let big_n = g.flags.len();
    let order = order_by_rank(wants);
    let n = wants.len();
    let mut chosen = first_choices(&g, wants, &order, seed);
    let ghost first = chosen@;
    let mut round: u32 = 1;
    let mut going = true;
    while going && round <= 3
        invariant
            1 <= round <= 4,
            n == wants@.len(),
            big_n == g.n(),
            g.stands_for(ps),
            ordered(wants@, order@),
            chosen@.len() == n,
            big_n + n < u32::MAX,
            chosen_ok(g, chosen@),
            all_taken(g, chosen@),
            forall|j: int|
                0 <= j < n && #[trigger] chosen@[j] is Some ==> picked(g, wants@[j], chosen@[j]->0 as int, n as int),
            going ==> rounds(g, wants@, order@, seed, chosen@, round) == rounds(g, wants@, order@, seed, first, 1),
            !going ==> chosen@ == rounds(g, wants@, order@, seed, first, 1),
        decreases 4 - round + if going { 1int } else { 0int },
    {
        let improved = improve(&g, wants, &order, seed, round, &mut chosen);
        if improved {
            round += 1;
        } else {
            going = false;
        }
    }
    assert(chosen@ == place_nodes(g, wants@, order@, seed));
    let mut r: Vec<Placed> = Vec::new();
    let ghost mut cpp: Seq<Option<(usize, u32)>> = Seq::empty();
    let mut i: usize = 0;
    while i < n
        invariant
            i <= n,
            n == wants@.len(),
            big_n == g.n(),
            g.stands_for(ps),
            ps == planes@,
            chosen@.len() == n,
            big_n + n < u32::MAX,
            cpp.len() == i,
            r@ == placed_of(wants@.take(i as int), cpp),
            forall|j: int|
                0 <= j < i ==> match #[trigger] cpp[j] {
                    None => chosen@[j] is None,
                    Some((kk, pp)) => chosen@[j] is Some && kk < ps.len() && offset(ps, kk as int)
                        <= chosen@[j]->0 < offset(ps, kk + 1) && pp == chosen@[j]->0 - offset(ps, kk as int),
                },
            chosen_ok(g, chosen@),
            forall|j: int|
                0 <= j < n && #[trigger] chosen@[j] is Some ==> picked(g, wants@[j], chosen@[j]->0 as int, n as int),
        decreases n - i,
    {
        let ghost c0 = cpp;
        match chosen[i] {
            Some(node) => {
                let (kk, pp) = g.locate(node, Ghost(ps));
                r.push(Placed { nation: wants[i].nation, plane: kk, prov: pp });
                proof {
                    cpp = cpp.push(Some((kk, pp)));
                }
            },
            None => {
                proof {
                    cpp = cpp.push(None);
                }
            },
        }
        proof {
            assert(wants@.take(i + 1).drop_last() =~= wants@.take(i as int));
            assert(cpp.drop_last() =~= c0);
        }
        i += 1;
    }
    proof {
        assert(wants@.take(n as int) =~= wants@);
        assert forall|i: int| 0 <= i < cpp.len() && #[trigger] cpp[i] is Some implies {
            let (k, prov) = cpp[i]->0;
            k < ps.len() && province_usable(ps[k as int], prov as int)
        } by {
            let (k, prov) = cpp[i]->0;
            lemma_offset_step(ps, k as int);
            assert(g.node_is(ps, k as int, prov as int));
        }
        assert forall|a: int, b: int| 0 <= a < b < cpp.len() && #[trigger] cpp[a] is Some implies cpp[a]
            != #[trigger] cpp[b] by {
            if cpp[b] == cpp[a] {
                assert(chosen@[a] == chosen@[b]);
            }
        }
        assert forall|i: int| 0 <= i < cpp.len() && #[trigger] cpp[i] is None implies forall|k: int, prov: int|
            0 <= k < ps.len() && #[trigger] province_usable(ps[k], prov) ==> exists|j: int|
                0 <= j < cpp.len() && #[trigger] cpp[j] == Some((k as usize, prov as u32)) by {
            assert forall|k: int, prov: int| 0 <= k < ps.len() && #[trigger] province_usable(ps[k], prov) implies exists|j: int|
                0 <= j < cpp.len() && #[trigger] cpp[j] == Some((k as usize, prov as u32)) by {
                lemma_offset_step(ps, k);
                lemma_offset_mono(ps, k + 1, ps.len() as int);
                lemma_offset_mono(ps, 0, k);
                assert(g.node_is(ps, k, prov));
                let v = offset(ps, k) + prov;
                assert(g.usable@[v]);
                assert(chosen@[i] is None);
                let j = choose|j: int| 0 <= j < chosen@.len() && #[trigger] chosen@[j] == Some(v as usize);
                let (kk, pp) = cpp[j]->0;
                lemma_plane_unique(ps, k, kk as int, v);
                assert(cpp[j] == Some((k as usize, prov as u32)));
            }
        }
        assert(placement(planes@, wants@, cpp));
        assert(as_nodes(ps, cpp) =~= chosen@) by {
            assert forall|j: int| 0 <= j < cpp.len() implies #[trigger] as_nodes(ps, cpp)[j] == chosen@[j] by {
                match cpp[j] {
                    None => {},
                    Some((kk, pp)) => {
                        assert(chosen@[j] is Some);
                    },
                }
            }
        }
        assert(g.joins(ps, gates@));
        assert(ordered(wants@, order@));
        assert(placed_as(planes@, gates@, wants@, seed, cpp));
        assert forall|i: int| 0 <= i < cpp.len() && #[trigger] cpp[i] is Some implies {
            let (k, prov) = cpp[i]->0;
            well_chosen(planes@, wants@[i], k as int, prov as int, wants@.len() as int)
        } by {
            let (kk, pp) = cpp[i]->0;
            lemma_offset_step(ps, kk as int);
            assert(chosen@[i]->0 as int == offset(ps, kk as int) + pp);
            lemma_picked_well(g, ps, wants@[i], kk as int, pp as int, n as int);
        }
    }
    r
}

} // verus!
