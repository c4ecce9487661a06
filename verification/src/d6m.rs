//! The `.d6m` map recipe: a binary file of a header, the provinces' capital
//! pixels and terrain masks, a height field, an owner field and an end marker.
use vstd::prelude::*;
use crate::le::{get16, get32, get64, le16, le32, le64, push16, push32, push64, read16, read32, read64};

verus! {

pub const MAGIC: i32 = 0x000d_b775;
pub const END_MAGIC: i32 = 0x0000_0483;
pub const STORED_LIMIT: i16 = 32000;
/// Largest width or height, and largest province count, that a recipe may have.
pub const SIZE_LIMIT: i32 = 30000;

#[derive(Clone, Copy, Debug, PartialEq)]
pub struct Province {
    pub x: i16,
    pub y: i16,
    pub terrain: i64,
}

#[derive(Clone, Debug, PartialEq)]
pub struct D6m {
    pub version: i32,
    pub width: i32,
    pub height: i32,
    pub passthrough: i64,
    pub scale_frac: u16,
    pub scale_int: i32,
    pub provinces: Vec<Province>,
    pub heights: Vec<i16>,
    pub owners: Vec<i16>,
    pub trailing: Vec<u8>,
}

/// The contents of a recipe as mathematical values.
pub struct D6mView {
    pub version: i32,
    pub width: i32,
    pub height: i32,
    pub passthrough: i64,
    pub scale_frac: u16,
    pub scale_int: i32,
    pub provinces: Seq<Province>,
    pub heights: Seq<i16>,
    pub owners: Seq<i16>,
    pub trailing: Seq<u8>,
}

impl View for D6m {
    type V = D6mView;

    open spec fn view(&self) -> D6mView {
        D6mView {
            version: self.version,
            width: self.width,
            height: self.height,
            passthrough: self.passthrough,
            scale_frac: self.scale_frac,
            scale_int: self.scale_int,
            provinces: self.provinces@,
            heights: self.heights@,
            owners: self.owners@,
            trailing: self.trailing@,
        }
    }
}

#[verifier::external_type_specification]
#[verifier::external_body]
pub struct ExIoError(std::io::Error);

#[derive(Debug)]
pub enum Error {
    Io(std::io::Error),
    Truncated(usize),
    BadMagic(i32),
    BadEndMagic(i32),
    BadSize(i32, i32),
    BadProvinceCount(i32),
}

/// Where the scale fields start: after the optional passthrough word.
pub open spec fn scale_at(version: i32) -> int {
    if version > 1 { 24 } else { 16 }
}

/// How many bytes each province takes: its capital, and its terrain from version 3 on.
pub open spec fn prov_len(version: i32) -> int {
    if version > 2 { 12 } else { 4 }
}

pub open spec fn size_ok(width: i32, height: i32) -> bool {
    0 < width <= SIZE_LIMIT && 0 < height <= SIZE_LIMIT
}

pub open spec fn i16_at(b: Seq<u8>, i: int) -> i16 {
    get16(b, i) as i16
}

pub open spec fn i32_at(b: Seq<u8>, i: int) -> i32 {
    get32(b, i) as i32
}

pub open spec fn i64_at(b: Seq<u8>, i: int) -> i64 {
    get64(b, i) as i64
}

/// The start of the header field that a file of `len` bytes ends inside,
/// for the fields that follow the map size.
pub open spec fn header_cut(len: int, version: i32) -> int {
    let p = scale_at(version);
    if len < 24 && version > 1 {
        16
    } else if len < p + 2 {
        p
    } else if len < p + 6 {
        p + 2
    } else {
        p + 6
    }
}

/// The start of the province field that a file of `len` bytes ends inside,
/// when the province list starts at `q`.
pub open spec fn prov_cut(len: int, q: int, version: i32) -> int {
    let s = prov_len(version);
    let k = (len - q) / s;
    let off = len - q - k * s;
    q + k * s + if off < 2 {
        0int
    } else if off < 4 {
        2int
    } else {
        4int
    }
}

/// The province stored at byte `at`.
pub open spec fn prov_at(b: Seq<u8>, at: int, version: i32) -> Province {
    Province {
        x: i16_at(b, at),
        y: i16_at(b, at + 2),
        terrain: if version > 2 {
            i64_at(b, at + 4)
        } else {
            0
        },
    }
}

/// `n` values of 16 bits stored one after another from byte `at`.
pub open spec fn i16s_at(b: Seq<u8>, at: int, n: int) -> Seq<i16> {
    Seq::new(n as nat, |k: int| i16_at(b, at + 2 * k))
}

/// What a file of the bytes `b` reads as.
pub open spec fn spec_parse(b: Seq<u8>) -> Result<D6mView, Error> {
    let len = b.len() as int;
    if len < 4 {
        Err(Error::Truncated(0))
    } else if i32_at(b, 0) != MAGIC {
        Err(Error::BadMagic(i32_at(b, 0)))
    } else if len < 16 {
        Err(Error::Truncated(((len / 4) * 4) as usize))
    } else {
        let version = i32_at(b, 4);
        let width = i32_at(b, 8);
        let height = i32_at(b, 12);
        let p = scale_at(version);
        if !size_ok(width, height) {
            Err(Error::BadSize(width, height))
        } else if len < p + 10 {
            Err(Error::Truncated(header_cut(len, version) as usize))
        } else {
            let count = i32_at(b, p + 6);
            if !(0 <= count <= SIZE_LIMIT) {
                Err(Error::BadProvinceCount(count))
            } else {
                let q = p + 10;
                let s = prov_len(version);
                let r = q + count * s;
                let n = width * height;
                if len < r {
                    Err(Error::Truncated(prov_cut(len, q, version) as usize))
                } else if len < r + 2 * n {
                    Err(Error::Truncated(r as usize))
                } else if len < r + 4 * n {
                    Err(Error::Truncated((r + 2 * n) as usize))
                } else if len < r + 4 * n + 4 {
                    Err(Error::Truncated((r + 4 * n) as usize))
                } else if i32_at(b, r + 4 * n) != END_MAGIC {
                    Err(Error::BadEndMagic(i32_at(b, r + 4 * n)))
                } else {
                    Ok(
                        D6mView {
                            version,
                            width,
                            height,
                            passthrough: if version > 1 {
                                i64_at(b, 16)
                            } else {
                                0
                            },
                            scale_frac: get16(b, p),
                            scale_int: i32_at(b, p + 2),
                            provinces: Seq::new(
                                count as nat,
                                |k: int| prov_at(b, q + k * s, version),
                            ),
                            heights: i16s_at(b, r, n),
                            owners: i16s_at(b, r + 2 * n, n),
                            trailing: b.subrange(r + 4 * n + 4, len),
                        },
                    )
                }
            }
        }
    }
}

/// The bytes of one province in a file of `version`.
pub open spec fn prov_bytes(p: Province, version: i32) -> Seq<u8> {
    le16(p.x as u16) + le16(p.y as u16) + if version > 2 {
        le64(p.terrain as u64)
    } else {
        Seq::empty()
    }
}

/// The bytes of a list of provinces, one after another.
pub open spec fn provs_bytes(ps: Seq<Province>, version: i32) -> Seq<u8> {
    let s = prov_len(version);
    Seq::new((s * ps.len()) as nat, |j: int| prov_bytes(ps[j / s], version)[j % s])
}

/// The bytes of a list of 16-bit values, one after another.
pub open spec fn i16s_bytes(v: Seq<i16>) -> Seq<u8> {
    Seq::new(2 * v.len(), |j: int| le16(v[j / 2] as u16)[j % 2])
}

/// The header of a recipe up to the province list.
pub open spec fn head_bytes(d: D6mView) -> Seq<u8> {
    le32(MAGIC as u32) + le32(d.version as u32) + le32(d.width as u32) + le32(d.height as u32) + (
    if d.version > 1 {
        le64(d.passthrough as u64)
    } else {
        Seq::empty()
    }) + le16(d.scale_frac) + le32(d.scale_int as u32) + le32((d.provinces.len() as i32) as u32)
}

/// The bytes that a recipe is written as.
pub open spec fn spec_to_bytes(d: D6mView) -> Seq<u8> {
    head_bytes(d) + provs_bytes(d.provinces, d.version) + i16s_bytes(d.heights) + i16s_bytes(
        d.owners,
    ) + le32(END_MAGIC as u32) + d.trailing
}

pub open spec fn result_view(r: Result<D6m, Error>) -> Result<D6mView, Error> {
    match r {
        Ok(d) => Ok(d@),
        Err(e) => Err(e),
    }
}

fn read_i16(b: &[u8], i: usize) -> (r: i16)
    requires
        i + 2 <= b@.len(),
    ensures
        r == i16_at(b@, i as int),
{
    read16(b, i) as i16
}

fn read_i32(b: &[u8], i: usize) -> (r: i32)
    requires
        i + 4 <= b@.len(),
    ensures
        r == i32_at(b@, i as int),
{
    read32(b, i) as i32
}

fn read_i64(b: &[u8], i: usize) -> (r: i64)
    requires
        i + 8 <= b@.len(),
    ensures
        r == i64_at(b@, i as int),
{
    read64(b, i) as i64
}

/// Reads `n` values of 16 bits from byte `at`.
fn read_i16s(b: &[u8], at: usize, n: usize) -> (r: Vec<i16>)
    requires
        at + 2 * n <= b@.len(),
    ensures
        r@ == i16s_at(b@, at as int, n as int),
{
    let blen = b.len();
    let mut out: Vec<i16> = Vec::with_capacity(n);
    let mut k: usize = 0;
    while k < n
        invariant
            k <= n,
            blen == b@.len(),
            at + 2 * n <= b@.len(),
            out@.len() == k,
            forall|j: int| 0 <= j < k ==> out@[j] == i16_at(b@, at + 2 * j),
        decreases n - k,
    {
        out.push(read_i16(b, at + 2 * k));
        k += 1;
    }
    assert(out@ =~= i16s_at(b@, at as int, n as int));
    out
}

impl D6m {
    /// Reads a recipe from its bytes.
    pub fn parse(b: &[u8]) -> (r: Result<D6m, Error>)
        ensures
            result_view(r) == spec_parse(b@),
    {
        let len = b.len();
        if len < 4 {
            return Err(Error::Truncated(0));
        }
        let magic = read_i32(b, 0);
        if magic != MAGIC {
            return Err(Error::BadMagic(magic));
        }
        if len < 16 {
            return Err(Error::Truncated((len / 4) * 4));
        }
        let version = read_i32(b, 4);
        let width = read_i32(b, 8);
        let height = read_i32(b, 12);
        if width <= 0 || height <= 0 || width > SIZE_LIMIT || height > SIZE_LIMIT {
            return Err(Error::BadSize(width, height));
        }
        let p: usize = if version > 1 { 24 } else { 16 };
        if len < p + 10 {
            let cut: usize = if len < 24 && version > 1 {
                16
            } else if len < p + 2 {
                p
            } else if len < p + 6 {
                p + 2
            } else {
                p + 6
            };
            return Err(Error::Truncated(cut));
        }
        let passthrough = if version > 1 { read_i64(b, 16) } else { 0 };
        let scale_frac = read16(b, p);
        let scale_int = read_i32(b, p + 2);
        let count = read_i32(b, p + 6);
        if count < 0 || count > SIZE_LIMIT {
            return Err(Error::BadProvinceCount(count));
        }
        let q: usize = p + 10;
        let s: usize = if version > 2 { 12 } else { 4 };
        let nprov = count as usize;
        let r: usize = q + nprov * s;
        if len < r {
            let k = (len - q) / s;
            proof {
                assert(k * s <= len - q) by (nonlinear_arith)
                    requires k == (len - q) / s as int, s > 0, len >= q;
            }
            let off = len - q - k * s;
            let extra: usize = if off < 2 { 0 } else if off < 4 { 2 } else { 4 };
            return Err(Error::Truncated(q + k * s + extra));
        }
        let mut provinces: Vec<Province> = Vec::with_capacity(nprov);
        let mut i: usize = 0;
        while i < nprov
            invariant
                i <= nprov,
                len == b@.len(),
                r == q + nprov * s,
                r <= len,
                s == prov_len(version),
                provinces@.len() == i,
                forall|j: int|
                    0 <= j < i ==> provinces@[j] == prov_at(b@, q + j * s, version),
            decreases nprov - i,
        {
            proof {
                assert(q + i * s + s <= q + nprov * s) by (nonlinear_arith)
                    requires i < nprov, s >= 0;
            }
            let at = q + i * s;
            let x = read_i16(b, at);
            let y = read_i16(b, at + 2);
            let terrain = if version > 2 { read_i64(b, at + 4) } else { 0 };
            provinces.push(Province { x, y, terrain });
            i += 1;
        }
        proof {
            assert(width * height <= 900_000_000) by (nonlinear_arith)
                requires 0 < width <= 30000, 0 < height <= 30000;
        }
        let n = (width as usize) * (height as usize);
        if len - r < 2 * n {
            return Err(Error::Truncated(r));
        }
        if len - r - 2 * n < 2 * n {
            return Err(Error::Truncated(r + 2 * n));
        }
        if len - r - 4 * n < 4 {
            return Err(Error::Truncated(r + 4 * n));
        }
        let heights = read_i16s(b, r, n);
        let owners = read_i16s(b, r + 2 * n, n);
        let end = read_i32(b, r + 4 * n);
        if end != END_MAGIC {
            return Err(Error::BadEndMagic(end));
        }
        let trailing = vstd::slice::slice_to_vec(vstd::slice::slice_subrange(b, r + 4 * n + 4, len));
        let d = D6m {
            version,
            width,
            height,
            passthrough,
            scale_frac,
            scale_int,
            provinces,
            heights,
            owners,
            trailing,
        };
        proof {
            let ghost pv = Seq::new(
                count as nat,
                |k: int| prov_at(b@, q + k * s, version),
            );
            assert(d.provinces@ =~= pv);
            assert(spec_parse(b@) matches Ok(v) && v == d@);
        }
        Ok(d)
    }
}


/// Appends the bytes of 16-bit values.
fn push_i16s(out: &mut Vec<u8>, v: &Vec<i16>)
    ensures
        final(out)@ == old(out)@ + i16s_bytes(v@),
{
    let ghost start = out@;
    let mut i: usize = 0;
    while i < v.len()
        invariant
            i <= v@.len(),
            out@ == start + i16s_bytes(v@.take(i as int)),
        decreases v@.len() - i,
    {
        proof {
            lemma_i16s_bytes_step(v@, i as int);
        }
        push16(out, v[i] as u16);
        i += 1;
    }
    assert(v@.take(v@.len() as int) =~= v@);
}

proof fn lemma_i16s_bytes_step(v: Seq<i16>, i: int)
    requires
        0 <= i < v.len(),
    ensures
        i16s_bytes(v.take(i + 1)) == i16s_bytes(v.take(i)) + le16(v[i] as u16),
{
    let a = i16s_bytes(v.take(i + 1));
    let b = i16s_bytes(v.take(i)) + le16(v[i] as u16);
    assert forall|j: int| 0 <= j < a.len() implies a[j] == b[j] by {
        if j < 2 * i {
            assert(j / 2 < i);
        } else {
            assert(j / 2 == i);
        }
    }
    assert(a =~= b);
}

proof fn lemma_provs_bytes_step(ps: Seq<Province>, i: int, version: i32)
    requires
        0 <= i < ps.len(),
    ensures
        provs_bytes(ps.take(i + 1), version) == provs_bytes(ps.take(i), version) + prov_bytes(
            ps[i],
            version,
        ),
{
    let s = prov_len(version);
    let a = provs_bytes(ps.take(i + 1), version);
    let b = provs_bytes(ps.take(i), version) + prov_bytes(ps[i], version);
    assert(prov_bytes(ps[i], version).len() == s);
    assert forall|j: int| 0 <= j < a.len() implies a[j] == b[j] by {
        if version > 2 {
            if j < 12 * i {
                assert(j / 12 < i);
            } else {
                assert(j / 12 == i);
            }
        } else {
            if j < 4 * i {
                assert(j / 4 < i);
            } else {
                assert(j / 4 == i);
            }
        }
    }
    assert(a =~= b);
}

impl D6m {
    /// Writes the recipe as bytes.
    pub fn to_bytes(&self) -> (out: Vec<u8>)
        ensures
            out@ == spec_to_bytes(self@),
    {
        let mut out: Vec<u8> = Vec::new();
        push32(&mut out, MAGIC as u32);
        push32(&mut out, self.version as u32);
        push32(&mut out, self.width as u32);
        push32(&mut out, self.height as u32);
        if self.version > 1 {
            push64(&mut out, self.passthrough as u64);
        }
        push16(&mut out, self.scale_frac);
        push32(&mut out, self.scale_int as u32);
        push32(&mut out, (self.provinces.len() as i32) as u32);
        assert(out@ =~= head_bytes(self@));
        let ghost head = out@;
        let mut i: usize = 0;
        while i < self.provinces.len()
            invariant
                i <= self.provinces@.len(),
                out@ == head + provs_bytes(self.provinces@.take(i as int), self.version),
            decreases self.provinces@.len() - i,
        {
            proof {
                lemma_provs_bytes_step(self.provinces@, i as int, self.version);
            }
            let p = self.provinces[i];
            let ghost before = out@;
            push16(&mut out, p.x as u16);
            push16(&mut out, p.y as u16);
            if self.version > 2 {
                push64(&mut out, p.terrain as u64);
            }
            assert(out@ =~= before + prov_bytes(p, self.version));
            i += 1;
        }
        assert(self.provinces@.take(self.provinces@.len() as int) =~= self.provinces@);
        push_i16s(&mut out, &self.heights);
        push_i16s(&mut out, &self.owners);
        push32(&mut out, END_MAGIC as u32);
        let ghost before = out@;
        out.extend_from_slice(self.trailing.as_slice());
        assert(out@ =~= before + self.trailing@);
        out
    }

    /// The number of pixels in the height field.
    pub fn pixel_count(&self) -> (n: usize)
        ensures
            n == self.heights@.len(),
    {
        self.heights.len()
    }

    /// The largest province number in the owner field, or 0 when it is empty.
    pub fn max_owner(&self) -> (m: i16)
        ensures
            m == max_of(self.owners@),
    {
        let mut m: i16 = 0;
        let mut i: usize = 0;
        while i < self.owners.len()
            invariant
                i <= self.owners@.len(),
                m == max_of(self.owners@.take(i as int)),
            decreases self.owners@.len() - i,
        {
            assert(self.owners@.take(i + 1).drop_last() =~= self.owners@.take(i as int));
            if i == 0 || self.owners[i] > m {
                m = self.owners[i];
            }
            i += 1;
        }
        assert(self.owners@.take(self.owners@.len() as int) =~= self.owners@);
        m
    }
}

/// The largest value of a list, or 0 for an empty list.
pub open spec fn max_of(v: Seq<i16>) -> i16
    decreases v.len(),
{
    if v.len() == 0 {
        0
    } else if v.len() == 1 {
        v[0]
    } else {
        let m = max_of(v.drop_last());
        if v.last() > m {
            v.last()
        } else {
            m
        }
    }
}


/// A recipe that writing and reading back leaves unchanged: its size and
/// province count are in range, both fields cover the map, and the parts that
/// its version does not store are zero.
pub open spec fn well_formed(d: D6mView) -> bool {
    &&& size_ok(d.width, d.height)
    &&& d.provinces.len() <= SIZE_LIMIT
    &&& d.heights.len() == d.width * d.height
    &&& d.owners.len() == d.width * d.height
    &&& d.version <= 1 ==> d.passthrough == 0
    &&& d.version <= 2 ==> forall|k: int|
        0 <= k < d.provinces.len() ==> #[trigger] d.provinces[k].terrain == 0
}

/// `x` stands in `b` from byte `o` on.
pub open spec fn has_at(b: Seq<u8>, o: int, x: Seq<u8>) -> bool {
    &&& 0 <= o
    &&& o + x.len() <= b.len()
    &&& forall|j: int| 0 <= j < x.len() ==> b[o + j] == #[trigger] x[j]
}

proof fn lemma_has_at_concat(pre: Seq<u8>, x: Seq<u8>, post: Seq<u8>)
    ensures
        has_at(pre + x + post, pre.len() as int, x),
{
    let b = pre + x + post;
    assert forall|j: int| 0 <= j < x.len() implies b[pre.len() + j] == #[trigger] x[j] by {}
}

proof fn lemma_i32_has(b: Seq<u8>, o: int, v: i32)
    requires
        has_at(b, o, le32(v as u32)),
    ensures
        i32_at(b, o) == v,
{
    let x = le32(v as u32);
    assert(b[o] == x[0] && b[o + 1] == x[1] && b[o + 2] == x[2] && b[o + 3] == x[3]);
    crate::le::lemma_get32_eq(b, o, v as u32);
    crate::le::lemma_i32_round(v);
}

proof fn lemma_i16s_has(b: Seq<u8>, o: int, v: Seq<i16>)
    requires
        has_at(b, o, i16s_bytes(v)),
    ensures
        i16s_at(b, o, v.len() as int) == v,
{
    let x = i16s_bytes(v);
    let r = i16s_at(b, o, v.len() as int);
    assert forall|k: int| 0 <= k < v.len() implies r[k] == v[k] by {
        assert(x[2 * k] == le16(v[k] as u16)[0]);
        assert((2 * k + 1) / 2 == k && (2 * k + 1) % 2 == 1);
        assert(x[2 * k + 1] == le16(v[k] as u16)[1]);
        crate::le::lemma_get16_eq(b, o + 2 * k, v[k] as u16);
        crate::le::lemma_i16_round(v[k]);
    }
    assert(r =~= v);
}

proof fn lemma_provs_has(b: Seq<u8>, o: int, ps: Seq<Province>, version: i32)
    requires
        has_at(b, o, provs_bytes(ps, version)),
        version <= 2 ==> forall|k: int| 0 <= k < ps.len() ==> #[trigger] ps[k].terrain == 0,
    ensures
        Seq::new(ps.len(), |k: int| prov_at(b, o + k * prov_len(version), version)) == ps,
{
    let s = prov_len(version);
    let x = provs_bytes(ps, version);
    let r = Seq::new(ps.len(), |k: int| prov_at(b, o + k * s, version));
    assert forall|k: int| 0 <= k < ps.len() implies r[k] == ps[k] by {
        let p = ps[k];
        let pb = prov_bytes(p, version);
        assert forall|j: int| 0 <= j < s implies b[o + k * s + j] == #[trigger] pb[j] by {
            if version > 2 {
                assert((12 * k + j) / 12 == k && (12 * k + j) % 12 == j);
                assert(x[12 * k + j] == pb[j]);
            } else {
                assert((4 * k + j) / 4 == k && (4 * k + j) % 4 == j);
                assert(x[4 * k + j] == pb[j]);
            }
        }
        let at = o + k * s;
        assert(b[at] == pb[0] && b[at + 1] == pb[1] && b[at + 2] == pb[2] && b[at + 3] == pb[3]);
        crate::le::lemma_get16_eq(b, at, p.x as u16);
        crate::le::lemma_get16_eq(b, at + 2, p.y as u16);
        crate::le::lemma_i16_round(p.x);
        crate::le::lemma_i16_round(p.y);
        if version > 2 {
            assert forall|j: int| 0 <= j < 8 implies b[at + 4 + j] == #[trigger] le64(
                p.terrain as u64,
            )[j] by {
                assert(b[at + (4 + j)] == pb[4 + j]);
            }
            crate::le::lemma_get64_eq(b, at + 4, p.terrain as u64);
            crate::le::lemma_i64_round(p.terrain);
        }
    }
    assert(r =~= ps);
}

proof fn lemma_has_at_within(b: Seq<u8>, o: int, x: Seq<u8>, k: int, y: Seq<u8>)
    requires
        has_at(b, o, x),
        has_at(x, k, y),
    ensures
        has_at(b, o + k, y),
{
    assert forall|j: int| 0 <= j < y.len() implies b[o + k + j] == #[trigger] y[j] by {
        assert(x[k + j] == y[j]);
        assert(b[o + (k + j)] == x[k + j]);
    }
}

/// The header fields read back from a buffer that starts with a written header.
proof fn lemma_head_reads(d: D6mView, b: Seq<u8>)
    requires
        has_at(b, 0, head_bytes(d)),
    ensures
        i32_at(b, 0) == MAGIC,
        i32_at(b, 4) == d.version,
        i32_at(b, 8) == d.width,
        i32_at(b, 12) == d.height,
        d.version > 1 ==> i64_at(b, 16) == d.passthrough,
        get16(b, scale_at(d.version)) == d.scale_frac,
        i32_at(b, scale_at(d.version) + 2) == d.scale_int,
        i32_at(b, scale_at(d.version) + 6) == d.provinces.len() as i32,
{
    let v = d.version;
    let p = scale_at(v);
    let hd = head_bytes(d);
    let pass = if v > 1 {
        le64(d.passthrough as u64)
    } else {
        Seq::<u8>::empty()
    };
    let f0 = le32(MAGIC as u32);
    let f1 = le32(v as u32);
    let f2 = le32(d.width as u32);
    let f3 = le32(d.height as u32);
    let f5 = le16(d.scale_frac);
    let f6 = le32(d.scale_int as u32);
    let f7 = le32((d.provinces.len() as i32) as u32);
    assert(hd.len() == p + 10);
    assert(hd =~= Seq::<u8>::empty() + f0 + hd.subrange(4, p + 10));
    lemma_has_at_concat(Seq::<u8>::empty(), f0, hd.subrange(4, p + 10));
    lemma_has_at_within(b, 0, hd, 0, f0);
    lemma_i32_has(b, 0, MAGIC);
    assert(hd =~= hd.subrange(0, 4) + f1 + hd.subrange(8, p + 10));
    lemma_has_at_concat(hd.subrange(0, 4), f1, hd.subrange(8, p + 10));
    lemma_has_at_within(b, 0, hd, 4, f1);
    lemma_i32_has(b, 4, v);
    assert(hd =~= hd.subrange(0, 8) + f2 + hd.subrange(12, p + 10));
    lemma_has_at_concat(hd.subrange(0, 8), f2, hd.subrange(12, p + 10));
    lemma_has_at_within(b, 0, hd, 8, f2);
    lemma_i32_has(b, 8, d.width);
    assert(hd =~= hd.subrange(0, 12) + f3 + hd.subrange(16, p + 10));
    lemma_has_at_concat(hd.subrange(0, 12), f3, hd.subrange(16, p + 10));
    lemma_has_at_within(b, 0, hd, 12, f3);
    lemma_i32_has(b, 12, d.height);
    if v > 1 {
        assert(hd =~= hd.subrange(0, 16) + pass + hd.subrange(24, p + 10));
        lemma_has_at_concat(hd.subrange(0, 16), pass, hd.subrange(24, p + 10));
        lemma_has_at_within(b, 0, hd, 16, pass);
        crate::le::lemma_get64_eq(b, 16, d.passthrough as u64);
        crate::le::lemma_i64_round(d.passthrough);
    }
    assert(hd =~= hd.subrange(0, p) + f5 + hd.subrange(p + 2, p + 10));
    lemma_has_at_concat(hd.subrange(0, p), f5, hd.subrange(p + 2, p + 10));
    lemma_has_at_within(b, 0, hd, p, f5);
    assert(b[p] == f5[0] && b[p + 1] == f5[1]);
    crate::le::lemma_get16_eq(b, p, d.scale_frac);
    assert(hd =~= hd.subrange(0, p + 2) + f6 + hd.subrange(p + 6, p + 10));
    lemma_has_at_concat(hd.subrange(0, p + 2), f6, hd.subrange(p + 6, p + 10));
    lemma_has_at_within(b, 0, hd, p + 2, f6);
    lemma_i32_has(b, p + 2, d.scale_int);
    assert(hd =~= hd.subrange(0, p + 6) + f7 + Seq::<u8>::empty());
    lemma_has_at_concat(hd.subrange(0, p + 6), f7, Seq::<u8>::empty());
    lemma_has_at_within(b, 0, hd, p + 6, f7);
    lemma_i32_has(b, p + 6, d.provinces.len() as i32);
}

proof fn lemma_six_parts(
    a: Seq<u8>,
    b: Seq<u8>,
    c: Seq<u8>,
    d: Seq<u8>,
    e: Seq<u8>,
    f: Seq<u8>,
)
    ensures
        has_at(a + b + c + d + e + f, 0, a),
        has_at(a + b + c + d + e + f, a.len() as int, b),
        has_at(a + b + c + d + e + f, (a.len() + b.len()) as int, c),
        has_at(a + b + c + d + e + f, (a.len() + b.len() + c.len()) as int, d),
        has_at(a + b + c + d + e + f, (a.len() + b.len() + c.len() + d.len()) as int, e),
        (a + b + c + d + e + f).subrange(
            (a.len() + b.len() + c.len() + d.len() + e.len()) as int,
            (a + b + c + d + e + f).len() as int,
        ) == f,
{
    let s = a + b + c + d + e + f;
    let o1 = a.len() as int;
    let o2 = o1 + b.len();
    let o3 = o2 + c.len();
    let o4 = o3 + d.len();
    let o5 = o4 + e.len();
    assert forall|j: int| 0 <= j < a.len() implies s[0 + j] == #[trigger] a[j] by {}
    assert forall|j: int| 0 <= j < b.len() implies s[o1 + j] == #[trigger] b[j] by {}
    assert forall|j: int| 0 <= j < c.len() implies s[o2 + j] == #[trigger] c[j] by {}
    assert forall|j: int| 0 <= j < d.len() implies s[o3 + j] == #[trigger] d[j] by {}
    assert forall|j: int| 0 <= j < e.len() implies s[o4 + j] == #[trigger] e[j] by {}
    assert(s.subrange(o5, s.len() as int) =~= f);
}

/// Reading back what was written gives the recipe that was written.
#[verifier::spinoff_prover]
#[verifier::rlimit(40)]
pub proof fn lemma_parse_written(d: D6mView)
    requires
        well_formed(d),
    ensures
        spec_parse(spec_to_bytes(d)) == Ok::<D6mView, Error>(d),
{
    let b = spec_to_bytes(d);
    let hd = head_bytes(d);
    let v = d.version;
    let p = scale_at(v);
    let s = prov_len(v);
    let count = d.provinces.len() as int;
    let n = d.width * d.height;
    let ps = provs_bytes(d.provinces, v);
    let hs = i16s_bytes(d.heights);
    let os = i16s_bytes(d.owners);
    let e = le32(END_MAGIC as u32);
    let t = d.trailing;
    let q = p + 10;
    let r = q + count * s;
    assert(hd.len() == q);
    assert(ps.len() == count * s);
    assert(hs.len() == 2 * n && os.len() == 2 * n);
    assert(b.len() == r + 4 * n + 4 + t.len());
    lemma_six_parts(hd, ps, hs, os, e, t);
    lemma_head_reads(d, b);
    lemma_provs_has(b, q, d.provinces, v);
    lemma_i16s_has(b, r, d.heights);
    lemma_i16s_has(b, r + 2 * n, d.owners);
    lemma_i32_has(b, r + 4 * n, END_MAGIC);
    assert(b.subrange(r + 4 * n + 4, b.len() as int) =~= t);
    let got = spec_parse(b);
    assert(got matches Ok(g) && g.provinces == d.provinces && g.heights == d.heights && g.owners
        == d.owners && g.trailing == d.trailing);
}

proof fn lemma_i16s_of_at(b: Seq<u8>, o: int, n: int)
    requires
        0 <= o,
        0 <= n,
        o + 2 * n <= b.len(),
    ensures
        i16s_bytes(i16s_at(b, o, n)) == b.subrange(o, o + 2 * n),
{
    let x = i16s_bytes(i16s_at(b, o, n));
    assert forall|j: int| 0 <= j < 2 * n implies x[j] == b[o + j] by {
        let k = j / 2;
        crate::le::lemma_u16_round(get16(b, o + 2 * k));
        crate::le::lemma_le16_of_get(b, o + 2 * k);
        assert(b.subrange(o + 2 * k, o + 2 * k + 2)[j % 2] == b[o + 2 * k + j % 2]);
    }
    assert(x =~= b.subrange(o, o + 2 * n));
}

proof fn lemma_provs_of_at(b: Seq<u8>, o: int, count: int, version: i32)
    requires
        0 <= o,
        0 <= count,
        o + count * prov_len(version) <= b.len(),
    ensures
        provs_bytes(
            Seq::new(count as nat, |k: int| prov_at(b, o + k * prov_len(version), version)),
            version,
        ) == b.subrange(o, o + count * prov_len(version)),
{
    let s = prov_len(version);
    let ps = Seq::new(count as nat, |k: int| prov_at(b, o + k * s, version));
    let x = provs_bytes(ps, version);
    assert forall|j: int| 0 <= j < count * s implies x[j] == b[o + j] by {
        let k = j / s;
        let i = j % s;
        assert(0 <= k < count && 0 <= i < s && j == k * s + i) by {
            if version > 2 {
            } else {
            }
        }
        assert(k * s + s <= count * s) by (nonlinear_arith)
            requires k < count, s > 0;
        let at = o + k * s;
        let pv = ps[k];
        crate::le::lemma_u16_round(get16(b, at));
        crate::le::lemma_u16_round(get16(b, at + 2));
        crate::le::lemma_le16_of_get(b, at);
        crate::le::lemma_le16_of_get(b, at + 2);
        let pb = prov_bytes(pv, version);
        assert(b.subrange(at, at + 2)[0] == b[at] && b.subrange(at, at + 2)[1] == b[at + 1]);
        assert(b.subrange(at + 2, at + 4)[0] == b[at + 2] && b.subrange(at + 2, at + 4)[1] == b[at
            + 3]);
        if version > 2 {
            crate::le::lemma_u64_round(get64(b, at + 4));
            crate::le::lemma_bytes_u64(b, at + 4);
            if i >= 4 {
                assert(b.subrange(at + 4, at + 12)[i - 4] == b[at + i]);
            }
        }
        assert(pb[i] == b[at + i]);
    }
    assert(x =~= b.subrange(o, o + count * s));
}

/// Writing what was read gives back the bytes that were read.
pub proof fn lemma_written_parse(b: Seq<u8>)
    requires
        spec_parse(b) is Ok,
    ensures
        spec_to_bytes(spec_parse(b)->Ok_0) == b,
{
    let d = spec_parse(b)->Ok_0;
    let v = d.version;
    let p = scale_at(v);
    let s = prov_len(v);
    let count = i32_at(b, p + 6) as int;
    let n = d.width * d.height;
    let q = p + 10;
    let r = q + count * s;
    let len = b.len() as int;
    crate::le::lemma_le32_of_get(b, 0);
    crate::le::lemma_u32_round(get32(b, 0));
    crate::le::lemma_le32_of_get(b, 4);
    crate::le::lemma_u32_round(get32(b, 4));
    crate::le::lemma_le32_of_get(b, 8);
    crate::le::lemma_u32_round(get32(b, 8));
    crate::le::lemma_le32_of_get(b, 12);
    crate::le::lemma_u32_round(get32(b, 12));
    if v > 1 {
        crate::le::lemma_bytes_u64(b, 16);
        crate::le::lemma_u64_round(get64(b, 16));
    }
    crate::le::lemma_le16_of_get(b, p);
    crate::le::lemma_le32_of_get(b, p + 2);
    crate::le::lemma_u32_round(get32(b, p + 2));
    crate::le::lemma_le32_of_get(b, p + 6);
    crate::le::lemma_u32_round(get32(b, p + 6));
    assert(d.provinces.len() == count);
    assert(head_bytes(d) =~= b.subrange(0, q));
    lemma_provs_of_at(b, q, count, v);
    assert(provs_bytes(d.provinces, v) == b.subrange(q, r));
    lemma_i16s_of_at(b, r, n);
    lemma_i16s_of_at(b, r + 2 * n, n);
    crate::le::lemma_le32_of_get(b, r + 4 * n);
    crate::le::lemma_u32_round(get32(b, r + 4 * n));
    assert(spec_to_bytes(d) =~= b.subrange(0, q) + b.subrange(q, r) + b.subrange(r, r + 2 * n)
        + b.subrange(r + 2 * n, r + 4 * n) + b.subrange(r + 4 * n, r + 4 * n + 4) + b.subrange(
        r + 4 * n + 4,
        len,
    ));
    assert(spec_to_bytes(d) =~= b);
}

} // verus!
