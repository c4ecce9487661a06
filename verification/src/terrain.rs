//! Province terrain masks: the bits of a `#terrain` value and what they mean.
use vstd::prelude::*;
use vstd::string::StringExecFns;

verus! {

pub const SMALL: u64 = 1;
pub const LARGE: u64 = 2;
pub const SEA: u64 = 4;
pub const FRESH_WATER: u64 = 8;
pub const HIGHLAND: u64 = 16;
pub const SWAMP: u64 = 32;
pub const WASTE: u64 = 64;
pub const FOREST: u64 = 128;
pub const FARM: u64 = 256;
pub const NO_START: u64 = 512;
pub const MANY_SITES: u64 = 1024;
pub const DEEP_SEA: u64 = 2048;
pub const CAVE: u64 = 4096;
pub const MOUNTAIN: u64 = 0x80_0000;
pub const GOOD_THRONE: u64 = 0x200_0000;
pub const GOOD_START: u64 = 0x400_0000;
pub const BAD_THRONE: u64 = 0x800_0000;
pub const WARMER: u64 = 0x4000_0000;
pub const COLDER: u64 = 0x8000_0000;
pub const UNKNOWN: u64 = 0x1_0000_0000;
pub const BORDER_MOUNTAIN: u64 = 0x4_0000_0000;
pub const CAVE_WALL: u64 = 0x10_0000_0000;
/// A province of the void: no nation starts there.
pub const VOID_LAND: u64 = 0x8_0000_0000;
pub const GATEWAY: u64 = 0x20_0000_0000;
pub const CAVE_LOOK: u64 = 0x800_0000_0000_0000;
pub const ALWAYS_WATER: u64 = 0x1000_0000_0000_0000;
pub const KELP_EXACT: u64 = 0x84;

pub const NAMED: [(u64, &'static str); 25] = [
    (SMALL, "Small province"),
    (LARGE, "Large province"),
    (SEA, "Sea"),
    (FRESH_WATER, "Fresh water"),
    (HIGHLAND, "Highlands"),
    (SWAMP, "Swamp"),
    (WASTE, "Waste"),
    (FOREST, "Forest"),
    (FARM, "Farm"),
    (NO_START, "No start"),
    (MANY_SITES, "Many sites"),
    (DEEP_SEA, "Deep sea"),
    (CAVE, "Cave"),
    (MOUNTAIN, "Mountain"),
    (GOOD_THRONE, "Throne site"),
    (GOOD_START, "Start"),
    (BAD_THRONE, "No throne"),
    (WARMER, "Warmer"),
    (COLDER, "Colder"),
    (UNKNOWN, "Unknown"),
    (BORDER_MOUNTAIN, "Border mountain"),
    (CAVE_WALL, "Cave wall"),
    (GATEWAY, "Gateway"),
    (CAVE_LOOK, "Cave look"),
    (ALWAYS_WATER, "Always water"),
];

/// The texts joined with a separator between each two.
pub open spec fn joined(parts: Seq<Seq<char>>, sep: Seq<char>) -> Seq<char>
    decreases parts.len(),
{
    if parts.len() == 0 {
        Seq::empty()
    } else if parts.len() == 1 {
        parts[0]
    } else {
        joined(parts.drop_last(), sep) + sep + parts.last()
    }
}

/// The names, in table order, of the table's bits that are set in `mask`.
pub open spec fn names_in(table: Seq<(u64, &'static str)>, mask: u64) -> Seq<Seq<char>>
    decreases table.len(),
{
    if table.len() == 0 {
        Seq::empty()
    } else {
        let rest = names_in(table.drop_last(), mask);
        if mask & table.last().0 != 0 {
            rest.push(table.last().1@)
        } else {
            rest
        }
    }
}

/// The names of a mask's bits, comma separated, or "Plains" when no named bit is set.
pub fn describe(mask: u64) -> (s: String)
    ensures
        s@ == if names_in(NAMED@, mask).len() == 0 {
            "Plains"@
        } else {
            joined(names_in(NAMED@, mask), ", "@)
        },
{
    let mut out = String::new();
    let mut any = false;
    let mut i: usize = 0;
    while i < 25
        invariant
            i <= 25,
            any == (names_in(NAMED@.take(i as int), mask).len() > 0),
            out@ == joined(names_in(NAMED@.take(i as int), mask), ", "@),
        decreases 25 - i,
    {
        proof {
            assert(NAMED@.take(i + 1).drop_last() =~= NAMED@.take(i as int));
        }
        let (bit, name) = NAMED[i];
        proof {
            let parts = names_in(NAMED@.take(i as int), mask);
            assert(NAMED@.take(i + 1).last() == (bit, name));
            assert(parts.push(name@).drop_last() =~= parts);
        }
        if mask & bit != 0 {
            if any {
                out.append(", ");
            }
            out.append(name);
            any = true;
        }
        i += 1;
    }
    proof {
        assert(NAMED@.take(25) =~= NAMED@);
    }
    if !any {
        return String::from_str("Plains");
    }
    out
}

/// The province is water.
pub fn is_water(mask: u64) -> (r: bool)
    ensures
        r == (mask & SEA != 0),
{
    mask & SEA != 0
}

/// The mask turned into sea: the sea bit set, fresh water cleared, and the
/// deep-sea bit set or cleared as asked.
pub fn make_sea(mask: u64, deep: bool) -> (m: u64)
    ensures
        m == if deep {
            ((mask | SEA) & !FRESH_WATER) | DEEP_SEA
        } else {
            ((mask | SEA) & !FRESH_WATER) & !DEEP_SEA
        },
{
    let mut m = (mask | SEA) & !FRESH_WATER;
    if deep {
        m = m | DEEP_SEA;
    } else {
        m = m & !DEEP_SEA;
    }
    m
}

/// The mask turned into land: both sea bits cleared.
pub fn make_land(mask: u64) -> (m: u64)
    ensures
        m == mask & !(SEA | DEEP_SEA),
{
    mask & !(SEA | DEEP_SEA)
}

/// Land made into sea is water, and sea made into land is not; other bits
/// than the water bits survive both.
pub proof fn lemma_sea_and_land(mask: u64, deep: bool)
    ensures
        ({
            let s = if deep {
                ((mask | SEA) & !FRESH_WATER) | DEEP_SEA
            } else {
                ((mask | SEA) & !FRESH_WATER) & !DEEP_SEA
            };
            &&& s & SEA != 0
            &&& (s & DEEP_SEA != 0) == deep
            &&& s & FRESH_WATER == 0
            &&& s & !(SEA | DEEP_SEA | FRESH_WATER) == mask & !(SEA | DEEP_SEA | FRESH_WATER)
        }),
        (mask & !(SEA | DEEP_SEA)) & SEA == 0,
        (mask & !(SEA | DEEP_SEA)) & DEEP_SEA == 0,
        (mask & !(SEA | DEEP_SEA)) & !(SEA | DEEP_SEA) == mask & !(SEA | DEEP_SEA),
{
    if deep {
        assert({
            let s = ((mask | 4u64) & !8u64) | 2048u64;
            &&& s & 4u64 != 0
            &&& s & 2048u64 != 0
            &&& s & 8u64 == 0
            &&& s & !(4u64 | 2048u64 | 8u64) == mask & !(4u64 | 2048u64 | 8u64)
        }) by (bit_vector);
    } else {
        assert({
            let s = ((mask | 4u64) & !8u64) & !2048u64;
            &&& s & 4u64 != 0
            &&& s & 2048u64 == 0
            &&& s & 8u64 == 0
            &&& s & !(4u64 | 2048u64 | 8u64) == mask & !(4u64 | 2048u64 | 8u64)
        }) by (bit_vector);
    }
    assert((mask & !(4u64 | 2048u64)) & 4u64 == 0 && (mask & !(4u64 | 2048u64)) & 2048u64 == 0 && (
    mask & !(4u64 | 2048u64)) & !(4u64 | 2048u64) == mask & !(4u64 | 2048u64)) by (bit_vector);
}

pub const BORDER_MOUNTAIN_PASS: u64 = 1;
pub const BORDER_RIVER: u64 = 2;
pub const BORDER_IMPASSABLE: u64 = 4;
pub const BORDER_BRIDGE: u64 = 0x10;
pub const BORDER_MOUNTAIN_LINE: u64 = 0x20;
pub const BORDER_CARVED: u64 = 0x12;

} // verus!
