use super::chunk::CHUNK_LENGTH;
use super::generation::SurfaceHeightmap;
use crate::codec::encode::{Encode, Encoder};
use crate::codec::{uvarint, NodeKind};
use crate::util::ConcreteEq;
use vstd::prelude::*;
use vstd::std_specs::cmp::PartialEqSpecImpl;

verus! {

/// A packed light level: sky light in bits 4..8, block light in bits 0..4.
#[derive(Copy, Clone, Debug, Eq, Hash, Default)]
pub struct LightValue(pub u16);

impl PartialEq for LightValue {
    fn eq(&self, other: &Self) -> (r: bool) {
        self.0 == other.0
    }
}

impl PartialEqSpecImpl for LightValue {
    open spec fn obeys_eq_spec() -> bool {
        true
    }

    open spec fn eq_spec(&self, other: &Self) -> bool {
        self.0 == other.0
    }
}

impl ConcreteEq for LightValue {
    proof fn lemma_eq_is_equality() {
        reveal(vstd::laws_eq::obeys_concrete_eq);
    }
}

impl Encode for LightValue {
    open spec fn kind_spec() -> NodeKind {
        NodeKind::UnsignedVarInt
    }

    open spec fn encoding(&self) -> Seq<u8> {
        uvarint(self.0 as nat)
    }

    fn kind() -> (k: NodeKind) {
        NodeKind::UnsignedVarInt
    }

    fn encode(&self, encoder: &mut Encoder) {
        encoder.encode(&self.0)
    }
}

pub const SKY_LIGHT_BITS: u16 = 4;

pub const BLOCK_LIGHT_BITS: u16 = 4;

pub const SKY_LIGHT_MASK: u16 = 0xf0;

pub const BLOCK_LIGHT_MASK: u16 = 0x0f;

pub open spec fn max_u16(a: u16, b: u16) -> u16 {
    if a >= b {
        a
    } else {
        b
    }
}

/// Full sky light and no block light.
pub fn full_sky_light() -> (r: LightValue)
    ensures
        r == LightValue(0xf0),
{
    LightValue::pack(15, 0)
}

impl LightValue {
    pub fn new(value: u16) -> (r: Self)
        ensures
            r == LightValue(value),
    {
        Self(value)
    }

    /// Packs the low four bits of each level.
    pub fn pack(sky: u16, block: u16) -> (r: Self)
        ensures
            r.0 == (sky % 16) * 16 + block % 16,
    {
        let mut val: u16 = 0;
        val |= block & BLOCK_LIGHT_MASK;
        val |= (sky << BLOCK_LIGHT_BITS) & SKY_LIGHT_MASK;
        assert(val == (sky % 16) * 16 + block % 16) by (bit_vector)
            requires
                val == (0u16 | (block & 0x0f)) | ((sky << 4u16) & 0xf0),
        ;
        Self(val)
    }

    pub fn raw(self) -> (r: u16)
        ensures
            r == self.0,
    {
        self.0
    }

    pub fn sky(self) -> (r: u16)
        ensures
            r == self.0 / 16,
    {
        let v = self.0;
        let r = v >> BLOCK_LIGHT_BITS;
        assert(r == v / 16) by (bit_vector)
            requires
                r == v >> 4u16,
        ;
        r
    }

    pub fn block(self) -> (r: u16)
        ensures
            r == self.0 % 16,
    {
        let v = self.0;
        let r = v & BLOCK_LIGHT_MASK;
        assert(r == v % 16) by (bit_vector)
            requires
                r == v & 0x0f,
        ;
        r
    }

    /// The brighter of the two levels.
    pub fn intensity(self) -> (r: u16)
        ensures
            r == max_u16(self.0 / 16, self.0 % 16),
    {
        if self.sky() > self.block() {
            self.sky()
        } else {
            self.block()
        }
    }

    /// The brighter sky level and the brighter block level of two values.
    pub fn combine_max(self, other: LightValue) -> (r: LightValue)
        ensures
            r.0 == max_u16(self.0 % 256 / 16, other.0 % 256 / 16) * 16 + max_u16(
                self.0 % 16,
                other.0 % 16,
            ),
    {
        let a = self.0;
        let b = other.0;
        let block = if a & BLOCK_LIGHT_MASK >= b & BLOCK_LIGHT_MASK {
            a & BLOCK_LIGHT_MASK
        } else {
            b & BLOCK_LIGHT_MASK
        };
        let sky = if a & SKY_LIGHT_MASK >= b & SKY_LIGHT_MASK {
            a & SKY_LIGHT_MASK
        } else {
            b & SKY_LIGHT_MASK
        };
        assert(a & 0x0f == a % 16 && b & 0x0f == b % 16) by (bit_vector);
        assert(a & 0xf0 == (a % 256 / 16) * 16 && b & 0xf0 == (b % 256 / 16) * 16) by (bit_vector);
        assert((a & 0xf0) & 0x0f == 0 && (b & 0xf0) & 0x0f == 0) by (bit_vector);
        assert(a & 0x0f < 16 && b & 0x0f < 16) by (bit_vector);
        let r = sky | block;
        assert(r == sky + block) by (bit_vector)
            requires
                r == sky | block,
                sky & 0x0f == 0,
                block < 16,
        ;
        LightValue(r)
    }
}

/// Packing two levels below 16 and reading them back gives the same levels.
pub proof fn lemma_pack_roundtrip(sky: u16, block: u16)
    requires
        sky < 16,
        block < 16,
    ensures
        ((sky % 16) * 16 + block % 16) / 16 == sky,
        ((sky % 16) * 16 + block % 16) % 16 == block,
{
}

/// Combining light values does not depend on their order, and combining a
/// value with itself keeps it, for values that use only the eight light bits.
pub proof fn lemma_combine_max_laws(a: u16, b: u16)
    ensures
        max_u16(a % 256 / 16, b % 256 / 16) * 16 + max_u16(a % 16, b % 16) == max_u16(
            b % 256 / 16,
            a % 256 / 16,
        ) * 16 + max_u16(b % 16, a % 16),
        a < 256 ==> max_u16(a % 256 / 16, a % 256 / 16) * 16 + max_u16(a % 16, a % 16) == a,
{
}


// ---------------------------------------------------------------------------
// sky light columns
// ---------------------------------------------------------------------------
/// The keys of the intervals increase strictly.
pub open spec fn keys_sorted(s: Seq<(i32, bool)>) -> bool {
    forall|i: int, j: int| 0 <= i < j < s.len() ==> s[i].0 < s[j].0
}

/// How many interval starts lie at or below `y`.
pub open spec fn count_le(s: Seq<(i32, bool)>, y: int) -> nat
    decreases s.len(),
{
    if s.len() == 0 {
        0
    } else {
        count_le(s.drop_last(), y) + if s.last().0 <= y {
            1nat
        } else {
            0nat
        }
    }
}

/// The column's intervals are well formed: each starts above the previous
/// one, solidity alternates starting with an open interval, and the topmost
/// interval is open (so there is an odd number of them).
pub open spec fn node_wf(s: Seq<(i32, bool)>) -> bool {
    &&& keys_sorted(s)
    &&& s.len() % 2 == 1
    &&& forall|i: int| 0 <= i < s.len() ==> #[trigger] s[i].1 == (i % 2 == 1)
}

/// Whether height `y` of a column is solid: below the lowest interval
/// everything is solid, and each interval start flips solidity.
pub open spec fn solid_at(s: Seq<(i32, bool)>, y: int) -> bool {
    count_le(s, y) % 2 == 0
}

proof fn lemma_count_le_char(s: Seq<(i32, bool)>, y: int, p: int)
    requires
        keys_sorted(s),
        0 <= p <= s.len(),
        p == 0 || s[p - 1].0 <= y,
        p == s.len() || y < s[p].0,
    ensures
        count_le(s, y) == p,
    decreases s.len(),
{
    if s.len() > 0 {
        let d = s.drop_last();
        if p == s.len() {
            lemma_count_le_char(d, y, p - 1);
        } else {
            assert(s.last().0 >= s[p].0);
            lemma_count_le_char(d, y, p);
        }
    }
}

proof fn lemma_count_le_bounds(s: Seq<(i32, bool)>, y: int)
    requires
        keys_sorted(s),
    ensures
        count_le(s, y) <= s.len(),
        count_le(s, y) == 0 || s[count_le(s, y) - 1].0 <= y,
        count_le(s, y) == s.len() || y < s[count_le(s, y) as int].0,
    decreases s.len(),
{
    if s.len() > 0 {
        let d = s.drop_last();
        lemma_count_le_bounds(d, y);
        let q = count_le(d, y);
        if s.last().0 <= y {
            if q < d.len() {
                assert(s[q as int].0 <= s.last().0);
                assert(false);
            }
        }
    }
}

proof fn lemma_count_le_insert(s: Seq<(i32, bool)>, i: int, e: (i32, bool), y: int)
    requires
        keys_sorted(s),
        0 <= i <= s.len(),
        keys_sorted(s.insert(i, e)),
    ensures
        count_le(s.insert(i, e), y) == count_le(s, y) + if e.0 <= y {
            1int
        } else {
            0int
        },
{
    let s2 = s.insert(i, e);
    lemma_count_le_bounds(s, y);
    let p = count_le(s, y) as int;
    if e.0 <= y {
        if i > p {
            assert(s2[p].0 < s2[i].0);
            assert(s2[p] == s[p]);
            assert(false);
        }
        lemma_count_le_char(s2, y, p + 1);
    } else {
        if i < p {
            assert(s2[i].0 < s2[p].0);
            assert(s2[p] == s[p - 1]);
            assert(false);
        }
        lemma_count_le_char(s2, y, p);
    }
}

proof fn lemma_count_le_remove(s: Seq<(i32, bool)>, i: int, y: int)
    requires
        keys_sorted(s),
        0 <= i < s.len(),
    ensures
        keys_sorted(s.remove(i)),
        count_le(s.remove(i), y) == count_le(s, y) - if s[i].0 <= y {
            1int
        } else {
            0int
        },
{
    let s2 = s.remove(i);
    assert(keys_sorted(s2)) by {
        assert forall|a: int, b: int| 0 <= a < b < s2.len() implies s2[a].0 < s2[b].0 by {
            let a0 = if a < i { a } else { a + 1 };
            let b0 = if b < i { b } else { b + 1 };
            assert(s2[a] == s[a0] && s2[b] == s[b0]);
        }
    }
    lemma_count_le_bounds(s, y);
    let p = count_le(s, y) as int;
    if s[i].0 <= y {
        assert(i < p) by {
            if i >= p {
                assert(s[p].0 <= s[i].0);
            }
        }
        lemma_count_le_char(s2, y, p - 1);
    } else {
        assert(i >= p) by {
            if i < p {
                assert(s[i].0 <= s[p - 1].0);
            }
        }
        lemma_count_le_char(s2, y, p);
    }
}

/// The counts of interval starts after the two steps of an update: one start
/// at `y` and one at `y + 1` are each added or removed.
proof fn lemma_update_counts(
    s0: Seq<(i32, bool)>,
    s1: Seq<(i32, bool)>,
    s2: Seq<(i32, bool)>,
    y: int,
    z: int,
)
    requires
        forall|w: int|
            #![trigger count_le(s1, w)]
            count_le(s1, w) == count_le(s0, w) + if y <= w {
                1int
            } else {
                0int
            } || count_le(s1, w) == count_le(s0, w) - if y <= w {
                1int
            } else {
                0int
            },
        (forall|w: int|
            #![trigger count_le(s1, w)]
            count_le(s1, w) == count_le(s0, w) + if y <= w {
                1int
            } else {
                0int
            }) || (forall|w: int|
            #![trigger count_le(s1, w)]
            count_le(s1, w) == count_le(s0, w) - if y <= w {
                1int
            } else {
                0int
            }),
        (forall|w: int|
            #![trigger count_le(s2, w)]
            count_le(s2, w) == count_le(s1, w) + if y + 1 <= w {
                1int
            } else {
                0int
            }) || (forall|w: int|
            #![trigger count_le(s2, w)]
            count_le(s2, w) == count_le(s1, w) - if y + 1 <= w {
                1int
            } else {
                0int
            }),
    ensures
        z != y ==> solid_at(s2, z) == solid_at(s0, z),
        z == y ==> solid_at(s2, z) != solid_at(s0, z),
{
    assert(count_le(s1, z) == count_le(s1, z));
    assert(count_le(s2, z) == count_le(s2, z));
}

/// The first step of an update: the interval holding `y` now starts at `y`
/// with the new solidity, either by dropping the boundary at `y` or by adding
/// one there.
proof fn lemma_update_lower(
    s0: Seq<(i32, bool)>,
    p: int,
    y: i32,
    solid: bool,
    s1: Seq<(i32, bool)>,
    q: int,
)
    requires
        node_wf(s0),
        p == count_le(s0, y as int),
        y > i32::MIN,
        solid != solid_at(s0, y as int),
        (p > 0 && s0[p - 1].0 == y && s1 == s0.remove(p - 1) && q == p - 1) || (!(p > 0 && s0[p
            - 1].0 == y) && s1 == s0.insert(p, (y, solid)) && q == p + 1),
    ensures
        keys_sorted(s1),
        0 <= q <= s1.len(),
        s1.len() % 2 == 0,
        forall|j: int| 0 <= j < q ==> s1[j].0 <= y,
        forall|j: int| q <= j < s1.len() ==> s1[j].0 > y,
        forall|j: int| 0 <= j < q ==> #[trigger] s1[j].1 == (j % 2 == 1),
        forall|j: int| q <= j < s1.len() ==> #[trigger] s1[j].1 == (j % 2 == 0),
        q < s1.len() ==> s1[q] == s0[p],
        q == s1.len() ==> p == s0.len(),
        q > 0 ==> s1[q - 1].1 == solid,
        q == 0 ==> solid,
        (forall|w: int|
            #![trigger count_le(s1, w)]
            count_le(s1, w) == count_le(s0, w) + if y <= w {
                1int
            } else {
                0int
            }) || (forall|w: int|
            #![trigger count_le(s1, w)]
            count_le(s1, w) == count_le(s0, w) - if y <= w {
                1int
            } else {
                0int
            }),
{
    lemma_count_le_bounds(s0, y as int);
    if p > 0 && s0[p - 1].0 == y {
        assert forall|w: int| #![trigger count_le(s1, w)] count_le(s1, w) == count_le(s0, w) - if y
            <= w {
            1int
        } else {
            0int
        } by {
            lemma_count_le_remove(s0, p - 1, w);
        }
        assert forall|j: int| 0 <= j < s1.len() implies #[trigger] s1[j] == if j < p - 1 {
            s0[j]
        } else {
            s0[j + 1]
        } by {}
        assert(keys_sorted(s1)) by {
            lemma_count_le_remove(s0, p - 1, y as int);
        }
    } else {
        assert(p == 0 || s0[p - 1].0 < y);
        assert forall|j: int| 0 <= j < s1.len() implies #[trigger] s1[j] == if j < p {
            s0[j]
        } else if j == p {
            (y, solid)
        } else {
            s0[j - 1]
        } by {}
        assert(keys_sorted(s1)) by {
            assert forall|a: int, b: int| 0 <= a < b < s1.len() implies s1[a].0 < s1[b].0 by {
                if a < p && b > p {
                    assert(s0[a].0 <= s0[p - 1].0);
                }
                if a > p {
                    assert(s0[a - 1].0 < s0[b - 1].0);
                }
            }
        }
        assert forall|w: int| #![trigger count_le(s1, w)] count_le(s1, w) == count_le(s0, w) + if y
            <= w {
            1int
        } else {
            0int
        } by {
            lemma_count_le_insert(s0, p, (y, solid), w);
        }
    }
}

/// The second step of an update: the interval above `y` starts at `y + 1`
/// with the old solidity, either by dropping the boundary at `y + 1` or by
/// adding one there.
proof fn lemma_update_upper(
    s1: Seq<(i32, bool)>,
    q: int,
    y: i32,
    solid: bool,
    max: i32,
    s2: Seq<(i32, bool)>,
)
    requires
        keys_sorted(s1),
        0 <= q <= s1.len(),
        s1.len() % 2 == 0,
        y < i32::MAX - 1,
        forall|j: int| 0 <= j < q ==> s1[j].0 <= y,
        forall|j: int| q <= j < s1.len() ==> s1[j].0 > y,
        forall|j: int| 0 <= j < q ==> #[trigger] s1[j].1 == (j % 2 == 1),
        forall|j: int| q <= j < s1.len() ==> #[trigger] s1[j].1 == (j % 2 == 0),
        q < s1.len() ==> s1[q].0 == max,
        q == s1.len() ==> max == i32::MAX,
        q > 0 ==> s1[q - 1].1 == solid,
        q == 0 ==> solid,
        (y + 1 == max && s2 == s1.remove(q)) || (y + 1 != max && s2 == s1.insert(
            q,
            ((y + 1) as i32, !solid),
        )),
    ensures
        node_wf(s2),
        (forall|w: int|
            #![trigger count_le(s2, w)]
            count_le(s2, w) == count_le(s1, w) + if y + 1 <= w {
                1int
            } else {
                0int
            }) || (forall|w: int|
            #![trigger count_le(s2, w)]
            count_le(s2, w) == count_le(s1, w) - if y + 1 <= w {
                1int
            } else {
                0int
            }),
{
    if y + 1 == max {
        assert(q < s1.len());
        assert forall|w: int| #![trigger count_le(s2, w)] count_le(s2, w) == count_le(s1, w) - if y
            + 1 <= w {
            1int
        } else {
            0int
        } by {
            lemma_count_le_remove(s1, q, w);
        }
        lemma_count_le_remove(s1, q, y as int);
        assert forall|j: int| 0 <= j < s2.len() implies #[trigger] s2[j].1 == (j % 2 == 1) by {
            if j >= q {
                assert(s2[j] == s1[j + 1]);
            } else {
                assert(s2[j] == s1[j]);
            }
        }
    } else {
        assert(q < s1.len() ==> s1[q].0 > y + 1);
        assert forall|j: int| 0 <= j < s2.len() implies #[trigger] s2[j] == if j < q {
            s1[j]
        } else if j == q {
            ((y + 1) as i32, !solid)
        } else {
            s1[j - 1]
        } by {}
        assert(keys_sorted(s2)) by {
            assert forall|a: int, b: int| 0 <= a < b < s2.len() implies s2[a].0 < s2[b].0 by {
                if a > q {
                    assert(s1[a - 1].0 < s1[b - 1].0);
                }
                if a < q && b > q {
                    assert(s1[b - 1].0 >= s1[q].0);
                }
            }
        }
        assert forall|w: int| #![trigger count_le(s2, w)] count_le(s2, w) == count_le(s1, w) + if y
            + 1 <= w {
            1int
        } else {
            0int
        } by {
            lemma_count_le_insert(s1, q, ((y + 1) as i32, !solid), w);
        }
        assert forall|j: int| 0 <= j < s2.len() implies #[trigger] s2[j].1 == (j % 2 == 1) by {
            if j > q {
                assert(s2[j] == s1[j - 1]);
            }
        }
    }
}

/// The solid and open intervals of one column of a chunk, from which the
/// height of its topmost solid block can be read.
#[derive(Clone, Debug)]
pub struct SkyLightNode {
    // each entry represents a range that starts at the height in the entry and
    // ends at the next entry's height (exclusive)
    intervals: Vec<(i32, bool)>,
}

impl View for SkyLightNode {
    type V = Seq<(i32, bool)>;

    closed spec fn view(&self) -> Seq<(i32, bool)> {
        self.intervals@
    }
}

impl SkyLightNode {
    pub fn init(y: i32, solid: bool) -> (r: Self)
        ensures
            r@ == seq![(y, solid)],
    {
        let mut intervals: Vec<(i32, bool)> = Vec::new();
        intervals.push((y, solid));
        Self { intervals }
    }

    /// The number of intervals that start at or below `y`.
    fn position(&self, y: i32) -> (p: usize)
        requires
            keys_sorted(self@),
        ensures
            p == count_le(self@, y as int),
    {
        let mut i: usize = 0;
        while i < self.intervals.len() && self.intervals[i].0 <= y
            invariant
                i <= self@.len(),
                forall|j: int| 0 <= j < i ==> self@[j].0 <= y,
            decreases self@.len() - i,
        {
            i += 1;
        }
        proof {
            lemma_count_le_char(self@, y as int, i as int);
        }
        i
    }

    /// The interval holding `y`: its start (or `i32::MIN` below the lowest
    /// interval), the start of the next one (or `i32::MAX`), and whether it is
    /// solid (everything below the lowest interval is).
    pub fn lookup(&self, y: i32) -> (r: (i32, i32, bool))
        requires
            keys_sorted(self@),
        ensures
            ({
                let p = count_le(self@, y as int) as int;
                &&& r.0 == if p == 0 {
                    i32::MIN
                } else {
                    self@[p - 1].0
                }
                &&& r.1 == if p == self@.len() {
                    i32::MAX
                } else {
                    self@[p].0
                }
                &&& r.2 == if p == 0 {
                    true
                } else {
                    self@[p - 1].1
                }
            }),
    {
        let p = self.position(y);
        proof {
            lemma_count_le_bounds(self@, y as int);
        }
        let (min, solid) = if p == 0 {
            (i32::MIN, true)
        } else {
            self.intervals[p - 1]
        };
        let max = if p == self.intervals.len() {
            i32::MAX
        } else {
            self.intervals[p].0
        };
        (min, max, solid)
    }

    /// Makes height `y` solid or open, leaving every other height as it was.
    pub fn update(&mut self, y: i32, solid: bool)
        requires
            node_wf(old(self)@),
            i32::MIN < y < i32::MAX - 1,
        ensures
            node_wf(final(self)@),
            solid_at(final(self)@, y as int) == solid,
            forall|z: int| z != y ==> solid_at(final(self)@, z) == solid_at(old(self)@, z),
    {
        let ghost s0 = self@;
        let p = self.position(y);
        proof {
            lemma_count_le_bounds(s0, y as int);
        }
        let (min, max, interval_solid) = self.lookup(y);
        assert(y == min ==> p > 0);
        if solid != interval_solid {
            let q: usize;
            if y == min {
                self.intervals.remove(p - 1);
                q = p - 1;
            } else {
                self.intervals.insert(p, (y, solid));
                let n = self.intervals.len();
                assert(p < n);
                q = p + 1;
            }
            let ghost s1 = self@;
            proof {
                lemma_update_lower(s0, p as int, y, solid, s1, q as int);
            }
            if y + 1 == max {
                self.intervals.remove(q);
            } else {
                self.intervals.insert(q, (y + 1, !solid));
            }
            proof {
                lemma_update_upper(s1, q as int, y, solid, max, self@);
                assert forall|z: int| z != y implies solid_at(self@, z) == solid_at(s0, z) by {
                    lemma_update_counts(s0, s1, self@, y as int, z);
                }
                lemma_update_counts(s0, s1, self@, y as int, y as int);
            }
        }
    }

    /// The start of the topmost interval: the height from which the column is
    /// open to the sky.
    pub fn top(&self) -> (r: i32)
        ensures
            r == if self@.len() == 0 {
                i32::MIN
            } else {
                self@.last().0
            },
    {
        if self.intervals.len() == 0 {
            i32::MIN
        } else {
            self.intervals[self.intervals.len() - 1].0
        }
    }
}

/// Every height at or above the top of a column is open, and the height just
/// below it is solid.
pub proof fn lemma_top_is_open_sky(s: Seq<(i32, bool)>, y: int)
    requires
        node_wf(s),
    ensures
        y >= s.last().0 ==> !solid_at(s, y),
        y == s.last().0 - 1 ==> solid_at(s, y),
{
    lemma_count_le_bounds(s, y);
    let p = count_le(s, y) as int;
    if y >= s.last().0 {
        if p < s.len() {
            assert(s[p].0 <= s.last().0);
        }
    }
    if y == s.last().0 - 1 {
        if p == s.len() {
            assert(s[p - 1].0 <= y);
        }
        if p < s.len() - 1 {
            assert(s[p].0 < s.last().0);
            assert(s[s.len() - 2].0 < s.last().0);
            assert(s[p].0 <= s[s.len() - 2].0);
        }
    }
}


/// The sky light columns of a chunk, one per (x, z).
#[derive(Clone, Debug)]
pub struct SkyLightColumns {
    nodes: Vec<SkyLightNode>,
}

impl View for SkyLightColumns {
    type V = Seq<Seq<(i32, bool)>>;

    closed spec fn view(&self) -> Seq<Seq<(i32, bool)>> {
        self.nodes@.map_values(|n: SkyLightNode| n@)
    }
}

impl SkyLightColumns {
    /// Every column is open above its surface height and solid below it.
    pub fn initialize(heightmap: &SurfaceHeightmap) -> (r: Self)
        requires
            heightmap.heights().len() >= 1024,
        ensures
            r@.len() == 1024,
            forall|i: int| 0 <= i < 1024 ==> #[trigger] r@[i] == seq![(heightmap.heights()[i], false)],
            forall|i: int| 0 <= i < 1024 ==> node_wf(#[trigger] r@[i]),
    {
        let mut nodes: Vec<SkyLightNode> = Vec::with_capacity(1024);
        let data = heightmap.data();
        let mut i: usize = 0;
        while i < 1024
            invariant
                i <= 1024,
                data@ == heightmap.heights(),
                data@.len() >= 1024,
                nodes@.len() == i,
                forall|j: int| 0 <= j < i ==> #[trigger] nodes@[j]@ == seq![(data@[j], false)],
            decreases 1024 - i,
        {
            nodes.push(SkyLightNode::init(data[i], false));
            i += 1;
        }
        let r = Self { nodes };
        assert forall|i: int| 0 <= i < 1024 implies node_wf(#[trigger] r@[i]) by {
            assert(r@[i] == seq![(data@[i], false)]);
        }
        r
    }

    pub fn node(&self, x: usize, z: usize) -> (r: &SkyLightNode)
        requires
            32 * x + z < self@.len(),
        ensures
            r@ == self@[32 * x + z],
    {
        let n = self.nodes.len();
        assert(self.nodes@.len() == self@.len());
        &self.nodes[CHUNK_LENGTH * x + z]
    }

    pub fn node_mut(&mut self, x: usize, z: usize) -> (r: &mut SkyLightNode)
        requires
            32 * x + z < old(self)@.len(),
        ensures
            r@ == old(self)@[32 * x + z],
            final(self)@ == old(self)@.update(32 * x + z, final(r)@),
    {
        let n = self.nodes.len();
        assert(self.nodes@.len() == self@.len());
        let i = CHUNK_LENGTH * x + z;
        let r = &mut self.nodes[i];
        r
    }
}

} // verus!
