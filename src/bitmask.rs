//! A set of offsets within a window of sixteen slots, held as the bits of a
//! `u16`.
use vstd::prelude::*;
use vstd::std_specs::bits::axiom_u16_trailing_zeros;

verus! {

/// Number of slots that one window (and one mask) covers.
pub const GROUP_WIDTH: usize = 16;

/// Whether bit `i` of `mask` is set, for an offset `i` in `[0, 16)`.
pub open spec fn has_offset(mask: u16, i: int) -> bool {
    0 <= i < 16 && (mask >> (i as u16)) & 1u16 == 1u16
}

/// The set of offsets whose bits are set in `mask`.
pub open spec fn offsets_of(mask: u16) -> Set<int> {
    Set::new(|i: int| has_offset(mask, i))
}

/// Setting bit `i` adds exactly offset `i`.
proof fn lemma_set_bit(m: u16, i: u16, j: u16)
    by (bit_vector)
    requires
        i < 16,
        j < 16,
    ensures
        ((m | (1u16 << i)) >> j) & 1u16 == 1u16 <==> ((m >> j) & 1u16 == 1u16 || i == j),
{
}

/// Or-ing two masks sets a bit iff either sets it.
proof fn lemma_or_bit(a: u16, b: u16, j: u16)
    by (bit_vector)
    requires
        j < 16,
    ensures
        ((a | b) >> j) & 1u16 == 1u16 <==> ((a >> j) & 1u16 == 1u16 || (b >> j) & 1u16 == 1u16),
{
}

/// `m & (m - 1)` clears the lowest set bit `t` and keeps every other bit.
proof fn lemma_clear_lowest(m: u16, t: u16, j: u16)
    by (bit_vector)
    requires
        t < 16,
        j < 16,
        (m >> t) & 1u16 == 1u16,
        m << ((16 - t) as u16) == 0,
    ensures
        m != 0,
        (((m & ((m - 1) as u16)) >> j) & 1u16 == 1u16) <==> ((m >> j) & 1u16 == 1u16 && j != t),
        m & ((m - 1) as u16) < m,
{
}

/// The mask of the first `n` bytes of `band` that equal `predicate`: bit `i`
/// is set iff `band[i] == predicate`, for `i < n`.
pub open spec fn match_mask(band: Seq<u8>, predicate: u8, n: nat) -> u16
    decreases n,
{
    if n == 0 {
        0
    } else {
        let rest = match_mask(band, predicate, (n - 1) as nat);
        if band[n - 1] == predicate {
            rest | (1u16 << ((n - 1) as u16))
        } else {
            rest
        }
    }
}

/// Adding bit `k` to one of two disjoint masks below bit `k` keeps them
/// disjoint and below bit `k + 1`.
proof fn lemma_disjoint_step(a: u16, b: u16, k: u16)
    by (bit_vector)
    requires
        k < 16,
        a & b == 0,
        a >> k == 0,
        b >> k == 0,
    ensures
        (a | (1u16 << k)) & b == 0,
        a & (b | (1u16 << k)) == 0,
        k + 1 < 16 ==> (a | (1u16 << k)) >> ((k + 1) as u16) == 0,
        k + 1 < 16 ==> a >> ((k + 1) as u16) == 0,
        k + 1 < 16 ==> b >> ((k + 1) as u16) == 0,
        k + 1 < 16 ==> (b | (1u16 << k)) >> ((k + 1) as u16) == 0,
{
}

/// Matching one band against two different predicates selects disjoint
/// sets of bits: a slot matches at most one of them.
pub proof fn lemma_matches_disjoint(band: Seq<u8>, p: u8, q: u8, n: nat)
    requires
        p != q,
        n <= 16,
        band.len() >= n,
    ensures
        match_mask(band, p, n) & match_mask(band, q, n) == 0,
        n < 16 ==> match_mask(band, p, n) >> (n as u16) == 0,
        n < 16 ==> match_mask(band, q, n) >> (n as u16) == 0,
    decreases n,
{
    if n == 0 {
        assert(0u16 & 0u16 == 0) by (bit_vector);
        assert(0u16 >> 0u16 == 0) by (bit_vector);
    } else {
        let k = (n - 1) as nat;
        lemma_matches_disjoint(band, p, q, k);
        let a = match_mask(band, p, k);
        let b = match_mask(band, q, k);
        let k16 = k as u16;
        lemma_disjoint_step(a, b, k16);
        assert(((k16 + 1) as u16) == n as u16);
    }
}

/// A mask is zero iff no offset is set.
pub proof fn lemma_zero_iff_empty(m: u16)
    ensures
        m == 0 <==> offsets_of(m) =~= Set::<int>::empty(),
{
    if m == 0 {
        assert forall|j: u16| j < 16 implies (m >> j) & 1u16 != 1u16 by {
            assert((0u16 >> j) & 1u16 == 0u16) by (bit_vector);
        }
        assert(offsets_of(m) =~= Set::<int>::empty());
    } else {
        axiom_u16_trailing_zeros(m);
        let t = m.trailing_zeros();
        assert(offsets_of(m).contains(t as int));
    }
}

/// A set of candidate offsets within a window of sixteen slots.
///
/// Bit `i` set means that offset `i` of the window is a candidate.
pub struct BitMask {
    mask: u16,
}

impl View for BitMask {
    type V = Set<int>;

    open spec fn view(&self) -> Set<int> {
        offsets_of(self.spec_bits())
    }
}

impl BitMask {
    /// The raw bits of the mask.
    pub closed spec fn spec_bits(&self) -> u16 {
        self.mask
    }

    /// The mask whose bits are `mask`.
    pub fn new(mask: u16) -> (r: BitMask)
        ensures
            r.spec_bits() == mask,
            r@ == offsets_of(mask),
    {
        BitMask { mask }
    }

    /// The raw bits of the mask.
    pub fn bits(&self) -> (r: u16)
        ensures
            r == self.spec_bits(),
    {
        self.mask
    }

    /// Whether any offset is set.
    pub fn any(&self) -> (r: bool)
        ensures
            r <==> self@ != Set::<int>::empty(),
            r <==> self.spec_bits() != 0,
    {
        proof {
            lemma_zero_iff_empty(self.mask);
        }
        self.mask != 0
    }

    /// Compares the first sixteen bytes of `band` with `predicate`: bit `i`
    /// of the result is set iff `band[i] == predicate`.
    pub fn matches(band: &[u8], predicate: u8) -> (r: BitMask)
        requires
            band@.len() >= GROUP_WIDTH,
        ensures
            r.spec_bits() == match_mask(band@, predicate, 16),
            forall|i: int| 0 <= i < 16 ==> (r@.contains(i) <==> band@[i] == predicate),
            r@ =~= Set::new(|i: int| 0 <= i < 16 && band@[i] == predicate),
    {
        let mut mask: u16 = 0;
        let mut i: usize = 0;
        proof {
            assert forall|j: int| 0 <= j < 16 implies !has_offset(mask, j) by {
                let j16 = j as u16;
                assert((0u16 >> j16) & 1u16 == 0u16) by (bit_vector);
            }
        }
        while i < GROUP_WIDTH
            invariant
                i <= GROUP_WIDTH,
                band@.len() >= GROUP_WIDTH,
                forall|j: int| 0 <= j < 16 ==> (has_offset(mask, j) <==> (j < i && band@[j] == predicate)),
                mask == match_mask(band@, predicate, i as nat),
            decreases GROUP_WIDTH - i,
        {
            if band[i] == predicate {
                let old_mask = mask;
                mask = mask | (1u16 << (i as u16));
                proof {
                    assert forall|j: int| 0 <= j < 16 implies (has_offset(mask, j) <==> (j < i + 1
                        && band@[j] == predicate)) by {
                        lemma_set_bit(old_mask, i as u16, j as u16);
                        assert(has_offset(mask, j) <==> (has_offset(old_mask, j) || i == j));
                    }
                }
            }
            i += 1;
        }
        let r = BitMask { mask };
        assert(r@ =~= Set::new(|i: int| 0 <= i < 16 && band@[i] == predicate));
        r
    }

    /// Takes the lowest offset out of the mask and returns it; `None` once the
    /// mask is empty. Repeated calls yield the offsets in ascending order.
    pub fn next(&mut self) -> (r: Option<u16>)
        ensures
            old(self)@ == Set::<int>::empty() ==> r is None && *final(self) == *old(self),
            old(self)@ != Set::<int>::empty() ==> (r matches Some(o) && {
                &&& o < 16
                &&& o == old(self).spec_bits().trailing_zeros()
                &&& final(self).spec_bits() == old(self).spec_bits() & ((old(self).spec_bits() - 1) as u16)
                &&& old(self)@.contains(o as int)
                &&& forall|j: int| old(self)@.contains(j) ==> o <= j
                &&& final(self)@ == old(self)@.remove(o as int)
                &&& final(self).spec_bits() < old(self).spec_bits()
            }),
    {
        proof {
            lemma_zero_iff_empty(self.mask);
        }
        if self.mask == 0 {
            return None;
        }
        let m = self.mask;
        let t = m.trailing_zeros();
        proof {
            axiom_u16_trailing_zeros(m);
        }
        self.mask = m & (m - 1);
        proof {
            let t16 = t as u16;
            assert forall|j: int| old(self)@.contains(j) implies t <= j by {
                if j < t {
                    assert((m >> (j as u16)) & 1u16 == 0u16);
                }
            }
            assert forall|j: int| #[trigger]
                self@.contains(j) == old(self)@.remove(t as int).contains(j) by {
                if 0 <= j < 16 {
                    lemma_clear_lowest(m, t16, j as u16);
                }
            }
            lemma_clear_lowest(m, t16, 0);
            assert(self@ =~= old(self)@.remove(t as int));
        }
        Some(t as u16)
    }

    /// The offsets of the mask, in the order in which `next` yields them.
    pub fn offsets(&self) -> (r: Vec<u16>)
        ensures
            forall|a: int, b: int| 0 <= a < b < r@.len() ==> r@[a] < r@[b],
            forall|i: int| 0 <= i < r@.len() ==> self@.contains(r@[i] as int),
            forall|o: int| self@.contains(o) ==> exists|i: int| 0 <= i < r@.len() && r@[i] == o,
    {
        let mut rest = BitMask { mask: self.mask };
        let mut r: Vec<u16> = Vec::new();
        loop
            invariant
                rest@.subset_of(self@),
                forall|a: int, b: int| 0 <= a < b < r@.len() ==> r@[a] < r@[b],
                forall|i: int| 0 <= i < r@.len() ==> self@.contains(r@[i] as int),
                forall|i: int, o: int| 0 <= i < r@.len() && rest@.contains(o) ==> r@[i] < o,
                forall|o: int|
                    self@.contains(o) ==> rest@.contains(o) || exists|i: int|
                        0 <= i < r@.len() && r@[i] == o,
            ensures
                rest@ == Set::<int>::empty(),
            decreases rest.spec_bits(),
        {
            match rest.next() {
                None => {
                    break;
                },
                Some(o) => {
                    proof {
                        assert forall|p: int| self@.contains(p) implies rest@.contains(p) || exists|
                            i: int,
                        | 0 <= i < r@.len() + 1 && r@.push(o)[i] == p by {
                            if !rest@.contains(p) && p == o as int {
                                assert(r@.push(o)[r@.len() as int] == p);
                            } else if !rest@.contains(p) {
                                let i = choose|i: int| 0 <= i < r@.len() && r@[i] == p;
                                assert(r@.push(o)[i] == p);
                            }
                        }
                    }
                    r.push(o);
                },
            }
        }
        r
    }
}

impl core::ops::BitOr for BitMask {
    type Output = BitMask;

    /// The union of the two sets of offsets.
    fn bitor(self, rhs: BitMask) -> (r: BitMask)
        ensures
            r.spec_bits() == self.spec_bits() | rhs.spec_bits(),
            r@ == self@.union(rhs@),
    {
        let r = BitMask { mask: self.mask | rhs.mask };
        proof {
            lemma_or_offsets(self, rhs);
        }
        r
    }
}

impl vstd::std_specs::ops::BitOrSpecImpl for BitMask {
    open spec fn obeys_bitor_spec() -> bool {
        true
    }

    open spec fn bitor_req(self, rhs: BitMask) -> bool {
        true
    }

    open spec fn bitor_spec(self, rhs: BitMask) -> BitMask {
        union_of(self, rhs)
    }
}

/// The mask that holds the offsets of both `a` and `b`: its bits are the or
/// of theirs.
pub closed spec fn union_of(a: BitMask, b: BitMask) -> BitMask {
    BitMask { mask: a.mask | b.mask }
}

/// Or-ing two masks gives a mask whose offsets, and so whose iteration, are
/// the union of the offsets of the two.
pub proof fn lemma_or_offsets(a: BitMask, b: BitMask)
    ensures
        union_of(a, b).spec_bits() == a.spec_bits() | b.spec_bits(),
        union_of(a, b)@ == a@.union(b@),
{
    assert forall|j: int| #[trigger] union_of(a, b)@.contains(j) == a@.union(b@).contains(j) by {
        if 0 <= j < 16 {
            lemma_or_bit(a.mask, b.mask, j as u16);
        }
    }
    assert(union_of(a, b)@ =~= a@.union(b@));
}

} // verus!
