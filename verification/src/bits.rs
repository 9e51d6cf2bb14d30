//! Sets of wall slots kept as the bits of a `u64`.

use vstd::prelude::*;

verus! {

/// Whether bit `i` of `m` is set. No bit is set outside `0..64`.
pub open spec fn bit_set(m: u64, i: int) -> bool {
    0 <= i < 64 && (m >> (i as u64)) & 1 == 1
}

/// The set of the positions of the bits set in `m`.
pub open spec fn slots(m: u64) -> Set<int> {
    Set::new(|i: int| bit_set(m, i))
}

/// The positions below `k` of the bits set in `m`.
pub open spec fn slots_below(m: u64, k: int) -> Set<int> {
    Set::new(|i: int| i < k && bit_set(m, i))
}

/// Setting bit `i` sets that bit and leaves the others as they were.
proof fn lemma_or_bit(m: u64, i: u64, j: u64)
    requires
        i < 64,
        j < 64,
    ensures
        (((m | (1u64 << i)) >> j) & 1 == 1) == (j == i || (m >> j) & 1 == 1),
{
    assert((((m | (1u64 << i)) >> j) & 1 == 1) == (j == i || (m >> j) & 1 == 1)) by (bit_vector)
        requires
            i < 64,
            j < 64,
    ;
}

/// No bit of 0 is set.
proof fn lemma_zero_bit(j: u64)
    requires
        j < 64,
    ensures
        (0u64 >> j) & 1 == 0,
{
    assert((0u64 >> j) & 1 == 0) by (bit_vector);
}

/// The empty mask holds no slot.
pub proof fn lemma_slots_of_zero()
    ensures
        slots(0) == Set::<int>::empty(),
{
    assert forall|i: int| !bit_set(0, i) by {
        if 0 <= i < 64 {
            lemma_zero_bit(i as u64);
        }
    }
    assert(slots(0) =~= Set::<int>::empty());
}

/// The slots below `k` are finitely many, at most `k`.
pub proof fn lemma_slots_below(m: u64, k: int)
    requires
        0 <= k <= 64,
    ensures
        slots_below(m, k).finite(),
        slots_below(m, k).len() <= k,
        k < 64 ==> slots_below(m, k + 1) == (if bit_set(m, k) {
            slots_below(m, k).insert(k)
        } else {
            slots_below(m, k)
        }),
        k == 64 ==> slots_below(m, k) == slots(m),
    decreases k,
{
    if k == 0 {
        assert(slots_below(m, 0) =~= Set::<int>::empty());
    } else {
        lemma_slots_below(m, k - 1);
        if bit_set(m, k - 1) {
            assert(slots_below(m, k) =~= slots_below(m, k - 1).insert(k - 1));
        } else {
            assert(slots_below(m, k) =~= slots_below(m, k - 1));
        }
    }
    if k < 64 {
        if bit_set(m, k) {
            assert(slots_below(m, k + 1) =~= slots_below(m, k).insert(k));
        } else {
            assert(slots_below(m, k + 1) =~= slots_below(m, k));
        }
    }
    if k == 64 {
        assert(slots_below(m, k) =~= slots(m));
    }
}

/// A mask holds finitely many slots, at most 64.
pub proof fn lemma_slots_finite(m: u64)
    ensures
        slots(m).finite(),
        slots(m).len() <= 64,
{
    lemma_slots_below(m, 64);
}

/// Whether slot `i` is in the mask.
pub fn has_bit(m: u64, i: u8) -> (r: bool)
    requires
        i < 64,
    ensures
        r == slots(m).contains(i as int),
{
    (m >> (i as u64)) & 1 == 1
}

/// The mask with slot `i` added.
pub fn with_bit(m: u64, i: u8) -> (r: u64)
    requires
        i < 64,
    ensures
        slots(r) == slots(m).insert(i as int),
{
    let r = m | (1u64 << (i as u64));
    proof {
        assert forall|j: int| slots(r).contains(j) == slots(m).insert(i as int).contains(j) by {
            if 0 <= j < 64 {
                lemma_or_bit(m, i as u64, j as u64);
            }
        }
        assert(slots(r) =~= slots(m).insert(i as int));
    }
    r
}

/// The number of slots in the mask.
pub fn count_bits(m: u64) -> (n: u8)
    ensures
        n == slots(m).len(),
        n <= 64,
{
    let mut n: u8 = 0;
    let mut i: u8 = 0;
    proof {
        lemma_slots_below(m, 0);
    }
    while i < 64
        invariant
            i <= 64,
            n <= i,
            n == slots_below(m, i as int).len(),
            slots_below(m, i as int).finite(),
        decreases 64 - i,
    {
        proof {
            lemma_slots_below(m, i as int);
            lemma_slots_below(m, i as int + 1);
        }
        if has_bit(m, i) {
            n = n + 1;
        }
        i = i + 1;
    }
    proof {
        lemma_slots_below(m, 64);
    }
    n
}

} // verus!
