//! Trusted boundary around `fixedbitset::FixedBitSet`, the fixed-width bit
//! vector that backs a cell's candidate set.  The mathematical contents of a
//! bitset are named by `bits_of`, a sequence of booleans of length equal to
//! the bitset's capacity; every wrapper states its effect over that sequence.

use vstd::prelude::*;

verus! {

use fixedbitset::FixedBitSet;

#[verifier::external_type_specification]
#[verifier::external_body]
pub struct ExFixedBitSet(FixedBitSet);

/// The contents of a bitset: one boolean per bit, indexed from zero up to the
/// capacity the bitset was created with.
pub uninterp spec fn bits_of(s: FixedBitSet) -> Seq<bool>;

/// How many bits of a sequence are set.
pub open spec fn count_trues(s: Seq<bool>) -> nat
    decreases s.len(),
{
    if s.len() == 0 {
        0
    } else {
        count_trues(s.drop_last()) + if s.last() {
            1nat
        } else {
            0nat
        }
    }
}

pub proof fn lemma_count_le_len(s: Seq<bool>)
    ensures
        count_trues(s) <= s.len(),
    decreases s.len(),
{
    if s.len() > 0 {
        lemma_count_le_len(s.drop_last());
    }
}

pub proof fn lemma_count_update(s: Seq<bool>, i: int, b: bool)
    requires
        0 <= i < s.len(),
    ensures
        count_trues(s.update(i, b)) == count_trues(s) - (if s[i] {
            1int
        } else {
            0int
        }) + (if b {
            1int
        } else {
            0int
        }),
    decreases s.len(),
{
    let t = s.update(i, b);
    if i == s.len() - 1 {
        assert(t.drop_last() =~= s.drop_last());
    } else {
        lemma_count_update(s.drop_last(), i, b);
        assert(t.drop_last() =~= s.drop_last().update(i, b));
    }
}

pub proof fn lemma_count_zero(s: Seq<bool>)
    ensures
        (count_trues(s) == 0) <==> (forall|i: int| 0 <= i < s.len() ==> !s[i]),
    decreases s.len(),
{
    if s.len() > 0 {
        lemma_count_zero(s.drop_last());
        assert(forall|i: int| 0 <= i < s.len() - 1 ==> s[i] == s.drop_last()[i]);
    }
}

pub proof fn lemma_count_full(s: Seq<bool>)
    requires
        forall|i: int| 0 <= i < s.len() ==> s[i],
    ensures
        count_trues(s) == s.len(),
    decreases s.len(),
{
    if s.len() > 0 {
        lemma_count_full(s.drop_last());
    }
}

pub proof fn lemma_count_pos(s: Seq<bool>, i: int)
    requires
        0 <= i < s.len(),
        s[i],
    ensures
        count_trues(s) >= 1,
    decreases s.len(),
{
    if i < s.len() - 1 {
        lemma_count_pos(s.drop_last(), i);
    }
}

pub proof fn lemma_two_trues(s: Seq<bool>, i: int, j: int)
    requires
        0 <= i < s.len(),
        0 <= j < s.len(),
        i != j,
        s[i],
        s[j],
    ensures
        count_trues(s) >= 2,
    decreases s.len(),
{
    if i == s.len() - 1 {
        lemma_count_pos(s.drop_last(), j);
    } else if j == s.len() - 1 {
        lemma_count_pos(s.drop_last(), i);
    } else {
        lemma_two_trues(s.drop_last(), i, j);
    }
}

pub proof fn lemma_count_single(s: Seq<bool>, i: int)
    requires
        0 <= i < s.len(),
        s[i],
        forall|j: int| 0 <= j < s.len() && j != i ==> !s[j],
    ensures
        count_trues(s) == 1,
    decreases s.len(),
{
    if i == s.len() - 1 {
        lemma_count_zero(s.drop_last());
    } else {
        assert(forall|j: int| 0 <= j < s.len() - 1 ==> s.drop_last()[j] == s[j]);
        lemma_count_single(s.drop_last(), i);
    }
}

/// Relies on FixedBitSet::with_capacity: a bitset of `bits` bits, all clear.
#[verifier::external_body]
pub fn bitset_with_capacity(bits: usize) -> (r: FixedBitSet)
    ensures
        bits_of(r) == Seq::new(bits as nat, |i: int| false),
{
    FixedBitSet::with_capacity(bits)
}

/// Relies on FixedBitSet::len: the number of bits the set was created with.
#[verifier::external_body]
pub fn bitset_len(s: &FixedBitSet) -> (r: usize)
    ensures
        r == bits_of(*s).len(),
{
    s.len()
}

/// Relies on FixedBitSet::contains: whether the bit is enabled; bits outside
/// the capacity are always disabled.
#[verifier::external_body]
pub fn bitset_contains(s: &FixedBitSet, bit: usize) -> (r: bool)
    ensures
        r == (bit < bits_of(*s).len() && bits_of(*s)[bit as int]),
{
    s.contains(bit)
}

/// Relies on FixedBitSet::insert: enables the bit; panics out of bounds,
/// hence the bound demanded here.
#[verifier::external_body]
pub fn bitset_insert(s: &mut FixedBitSet, bit: usize)
    requires
        bit < bits_of(*old(s)).len(),
    ensures
        bits_of(*final(s)) == bits_of(*old(s)).update(bit as int, true),
{
    s.insert(bit)
}

/// Relies on FixedBitSet::remove: disables the bit; panics out of bounds,
/// hence the bound demanded here.
#[verifier::external_body]
pub fn bitset_remove(s: &mut FixedBitSet, bit: usize)
    requires
        bit < bits_of(*old(s)).len(),
    ensures
        bits_of(*final(s)) == bits_of(*old(s)).update(bit as int, false),
{
    s.remove(bit)
}

/// Relies on FixedBitSet::put: enables the bit and reports its previous
/// state; panics out of bounds, hence the bound demanded here.
#[verifier::external_body]
pub fn bitset_put(s: &mut FixedBitSet, bit: usize) -> (r: bool)
    requires
        bit < bits_of(*old(s)).len(),
    ensures
        r == bits_of(*old(s))[bit as int],
        bits_of(*final(s)) == bits_of(*old(s)).update(bit as int, true),
{
    s.put(bit)
}

/// Relies on FixedBitSet::toggle: inverts the bit; panics out of bounds,
/// hence the bound demanded here.
#[verifier::external_body]
pub fn bitset_toggle(s: &mut FixedBitSet, bit: usize)
    requires
        bit < bits_of(*old(s)).len(),
    ensures
        bits_of(*final(s)) == bits_of(*old(s)).update(
            bit as int,
            !bits_of(*old(s))[bit as int],
        ),
{
    s.toggle(bit)
}

/// Relies on FixedBitSet::insert_range with the full range: enables every
/// bit of the set.
#[verifier::external_body]
pub fn bitset_fill(s: &mut FixedBitSet)
    ensures
        bits_of(*final(s)) == Seq::new(bits_of(*old(s)).len(), |i: int| true),
{
    s.insert_range(..)
}

/// Relies on FixedBitSet::count_ones over the full range: the number of
/// enabled bits.
#[verifier::external_body]
pub fn bitset_count_ones(s: &FixedBitSet) -> (r: usize)
    ensures
        r == count_trues(bits_of(*s)),
{
    s.count_ones(..)
}

/// Relies on FixedBitSet::ones: the indices of the enabled bits, in
/// ascending order, each exactly once.
#[verifier::external_body]
pub fn bitset_ones(s: &FixedBitSet) -> (r: Vec<usize>)
    ensures
        forall|k: int|
            0 <= k < r@.len() ==> r@[k] < bits_of(*s).len() && bits_of(*s)[r@[k] as int],
        forall|k1: int, k2: int| 0 <= k1 < k2 < r@.len() ==> r@[k1] < r@[k2],
        forall|i: int|
            0 <= i < bits_of(*s).len() && bits_of(*s)[i] ==> exists|k: int|
                0 <= k < r@.len() && r@[k] == i,
{
    s.ones().collect()
}

/// Relies on FixedBitSet's Clone impl: an equal, independent copy.
#[verifier::external_body]
pub fn bitset_clone(s: &FixedBitSet) -> (r: FixedBitSet)
    ensures
        bits_of(r) == bits_of(*s),
{
    s.clone()
}

} // verus!
