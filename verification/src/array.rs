//! Sums of `i64` slices.

use vstd::prelude::*;

verus! {

/// The mathematical sum of a sequence of `i64`.
pub open spec fn seq_sum(s: Seq<i64>) -> int
    decreases s.len(),
{
    if s.len() == 0 {
        0
    } else {
        seq_sum(s.drop_last()) + s.last()
    }
}

/// Every running sum of `s`, taken from the left, fits in an `i64`.
pub open spec fn running_sums_fit(s: Seq<i64>) -> bool {
    forall|k: int| 0 <= k <= s.len() ==> i64::MIN <= #[trigger] seq_sum(s.take(k)) <= i64::MAX
}

/// The empty sum is 0, and appending an element to a sequence adds that
/// element to its sum: every element counts, once, whatever its position or
/// value.
pub proof fn law_seq_sum_push(s: Seq<i64>, x: i64)
    ensures
        seq_sum(Seq::<i64>::empty()) == 0,
        seq_sum(s.push(x)) == seq_sum(s) + x,
{
    assert(s.push(x).drop_last() =~= s);
}

/// The sum of two sequences put end to end is the sum of their sums.
pub proof fn law_seq_sum_concat(a: Seq<i64>, b: Seq<i64>)
    ensures
        seq_sum(a + b) == seq_sum(a) + seq_sum(b),
    decreases b.len(),
{
    if b.len() == 0 {
        assert(a + b =~= a);
    } else {
        law_seq_sum_concat(a, b.drop_last());
        assert((a + b).drop_last() =~= a + b.drop_last());
    }
}

/// The sum of the elements of `arr`, added from the left; each running sum
/// must fit in an `i64`.
pub fn array_sum(arr: &[i64]) -> (r: i64)
    requires
        running_sums_fit(arr@),
    ensures
        r == seq_sum(arr@),
{
    let mut total: i64 = 0;
    let mut i: usize = 0;
    assert(arr@.take(0) =~= Seq::<i64>::empty());
    while i < arr.len()
        invariant
            i <= arr.len(),
            running_sums_fit(arr@),
            total == seq_sum(arr@.take(i as int)),
        decreases arr.len() - i,
    {
        assert(arr@.take(i as int + 1).drop_last() =~= arr@.take(i as int));
        assert(i64::MIN <= seq_sum(arr@.take(i as int + 1)) <= i64::MAX);
        total = total + arr[i];
        i = i + 1;
    }
    assert(arr@.take(arr.len() as int) =~= arr@);
    total
}

/// The sum of the elements of `arr`, or `None` when some running sum from
/// the left does not fit in an `i64`.
pub fn try_array_sum(arr: &[i64]) -> (r: Option<i64>)
    ensures
        r is Some <==> running_sums_fit(arr@),
        r matches Some(v) ==> v == seq_sum(arr@),
{
    let mut total: i64 = 0;
    let mut i: usize = 0;
    assert(arr@.take(0) =~= Seq::<i64>::empty());
    while i < arr.len()
        invariant
            i <= arr.len(),
            total == seq_sum(arr@.take(i as int)),
            forall|k: int| 0 <= k <= i ==> i64::MIN <= #[trigger] seq_sum(arr@.take(k)) <= i64::MAX,
        decreases arr.len() - i,
    {
        assert(arr@.take(i as int + 1).drop_last() =~= arr@.take(i as int));
        match total.checked_add(arr[i]) {
            Some(t) => {
                total = t;
                i = i + 1;
            },
            None => {
                assert(!(i64::MIN <= seq_sum(arr@.take(i as int + 1)) <= i64::MAX));
                return None;
            },
        }
    }
    assert(arr@.take(arr.len() as int) =~= arr@);
    Some(total)
}

} // verus!
