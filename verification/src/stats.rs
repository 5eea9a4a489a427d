//! The four aggregate operations over a record sequence: stable sort by
//! value, first minimum, first maximum, and the exact sum/count pair that
//! determines the average.

use vstd::prelude::*;
use vstd::seq_lib::*;
use crate::record::Record;

verus! {

/// Predicate picking out the records whose value is exactly `v`.
pub open spec fn value_is(v: int) -> spec_fn(Record) -> bool {
    |r: Record| r@.value == v
}

/// The first `k` entries of `s` are in non-decreasing order of value.
pub open spec fn sorted_prefix(s: Seq<Record>, k: int) -> bool {
    forall|a: int, b: int|
        0 <= a < b < k && b < s.len() ==> #[trigger] s[a]@.value <= #[trigger] s[b]@.value
}

/// The whole of `s` is in non-decreasing order of value.
pub open spec fn sorted_by_value(s: Seq<Record>) -> bool {
    sorted_prefix(s, s.len() as int)
}

/// Sum of the values of all records in `s`, in millionths of a unit.
pub open spec fn sum_values(s: Seq<Record>) -> int
    decreases s.len(),
{
    if s.len() == 0 {
        0
    } else {
        sum_values(s.drop_last()) + s.last()@.value
    }
}

/// A sequence none of whose elements satisfies `pred` filters to the empty
/// sequence.
proof fn lemma_filter_none(s: Seq<Record>, pred: spec_fn(Record) -> bool)
    requires
        forall|k: int| 0 <= k < s.len() ==> !pred(#[trigger] s[k]),
    ensures
        s.filter(pred) == Seq::<Record>::empty(),
    decreases s.len(),
{
    reveal(Seq::filter);
    if s.len() > 0 {
        lemma_filter_none(s.drop_last(), pred);
    }
    assert(s.filter(pred) =~= Seq::<Record>::empty());
}

/// Filtering a one-element sequence keeps or drops its element.
proof fn lemma_filter_singleton(x: Record, pred: spec_fn(Record) -> bool)
    ensures
        pred(x) ==> seq![x].filter(pred) == seq![x],
        !pred(x) ==> seq![x].filter(pred) == Seq::<Record>::empty(),
{
    reveal(Seq::filter);
    assert(seq![x].drop_last() =~= Seq::<Record>::empty());
    assert(seq![x].last() == x);
    assert(Seq::<Record>::empty().filter(pred) =~= Seq::<Record>::empty());
    if pred(x) {
        assert(seq![x].filter(pred) =~= seq![x]);
    } else {
        assert(seq![x].filter(pred) =~= Seq::<Record>::empty());
    }
}

/// Moving the element at `i` back to position `j`, when every element it
/// jumps over has a strictly greater value, changes neither the per-value
/// subsequences nor the multiset of records.
proof fn lemma_reorder_step(s: Seq<Record>, j: int, i: int)
    requires
        0 <= j < i < s.len(),
        forall|k: int| j <= k < i ==> #[trigger] s[k]@.value > s[i]@.value,
    ensures
        ({
            let s2 = s.remove(i).insert(j, s[i]);
            &&& s2.len() == s.len()
            &&& forall|v: int| #[trigger] s2.filter(value_is(v)) == s.filter(value_is(v))
            &&& s2.to_multiset() == s.to_multiset()
            &&& forall|k: int| 0 <= k < j ==> s2[k] == s[k]
            &&& s2[j] == s[i]
            &&& forall|k: int| j < k <= i ==> s2[k] == s[k - 1]
            &&& forall|k: int| i < k < s.len() ==> s2[k] == s[k]
        }),
{
    let x = s[i];
    let s2 = s.remove(i).insert(j, x);
    let a = s.subrange(0, j);
    let b = s.subrange(j, i);
    let c = s.subrange(i + 1, s.len() as int);

    assert(s =~= ((a + b) + seq![x]) + c);
    assert(s.remove(i) =~= (a + b) + c);
    assert(s2 =~= ((a + seq![x]) + b) + c);

    assert forall|v: int| #[trigger] s2.filter(value_is(v)) == s.filter(value_is(v)) by {
        let pred = value_is(v);
        broadcast use Seq::filter_distributes_over_add;

        lemma_filter_singleton(x, pred);
        if pred(x) {
            lemma_filter_none(b, pred);
            assert(((a + b) + seq![x]).filter(pred) =~= ((a + seq![x]) + b).filter(pred));
        } else {
            assert(((a + b) + seq![x]).filter(pred) =~= ((a + seq![x]) + b).filter(pred));
        }
    }

    assert(s2.to_multiset() == s.to_multiset()) by {
        broadcast use to_multiset_remove, to_multiset_insert, to_multiset_contains;

        assert(s.contains(x)) by {
            assert(s[i] == x);
        }
        assert(s.remove(i).to_multiset() == s.to_multiset().remove(x));
        assert(s2.to_multiset() == s.to_multiset().remove(x).insert(x));
        assert(s.to_multiset().remove(x).insert(x) =~= s.to_multiset());
    }
}

/// Sorts the records in place by ascending `value`.
///
/// The sort is stable: for every value `v`, the subsequence of records whose
/// value is `v` is exactly the same, in the same order, before and after the
/// call, so records of equal value keep their relative input order. The
/// result is a permutation of the input.
pub fn sort_by_value(records: &mut Vec<Record>)
    ensures
        sorted_by_value(final(records)@),
        forall|v: int|
            #[trigger] final(records)@.filter(value_is(v)) == old(records)@.filter(value_is(v)),
        final(records)@.to_multiset() == old(records)@.to_multiset(),
        final(records)@.len() == old(records)@.len(),
{
    if records.len() <= 1 {
        return;
    }
    let mut i: usize = 1;
    while i < records.len()
        invariant
            1 <= i <= records@.len(),
            records@.len() == old(records)@.len(),
            sorted_prefix(records@, i as int),
            forall|v: int|
                #[trigger] records@.filter(value_is(v)) == old(records)@.filter(value_is(v)),
            records@.to_multiset() == old(records)@.to_multiset(),
        decreases records@.len() - i,
    {
        let ghost snap = records@;
        let x_value = records[i].value;
        let mut j: usize = i;
        while j > 0 && records[j - 1].value > x_value
            invariant
                j <= i < records@.len(),
                records@ == snap,
                x_value == snap[i as int].value,
                forall|k: int| j <= k < i ==> #[trigger] snap[k]@.value > snap[i as int]@.value,
            decreases j,
        {
            j = j - 1;
        }
        if j < i {
            proof {
                lemma_reorder_step(snap, j as int, i as int);
            }
            let x = records.remove(i);
            records.insert(j, x);
            assert(sorted_prefix(records@, i + 1)) by {
                assert forall|a: int, b: int|
                    0 <= a < b < i + 1 && b < records@.len() implies #[trigger] records@[a]@.value
                    <= #[trigger] records@[b]@.value by {
                    if b < j {
                    } else if b == j {
                        assert(snap[j - 1]@.value <= snap[i as int]@.value);
                    } else if a < j {
                        assert(records@[b] == snap[b - 1]);
                    } else if a == j {
                        assert(records@[b] == snap[b - 1]);
                    } else {
                        assert(records@[a] == snap[a - 1]);
                        assert(records@[b] == snap[b - 1]);
                    }
                }
            }
        } else {
            assert(sorted_prefix(records@, i + 1)) by {
                assert(j == i);
                assert(snap[i - 1]@.value <= snap[i as int]@.value);
            }
        }
        i = i + 1;
    }
}

/// Returns the index of the first record of minimum value, or `None` when
/// there are no records.
///
/// The record at the returned index has a value no greater than every value
/// in the sequence, and every earlier record has a strictly greater value,
/// so ties go to the earliest occurrence.
pub fn min_index(records: &Vec<Record>) -> (r: Option<usize>)
    ensures
        (r is None) <==> records@.len() == 0,
        (r matches Some(m) ==> {
            &&& (m as int) < records@.len()
            &&& forall|k: int|
                0 <= k < records@.len() ==> records@[m as int]@.value <= #[trigger] records@[k]@.value
            &&& forall|k: int|
                0 <= k < m as int ==> #[trigger] records@[k]@.value > records@[m as int]@.value
        }),
{
    if records.len() == 0 {
        return None;
    }
    let mut best: usize = 0;
    let mut i: usize = 1;
    while i < records.len()
        invariant
            best < i <= records@.len(),
            forall|k: int| 0 <= k < i ==> records@[best as int]@.value <= #[trigger] records@[k]@.value,
            forall|k: int| 0 <= k < best ==> #[trigger] records@[k]@.value > records@[best as int]@.value,
        decreases records@.len() - i,
    {
        if records[i].value < records[best].value {
            best = i;
        }
        i = i + 1;
    }
    Some(best)
}

/// Returns the index of the first record of maximum value, or `None` when
/// there are no records.
///
/// The record at the returned index has a value no smaller than every value
/// in the sequence, and every earlier record has a strictly smaller value,
/// so ties go to the earliest occurrence.
pub fn max_index(records: &Vec<Record>) -> (r: Option<usize>)
    ensures
        (r is None) <==> records@.len() == 0,
        (r matches Some(m) ==> {
            &&& (m as int) < records@.len()
            &&& forall|k: int|
                0 <= k < records@.len() ==> records@[m as int]@.value >= #[trigger] records@[k]@.value
            &&& forall|k: int|
                0 <= k < m as int ==> #[trigger] records@[k]@.value < records@[m as int]@.value
        }),
{
    if records.len() == 0 {
        return None;
    }
    let mut best: usize = 0;
    let mut i: usize = 1;
    while i < records.len()
        invariant
            best < i <= records@.len(),
            forall|k: int| 0 <= k < i ==> records@[best as int]@.value >= #[trigger] records@[k]@.value,
            forall|k: int| 0 <= k < best ==> #[trigger] records@[k]@.value < records@[best as int]@.value,
        decreases records@.len() - i,
    {
        if records[i].value > records[best].value {
            best = i;
        }
        i = i + 1;
    }
    Some(best)
}

/// Returns the exact sum of all record values (in millionths of a unit)
/// together with the record count.
///
/// The arithmetic mean of the input is the returned sum divided by the
/// returned count and by the value scale; an empty input yields the pair
/// `(0, 0)`, whose quotient is left to the caller's numeric domain.
pub fn sum_and_count(records: &Vec<Record>) -> (r: (i128, usize))
    ensures
        r.0 == sum_values(records@),
        r.1 == records@.len(),
{
    let mut sum: i128 = 0;
    let mut i: usize = 0;
    while i < records.len()
        invariant
            i <= records@.len(),
            sum == sum_values(records@.subrange(0, i as int)),
            -(i as int) * 0x8000_0000_0000_0000 <= sum <= (i as int) * 0x7FFF_FFFF_FFFF_FFFF,
        decreases records@.len() - i,
    {
        proof {
            assert(records@.subrange(0, i + 1).drop_last() =~= records@.subrange(0, i as int));
            assert(records@.subrange(0, i + 1).last() == records@[i as int]);
        }
        sum = sum + records[i].value as i128;
        i = i + 1;
    }
    proof {
        assert(records@.subrange(0, records@.len() as int) =~= records@);
    }
    (sum, records.len())
}

} // verus!
