//! Weighted neighbour lists, as mathematical values.
//!
//! A list pairs each element with the number of times it was observed. The
//! order of the list is the order of first observation.

use vstd::prelude::*;
use crate::elements::{Element, placeholder};

verus! {

/// The largest total weight a neighbour list may carry.
pub const WEIGHT_LIMIT: u64 = 0xffff_ffff_ffff_ffff;

/// Whether `e` has an entry in `list`.
pub open spec fn list_has(list: Seq<(Element, nat)>, e: Element) -> bool {
    exists|i: int| 0 <= i < list.len() && (#[trigger] list[i]).0 == e
}

/// The position of the entry of `e` in `list`, where it has one.
pub open spec fn list_index(list: Seq<(Element, nat)>, e: Element) -> int {
    choose|i: int| 0 <= i < list.len() && (#[trigger] list[i]).0 == e
}

/// How often `e` was observed: its count in `list`, or zero.
pub open spec fn count_of(list: Seq<(Element, nat)>, e: Element) -> nat {
    if list_has(list, e) {
        list[list_index(list, e)].1
    } else {
        0
    }
}

/// The sum of all counts in `list`.
pub open spec fn total_weight(list: Seq<(Element, nat)>) -> nat
    decreases list.len(),
{
    if list.len() == 0 {
        0
    } else {
        total_weight(list.drop_last()) + list.last().1
    }
}

/// The counts of `list`, in order.
pub open spec fn weights_of(list: Seq<(Element, nat)>) -> Seq<nat> {
    Seq::new(list.len(), |i: int| list[i].1)
}

/// No element has two entries.
pub open spec fn distinct_elements(list: Seq<(Element, nat)>) -> bool {
    forall|i: int, j: int|
        0 <= i < j < list.len() ==> (#[trigger] list[i]).0 != (#[trigger] list[j]).0
}

/// The invariant of a neighbour list: one entry per element, every count at
/// least one, no placeholder, and a total within [`WEIGHT_LIMIT`].
pub open spec fn list_wf(list: Seq<(Element, nat)>) -> bool {
    &&& distinct_elements(list)
    &&& forall|i: int|
        0 <= i < list.len() ==> (#[trigger] list[i]).1 >= 1 && list[i].0 != placeholder()
    &&& total_weight(list) <= WEIGHT_LIMIT
}

/// Whether observing `e` changes `list`: the placeholder is never recorded,
/// and a list whose total has reached [`WEIGHT_LIMIT`] stays as it is.
pub open spec fn records(list: Seq<(Element, nat)>, e: Element) -> bool {
    e != placeholder() && total_weight(list) < WEIGHT_LIMIT
}

/// `list` after one observation of `e`: the count of `e` grows by one, or `e`
/// enters at the end with count one.
pub open spec fn bump(list: Seq<(Element, nat)>, e: Element) -> Seq<(Element, nat)> {
    if !records(list, e) {
        list
    } else if list_has(list, e) {
        let i = list_index(list, e);
        list.update(i, (e, list[i].1 + 1))
    } else {
        list.push((e, 1))
    }
}

/// In a list without repeated elements, an entry of `e` is the entry of `e`.
pub proof fn lemma_index_unique(list: Seq<(Element, nat)>, i: int)
    requires
        distinct_elements(list),
        0 <= i < list.len(),
    ensures
        list_has(list, list[i].0),
        list_index(list, list[i].0) == i,
        count_of(list, list[i].0) == list[i].1,
{
    let j = list_index(list, list[i].0);
    assert(0 <= j < list.len() && list[j].0 == list[i].0);
    if j < i {
        assert(list[j].0 != list[i].0);
    } else if i < j {
        assert(list[i].0 != list[j].0);
    }
}

/// The total of a prefix is at most the total of the list.
pub proof fn lemma_total_prefix(list: Seq<(Element, nat)>, n: int)
    requires
        0 <= n <= list.len(),
    ensures
        total_weight(list.subrange(0, n)) <= total_weight(list),
    decreases list.len(),
{
    if n == list.len() {
        assert(list.subrange(0, n) =~= list);
    } else {
        lemma_total_prefix(list.drop_last(), n);
        assert(list.drop_last().subrange(0, n) =~= list.subrange(0, n));
    }
}

/// Every count is at most the total.
pub proof fn lemma_count_le_total(list: Seq<(Element, nat)>, i: int)
    requires
        0 <= i < list.len(),
    ensures
        list[i].1 <= total_weight(list),
    decreases list.len(),
{
    if i < list.len() - 1 {
        lemma_count_le_total(list.drop_last(), i);
    }
}

/// Replacing one entry changes the total by the change of its count.
pub proof fn lemma_total_update(list: Seq<(Element, nat)>, i: int, entry: (Element, nat))
    requires
        0 <= i < list.len(),
    ensures
        total_weight(list.update(i, entry)) == total_weight(list) - list[i].1 + entry.1,
    decreases list.len(),
{
    let after = list.update(i, entry);
    if i == list.len() - 1 {
        assert(after.drop_last() =~= list.drop_last());
    } else {
        lemma_total_update(list.drop_last(), i, entry);
        assert(after.drop_last() =~= list.drop_last().update(i, entry));
    }
}

/// A list with an entry has a positive total, where every count is positive.
pub proof fn lemma_total_positive(list: Seq<(Element, nat)>)
    requires
        list.len() > 0,
        forall|i: int| 0 <= i < list.len() ==> (#[trigger] list[i]).1 >= 1,
    ensures
        total_weight(list) >= 1,
{
    lemma_count_le_total(list, 0);
}

/// What one observation of `e` does to the entry of `x` in a well-formed
/// list: its count grows by one where `x` is `e` and the observation is
/// recorded, and stays otherwise; no entry leaves.
pub proof fn lemma_bump_entry(list: Seq<(Element, nat)>, e: Element, x: Element)
    requires
        distinct_elements(list),
    ensures
        count_of(bump(list, e), x) == count_of(list, x) + if x == e && records(list, e) {
            1nat
        } else {
            0nat
        },
        list_has(bump(list, e), x) == (list_has(list, x) || (x == e && records(list, e))),
{
    let after = bump(list, e);
    lemma_bump_distinct(list, e);
    if !records(list, e) {
    } else if list_has(list, e) {
        if list_has(list, x) {
            let k = list_index(list, x);
            assert(after[k].0 == x);
            lemma_index_unique(after, k);
            lemma_index_unique(list, k);
        } else if list_has(after, x) {
            let k = list_index(after, x);
            assert(list[k].0 == x);
        }
    } else {
        if list_has(list, x) {
            let k = list_index(list, x);
            assert(after[k].0 == x);
            lemma_index_unique(after, k);
            lemma_index_unique(list, k);
        } else if x == e {
            assert(after[list.len() as int].0 == e);
            lemma_index_unique(after, list.len() as int);
        } else if list_has(after, x) {
            let k = list_index(after, x);
            assert(list[k].0 == x);
        }
    }
}

/// One observation keeps the elements of a list distinct.
pub proof fn lemma_bump_distinct(list: Seq<(Element, nat)>, e: Element)
    requires
        distinct_elements(list),
    ensures
        distinct_elements(bump(list, e)),
{
    let after = bump(list, e);
    if !records(list, e) {
    } else if list_has(list, e) {
        assert forall|a: int, b: int| 0 <= a < b < after.len() implies (#[trigger] after[a]).0 != (
        #[trigger] after[b]).0 by {
            assert(after[a].0 == list[a].0 && after[b].0 == list[b].0);
        }
    } else {
        assert forall|a: int, b: int| 0 <= a < b < after.len() implies (#[trigger] after[a]).0 != (
        #[trigger] after[b]).0 by {
            if b == list.len() {
                assert(list[a].0 != e);
            } else {
                assert(after[a].0 == list[a].0 && after[b].0 == list[b].0);
            }
        }
    }
}

/// One observation keeps a list well formed, and adds one to its total where
/// the observation is recorded.
pub proof fn lemma_bump(list: Seq<(Element, nat)>, e: Element)
    requires
        list_wf(list),
    ensures
        list_wf(bump(list, e)),
        total_weight(bump(list, e)) == total_weight(list) + if records(list, e) {
            1nat
        } else {
            0nat
        },
{
    let after = bump(list, e);
    lemma_bump_distinct(list, e);
    if !records(list, e) {
    } else if list_has(list, e) {
        let i = list_index(list, e);
        lemma_total_update(list, i, (e, list[i].1 + 1));
        assert forall|k: int| 0 <= k < after.len() implies (#[trigger] after[k]).1 >= 1
            && after[k].0 != placeholder() by {
            assert(list[k].1 >= 1 && list[k].0 != placeholder());
        }
    } else {
        assert(after.drop_last() =~= list);
        assert forall|k: int| 0 <= k < after.len() implies (#[trigger] after[k]).1 >= 1
            && after[k].0 != placeholder() by {
            if k < list.len() {
                assert(list[k].1 >= 1 && list[k].0 != placeholder());
            }
        }
    }
}

} // verus!
