//! Tables of lists.

use crate::order::{self, sorted_unique};
use crate::table::{self, Table};
use crate::text::{self, text_eq};
use vstd::prelude::*;

verus! {

/// The list under a key, empty where there is none.
pub open spec fn list_at(lists: Map<Seq<char>, Vec<String>>, key: Seq<char>) -> Seq<Seq<char>> {
    if lists.contains_key(key) {
        text::texts(lists[key]@)
    } else {
        seq![]
    }
}

/// Appends `item` to the list under `key`.
pub fn push_under(lists: &mut Table<Vec<String>>, key: &str, item: String)
    ensures
        final(lists)@.dom() == old(lists)@.dom().insert(key@),
        list_at(final(lists)@, key@) == list_at(old(lists)@, key@).push(item@),
        forall|k: Seq<char>|
            k != key@ ==> #[trigger] list_at(final(lists)@, k) == list_at(old(lists)@, k),
{
    let ghost before = lists@;
    match lists.slot_of(key) {
        Some(slot) => {
            let mut list: Vec<String> = Vec::new();
            lists.swap_value(slot, &mut list);
            list.push(item);
            lists.swap_value(slot, &mut list);
        },
        None => {
            let mut list: Vec<String> = Vec::new();
            list.push(item);
            lists.insert(key.to_owned(), list);
        },
    }
    assert(list_at(lists@, key@) =~= list_at(before, key@).push(item@));
    assert(lists@.dom() =~= before.dom().insert(key@));
}

/// Whether each list of `after` is that of `before`, sorted and without repetitions.
pub open spec fn lists_sorted(
    before: Map<Seq<char>, Vec<String>>,
    after: Map<Seq<char>, Vec<String>>,
) -> bool {
    &&& after.dom() == before.dom()
    &&& forall|k: Seq<char>| #[trigger]
        after.contains_key(k) ==> order::strictly_sorted(text::texts(after[k]@)) && text::texts(
            after[k]@,
        ).to_set() == text::texts(before[k]@).to_set()
}

/// Sorts each list and takes the repetitions out.
pub fn sort_lists(lists: &mut Table<Vec<String>>)
    ensures
        lists_sorted(old(lists)@, final(lists)@),
{
    let ghost before = *lists;
    let rows = lists.len();
    proof {
        table::table_keys(lists);
    }
    let mut i: usize = 0;
    while i < rows
        invariant
            i <= rows,
            rows == before.keys().len(),
            before.valid(),
            before.keys().no_duplicates(),
            lists.keys() == before.keys(),
            lists@.dom() == before@.dom(),
            forall|k: int| #![trigger before.keys()[k]]
                0 <= k < rows ==> before@.contains_key(before.keys()[k]),
            forall|k: int| #![trigger before.keys()[k]]
                0 <= k < i ==> order::strictly_sorted(text::texts(lists@[before.keys()[k]]@)) && text::texts(
                    lists@[before.keys()[k]]@,
                ).to_set() == text::texts(before@[before.keys()[k]]@).to_set(),
            forall|k: int| #![trigger before.keys()[k]]
                i <= k < rows ==> lists@[before.keys()[k]] == before@[before.keys()[k]],
        decreases rows - i,
    {
        let ghost here = before.keys()[i as int];
        let mut list: Vec<String> = Vec::new();
        lists.swap_value(i, &mut list);
        let mut sorted = sorted_unique(list);
        lists.swap_value(i, &mut sorted);
        assert(lists@.dom() =~= before@.dom());
        i = i + 1;
    }
    assert forall|k: Seq<char>| #[trigger] lists@.contains_key(k) implies order::strictly_sorted(
        text::texts(lists@[k]@),
    ) && text::texts(lists@[k]@).to_set() == text::texts(before@[k]@).to_set() by {
        table::table_keys(&before);
        assert(before@.contains_key(k));
        let at = choose|at: int| 0 <= at < rows && before.keys()[at] == k;
        assert(before.keys()[at] == k);
    }
}

/// A copy of the list.
pub fn copy_list(list: &Vec<String>) -> (r: Vec<String>)
    ensures
        r@ == list@,
{
    let mut out: Vec<String> = Vec::new();
    let mut i: usize = 0;
    while i < list.len()
        invariant
            i <= list@.len(),
            out@ == list@.take(i as int),
        decreases list@.len() - i,
    {
        out.push(list[i].clone());
        assert(out@ =~= list@.take(i + 1));
        i = i + 1;
    }
    assert(list@.take(list@.len() as int) =~= list@);
    out
}

/// Whether a text is in the list.
pub fn list_contains(list: &Vec<String>, text: &str) -> (r: bool)
    ensures
        r == text::texts(list@).contains(text@),
{
    let mut i: usize = 0;
    while i < list.len()
        invariant
            i <= list@.len(),
            forall|k: int| 0 <= k < i ==> text::texts(list@)[k] != text@,
        decreases list@.len() - i,
    {
        if text_eq(list[i].as_str(), text) {
            assert(text::texts(list@)[i as int] == text@);
            return true;
        }
        i = i + 1;
    }
    false
}

/// Which identifiers `filed` puts under `key`.
pub open spec fn filed_under(
    filed: spec_fn(Seq<char>) -> Seq<char>,
    key: Seq<char>,
) -> spec_fn(Seq<char>) -> bool {
    |id: Seq<char>| filed(id) == key
}

/// The identifiers of `ids` that `filed` puts under `key`, in order.
pub open spec fn under(
    ids: Seq<Seq<char>>,
    filed: spec_fn(Seq<char>) -> Seq<char>,
    key: Seq<char>,
) -> Seq<Seq<char>> {
    ids.filter(filed_under(filed, key))
}

/// Whether each list holds the identifiers of `ids` that `filed` puts under its key, in order.
pub open spec fn is_filing(
    lists: Map<Seq<char>, Vec<String>>,
    ids: Seq<Seq<char>>,
    filed: spec_fn(Seq<char>) -> Seq<char>,
) -> bool {
    forall|key: Seq<char>| #[trigger]
        list_at(lists, key) == under(ids, filed, key) && (lists.contains_key(key) <==> under(
            ids,
            filed,
            key,
        ).len() > 0)
}

/// Whether each list holds the identifiers of `ids` that `filed` puts under its key, sorted, and
/// no list is empty.
pub open spec fn is_index_by(
    index: Map<Seq<char>, Vec<String>>,
    ids: Set<Seq<char>>,
    filed: spec_fn(Seq<char>) -> Seq<char>,
) -> bool {
    &&& forall|key: Seq<char>| #[trigger]
        index.contains_key(key) <==> list_at(index, key).len() > 0
    &&& forall|key: Seq<char>| order::strictly_sorted(#[trigger] list_at(index, key))
    &&& forall|key: Seq<char>, id: Seq<char>| #[trigger]
        list_at(index, key).contains(id) <==> ids.contains(id) && filed(id) == key
}

/// Nothing is filed at first.
pub proof fn filing_begins(
    lists: Map<Seq<char>, Vec<String>>,
    filed: spec_fn(Seq<char>) -> Seq<char>,
)
    requires
        lists == Map::<Seq<char>, Vec<String>>::empty(),
    ensures
        is_filing(lists, seq![], filed),
{
    reveal(Seq::filter);
    assert forall|key: Seq<char>| #[trigger]
        list_at(lists, key) == under(seq![], filed, key) && (lists.contains_key(key) <==> under(
            seq![],
            filed,
            key,
        ).len() > 0) by {
        assert(list_at(lists, key) =~= under(seq![], filed, key));
    }
}

/// Appending an identifier to the list under its key goes on with the filing.
pub proof fn filing_goes_on(
    before: Map<Seq<char>, Vec<String>>,
    after: Map<Seq<char>, Vec<String>>,
    ids: Seq<Seq<char>>,
    id: Seq<char>,
    filed: spec_fn(Seq<char>) -> Seq<char>,
)
    requires
        is_filing(before, ids, filed),
        after.dom() == before.dom().insert(filed(id)),
        list_at(after, filed(id)) == list_at(before, filed(id)).push(id),
        forall|k: Seq<char>|
            k != filed(id) ==> #[trigger] list_at(after, k) == list_at(before, k),
    ensures
        is_filing(after, ids.push(id), filed),
{
    reveal(Seq::filter);
    assert(ids.push(id).drop_last() =~= ids);
    assert forall|key: Seq<char>| #[trigger]
        list_at(after, key) == under(ids.push(id), filed, key) && (after.contains_key(key)
            <==> under(ids.push(id), filed, key).len() > 0) by {
        assert(list_at(before, key) == under(ids, filed, key));
        assert(after.contains_key(key) <==> after.dom().contains(key));
    }
}

/// A filing with its lists sorted is an index.
pub proof fn sorted_filing_is_an_index(
    filing: Map<Seq<char>, Vec<String>>,
    index: Map<Seq<char>, Vec<String>>,
    ids: Seq<Seq<char>>,
    filed: spec_fn(Seq<char>) -> Seq<char>,
)
    requires
        is_filing(filing, ids, filed),
        lists_sorted(filing, index),
    ensures
        is_index_by(index, ids.to_set(), filed),
{
    assert forall|key: Seq<char>| #[trigger] index.contains_key(key) <==> list_at(
        index,
        key,
    ).len() > 0 by {
        assert(index.dom().contains(key) <==> filing.dom().contains(key));
        assert(list_at(filing, key) == under(ids, filed, key));
        if index.contains_key(key) {
            let first = list_at(filing, key)[0];
            assert(list_at(filing, key).contains(first));
            assert(list_at(index, key).to_set().contains(first));
        }
    }
    assert forall|key: Seq<char>, id: Seq<char>| #[trigger]
        list_at(index, key).contains(id) <==> ids.to_set().contains(id) && filed(id) == key by {
        assert(index.dom().contains(key) <==> filing.dom().contains(key));
        assert(list_at(filing, key) == under(ids, filed, key));
        under_holds(ids, filed, key, id);
        if index.contains_key(key) {
            assert(list_at(index, key).contains(id) <==> list_at(index, key).to_set().contains(id));
            assert(list_at(filing, key).contains(id) <==> list_at(filing, key).to_set().contains(
                id,
            ));
        } else if under(ids, filed, key).contains(id) {
            assert(filing.contains_key(key));
        }
    }
}

proof fn under_holds(
    ids: Seq<Seq<char>>,
    filed: spec_fn(Seq<char>) -> Seq<char>,
    key: Seq<char>,
    id: Seq<char>,
)
    ensures
        under(ids, filed, key).contains(id) <==> ids.contains(id) && filed(id) == key,
{
    let pred = filed_under(filed, key);
    broadcast use vstd::seq_lib::group_filter_ensures;

    if ids.contains(id) && filed(id) == key {
        let i = choose|i: int| 0 <= i < ids.len() && ids[i] == id;
        assert(pred(ids[i]));
        assert(ids.filter(pred).contains(ids[i]));
    }
    if ids.filter(pred).contains(id) {
        ids.lemma_filter_contains_rev(pred, id);
        let i = choose|i: int| 0 <= i < ids.filter(pred).len() && ids.filter(pred)[i] == id;
        assert(pred(ids.filter(pred)[i]));
    }
}

} // verus!
