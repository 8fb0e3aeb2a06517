//! What the merge does to the value under each key of a table.

use vstd::prelude::*;
use crate::config::{
    field, first_at, index_of, lemma_index_found, merged_doc, merged_entries, with_entry, Doc,
};

verus! {

/// No two entries of a table share a key.
pub open spec fn distinct_keys(entries: Seq<(Seq<char>, Doc)>) -> bool {
    forall|i: int, j: int|
        0 <= i < j < entries.len() ==> (#[trigger] entries[i]).0 != (#[trigger] entries[j]).0
}

/// The value under a key after an overlay's value was laid onto what the base
/// held there, if it held anything.
pub open spec fn combined(held: Option<Doc>, over: Doc, depth: nat) -> Doc {
    match held {
        Some(base) => merged_doc(base, over, (depth - 1) as nat),
        None => over,
    }
}

proof fn lemma_first_exists(entries: Seq<(Seq<char>, Doc)>, key: Seq<char>, at: int)
    requires
        0 <= at < entries.len(),
        entries[at].0 == key,
    ensures
        exists|i: int| first_at(entries, key, i),
    decreases at,
{
    if forall|j: int| 0 <= j < at ==> (#[trigger] entries[j]).0 != key {
        assert(first_at(entries, key, at));
    } else {
        let j = choose|j: int| 0 <= j < at && (#[trigger] entries[j]).0 == key;
        lemma_first_exists(entries, key, j);
    }
}

proof fn lemma_absent(entries: Seq<(Seq<char>, Doc)>, key: Seq<char>)
    requires
        index_of(entries, key).is_none(),
    ensures
        forall|j: int| 0 <= j < entries.len() ==> (#[trigger] entries[j]).0 != key,
{
    assert forall|j: int| 0 <= j < entries.len() implies (#[trigger] entries[j]).0 != key by {
        if entries[j].0 == key {
            lemma_first_exists(entries, key, j);
        }
    }
}

/// Two tables with the same keys at the same positions, up to the length of
/// the shorter one, find a key at the same place there.
proof fn lemma_same_keys(
    left: Seq<(Seq<char>, Doc)>,
    right: Seq<(Seq<char>, Doc)>,
    key: Seq<char>,
)
    requires
        left.len() <= right.len(),
        forall|i: int| 0 <= i < left.len() ==> (#[trigger] left[i]).0 == right[i].0,
        forall|i: int| left.len() <= i < right.len() ==> (#[trigger] right[i]).0 != key,
    ensures
        index_of(right, key) == index_of(left, key),
{
    if exists|i: int| first_at(left, key, i) {
        let i = choose|i: int| first_at(left, key, i);
        assert(left[i].0 == right[i].0);
        assert forall|j: int| 0 <= j < i implies (#[trigger] right[j]).0 != key by {
            assert(left[j].0 == right[j].0);
        }
        lemma_index_found(right, key, i);
    } else {
        lemma_absent(left, key);
        assert forall|i: int| !first_at(right, key, i) by {
            if first_at(right, key, i) {
                if i < left.len() {
                    assert(left[i].0 == right[i].0);
                }
            }
        }
    }
}

/// Laying one entry onto a table changes the value under that entry's key and
/// under no other.
pub proof fn lemma_with_entry_field(
    base: Seq<(Seq<char>, Doc)>,
    key: Seq<char>,
    value: Doc,
    depth: nat,
    query: Seq<char>,
)
    requires
        depth > 0,
    ensures
        field(with_entry(base, key, value, depth), query) == (if query == key {
            Some(combined(field(base, key), value, depth))
        } else {
            field(base, query)
        }),
{
    let after = with_entry(base, key, value, depth);
    match index_of(base, key) {
        Some(i) => {
            assert(first_at(base, key, i));
            assert forall|x: int| 0 <= x < base.len() implies (#[trigger] base[x]).0 == after[x].0 by {}
            lemma_same_keys(base, after, query);
            if query != key {
                if index_of(base, query) is Some {
                    assert(first_at(base, query, index_of(base, query).unwrap()));
                }
            }
        },
        None => {
            lemma_absent(base, key);
            if query == key {
                assert(first_at(after, key, base.len() as int));
                lemma_index_found(after, key, base.len() as int);
            } else {
                assert forall|x: int| 0 <= x < base.len() implies (#[trigger] base[x]).0 == after[x].0 by {}
                lemma_same_keys(base, after, query);
                if index_of(base, query) is Some {
                    assert(first_at(base, query, index_of(base, query).unwrap()));
                }
            }
        },
    }
}

proof fn lemma_field_of_rest(over: Seq<(Seq<char>, Doc)>, query: Seq<char>)
    requires
        over.len() > 0,
        distinct_keys(over),
    ensures
        distinct_keys(over.drop_first()),
        query == over[0].0 ==> field(over, query) == Some(over[0].1) && field(
            over.drop_first(),
            query,
        ).is_none(),
        query != over[0].0 ==> field(over, query) == field(over.drop_first(), query),
{
    let rest = over.drop_first();
    assert forall|i: int| 0 <= i < rest.len() implies #[trigger] rest[i] == over[i + 1] by {}
    assert forall|i: int, j: int| 0 <= i < j < rest.len() implies (#[trigger] rest[i]).0 != (
    #[trigger] rest[j]).0 by {
        assert(rest[i] == over[i + 1] && rest[j] == over[j + 1]);
    }
    if query == over[0].0 {
        assert(first_at(over, query, 0));
        lemma_index_found(over, query, 0);
        assert forall|i: int| !first_at(rest, query, i) by {
            if first_at(rest, query, i) {
                assert(rest[i] == over[i + 1]);
                assert(over[0].0 != over[i + 1].0);
            }
        }
    } else {
        if exists|i: int| first_at(rest, query, i) {
            let i = choose|i: int| first_at(rest, query, i);
            assert(rest[i] == over[i + 1]);
            assert forall|j: int| 0 <= j < i + 1 implies (#[trigger] over[j]).0 != query by {
                if j > 0 {
                    assert(rest[j - 1] == over[j]);
                }
            }
            assert(first_at(over, query, i + 1));
            lemma_index_found(over, query, i + 1);
        } else {
            assert forall|i: int| !first_at(over, query, i) by {
                if first_at(over, query, i) {
                    assert(i > 0);
                    assert(rest[i - 1] == over[i]);
                    assert forall|j: int| 0 <= j < i - 1 implies (#[trigger] rest[j]).0
                        != query by {
                        assert(rest[j] == over[j + 1]);
                    }
                    assert(first_at(rest, query, i - 1));
                }
            }
        }
    }
}

/// The merge, key by key: under a key that the overlay holds, the merged table
/// holds the overlay's value laid onto the base's, one level deeper; under any
/// other key it holds what the base held. The overlay's keys must be distinct,
/// as those of a table are.
pub proof fn law_merge_by_key(
    base: Seq<(Seq<char>, Doc)>,
    over: Seq<(Seq<char>, Doc)>,
    depth: nat,
    query: Seq<char>,
)
    requires
        depth > 0,
        distinct_keys(over),
    ensures
        field(merged_entries(base, over, depth), query) == (match field(over, query) {
            Some(value) => Some(combined(field(base, query), value, depth)),
            None => field(base, query),
        }),
    decreases over.len(),
{
    if over.len() == 0 {
        assert forall|i: int| !first_at(over, query, i) by {}
    } else {
        let stepped = with_entry(base, over[0].0, over[0].1, depth);
        lemma_field_of_rest(over, query);
        lemma_with_entry_field(base, over[0].0, over[0].1, depth, query);
        law_merge_by_key(stepped, over.drop_first(), depth, query);
    }
}

} // verus!
