//! What holds of the trust store across several operations.

use vstd::prelude::*;
use crate::fingerprint::fingerprint;
use crate::path::{ancestor_at, lemma_ancestor_ended, lemma_ancestor_shift, path_parent};
use crate::format::{decoded_store, encoded_store, law_store_round_trip};
use crate::trust_db::{
    file_granted, file_trusted, in_completely_trusted, lemma_nearest_found, nearest_at,
    unrecorded_below, with_denial, with_file, with_workspace, workspace_decision, TrustDb,
    TrustRecord,
};

verus! {

/// A file that holds no record, in a workspace that is not completely trusted,
/// is not trusted, whatever its content.
pub proof fn law_file_untrusted_before_grant(
    records: Map<Seq<char>, TrustRecord>,
    path: Seq<char>,
    contents: Seq<u8>,
)
    requires
        !records.contains_key(path),
        !in_completely_trusted(records, path),
    ensures
        !file_trusted(records, path, fingerprint(path, contents)),
{
}

/// Right after a grant for a file with some content, the file is trusted with
/// that content.
pub proof fn law_file_trusted_after_grant(
    records: Map<Seq<char>, TrustRecord>,
    path: Seq<char>,
    contents: Seq<u8>,
)
    ensures
        file_trusted(with_file(records, path, contents), path, fingerprint(path, contents)),
{
}

/// After a grant for a file, content with another fingerprint is not trusted,
/// unless the workspace around the file is completely trusted.
pub proof fn law_file_untrusted_after_change(
    records: Map<Seq<char>, TrustRecord>,
    path: Seq<char>,
    contents: Seq<u8>,
    changed: Seq<u8>,
)
    requires
        fingerprint(path, changed) != fingerprint(path, contents),
        !in_completely_trusted(with_file(records, path, contents), path),
    ensures
        !file_trusted(with_file(records, path, contents), path, fingerprint(path, changed)),
{
}

/// After a complete grant for a workspace, every file below it is trusted with
/// any content, as long as no directory strictly between the file and the
/// workspace holds a record of its own.
pub proof fn law_complete_grant_covers_nested(
    records: Map<Seq<char>, TrustRecord>,
    workspace: Seq<char>,
    file: Seq<char>,
    levels: nat,
    hash: Seq<u8>,
)
    requires
        levels >= 1,
        ancestor_at(file, levels) == Some(workspace),
        forall|j: nat|
            1 <= j < levels ==> match #[trigger] ancestor_at(file, j) {
                Some(between) => between != workspace && !records.contains_key(between),
                None => true,
            },
    ensures
        file_trusted(with_workspace(records, workspace, true), file, hash),
{
    let after = with_workspace(records, workspace, true);
    if ancestor_at(file, 1).is_none() {
        lemma_ancestor_ended(file, 1, levels);
    }
    assert(ancestor_at(file, 0) == Some(file));
    let parent = path_parent(file).unwrap();
    let above = (levels - 1) as nat;
    lemma_ancestor_shift(file, parent, above);
    assert forall|j: nat| j < above implies match #[trigger] ancestor_at(parent, j) {
        Some(a) => !after.contains_key(a),
        None => true,
    } by {
        lemma_ancestor_shift(file, parent, j);
        assert(ancestor_at(file, j + 1) == ancestor_at(parent, j));
    }
    assert(unrecorded_below(after, parent, above));
    assert(nearest_at(after, parent, above));
    lemma_nearest_found(after, parent, above);
}

/// A workspace that was granted and then denied resolves to the denial, not to
/// "no decision".
pub proof fn law_denial_replaces_grant(records: Map<Seq<char>, TrustRecord>, workspace: Seq<char>)
    ensures
        workspace_decision(with_denial(with_workspace(records, workspace, false), workspace), workspace)
            == Some(false),
{
    let after = with_denial(with_workspace(records, workspace, false), workspace);
    assert(ancestor_at(workspace, 0) == Some(workspace));
    assert(nearest_at(after, workspace, 0));
    lemma_nearest_found(after, workspace, 0);
}

/// Two grants for different files both persist, in whichever order the store
/// takes them: neither overwrites the other.
pub proof fn law_both_grants_persist(
    records: Map<Seq<char>, TrustRecord>,
    first: Seq<char>,
    first_contents: Seq<u8>,
    second: Seq<char>,
    second_contents: Seq<u8>,
)
    requires
        first != second,
    ensures
        with_file(with_file(records, first, first_contents), second, second_contents) == with_file(
            with_file(records, second, second_contents),
            first,
            first_contents,
        ),
        file_granted(
            with_file(with_file(records, first, first_contents), second, second_contents),
            first,
            fingerprint(first, first_contents),
        ),
        file_granted(
            with_file(with_file(records, first, first_contents), second, second_contents),
            second,
            fingerprint(second, second_contents),
        ),
{
    assert(with_file(with_file(records, first, first_contents), second, second_contents)
        =~= with_file(with_file(records, second, second_contents), first, first_contents));
}

/// Two writers that each load the store from its document, grant one file and
/// write the whole store back, one after the other, leave both grants in the
/// document: `first_written` is the store the first writer wrote, and
/// `second_written` the store the second writer wrote after loading what the
/// first had written.
pub proof fn law_grants_persist_through_document(
    records: Map<Seq<char>, TrustRecord>,
    first_written: TrustDb,
    second_written: TrustDb,
    first: Seq<char>,
    first_contents: Seq<u8>,
    second: Seq<char>,
    second_contents: Seq<u8>,
)
    requires
        first != second,
        first_written.wf(),
        second_written.wf(),
        first_written@ == with_file(records, first, first_contents),
        decoded_store(encoded_store(first_written.listing())) matches Some(loaded)
            && second_written@ == with_file(loaded, second, second_contents),
    ensures
        decoded_store(encoded_store(second_written.listing())) matches Some(last) && file_granted(
            last,
            first,
            fingerprint(first, first_contents),
        ) && file_granted(last, second, fingerprint(second, second_contents)),
{
    law_store_round_trip(first_written);
    law_store_round_trip(second_written);
}

/// Where neither a path nor its parent holds a record and its grandparent
/// does, the workspace decision for the path is the grandparent's.
pub proof fn law_decision_from_two_levels_up(
    records: Map<Seq<char>, TrustRecord>,
    path: Seq<char>,
    parent: Seq<char>,
    grandparent: Seq<char>,
)
    requires
        path_parent(path) == Some(parent),
        path_parent(parent) == Some(grandparent),
        !records.contains_key(path),
        !records.contains_key(parent),
        records.contains_key(grandparent),
    ensures
        workspace_decision(records, path) == Some(records[grandparent] is Workspace),
{
    assert(ancestor_at(path, 0) == Some(path));
    assert(ancestor_at(path, 1) == Some(parent));
    assert(ancestor_at(path, 2) == Some(grandparent));
    assert forall|j: nat| j < 2 implies match #[trigger] ancestor_at(path, j) {
        Some(a) => !records.contains_key(a),
        None => true,
    } by {
        if j == 0 {
        } else {
            assert(j == 1);
        }
    }
    assert(nearest_at(records, path, 2));
    lemma_nearest_found(records, path, 2);
}

} // verus!
