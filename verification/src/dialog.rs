//! The choices of the trust prompt and what each does to the store.

use vstd::prelude::*;
use crate::trust_db::{
    record_at, record_of, trust_workspace, untrust_workspace, with_denial, with_workspace, Trust,
    TrustDb, TrustRecord,
};

verus! {

/// What the user can answer when asked whether to trust a workspace.
#[derive(Clone, Copy, Debug, PartialEq, Eq)]
pub enum TrustChoice {
    /// Deny: no tools run; local configuration can still be trusted by hand.
    DoNotTrust,
    /// Tools may run; local configuration still needs its own approval.
    Trust,
    /// Tools may run and the workspace's local configuration is loaded.
    TrustCompletely,
}

/// The store after `choice` was made for the workspace at `path`.
pub open spec fn after_choice(
    records: Map<Seq<char>, TrustRecord>,
    path: Seq<char>,
    choice: TrustChoice,
) -> Map<Seq<char>, TrustRecord> {
    match choice {
        TrustChoice::DoNotTrust => with_denial(records, path),
        TrustChoice::Trust => with_workspace(records, path, false),
        TrustChoice::TrustCompletely => with_workspace(records, path, true),
    }
}

/// Whether a document whose workspace decision is `decision` calls for the
/// prompt: only where nothing was decided yet.
pub fn needs_prompt(decision: Option<bool>) -> (ask: bool)
    ensures
        ask == decision.is_none(),
{
    decision.is_none()
}

/// Writes the user's choice for the workspace at `path` into the store and
/// returns the record it replaced. A path that could not be resolved (`None`)
/// changes nothing.
pub fn apply_choice(db: &mut TrustDb, path: Option<&str>, choice: TrustChoice) -> (previous:
    Option<Trust>)
    requires
        old(db).wf(),
    ensures
        final(db).wf(),
        match path {
            Some(p) => final(db)@ == after_choice(old(db)@, p@, choice) && record_of(previous)
                == record_at(old(db)@, p@),
            None => final(db)@ == old(db)@ && previous.is_none(),
        },
{
    match choice {
        TrustChoice::DoNotTrust => untrust_workspace(db, path),
        TrustChoice::Trust => trust_workspace(db, path, false),
        TrustChoice::TrustCompletely => trust_workspace(db, path, true),
    }
}

} // verus!
