//! What to do with the store file: how a read of it is taken, and what a
//! mutation writes back.

use vstd::prelude::*;

verus! {

/// What reading the store file gave.
#[derive(Debug, PartialEq, Eq)]
pub enum StoreRead {
    /// The file was read; this is its text.
    Text(String),
    /// The file does not exist.
    Missing,
    /// The read failed for any other reason.
    Failed,
}

/// What to do after reading the store file.
#[derive(Debug, PartialEq, Eq)]
pub enum LoadStep {
    /// Parse this text; a store that does not parse is not to be used at all.
    Parse(String),
    /// Go on with a store without records.
    StartEmpty,
    /// Give up and hand the read's failure to the caller.
    Fail,
}

/// The view of a [`StoreRead`].
pub enum StoreReadView {
    Text(Seq<char>),
    Missing,
    Failed,
}

/// The view of a [`LoadStep`].
pub enum LoadStepView {
    Parse(Seq<char>),
    StartEmpty,
    Fail,
}

impl View for StoreRead {
    type V = StoreReadView;

    open spec fn view(&self) -> StoreReadView {
        match self {
            StoreRead::Text(s) => StoreReadView::Text(s@),
            StoreRead::Missing => StoreReadView::Missing,
            StoreRead::Failed => StoreReadView::Failed,
        }
    }
}

impl View for LoadStep {
    type V = LoadStepView;

    open spec fn view(&self) -> LoadStepView {
        match self {
            LoadStep::Parse(s) => LoadStepView::Parse(s@),
            LoadStep::StartEmpty => LoadStepView::StartEmpty,
            LoadStep::Fail => LoadStepView::Fail,
        }
    }
}

/// The step that follows each outcome of reading the store file.
pub open spec fn step_after(read: StoreReadView) -> LoadStepView {
    match read {
        StoreReadView::Text(text) => LoadStepView::Parse(text),
        StoreReadView::Missing => LoadStepView::StartEmpty,
        StoreReadView::Failed => LoadStepView::Fail,
    }
}

/// Decides how to go on after reading the store file: a missing file is an
/// empty store, any other failure is the caller's to see, and text is parsed.
pub fn after_read(read: StoreRead) -> (step: LoadStep)
    ensures
        step@ == step_after(read@),
{
    match read {
        StoreRead::Text(text) => LoadStep::Parse(text),
        StoreRead::Missing => LoadStep::StartEmpty,
        StoreRead::Failed => LoadStep::Fail,
    }
}

/// What an access does with the store: only read it, or read it, change it
/// and write it back.
#[derive(Clone, Copy, Debug, PartialEq, Eq)]
pub enum Access {
    Inspect,
    Modify,
}

/// One step of an access to the store file.
#[derive(Clone, Copy, Debug, PartialEq, Eq)]
pub enum StoreAction {
    /// Take the exclusive lock, waiting for it as long as it takes.
    AcquireLock,
    /// Read the store file and load the store from it.
    ReadFile,
    /// Write the whole store back.
    WriteFile,
    /// Give the lock back.
    ReleaseLock,
    /// Hand the result, or the failure, to the caller.
    Finish,
}

/// The step that follows `done`, given whether `done` succeeded. The file is
/// read only under the lock and written only after it was read; whatever
/// fails once the lock is held, the lock is released before the access ends.
pub open spec fn action_after(access: Access, done: StoreAction, succeeded: bool) -> StoreAction {
    match done {
        StoreAction::AcquireLock => if succeeded {
            StoreAction::ReadFile
        } else {
            StoreAction::Finish
        },
        StoreAction::ReadFile => if succeeded && access == Access::Modify {
            StoreAction::WriteFile
        } else {
            StoreAction::ReleaseLock
        },
        StoreAction::WriteFile => StoreAction::ReleaseLock,
        StoreAction::ReleaseLock => StoreAction::Finish,
        StoreAction::Finish => StoreAction::Finish,
    }
}

/// How many steps an access can still take after `action`.
pub open spec fn steps_left(action: StoreAction) -> nat {
    match action {
        StoreAction::AcquireLock => 4,
        StoreAction::ReadFile => 3,
        StoreAction::WriteFile => 2,
        StoreAction::ReleaseLock => 1,
        StoreAction::Finish => 0,
    }
}

/// Whether the lock is held while `action` is carried out.
pub open spec fn holds_lock(action: StoreAction) -> bool {
    action == StoreAction::ReadFile || action == StoreAction::WriteFile || action
        == StoreAction::ReleaseLock
}

/// Decides the next step of an access.
pub fn next_action(access: Access, done: StoreAction, succeeded: bool) -> (next: StoreAction)
    ensures
        next == action_after(access, done, succeeded),
{
    match done {
        StoreAction::AcquireLock => if succeeded {
            StoreAction::ReadFile
        } else {
            StoreAction::Finish
        },
        StoreAction::ReadFile => match access {
            Access::Modify => if succeeded {
                StoreAction::WriteFile
            } else {
                StoreAction::ReleaseLock
            },
            Access::Inspect => StoreAction::ReleaseLock,
        },
        StoreAction::WriteFile => StoreAction::ReleaseLock,
        StoreAction::ReleaseLock => StoreAction::Finish,
        StoreAction::Finish => StoreAction::Finish,
    }
}

/// Every access ends, and no step is taken twice: each step leaves fewer
/// steps to take.
pub proof fn law_access_ends(access: Access, done: StoreAction, succeeded: bool)
    requires
        done != StoreAction::Finish,
    ensures
        steps_left(action_after(access, done, succeeded)) < steps_left(done),
{
}

/// The lock is released on every path: a step under the lock is followed by
/// another step under the lock or by the release, never by the end of the
/// access; and the lock is held for a step exactly if it was acquired and not
/// yet released.
pub proof fn law_lock_released(access: Access, done: StoreAction, succeeded: bool)
    ensures
        holds_lock(done) && done != StoreAction::ReleaseLock ==> holds_lock(
            action_after(access, done, succeeded),
        ),
        action_after(access, done, succeeded) == StoreAction::Finish ==> done
            == StoreAction::ReleaseLock || done == StoreAction::Finish || (done
            == StoreAction::AcquireLock && !succeeded),
        holds_lock(action_after(access, done, succeeded)) ==> holds_lock(done) || (done
            == StoreAction::AcquireLock && succeeded),
{
}

/// The file is written only by a modifying access, and only right after the
/// store was read from it under the same lock.
pub proof fn law_write_follows_read(access: Access, done: StoreAction, succeeded: bool)
    ensures
        action_after(access, done, succeeded) == StoreAction::WriteFile <==> access
            == Access::Modify && done == StoreAction::ReadFile && succeeded,
{
}

} // verus!
