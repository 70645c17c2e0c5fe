//! What the client decides while it pushes a tree: which differences count,
//! how many transfers run at once, and which step follows which. Talking to
//! the server and to the user is left to the caller.

use crate::diffing::{
    granularity_nanos, is_diff_of, is_empty_diff, settled, Diff, DiffItemModified, DiffView,
};
use crate::snapshot::{Snapshot, SnapshotItemMetadata};
use vstd::prelude::*;

verus! {

/// How far apart, in seconds, two modification times may lie and still
/// count as the same: some filesystems keep whole seconds only.
pub const TIME_GRANULARITY_SECONDS: u64 = 1;

/// The most transfers that run at once unless the user says otherwise.
pub const DEFAULT_PARALLEL_TRANSFERS: usize = 8;

/// `d` is what is left to synchronise between the two catalogues: their
/// diff, without the files that differ by no more than a second in time.
pub open spec fn is_sync_diff(
    d: DiffView,
    local: Map<Seq<char>, SnapshotItemMetadata>,
    remote: Map<Seq<char>, SnapshotItemMetadata>,
) -> bool {
    exists|full: DiffView| #[trigger]
        is_diff_of(full, local, remote) && d == settled(
            full,
            granularity_nanos(TIME_GRANULARITY_SECONDS, 0),
        )
}

/// Compares the local tree with the remote one and says what there is to
/// synchronise, or `None` where there is nothing. There is nothing where the
/// two snapshots say the same of every path.
pub fn plan_sync(local: &Snapshot, remote: &Snapshot) -> (todo: Option<Diff>)
    ensures
        match todo {
            Some(d) => is_sync_diff(d@, local.catalog(), remote.catalog()) && !is_empty_diff(d@),
            None => exists|d: DiffView| #[trigger]
                is_sync_diff(d, local.catalog(), remote.catalog()) && is_empty_diff(d),
        },
        local.catalog() == remote.catalog() ==> todo is None,
{
    broadcast use vstd::seq::Seq::lemma_filter_len;

    let full = Diff::build(local, remote);
    let ghost whole = full@;
    let diff = full.apply_time_granularity(TIME_GRANULARITY_SECONDS, 0);
    proof {
        assert(diff@ == settled(whole, granularity_nanos(TIME_GRANULARITY_SECONDS, 0)));
        assert(is_diff_of(whole, local.catalog(), remote.catalog()));
        assert(is_sync_diff(diff@, local.catalog(), remote.catalog()));
    }
    if diff.is_empty() {
        None
    } else {
        Some(diff)
    }
}

/// How many transfers run at once: as many as asked for, or else as many as
/// the machine has cores, and eight at most.
pub fn max_parallel_transfers(requested: Option<usize>, cores: usize) -> (n: usize)
    ensures
        n == match requested {
            Some(r) => r,
            None => if cores < DEFAULT_PARALLEL_TRANSFERS {
                cores
            } else {
                DEFAULT_PARALLEL_TRANSFERS
            },
        },
{
    match requested {
        Some(r) => r,
        None => if cores < DEFAULT_PARALLEL_TRANSFERS {
            cores
        } else {
            DEFAULT_PARALLEL_TRANSFERS
        },
    }
}

/// What sets the two sides of a modified file apart.
#[derive(Clone, Copy, Debug, PartialEq, Eq, Structural)]
pub enum Modification {
    /// The sizes differ.
    Size,
    /// The sizes agree and the times of modification differ.
    Date,
    /// Nothing: the two sides are the same.
    Nothing,
}

/// Says what sets the two sides of a modified file apart: the size first.
pub fn modification_of(m: &DiffItemModified) -> (how: Modification)
    ensures
        how == if m.prev.size != m.new.size {
            Modification::Size
        } else if m.prev.last_modif_date_s != m.new.last_modif_date_s || m.prev.last_modif_date_ns
            != m.new.last_modif_date_ns {
            Modification::Date
        } else {
            Modification::Nothing
        },
        how == Modification::Nothing <==> m.prev == m.new,
{
    if m.prev.size != m.new.size {
        Modification::Size
    } else if m.prev.last_modif_date_s != m.new.last_modif_date_s || m.prev.last_modif_date_ns
        != m.new.last_modif_date_ns {
        Modification::Date
    } else {
        Modification::Nothing
    }
}

/// Where the client stands in a run.
#[derive(Clone, Copy, Debug, PartialEq, Eq, Structural)]
pub enum ClientState {
    /// Nothing has happened yet.
    Start,
    /// An access token has been asked for.
    AwaitingToken,
    /// The server has been asked whether the slot has a session.
    AwaitingIsOpen,
    /// The user has been asked whether to go on with the slot's session.
    AwaitingResumeConsent,
    /// The two snapshots are being made and compared.
    AwaitingDiff,
    /// The user has been shown the diff and asked whether to go on.
    AwaitingBeginConsent,
    /// The server has been asked to open or resume a session.
    AwaitingSyncInfos,
    /// The files are being sent.
    Transferring,
    /// The server has been asked to end the session.
    Finalizing,
    /// The run is over.
    Done,
}

/// What has happened since the last step.
#[derive(Clone, Copy, Debug, PartialEq, Eq, Structural)]
pub enum ClientEvent {
    /// The run begins.
    Started,
    /// The access token has arrived.
    TokenReceived,
    /// The server has said whether the slot has a session.
    IsOpen(bool),
    /// The user has answered.
    Consent(bool),
    /// The snapshots have been compared: whether nothing is left to
    /// synchronise, and whether the run is a dry one.
    DiffReady { empty: bool, dry_run: bool },
    /// The server has opened or resumed the session.
    SyncInfosReceived,
    /// Every transfer has ended; this many have failed.
    TransfersDone { failed: usize },
    /// The server has ended the session.
    Finalized,
}

/// How a run ends.
#[derive(Clone, Copy, Debug, PartialEq, Eq, Structural)]
pub enum Outcome {
    /// The trees were equal already.
    NothingToDo,
    /// The run was a dry one and has shown what it would do.
    DryRunCompleted,
    /// The user did not want to go on.
    Cancelled,
    /// This many transfers failed; the session stays open.
    TransfersFailed(usize),
    /// The slot's tree is now the local one.
    Synchronized,
    /// Something happened that cannot happen at this point.
    OutOfOrder,
}

/// What the caller is to do next.
#[derive(Clone, Copy, Debug, PartialEq, Eq, Structural)]
pub enum ClientAction {
    RequestAccessToken,
    CheckIsOpen,
    AskToResume,
    Resume,
    CompareSnapshots,
    AskToBegin,
    Begin,
    Transfer,
    Finalize,
    Finish(Outcome),
}

impl Outcome {
    /// The exit code of a run that ends this way: zero where nothing went wrong.
    pub fn exit_code(&self) -> (code: u8)
        ensures
            code == 0 <==> (*self == Outcome::NothingToDo || *self == Outcome::DryRunCompleted
                || *self == Outcome::Synchronized),
            code <= 1,
    {
        match self {
            Outcome::NothingToDo => 0,
            Outcome::DryRunCompleted => 0,
            Outcome::Synchronized => 0,
            Outcome::Cancelled => 1,
            Outcome::TransfersFailed(_) => 1,
            Outcome::OutOfOrder => 1,
        }
    }
}

/// The step that follows: the next state, and what the caller is to do.
pub open spec fn next_step(state: ClientState, event: ClientEvent) -> (ClientState, ClientAction) {
    match (state, event) {
        (ClientState::Start, ClientEvent::Started) => (
            ClientState::AwaitingToken,
            ClientAction::RequestAccessToken,
        ),
        (ClientState::AwaitingToken, ClientEvent::TokenReceived) => (
            ClientState::AwaitingIsOpen,
            ClientAction::CheckIsOpen,
        ),
        (ClientState::AwaitingIsOpen, ClientEvent::IsOpen(true)) => (
            ClientState::AwaitingResumeConsent,
            ClientAction::AskToResume,
        ),
        (ClientState::AwaitingIsOpen, ClientEvent::IsOpen(false)) => (
            ClientState::AwaitingDiff,
            ClientAction::CompareSnapshots,
        ),
        (ClientState::AwaitingResumeConsent, ClientEvent::Consent(true)) => (
            ClientState::AwaitingSyncInfos,
            ClientAction::Resume,
        ),
        (ClientState::AwaitingResumeConsent, ClientEvent::Consent(false)) => (
            ClientState::Done,
            ClientAction::Finish(Outcome::Cancelled),
        ),
        (ClientState::AwaitingDiff, ClientEvent::DiffReady { empty: true, dry_run: _ }) => (
            ClientState::Done,
            ClientAction::Finish(Outcome::NothingToDo),
        ),
        (ClientState::AwaitingDiff, ClientEvent::DiffReady { empty: false, dry_run: true }) => (
            ClientState::Done,
            ClientAction::Finish(Outcome::DryRunCompleted),
        ),
        (ClientState::AwaitingDiff, ClientEvent::DiffReady { empty: false, dry_run: false }) => (
            ClientState::AwaitingBeginConsent,
            ClientAction::AskToBegin,
        ),
        (ClientState::AwaitingBeginConsent, ClientEvent::Consent(true)) => (
            ClientState::AwaitingSyncInfos,
            ClientAction::Begin,
        ),
        (ClientState::AwaitingBeginConsent, ClientEvent::Consent(false)) => (
            ClientState::Done,
            ClientAction::Finish(Outcome::Cancelled),
        ),
        (ClientState::AwaitingSyncInfos, ClientEvent::SyncInfosReceived) => (
            ClientState::Transferring,
            ClientAction::Transfer,
        ),
        (ClientState::Transferring, ClientEvent::TransfersDone { failed }) => if failed == 0 {
            (ClientState::Finalizing, ClientAction::Finalize)
        } else {
            (ClientState::Done, ClientAction::Finish(Outcome::TransfersFailed(failed)))
        },
        (ClientState::Finalizing, ClientEvent::Finalized) => (
            ClientState::Done,
            ClientAction::Finish(Outcome::Synchronized),
        ),
        _ => (ClientState::Done, ClientAction::Finish(Outcome::OutOfOrder)),
    }
}

/// Takes one step of a run.
pub fn client_step(state: ClientState, event: ClientEvent) -> (next: (ClientState, ClientAction))
    ensures
        next == next_step(state, event),
{
    match state {
        ClientState::Start => match event {
            ClientEvent::Started => (ClientState::AwaitingToken, ClientAction::RequestAccessToken),
            _ => out_of_order(),
        },
        ClientState::AwaitingToken => match event {
            ClientEvent::TokenReceived => (ClientState::AwaitingIsOpen, ClientAction::CheckIsOpen),
            _ => out_of_order(),
        },
        ClientState::AwaitingIsOpen => match event {
            ClientEvent::IsOpen(open) => if open {
                (ClientState::AwaitingResumeConsent, ClientAction::AskToResume)
            } else {
                (ClientState::AwaitingDiff, ClientAction::CompareSnapshots)
            },
            _ => out_of_order(),
        },
        ClientState::AwaitingResumeConsent => match event {
            ClientEvent::Consent(yes) => if yes {
                (ClientState::AwaitingSyncInfos, ClientAction::Resume)
            } else {
                (ClientState::Done, ClientAction::Finish(Outcome::Cancelled))
            },
            _ => out_of_order(),
        },
        ClientState::AwaitingDiff => match event {
            ClientEvent::DiffReady { empty, dry_run } => if empty {
                (ClientState::Done, ClientAction::Finish(Outcome::NothingToDo))
            } else if dry_run {
                (ClientState::Done, ClientAction::Finish(Outcome::DryRunCompleted))
            } else {
                (ClientState::AwaitingBeginConsent, ClientAction::AskToBegin)
            },
            _ => out_of_order(),
        },
        ClientState::AwaitingBeginConsent => match event {
            ClientEvent::Consent(yes) => if yes {
                (ClientState::AwaitingSyncInfos, ClientAction::Begin)
            } else {
                (ClientState::Done, ClientAction::Finish(Outcome::Cancelled))
            },
            _ => out_of_order(),
        },
        ClientState::AwaitingSyncInfos => match event {
            ClientEvent::SyncInfosReceived => (ClientState::Transferring, ClientAction::Transfer),
            _ => out_of_order(),
        },
        ClientState::Transferring => match event {
            ClientEvent::TransfersDone { failed } => if failed == 0 {
                (ClientState::Finalizing, ClientAction::Finalize)
            } else {
                (ClientState::Done, ClientAction::Finish(Outcome::TransfersFailed(failed)))
            },
            _ => out_of_order(),
        },
        ClientState::Finalizing => match event {
            ClientEvent::Finalized => (
                ClientState::Done,
                ClientAction::Finish(Outcome::Synchronized),
            ),
            _ => out_of_order(),
        },
        ClientState::Done => out_of_order(),
    }
}

fn out_of_order() -> (next: (ClientState, ClientAction))
    ensures
        next == (ClientState::Done, ClientAction::Finish(Outcome::OutOfOrder)),
{
    (ClientState::Done, ClientAction::Finish(Outcome::OutOfOrder))
}

/// A session is opened only with the user's consent to a diff that is not
/// empty, in a run that is not a dry one: where the trees are equal
/// already, the run ends at once and the server is not asked for a session.
pub proof fn lemma_no_session_without_cause(state: ClientState, event: ClientEvent)
    ensures
        next_step(state, event).1 == ClientAction::Begin ==> state
            == ClientState::AwaitingBeginConsent && event == ClientEvent::Consent(true),
        next_step(state, event).0 == ClientState::AwaitingBeginConsent ==> state
            == ClientState::AwaitingDiff && event == (ClientEvent::DiffReady {
            empty: false,
            dry_run: false,
        }),
        forall|dry_run: bool|
            next_step(ClientState::AwaitingDiff, ClientEvent::DiffReady { empty: true, dry_run })
                == (ClientState::Done, ClientAction::Finish(Outcome::NothingToDo)),
{
}

/// The server is asked to end the session only when every transfer has
/// succeeded; a transfer that failed ends the run with a failure, after all
/// the others have had their turn.
pub proof fn lemma_finalize_needs_all_transfers(state: ClientState, event: ClientEvent)
    ensures
        next_step(state, event).1 == ClientAction::Finalize ==> state == ClientState::Transferring
            && event == (ClientEvent::TransfersDone { failed: 0 }),
        forall|failed: usize|
            failed > 0 ==> #[trigger] next_step(
                ClientState::Transferring,
                ClientEvent::TransfersDone { failed },
            ) == (ClientState::Done, ClientAction::Finish(Outcome::TransfersFailed(failed))),
{
}

} // verus!
