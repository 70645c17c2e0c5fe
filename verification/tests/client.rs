use harmony::client::{
    client_step, max_parallel_transfers, modification_of, plan_sync, ClientAction, ClientEvent,
    ClientState, Modification, Outcome,
};
use harmony::diffing::DiffItemModified;
use harmony::snapshot::{Snapshot, SnapshotFileMetadata, SnapshotItem, SnapshotItemMetadata};

fn file(size: u64, secs: u64, nanos: u32) -> SnapshotItemMetadata {
    SnapshotItemMetadata::File(SnapshotFileMetadata {
        size,
        last_modif_date_s: secs,
        last_modif_date_ns: nanos,
    })
}

fn snapshot(items: Vec<(&str, SnapshotItemMetadata)>) -> Snapshot {
    Snapshot {
        from_dir: String::from("/tree"),
        items: items
            .into_iter()
            .map(|(p, m)| SnapshotItem { relative_path: p.to_string(), metadata: m })
            .collect(),
    }
}

#[test]
fn equal_trees_leave_nothing_to_do() {
    let local = snapshot(vec![("a", file(1, 10, 0)), ("d", SnapshotItemMetadata::Directory)]);
    let remote = snapshot(vec![("d", SnapshotItemMetadata::Directory), ("a", file(1, 10, 0))]);
    assert!(plan_sync(&local, &remote).is_none());
    assert!(plan_sync(&snapshot(vec![]), &snapshot(vec![])).is_none());
}

#[test]
fn times_within_a_second_leave_nothing_to_do() {
    let local = snapshot(vec![("keep.txt", file(5, 1_700_000_000, 300_000_000))]);
    let remote = snapshot(vec![("keep.txt", file(5, 1_700_000_000, 0))]);
    assert!(plan_sync(&local, &remote).is_none());
    let remote = snapshot(vec![("keep.txt", file(5, 1_700_000_001, 300_000_000))]);
    assert!(plan_sync(&local, &remote).is_none());
}

#[test]
fn differences_are_planned() {
    let local = snapshot(vec![("keep.txt", file(5, 100, 0)), ("new", file(1, 1, 1))]);
    let remote = snapshot(vec![("keep.txt", file(5, 102, 0)), ("old", file(2, 2, 2))]);
    let diff = plan_sync(&local, &remote).expect("there are differences");
    assert_eq!(diff.added.len(), 1);
    assert_eq!(diff.added[0].0, "new");
    assert_eq!(diff.modified.len(), 1);
    assert_eq!(diff.modified[0].0, "keep.txt");
    assert_eq!(diff.deleted.len(), 1);
    assert_eq!(diff.deleted[0].0, "old");
    assert!(diff.type_changed.is_empty());
}

#[test]
fn transfers_in_parallel() {
    assert_eq!(max_parallel_transfers(None, 4), 4);
    assert_eq!(max_parallel_transfers(None, 8), 8);
    assert_eq!(max_parallel_transfers(None, 64), 8);
    assert_eq!(max_parallel_transfers(None, 0), 0);
    assert_eq!(max_parallel_transfers(Some(32), 4), 32);
    assert_eq!(max_parallel_transfers(Some(1), 64), 1);
}

#[test]
fn what_sets_two_sides_apart() {
    let m = |a: (u64, u64, u32), b: (u64, u64, u32)| DiffItemModified {
        prev: SnapshotFileMetadata { size: a.0, last_modif_date_s: a.1, last_modif_date_ns: a.2 },
        new: SnapshotFileMetadata { size: b.0, last_modif_date_s: b.1, last_modif_date_ns: b.2 },
    };
    assert_eq!(modification_of(&m((1, 5, 5), (2, 5, 5))), Modification::Size);
    assert_eq!(modification_of(&m((1, 5, 5), (2, 6, 7))), Modification::Size);
    assert_eq!(modification_of(&m((1, 5, 5), (1, 6, 5))), Modification::Date);
    assert_eq!(modification_of(&m((1, 5, 5), (1, 5, 6))), Modification::Date);
    assert_eq!(modification_of(&m((1, 5, 5), (1, 5, 5))), Modification::Nothing);
}

fn run(events: &[ClientEvent]) -> Vec<ClientAction> {
    let mut state = ClientState::Start;
    let mut actions = Vec::new();
    for event in events {
        let (next, action) = client_step(state, *event);
        state = next;
        actions.push(action);
    }
    actions
}

#[test]
fn a_run_that_opens_a_session() {
    let actions = run(&[
        ClientEvent::Started,
        ClientEvent::TokenReceived,
        ClientEvent::IsOpen(false),
        ClientEvent::DiffReady { empty: false, dry_run: false },
        ClientEvent::Consent(true),
        ClientEvent::SyncInfosReceived,
        ClientEvent::TransfersDone { failed: 0 },
        ClientEvent::Finalized,
    ]);
    assert_eq!(
        actions,
        vec![
            ClientAction::RequestAccessToken,
            ClientAction::CheckIsOpen,
            ClientAction::CompareSnapshots,
            ClientAction::AskToBegin,
            ClientAction::Begin,
            ClientAction::Transfer,
            ClientAction::Finalize,
            ClientAction::Finish(Outcome::Synchronized),
        ]
    );
}

#[test]
fn a_run_that_resumes_a_session() {
    let actions = run(&[
        ClientEvent::Started,
        ClientEvent::TokenReceived,
        ClientEvent::IsOpen(true),
        ClientEvent::Consent(true),
        ClientEvent::SyncInfosReceived,
        ClientEvent::TransfersDone { failed: 0 },
        ClientEvent::Finalized,
    ]);
    assert_eq!(
        actions,
        vec![
            ClientAction::RequestAccessToken,
            ClientAction::CheckIsOpen,
            ClientAction::AskToResume,
            ClientAction::Resume,
            ClientAction::Transfer,
            ClientAction::Finalize,
            ClientAction::Finish(Outcome::Synchronized),
        ]
    );
}

#[test]
fn runs_that_end_early() {
    let start = [ClientEvent::Started, ClientEvent::TokenReceived];
    let ends = |tail: &[ClientEvent]| {
        let mut events = start.to_vec();
        events.extend_from_slice(tail);
        *run(&events).last().unwrap()
    };
    assert_eq!(
        ends(&[ClientEvent::IsOpen(false), ClientEvent::DiffReady { empty: true, dry_run: false }]),
        ClientAction::Finish(Outcome::NothingToDo)
    );
    assert_eq!(
        ends(&[ClientEvent::IsOpen(false), ClientEvent::DiffReady { empty: true, dry_run: true }]),
        ClientAction::Finish(Outcome::NothingToDo)
    );
    assert_eq!(
        ends(&[ClientEvent::IsOpen(false), ClientEvent::DiffReady { empty: false, dry_run: true }]),
        ClientAction::Finish(Outcome::DryRunCompleted)
    );
    assert_eq!(
        ends(&[
            ClientEvent::IsOpen(false),
            ClientEvent::DiffReady { empty: false, dry_run: false },
            ClientEvent::Consent(false)
        ]),
        ClientAction::Finish(Outcome::Cancelled)
    );
    assert_eq!(
        ends(&[ClientEvent::IsOpen(true), ClientEvent::Consent(false)]),
        ClientAction::Finish(Outcome::Cancelled)
    );
    assert_eq!(
        ends(&[
            ClientEvent::IsOpen(true),
            ClientEvent::Consent(true),
            ClientEvent::SyncInfosReceived,
            ClientEvent::TransfersDone { failed: 3 }
        ]),
        ClientAction::Finish(Outcome::TransfersFailed(3))
    );
}

#[test]
fn events_out_of_order_end_the_run() {
    assert_eq!(
        client_step(ClientState::Start, ClientEvent::Finalized),
        (ClientState::Done, ClientAction::Finish(Outcome::OutOfOrder))
    );
    assert_eq!(
        client_step(ClientState::Transferring, ClientEvent::Consent(true)),
        (ClientState::Done, ClientAction::Finish(Outcome::OutOfOrder))
    );
    assert_eq!(
        client_step(ClientState::Done, ClientEvent::Started),
        (ClientState::Done, ClientAction::Finish(Outcome::OutOfOrder))
    );
    assert_eq!(
        client_step(ClientState::AwaitingDiff, ClientEvent::IsOpen(false)),
        (ClientState::Done, ClientAction::Finish(Outcome::OutOfOrder))
    );
}

#[test]
fn exit_codes() {
    assert_eq!(Outcome::NothingToDo.exit_code(), 0);
    assert_eq!(Outcome::DryRunCompleted.exit_code(), 0);
    assert_eq!(Outcome::Synchronized.exit_code(), 0);
    assert_eq!(Outcome::Cancelled.exit_code(), 1);
    assert_eq!(Outcome::TransfersFailed(2).exit_code(), 1);
    assert_eq!(Outcome::OutOfOrder.exit_code(), 1);
}

#[test]
fn the_same_entries_in_any_order_leave_nothing_to_do() {
    let dir = SnapshotItemMetadata::Directory;
    let local = snapshot(vec![("a", file(1, 10, 0)), ("d", dir), ("d/e", file(2, 20, 5))]);
    let remote =
        snapshot(vec![("d/e", file(2, 20, 5)), ("a", file(1, 10, 0)), ("d", dir), ("d", dir)]);
    assert!(plan_sync(&local, &remote).is_none());
    assert!(plan_sync(&remote, &local).is_none());
    // and the run ends without a session being asked for
    let (state, action) = client_step(
        ClientState::AwaitingDiff,
        ClientEvent::DiffReady { empty: plan_sync(&local, &remote).is_none(), dry_run: false },
    );
    assert_eq!(state, ClientState::Done);
    assert_eq!(action, ClientAction::Finish(Outcome::NothingToDo));
}
