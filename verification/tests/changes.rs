use facetql::changes::{
    emit_unit, frame_state, horizon, scan, validate_positions, ChangeKind, ChangeRecord, FrameState, Lens, ScanError,
    ScanTooOld,
};
use facetql::types::{Coordinate, HistoryEntry, Node, Visibility};
use facetql::wal::{
    CommittedTransactions, Operation, WalOperation, WalRecord, STANDALONE_TRANSACTION_ID,
};

fn node(address: &str, owner: &str, visibility: Visibility) -> Node {
    let mut node =
        Node::new(Coordinate::new(0, 0, 0, 0), address.to_string(), "Thing".to_string(), owner.to_string());
    node.visibility = visibility;
    node
}

fn record(sequence: u64, transaction_id: u64, operation: WalOperation) -> WalRecord {
    WalRecord::new(sequence, transaction_id, sequence + 1000, operation)
}

fn apply(operation: Operation) -> WalOperation {
    WalOperation::Apply(operation)
}

fn emitted(unit: &[WalRecord], owner: &str, is_admin: bool) -> Vec<ChangeRecord> {
    let mut out = Vec::new();
    emit_unit(unit, &Lens { after: 0, owner, is_admin }, &mut out);
    out
}

#[test]
fn a_delete_is_authorized_by_the_state_it_removed() {
    let removed = node("secret:1", "alice", Visibility::Private);
    let unit = vec![
        record(1, 7, WalOperation::Begin),
        record(2, 7, apply(Operation::Archive(HistoryEntry::at(removed, 1)))),
        record(3, 7, apply(Operation::Delete("secret:1".to_string()))),
        record(4, 7, WalOperation::Commit),
    ];

    let owner_view = emitted(&unit, "alice", false);
    assert_eq!(owner_view.len(), 1);
    assert_eq!(owner_view[0].change, ChangeKind::Deleted);
    assert_eq!(owner_view[0].address, "secret:1");
    assert_eq!(owner_view[0].kind, "Thing");

    assert!(
        emitted(&unit, "bob", false).is_empty(),
        "a stranger must not learn that a private node was deleted"
    );
    assert_eq!(emitted(&unit, "root", true).len(), 1, "an admin reads everything already");
}

#[test]
fn an_unattributable_delete_is_omitted() {
    let unit = vec![record(
        1,
        STANDALONE_TRANSACTION_ID,
        apply(Operation::Delete("never-existed".to_string())),
    )];

    assert!(emitted(&unit, "alice", false).is_empty());
    assert!(emitted(&unit, "root", true).is_empty());
}

#[test]
fn an_archive_before_an_insert_makes_it_an_update() {
    let previous = node("post:1", "alice", Visibility::Public);
    let next = node("post:1", "alice", Visibility::Public);

    let overwrite = vec![
        record(1, 7, WalOperation::Begin),
        record(2, 7, apply(Operation::Archive(HistoryEntry::at(previous, 1)))),
        record(3, 7, apply(Operation::Insert(next.copy()))),
        record(4, 7, WalOperation::Commit),
    ];
    assert_eq!(emitted(&overwrite, "bob", false)[0].change, ChangeKind::Updated);

    let fresh = vec![record(1, STANDALONE_TRANSACTION_ID, apply(Operation::Insert(next)))];
    assert_eq!(emitted(&fresh, "bob", false)[0].change, ChangeKind::Created);
}

#[test]
fn an_uncommitted_frame_is_in_flight_only_at_the_tail() {
    let unit = vec![
        record(1, 7, WalOperation::Begin),
        record(2, 7, apply(Operation::Insert(node("a", "alice", Visibility::Public)))),
    ];
    let committed = CommittedTransactions::new();

    assert!(matches!(frame_state(&unit, &committed, true), FrameState::InFlight));
    assert!(matches!(frame_state(&unit, &committed, false), FrameState::Terminal));
}

#[test]
fn the_horizon_moves_only_once_the_first_record_is_gone() {
    let complete =
        vec![record(1, STANDALONE_TRANSACTION_ID, apply(Operation::Delete("x".to_string())))];
    assert_eq!(horizon(&complete, 5), 0);

    let rotated =
        vec![record(94, STANDALONE_TRANSACTION_ID, apply(Operation::Delete("x".to_string())))];
    assert_eq!(horizon(&rotated, 5), rotated[0].operation_id);

    assert_eq!(horizon(&[], 5), 5);
}

#[test]
fn positions_that_do_not_ascend_are_refused() {
    let mut records = vec![
        record(1, STANDALONE_TRANSACTION_ID, apply(Operation::Delete("a".to_string()))),
        record(2, STANDALONE_TRANSACTION_ID, apply(Operation::Delete("b".to_string()))),
    ];
    records[1].operation_id = records[0].operation_id;

    assert!(validate_positions(&records).is_err());
    assert!(validate_positions(&records[..1]).is_ok());
    assert!(matches!(validate_positions(&records), Err(ScanError::Order { sequence: 2 })));
}

fn feed() -> Vec<WalRecord> {
    vec![
        record(1, STANDALONE_TRANSACTION_ID, apply(Operation::Insert(node("a", "alice", Visibility::Public)))),
        record(2, 7, WalOperation::Begin),
        record(3, 7, apply(Operation::Insert(node("b", "alice", Visibility::Public)))),
        record(4, 7, apply(Operation::Insert(node("c", "alice", Visibility::Private)))),
        record(5, 7, WalOperation::Commit),
        record(6, 8, WalOperation::Begin),
        record(7, 8, apply(Operation::Insert(node("d", "alice", Visibility::Public)))),
        record(8, 8, WalOperation::Abort),
        record(9, STANDALONE_TRANSACTION_ID, apply(Operation::Insert(node("e", "alice", Visibility::Public)))),
        record(10, 9, WalOperation::Begin),
        record(11, 9, apply(Operation::Insert(node("f", "alice", Visibility::Public)))),
    ]
}

fn addresses(changes: &[ChangeRecord]) -> Vec<String> {
    changes.iter().map(|c| c.address.clone()).collect()
}

#[test]
fn pages_of_the_feed_join_to_the_whole() {
    let records = feed();
    let whole = scan(&records, 0, 0, 100, "bob", false).expect("scan");
    assert_eq!(addresses(&whole.changes), vec!["a", "b", "e"]);

    let mut joined: Vec<String> = Vec::new();
    let mut after: u64 = 0;
    for _ in 0..20 {
        let page = scan(&records, 0, after, 1, "bob", false).expect("scan");
        joined.extend(addresses(&page.changes));
        after = page.next;
        if page.complete {
            break;
        }
    }
    assert_eq!(joined, addresses(&whole.changes));
}

#[test]
fn the_feed_shows_only_what_is_settled() {
    let records = feed();
    let owner = scan(&records, 0, 0, 100, "alice", false).expect("scan");
    assert_eq!(addresses(&owner.changes), vec!["a", "b", "c", "e"]);
}

#[test]
fn a_position_that_the_log_no_longer_holds_is_too_old() {
    let records = vec![record(94, STANDALONE_TRANSACTION_ID, apply(Operation::Delete("x".to_string())))];
    assert!(matches!(
        scan(&records, 0, 3, 10, "root", true),
        Err(ScanError::TooOld(ScanTooOld { requested: 3, earliest: 1094, retained: 1 }))
    ));
}
