use facetql::engine::{Limits, StorageEngine};
use facetql::filter::Filter;
use facetql::json::{value, Json};
use facetql::tables::open::Parts;
use facetql::tables::query::{Query, QueryError, QueryPage};
use facetql::types::{Coordinate, Node, Visibility};

#[allow(dead_code)]
fn open() -> StorageEngine {
    StorageEngine::create(Limits::new(None, None, None, None), None)
}

/// Opens the database again from its log alone.
#[allow(dead_code)]
fn reopen(engine: StorageEngine) -> StorageEngine {
    let (_, wal) = engine.close().expect("close");
    let mut recovered = StorageEngine::load(Parts::fresh(), wal, Limits::new(None, None, None, None), None)
        .expect("reopen storage engine");
    recovered.recover(0).expect("wal recovery");
    recovered
}

#[allow(dead_code)]
fn node_with(address: &str, kind: &str, owner: &str, data: &str) -> Node {
    let mut n = Node::new(Coordinate::new(0, 0, 0, 0), address.to_string(), kind.to_string(), owner.to_string());
    n.data = data.to_string();
    n
}

#[allow(dead_code)]
fn public(mut n: Node) -> Node {
    n.visibility = Visibility::Public;
    n
}

#[allow(dead_code)]
fn json(text: &str) -> Json {
    value(text).expect("json")
}

#[allow(dead_code)]
fn quoted(text: &str) -> String {
    serde_json::Value::String(text.to_string()).to_string()
}

#[allow(dead_code)]
fn test(op: &str, field: &str, val: &str) -> Filter {
    Filter::new(format!("{{\"op\":{},\"field\":{},\"val\":{}}}", quoted(op), quoted(field), val))
}

/// The member equals the value.
#[allow(dead_code)]
fn eq(field: &str, val: &str) -> Filter {
    let mut f = test("==", field, val);
    let v = json(val);
    if !v.is_null() {
        f.equals.push((field.to_string(), v));
    }
    f
}

/// The member's text contains, begins with or ends with the literal.
#[allow(dead_code)]
fn substring(op: &str, field: &str, literal: &str) -> Filter {
    let mut f = test(op, field, &quoted(literal));
    if op == "starts_with" {
        f.prefixes.push((field.to_string(), literal.to_string()));
    }
    f.contains.push((field.to_string(), literal.to_string()));
    f
}

#[allow(dead_code)]
fn bin(op: &str, l: Filter, r: Filter) -> Filter {
    let mut f = Filter::new(format!("{{\"op\":{},\"l\":{},\"r\":{}}}", quoted(op), l.source, r.source));
    if op == "&&" {
        f.equals.extend(l.equals);
        f.equals.extend(r.equals);
        f.prefixes.extend(l.prefixes);
        f.prefixes.extend(r.prefixes);
        f.contains.extend(l.contains);
        f.contains.extend(r.contains);
    }
    f
}

fn judge(expr: &serde_json::Value, data: &serde_json::Value) -> Result<bool, String> {
    let op = expr.get("op").and_then(|v| v.as_str()).ok_or("cannot evaluate")?;
    if op == "&&" {
        return Ok(judge(&expr["l"], data)? && judge(&expr["r"], data)?);
    }
    if op == "||" {
        return Ok(judge(&expr["l"], data)? || judge(&expr["r"], data)?);
    }
    let field = expr.get("field").and_then(|v| v.as_str()).ok_or("cannot evaluate")?;
    let held = data.get(field).cloned().unwrap_or(serde_json::Value::Null);
    let val = expr.get("val").cloned().unwrap_or(serde_json::Value::Null);
    if op == "==" {
        return Ok(match (held.as_f64(), val.as_f64()) {
            (Some(a), Some(b)) => a == b,
            _ => held == val,
        });
    }
    let (text, literal) = match (held.as_str(), val.as_str()) {
        (Some(text), Some(literal)) => (text, literal),
        _ => return Ok(false),
    };
    match op {
        "contains" => Ok(text.contains(literal)),
        "starts_with" => Ok(text.starts_with(literal)),
        "ends_with" => Ok(text.ends_with(literal)),
        other => Err(format!("unknown op {other}")),
    }
}

fn eval(f: &Filter, n: &Node) -> Result<bool, String> {
    let expr: serde_json::Value = serde_json::from_str(&f.source).map_err(|e| e.to_string())?;
    let data: serde_json::Value = serde_json::from_str(&n.data).unwrap_or(serde_json::Value::Null);
    judge(&expr, &data)
}

/// A condition that cannot be evaluated.
#[allow(dead_code)]
fn nonsense() -> Filter {
    Filter::new("{\"kind\":\"ref\",\"name\":\"somethingElse\"}".to_string())
}

#[allow(dead_code)]
fn ask<'q>(
    kind: Option<&'q str>,
    owner: Option<&'q str>,
    requester: Option<&'q str>,
    filter: Option<&'q Filter>,
) -> Query<'q> {
    Query { kind, owner, requester, filter }
}

#[allow(dead_code)]
fn page(
    e: &mut StorageEngine,
    q: &Query,
    order: Option<&str>,
    desc: bool,
    after: Option<&str>,
    limit: usize,
) -> Result<QueryPage, QueryError> {
    e.query_where(q, order, desc, after, limit, 0, &eval)
}

#[allow(dead_code)]
fn addresses(nodes: &[Node]) -> Vec<String> {
    nodes.iter().map(|n| n.address.clone()).collect()
}

/// Walks every page by its cursor and collects addresses in order.
#[allow(dead_code)]
fn page_all_of(
    e: &mut StorageEngine,
    q: &Query,
    order: Option<&str>,
    desc: bool,
    limit: usize,
) -> Vec<String> {
    let mut out = Vec::new();
    let mut after: Option<String> = None;
    for _ in 0..1000 {
        let got = page(e, q, order, desc, after.as_deref(), limit).expect("query_where ok");
        out.extend(addresses(&got.nodes));
        if got.next.is_empty() {
            return out;
        }
        after = Some(got.next);
    }
    panic!("paging did not terminate");
}

#[allow(dead_code)]
fn page_all(e: &mut StorageEngine, kind: &str, order: Option<&str>, desc: bool, limit: usize) -> Vec<String> {
    page_all_of(e, &ask(Some(kind), None, None, None), order, desc, limit)
}

use facetql::binary::UserOpRecord;
use facetql::btree::BTree;
use facetql::catalog::Catalog;
use facetql::defs::{IndexDef, ReferenceDef, ReferentialAction, TextIndexDef};
use facetql::engine::declare::DeclareError;
use facetql::engine::durable::CheckpointStep;
use facetql::engine::read::{ReadError, MAX_MULTI_GET};
use facetql::engine::sequence::SequenceError;
use facetql::engine::write::ClaimError;
use facetql::heap::{RecordStore, StoreStep};
use facetql::page::Pager;
use facetql::transaction::{Invalidity, TransactionError, TxOperation, Unmet};
use facetql::types::{Edge, EdgeId, UserRecord};

fn node(address: &str, kind: &str, data: &str) -> Node {
    public(node_with(address, kind, "alice", data))
}

fn index(name: &str, kind: &str, field: &str, unique: bool) -> IndexDef {
    IndexDef { name: name.to_string(), kind: kind.to_string(), field: field.to_string(), unique }
}

fn reference(name: &str, kind: &str, field: &str, parent: &str, by: Option<&str>, on_delete: ReferentialAction) -> ReferenceDef {
    ReferenceDef {
        name: name.to_string(),
        kind: kind.to_string(),
        field: field.to_string(),
        parent_kind: parent.to_string(),
        parent_field: by.map(|f| f.to_string()),
        on_delete,
    }
}

fn has(e: &mut StorageEngine, address: &str) -> bool {
    e.get(address).expect("read").is_some()
}

fn data(e: &mut StorageEngine, address: &str) -> serde_json::Value {
    serde_json::from_str(&e.get(address).expect("read").expect("node").data).expect("json")
}

fn id(from: &str, to: &str, kind: &str) -> EdgeId {
    EdgeId { from: from.to_string(), to: to.to_string(), kind: kind.to_string() }
}

fn edge(from: &str, to: &str, kind: &str, owner: &str) -> Edge {
    Edge::new(from.to_string(), to.to_string(), kind.to_string(), owner.to_string())
}

#[test]
fn a_node_is_claimed_once() {
    let mut e = open();
    e.insert(node("job:1", "Job", "{}")).expect("insert");
    e.claim("job:1", "w1").expect("claim");
    assert_eq!(e.get("job:1").expect("read").expect("node").claimed_by, Some("w1".to_string()));
    assert!(matches!(e.claim("job:1", "w2"), Err(ClaimError::AlreadyClaimed(by)) if by == "w1"));
    assert!(matches!(e.claim("job:2", "w2"), Err(ClaimError::NotFound)));
    assert_eq!(e.history_for("job:1").expect("history").len(), 1);
}

#[test]
fn edges_are_found_from_both_ends() {
    let mut e = open();
    for a in ["a", "b", "c"] {
        e.insert(node(a, "N", "{}")).expect("insert");
    }
    e.insert_edge(edge("a", "b", "likes", "alice")).expect("edge");
    e.insert_edge(edge("a", "c", "likes", "alice")).expect("edge");
    e.insert_edge(edge("c", "b", "knows", "alice")).expect("edge");

    let from_a: Vec<String> = e.edges_from("a").expect("read").into_iter().map(|x| x.to).collect();
    assert_eq!(from_a, vec!["b", "c"]);
    let to_b: Vec<String> = e.edges_to("b").expect("read").into_iter().map(|x| x.from).collect();
    assert_eq!(to_b.len(), 2);
    assert!(e.find_edge(&id("c", "b", "knows")).expect("read").is_some());
    assert!(e.find_edge(&id("b", "c", "knows")).expect("read").is_none());

    e.delete_edge(&id("a", "b", "likes")).expect("delete");
    assert!(e.find_edge(&id("a", "b", "likes")).expect("read").is_none());
    assert_eq!(e.edges_from("a").expect("read").len(), 1);
}

#[test]
fn a_transaction_checks_its_edges() {
    let mut e = open();
    e.insert(node("a", "N", "{}")).expect("insert");
    let missing = e.execute_transaction(vec![TxOperation::InsertEdge(edge("a", "nobody", "likes", "alice"))], &eval);
    assert!(matches!(missing, Err(TransactionError::Invalid(Invalidity::EndpointNotFound { .. }))));
    let none = e.execute_transaction(
        vec![TxOperation::DeleteEdge { id: id("a", "b", "likes"), owner: "alice".to_string(), is_admin: false }],
        &eval,
    );
    assert!(matches!(none, Err(TransactionError::Invalid(Invalidity::EdgeNotFound { .. }))));
    e.execute_transaction(
        vec![
            TxOperation::InsertNode(node("b", "N", "{}")),
            TxOperation::InsertEdge(edge("a", "b", "likes", "alice")),
        ],
        &eval,
    )
    .expect("an edge to a node of the same transaction");
    let other = e.execute_transaction(
        vec![TxOperation::DeleteEdge { id: id("a", "b", "likes"), owner: "bob".to_string(), is_admin: false }],
        &eval,
    );
    assert!(matches!(other, Err(TransactionError::Invalid(Invalidity::EdgeNotAuthorized { .. }))));
}

#[test]
fn a_node_comes_with_its_edges() {
    let mut e = open();
    e.insert(node("t", "N", "{}")).expect("insert");
    let made = e
        .insert_with_edges(node("n", "N", "{}"), vec![("t".to_string(), "about".to_string())], false)
        .expect("insert");
    assert_eq!(made.len(), 1);
    assert_eq!((made[0].from.as_str(), made[0].to.as_str(), made[0].kind.as_str()), ("n", "t", "about"));
    assert_eq!(e.edges_to("t").expect("read").len(), 1);

    let refused = e.insert_with_edges(node("m", "N", "{}"), vec![("gone".to_string(), "about".to_string())], false);
    assert!(refused.is_err());
    assert!(!has(&mut e, "m"), "nothing of it is there");
}

#[test]
fn sequences_hand_out_blocks_that_do_not_overlap() {
    let mut e = open();
    assert_eq!(e.sequence_next("orders", 10, "alice", false).expect("first"), 1);
    assert_eq!(e.sequence_next("orders", 1, "alice", false).expect("second"), 11);
    assert_eq!(e.sequence_next("orders", 5, "root", true).expect("third"), 12);
    assert!(matches!(e.sequence_next("orders", 1, "bob", false), Err(SequenceError::NotAuthorized)));
    assert!(matches!(e.sequence_next("orders", 0, "alice", false), Err(SequenceError::Block { count: 0 })));
    assert!(matches!(e.sequence_next("a:b", 1, "alice", false), Err(SequenceError::Name)));
    assert!(matches!(e.sequence_next("", 1, "alice", false), Err(SequenceError::Name)));

    let mut e = reopen(e);
    assert_eq!(e.sequence_next("orders", 1, "alice", false).expect("after a restart"), 17);

    e.insert(node("__sequence:full", "__sequence", "{\"next\":18446744073709551615}")).expect("insert");
    assert!(matches!(
        e.sequence_next("full", 1, "alice", false),
        Err(SequenceError::Exhausted { start: u64::MAX })
    ));
}

#[test]
fn users_are_found_until_revoked() {
    let mut e = open();
    for i in 0..70 {
        e.insert_user(UserRecord { token_hash: "h".to_string(), owner: format!("u{i}"), is_admin: false }).expect("put");
    }
    assert_eq!(e.find_user_by_hash("h").expect("user").owner, "u69");
    assert_eq!(e.list_users().len(), 1);
    assert!(e.compact_user_log(), "most of the log is superseded");
    assert_eq!(e.find_user_by_hash("h").expect("user").owner, "u69");

    e.insert_user(UserRecord { token_hash: "k".to_string(), owner: "v".to_string(), is_admin: true }).expect("put");
    e.revoke_user("h").expect("revoke");
    assert!(e.find_user_by_hash("h").is_none());

    let e = reopen(e);
    assert!(e.find_user_by_hash("h").is_none());
    assert!(e.find_user_by_hash("k").expect("user").is_admin);
}

fn posts(on_delete: ReferentialAction) -> StorageEngine {
    let mut e = open();
    e.insert(node("post:1", "Post", "{}")).expect("insert");
    e.insert(node("c:1", "Comment", "{\"post\":\"post:1\",\"n\":1}")).expect("insert");
    e.insert(node("c:2", "Comment", "{\"post\":\"post:1\"}")).expect("insert");
    e.insert(node("c:3", "Comment", "{\"post\":null}")).expect("insert");
    e.create_index(index("c_post", "Comment", "post", false)).expect("index");
    e.create_reference(reference("c_of", "Comment", "post", "Post", None, on_delete)).expect("reference");
    e
}

#[test]
fn a_node_that_is_named_is_not_deleted_where_that_is_restricted() {
    let mut e = posts(ReferentialAction::Restrict);
    assert!(matches!(
        e.delete("post:1"),
        Err(TransactionError::Precondition(Unmet::Restricted { count: 2, .. }))
    ));
    assert!(has(&mut e, "post:1"));
    e.delete("c:1").expect("delete");
    e.delete("c:2").expect("delete");
    e.delete("post:1").expect("nothing names it any more");
}

#[test]
fn whoever_names_a_deleted_node_goes_with_it_in_a_cascade() {
    let mut e = posts(ReferentialAction::Cascade);
    e.insert(node("r:1", "Reply", "{\"to\":\"c:1\"}")).expect("insert");
    e.create_index(index("r_to", "Reply", "to", false)).expect("index");
    e.create_reference(reference("r_of", "Reply", "to", "Comment", None, ReferentialAction::Cascade)).expect("reference");
    e.delete("post:1").expect("delete");
    for gone in ["post:1", "c:1", "c:2", "r:1"] {
        assert!(!has(&mut e, gone), "{gone} is gone");
        assert_eq!(e.history_for(gone).expect("history").len(), 1, "{gone} is kept");
    }
    assert!(has(&mut e, "c:3"));
}

#[test]
fn whoever_names_a_deleted_node_lets_go_where_that_is_set() {
    let mut e = posts(ReferentialAction::SetNull);
    e.delete("post:1").expect("delete");
    assert_eq!(data(&mut e, "c:1")["post"], serde_json::Value::Null);
    assert_eq!(data(&mut e, "c:1")["n"], serde_json::Value::from(1));
    assert_eq!(data(&mut e, "c:2")["post"], serde_json::Value::Null);
    assert_eq!(e.history_for("c:1").expect("history").len(), 1);
}

#[test]
fn what_is_written_names_only_what_is_there() {
    let mut e = posts(ReferentialAction::Restrict);
    assert!(matches!(
        e.insert(node("c:9", "Comment", "{\"post\":\"post:9\"}")),
        Err(TransactionError::Invalid(Invalidity::Reference(_)))
    ));
    e.execute_transaction(
        vec![
            TxOperation::InsertNode(node("c:9", "Comment", "{\"post\":\"post:9\"}")),
            TxOperation::InsertNode(node("post:9", "Post", "{}")),
        ],
        &eval,
    )
    .expect("a parent in the same transaction");
    assert!(matches!(e.drop_index("c_post"), Err(DeclareError::InUse { count: 1, .. })));
    e.drop_reference("c_of").expect("drop");
    e.drop_index("c_post").expect("drop");
    e.insert(node("c:10", "Comment", "{\"post\":\"nowhere\"}")).expect("no reference any more");
}

#[test]
fn a_reference_needs_what_it_rests_on() {
    let mut e = open();
    e.insert(node("u:1", "User", "{\"mail\":\"a@x\"}")).expect("insert");
    e.insert(node("m:1", "Mail", "{\"to\":\"b@x\"}")).expect("insert");
    let def = || reference("m_to", "Mail", "to", "User", Some("mail"), ReferentialAction::Cascade);
    assert!(matches!(e.create_reference(def()), Err(DeclareError::NeedsIndex)));
    e.create_index(index("mail_to", "Mail", "to", false)).expect("index");
    assert!(matches!(e.create_reference(def()), Err(DeclareError::NeedsParentIndex)));
    e.create_index(index("user_mail", "User", "mail", false)).expect("index");
    assert!(matches!(e.create_reference(def()), Err(DeclareError::NotUnique { .. })));
    e.drop_index("user_mail").expect("drop");
    e.create_index(index("user_mail", "User", "mail", true)).expect("index");
    assert!(matches!(e.create_reference(def()), Err(DeclareError::Unmet(_))));
    e.insert(node("m:1", "Mail", "{\"to\":\"a@x\"}")).expect("insert");
    e.create_reference(def()).expect("reference");
    assert_eq!(e.list_references().len(), 1);
    e.delete("u:1").expect("delete");
    assert!(!has(&mut e, "m:1"));
}

#[test]
fn several_nodes_are_read_at_once() {
    let mut e = open();
    e.insert(node("a", "N", "{}")).expect("insert");
    e.insert(node_with("b", "N", "alice", "{}")).expect("insert");
    let wanted: Vec<String> = vec!["b".to_string(), "nobody".to_string(), "a".to_string()];
    assert_eq!(addresses(&e.multi_get(&wanted, None).expect("read")), vec!["b", "a"]);
    assert_eq!(addresses(&e.multi_get(&wanted, Some("bob")).expect("read")), vec!["a"]);
    let many: Vec<String> = (0..MAX_MULTI_GET + 1).map(|i| i.to_string()).collect();
    assert!(matches!(e.multi_get(&many, None), Err(ReadError::TooMany { len: 1001, max: 1000 })));
    assert_eq!(addresses(&e.nodes_by_owner("alice", Some("bob")).expect("read")), vec!["a"]);
}

fn copy(pager: &Pager) -> Pager {
    let mut out = Pager::new();
    for id in 0..pager.page_count() {
        out.write(id, pager.read(id).expect("page").copy());
    }
    out
}

fn tree(t: &BTree) -> BTree {
    BTree::open(copy(t.pager())).expect("open")
}

fn same(bytes: &Vec<u8>) -> Vec<u8> {
    bytes.clone()
}

fn given(bytes: &Vec<u8>) -> Option<Vec<u8>> {
    Some(bytes.clone())
}

/// The heap as its files have it.
fn heap(store: &RecordStore) -> RecordStore {
    let file = store.catalog().save(&same).expect("save");
    let catalog = Catalog::open(Some(&file), &given).expect("open");
    let mut files = Vec::new();
    for i in 0..catalog.segment_count() {
        files.push(copy(store.segment_pages(catalog.segment(i).id).expect("segment")));
    }
    RecordStore::open(catalog, files).expect("heap")
}

/// Opens the database again from what its files have and the log past the
/// checkpoint.
fn restart(e: StorageEngine, checkpoint: u64) -> StorageEngine {
    let (parts, wal) = e.close().expect("close");
    let read = Parts {
        store: heap(&parts.store),
        primary: tree(&parts.primary),
        kind: tree(&parts.kind),
        owner: tree(&parts.owner),
        history: tree(&parts.history),
        edge_out: tree(&parts.edge_out),
        edge_in: tree(&parts.edge_in),
        data: parts.data.iter().map(tree).collect(),
        text: parts.text.iter().map(tree).collect(),
        user_log: parts.user_log,
        index_log: parts.index_log,
        text_log: parts.text_log,
        reference_log: parts.reference_log,
    };
    let mut e = StorageEngine::load(read, wal, Limits::new(None, None, None, None), None).expect("load");
    e.recover(checkpoint).expect("recover");
    e
}

fn checkpoint_value(steps: &[CheckpointStep]) -> Option<Vec<u8>> {
    steps.iter().find_map(|s| match s {
        CheckpointStep::Checkpoint(bytes) => Some(bytes.clone()),
        _ => None,
    })
}

#[test]
fn a_restart_finds_what_was_checkpointed_and_what_came_after() {
    let mut e = open();
    e.create_index(index("rs_n", "Rs", "n", false)).expect("index");
    for i in 0..50 {
        e.insert(node(&format!("rs:{i:02}"), "Rs", &format!("{{\"n\":{}}}", 50 - i))).expect("insert");
    }
    e.insert_edge(edge("rs:00", "rs:01", "next", "alice")).expect("edge");
    let steps = e.checkpoint(None, true).expect("checkpoint");
    assert!(matches!(steps[0], CheckpointStep::Heap(StoreStep::Flush(_))));
    assert!(matches!(steps.last(), Some(CheckpointStep::Log)));
    let file = checkpoint_value(&steps).expect("checkpoint moves");
    let at: u64 = String::from_utf8(file).expect("text").trim().parse().expect("number");
    assert_eq!(at, 52);
    assert_eq!(e.wal().records().len(), 0, "the log starts anew");

    e.insert(node("rs:00", "Rs", "{\"n\":0}")).expect("overwrite");
    e.delete("rs:49").expect("delete");

    let mut e = restart(e, at);
    assert_eq!(data(&mut e, "rs:00")["n"], serde_json::Value::from(0));
    assert!(!has(&mut e, "rs:49"));
    assert_eq!(e.history_for("rs:00").expect("history").len(), 1);
    assert!(e.find_edge(&id("rs:00", "rs:01", "next")).expect("read").is_some());
    let order = page_all(&mut e, "Rs", Some("n"), false, 7);
    assert_eq!(order.len(), 49);
    assert_eq!(order[0], "rs:00");
    assert_eq!(order[1], "rs:48");

    let before = e.history_for("rs:00").expect("history")[0].version;
    e.insert(node("rs:00", "Rs", "{\"n\":1}")).expect("overwrite");
    let history = e.history_for("rs:00").expect("history");
    assert_eq!(history.len(), 2, "versions go on after a restart");
    assert!(history[1].version > before);
}

#[test]
fn carrying_a_log_out_twice_changes_nothing() {
    let mut e = open();
    e.insert(node("tw:1", "Tw", "{\"v\":1}")).expect("insert");
    e.insert(node("tw:1", "Tw", "{\"v\":2}")).expect("insert");
    e.insert(node("tw:2", "Tw", "{}")).expect("insert");
    e.delete("tw:2").expect("delete");
    e.recover(0).expect("once more");
    assert_eq!(data(&mut e, "tw:1")["v"], serde_json::Value::from(2));
    assert!(!has(&mut e, "tw:2"));
    assert_eq!(e.history_for("tw:1").expect("history").len(), 1);
}

#[test]
fn half_a_frame_is_not_recovered() {
    let mut e = open();
    e.insert(node("hf:1", "Hf", "{\"v\":1}")).expect("insert");
    let whole = e.wal().records().len();
    e.execute_transaction(
        vec![TxOperation::DeleteNode("hf:1".to_string()), TxOperation::InsertNode(node("hf:2", "Hf", "{}"))],
        &eval,
    )
    .expect("transaction");
    let (_, wal) = e.close().expect("close");
    for cut in whole..wal.records().len() {
        let mut records = Vec::new();
        for r in &wal.records()[..cut] {
            let operation = match &r.operation {
                facetql::wal::WalOperation::Begin => facetql::wal::WalOperation::Begin,
                facetql::wal::WalOperation::Commit => facetql::wal::WalOperation::Commit,
                facetql::wal::WalOperation::Abort => facetql::wal::WalOperation::Abort,
                facetql::wal::WalOperation::Apply(op) => facetql::wal::WalOperation::Apply(op.copy()),
            };
            records.push(facetql::wal::WalRecord::new(r.sequence, r.transaction_id, r.operation_id, operation));
        }
        let torn = facetql::wal::Wal::open(records, 0, 0, 0).expect("open");
        let mut again =
            StorageEngine::load(Parts::fresh(), torn, Limits::new(None, None, None, None), None).expect("load");
        again.recover(0).expect("recover");
        assert!(has(&mut again, "hf:1"), "cut at {cut}");
        assert!(!has(&mut again, "hf:2"), "cut at {cut}");
    }
}

#[test]
fn a_drained_segment_outlives_the_reads_that_need_it() {
    let mut e = open();
    e.insert(node("dr:a", "Dr", "{\"v\":1}")).expect("insert");
    e.insert(node("dr:b", "Dr", "{}")).expect("insert");
    let owner = "o".repeat(16_000);
    for _ in 0..4_200 {
        e.insert_edge(edge("dr:a", "dr:b", "next", &owner)).expect("edge");
    }
    assert_eq!(e.stats().expect("stats").storage.segments, 2, "the first segment is full");

    let removes = |steps: &[CheckpointStep]| {
        steps.iter().filter(|s| matches!(s, CheckpointStep::Heap(StoreStep::Remove(0)))).count()
    };
    let pin = e.pin_read();
    let first = e.checkpoint(None, true).expect("checkpoint");
    let indexes = first.iter().position(|s| matches!(s, CheckpointStep::Indexes)).expect("indexes");
    let flushed = |id: u32| {
        first[..indexes].iter().any(|s| matches!(s, CheckpointStep::Heap(StoreStep::Flush(x)) if *x == id))
    };
    assert!(flushed(0) && flushed(1), "the records are written before what leads to them");
    let file = checkpoint_value(&first);
    let second = e.checkpoint(file.as_deref(), true).expect("checkpoint");
    assert_eq!(removes(&first) + removes(&second), 0, "a read is going on");

    e.release_read(pin);
    let third = e.checkpoint(file.as_deref(), true).expect("checkpoint");
    assert!(removes(&third) >= 1, "nothing needs the segment any more");
    assert_eq!(e.stats().expect("stats").storage.segments, 1);
    assert_eq!(data(&mut e, "dr:a")["v"], serde_json::Value::from(1));
    assert_eq!(e.edges_from("dr:a").expect("read")[0].owner, owner);
}

#[test]
fn a_checkpoint_comes_due() {
    let mut e = StorageEngine::create(Limits::new(None, None, None, Some(3)), None);
    for i in 0..3 {
        assert!(!e.checkpoint_due());
        e.insert(node(&format!("cd:{i}"), "Cd", "{}")).expect("insert");
    }
    assert!(e.checkpoint_due());
    e.checkpoint(None, false).expect("checkpoint");
    assert!(!e.checkpoint_due());
    assert!(e.checkpoint(Some(b"not a number"), false).is_err());
}

#[test]
fn a_value_freed_in_a_transaction_may_be_taken_in_it() {
    let mut e = open();
    e.create_index(index("u_v", "U", "v", true)).expect("index");
    e.execute_transaction(
        vec![
            TxOperation::InsertNode(node("u:a", "U", "{\"v\":1}")),
            TxOperation::DeleteNode("u:a".to_string()),
            TxOperation::InsertNode(node("u:b", "U", "{\"v\":1}")),
        ],
        &eval,
    )
    .expect("the value is free again");
    assert!(!has(&mut e, "u:a"));
    assert!(has(&mut e, "u:b"));
    assert!(matches!(
        e.insert(node("u:c", "U", "{\"v\":1}")),
        Err(TransactionError::Invalid(Invalidity::Unique(_)))
    ));
}

#[test]
fn a_parent_keeps_the_value_that_names_it() {
    let mut e = open();
    e.create_index(index("p_code", "P", "code", true)).expect("index");
    e.create_index(index("c_p", "C", "p", false)).expect("index");
    e.insert(node("p:1", "P", "{\"code\":\"x\"}")).expect("insert");
    e.insert(node("c:1", "C", "{\"p\":\"x\"}")).expect("insert");
    e.create_reference(reference("c_of_p", "C", "p", "P", Some("code"), ReferentialAction::Restrict)).expect("reference");
    assert!(matches!(
        e.execute_transaction(
            vec![
                TxOperation::InsertNode(node("p:1", "P", "{\"code\":\"y\"}")),
                TxOperation::InsertNode(node("c:2", "C", "{\"p\":\"x\"}")),
            ],
            &eval,
        ),
        Err(TransactionError::Invalid(Invalidity::Reference(_)))
    ));
    assert!(!has(&mut e, "c:2"));
}

#[test]
fn a_new_database_has_counted_nothing() {
    let e = open();
    let stats = e.stats().expect("stats");
    assert_eq!((stats.node_count, stats.edge_count, stats.reads_total, stats.writes_total), (0, 0, 0, 0));
    assert_eq!(e.wal().last_sequence(), 0);
    assert!(e.list_all_indexes().is_empty());
}

#[test]
fn writes_and_reads_are_counted() {
    let mut e = open();
    for address in ["w:1", "w:2", "w:3"] {
        e.insert(node(address, "W", "{}")).expect("insert");
    }
    e.delete("w:3").expect("delete");
    e.get("w:1").expect("read");
    e.get("w:9").expect("read");
    let stats = e.stats().expect("stats");
    assert_eq!((stats.writes_total, stats.reads_total), (4, 2));
    e.create_index(index("w_n", "W", "n", false)).expect("index");
    let stats = e.stats().expect("stats");
    assert_eq!((stats.writes_total, stats.reads_total), (4, 2), "declaring counts as neither");
}

#[test]
fn indexes_of_both_sorts_are_listed_by_name() {
    let mut e = open();
    e.create_index(index("m_b", "M", "b", false)).expect("index");
    e.create_text_index(TextIndexDef { name: "m_a".to_string(), kind: "M".to_string(), field: "t".to_string() })
        .expect("text index");
    e.create_index(index("m_c", "M", "c", false)).expect("index");
    let names: Vec<String> = e.list_all_indexes().into_iter().map(|i| i.name).collect();
    assert_eq!(names, vec!["m_a", "m_b", "m_c"]);
    assert!(matches!(e.create_index(index("m_a", "M", "d", false)), Err(DeclareError::OtherSort { .. })));
}

#[test]
fn deleting_twice_changes_nothing_more() {
    let mut e = open();
    e.insert(node("d:1", "D", "{\"v\":1}")).expect("insert");
    e.insert(node("d:1", "D", "{\"v\":2}")).expect("insert");
    let history = e.history_for("d:1").expect("history");
    assert_eq!(history.last().expect("kept").node.data, "{\"v\":1}");
    e.delete("d:1").expect("delete");
    let kept = e.history_for("d:1").expect("history").len();
    e.delete("d:1").expect("delete");
    assert!(!has(&mut e, "d:1"));
    assert_eq!(e.history_for("d:1").expect("history").len(), kept);
}

#[test]
fn a_checkpoint_covers_what_was_carried_out_and_no_more() {
    let mut e = open();
    e.insert(node("cp:1", "Cp", "{}")).expect("insert");
    let steps = e.checkpoint(None, false).expect("checkpoint");
    let file = checkpoint_value(&steps).expect("checkpoint moves");
    assert_eq!(file, b"1".to_vec());
    e.insert(node("cp:2", "Cp", "{}")).expect("insert");
    let steps = e.checkpoint(Some(&file), false).expect("checkpoint");
    assert_eq!(checkpoint_value(&steps), Some(b"2".to_vec()));
    let mut early = restart(e, 1);
    assert!(has(&mut early, "cp:1") && has(&mut early, "cp:2"), "what is there already is carried out again");
}

#[test]
fn a_long_log_of_users_is_written_anew() {
    let mut e = open();
    for i in 0..70 {
        e.insert_user(UserRecord { token_hash: "h".to_string(), owner: format!("o{i}"), is_admin: false }).expect("user");
    }
    assert!(e.compact_user_log());
    assert!(!e.compact_user_log());
    assert_eq!(e.find_user_by_hash("h").expect("user").owner, "o69");
}

fn three_nodes() -> StorageEngine {
    let mut e = open();
    e.create_index(index("pa_n", "Pa", "n", false)).expect("index");
    for i in 0..3 {
        e.insert(node(&format!("pa:{i}"), "Pa", &format!("{{\"n\":{i}}}"))).expect("insert");
    }
    e.insert_edge(edge("pa:0", "pa:1", "next", "alice")).expect("edge");
    e.insert(node("pa:0", "Pa", "{\"n\":9}")).expect("insert");
    e
}

fn loads(parts: Parts, wal: facetql::wal::Wal) -> bool {
    StorageEngine::load(parts, wal, Limits::new(None, None, None, None), None).is_some()
}

#[test]
fn parts_that_do_not_agree_are_not_loaded() {
    let (parts, wal) = three_nodes().close().expect("close");
    assert!(loads(parts, wal));
    let (mut parts, wal) = three_nodes().close().expect("close");
    parts.kind = BTree::fresh();
    assert!(!loads(parts, wal));
    let (mut parts, wal) = three_nodes().close().expect("close");
    parts.data[0] = BTree::fresh();
    assert!(!loads(parts, wal));
    let (mut parts, wal) = three_nodes().close().expect("close");
    parts.edge_in = BTree::fresh();
    assert!(!loads(parts, wal));
    let (mut parts, wal) = three_nodes().close().expect("close");
    parts.store = RecordStore::fresh();
    assert!(!loads(parts, wal));
    let (mut parts, wal) = three_nodes().close().expect("close");
    parts.data.clear();
    assert!(!loads(parts, wal));
    let (parts, _) = three_nodes().close().expect("close");
    assert!(!loads(parts, facetql::wal::Wal::new()), "a version past those given out");
}

#[test]
fn a_compacted_log_of_users_holds_each_once() {
    let user = |hash: &str, owner: &str| UserRecord {
        token_hash: hash.to_string(),
        owner: owner.to_string(),
        is_admin: false,
    };
    let mut e = open();
    for i in 0..64 {
        e.insert_user(user(&format!("h{}", i % 3), "alice")).expect("user");
    }
    assert!(!e.compact_user_log(), "the log may have as many records as this");
    e.revoke_user("h2").expect("revoke");
    assert!(e.compact_user_log());
    assert!(!e.compact_user_log());
    let mut listed: Vec<String> = e.list_users().iter().map(|u| u.token_hash.clone()).collect();
    listed.sort();
    assert_eq!(listed, vec!["h0", "h1"]);
    let (parts, _) = e.close().expect("close");
    let mut put: Vec<String> = parts
        .user_log
        .iter()
        .map(|op| match op {
            UserOpRecord::Put(u) => u.token_hash.clone(),
            UserOpRecord::Revoke(_) => panic!("nothing is revoked"),
        })
        .collect();
    put.sort();
    assert_eq!(put, listed);
}

#[test]
fn the_nodes_of_an_owner_are_bounded() {
    let mut e = StorageEngine::create(Limits::new(Some(2), None, None, None), None);
    e.insert(node("no:a", "No", "{}")).expect("insert");
    e.insert(node("no:b", "No", "{}")).expect("insert");
    assert_eq!(addresses(&e.nodes_by_owner("alice", Some("bob")).expect("read")), vec!["no:a", "no:b"]);
    e.insert(node_with("no:c", "No", "alice", "{}")).expect("insert");
    assert!(matches!(e.nodes_by_owner("alice", Some("bob")), Err(ReadError::ScanLimit { max: 2 })));
}

#[test]
fn a_read_leaves_everything_but_the_readers() {
    let mut e = open();
    e.insert(node("rl:a", "Rl", "{}")).expect("insert");
    let before = e.stats().expect("stats");
    let pin = e.pin_read();
    e.release_read(pin);
    let after = e.stats().expect("stats");
    assert_eq!(before.storage.segments, after.storage.segments);
    assert_eq!(e.wal().records().len(), 1);
    assert!(has(&mut e, "rl:a"));
}
