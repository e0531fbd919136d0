use facetql::engine::{Limits, StorageEngine};
use facetql::filter::Filter;
use facetql::json::{value, Json};
use facetql::tables::open::Parts;
use facetql::tables::query::{Query, QueryError, QueryPage};
use facetql::types::{Coordinate, Node, Visibility};

#[allow(dead_code)]
fn open() -> StorageEngine {
    StorageEngine::create(Limits::new(None, None, None, None), None)
}

/// Opens the database again from its log alone.
#[allow(dead_code)]
fn reopen(engine: StorageEngine) -> StorageEngine {
    let (_, wal) = engine.close().expect("close");
    let mut recovered = StorageEngine::load(Parts::fresh(), wal, Limits::new(None, None, None, None), None)
        .expect("reopen storage engine");
    recovered.recover(0).expect("wal recovery");
    recovered
}

#[allow(dead_code)]
fn node_with(address: &str, kind: &str, owner: &str, data: &str) -> Node {
    let mut n = Node::new(Coordinate::new(0, 0, 0, 0), address.to_string(), kind.to_string(), owner.to_string());
    n.data = data.to_string();
    n
}

#[allow(dead_code)]
fn public(mut n: Node) -> Node {
    n.visibility = Visibility::Public;
    n
}

#[allow(dead_code)]
fn json(text: &str) -> Json {
    value(text).expect("json")
}

#[allow(dead_code)]
fn quoted(text: &str) -> String {
    serde_json::Value::String(text.to_string()).to_string()
}

#[allow(dead_code)]
fn test(op: &str, field: &str, val: &str) -> Filter {
    Filter::new(format!("{{\"op\":{},\"field\":{},\"val\":{}}}", quoted(op), quoted(field), val))
}

/// The member equals the value.
#[allow(dead_code)]
fn eq(field: &str, val: &str) -> Filter {
    let mut f = test("==", field, val);
    let v = json(val);
    if !v.is_null() {
        f.equals.push((field.to_string(), v));
    }
    f
}

/// The member's text contains, begins with or ends with the literal.
#[allow(dead_code)]
fn substring(op: &str, field: &str, literal: &str) -> Filter {
    let mut f = test(op, field, &quoted(literal));
    if op == "starts_with" {
        f.prefixes.push((field.to_string(), literal.to_string()));
    }
    f.contains.push((field.to_string(), literal.to_string()));
    f
}

#[allow(dead_code)]
fn bin(op: &str, l: Filter, r: Filter) -> Filter {
    let mut f = Filter::new(format!("{{\"op\":{},\"l\":{},\"r\":{}}}", quoted(op), l.source, r.source));
    if op == "&&" {
        f.equals.extend(l.equals);
        f.equals.extend(r.equals);
        f.prefixes.extend(l.prefixes);
        f.prefixes.extend(r.prefixes);
        f.contains.extend(l.contains);
        f.contains.extend(r.contains);
    }
    f
}

fn judge(expr: &serde_json::Value, data: &serde_json::Value) -> Result<bool, String> {
    let op = expr.get("op").and_then(|v| v.as_str()).ok_or("cannot evaluate")?;
    if op == "&&" {
        return Ok(judge(&expr["l"], data)? && judge(&expr["r"], data)?);
    }
    if op == "||" {
        return Ok(judge(&expr["l"], data)? || judge(&expr["r"], data)?);
    }
    let field = expr.get("field").and_then(|v| v.as_str()).ok_or("cannot evaluate")?;
    let held = data.get(field).cloned().unwrap_or(serde_json::Value::Null);
    let val = expr.get("val").cloned().unwrap_or(serde_json::Value::Null);
    if op == "==" {
        return Ok(match (held.as_f64(), val.as_f64()) {
            (Some(a), Some(b)) => a == b,
            _ => held == val,
        });
    }
    let (text, literal) = match (held.as_str(), val.as_str()) {
        (Some(text), Some(literal)) => (text, literal),
        _ => return Ok(false),
    };
    match op {
        "contains" => Ok(text.contains(literal)),
        "starts_with" => Ok(text.starts_with(literal)),
        "ends_with" => Ok(text.ends_with(literal)),
        other => Err(format!("unknown op {other}")),
    }
}

fn eval(f: &Filter, n: &Node) -> Result<bool, String> {
    let expr: serde_json::Value = serde_json::from_str(&f.source).map_err(|e| e.to_string())?;
    let data: serde_json::Value = serde_json::from_str(&n.data).unwrap_or(serde_json::Value::Null);
    judge(&expr, &data)
}

/// A condition that cannot be evaluated.
#[allow(dead_code)]
fn nonsense() -> Filter {
    Filter::new("{\"kind\":\"ref\",\"name\":\"somethingElse\"}".to_string())
}

#[allow(dead_code)]
fn ask<'q>(
    kind: Option<&'q str>,
    owner: Option<&'q str>,
    requester: Option<&'q str>,
    filter: Option<&'q Filter>,
) -> Query<'q> {
    Query { kind, owner, requester, filter }
}

#[allow(dead_code)]
fn page(
    e: &mut StorageEngine,
    q: &Query,
    order: Option<&str>,
    desc: bool,
    after: Option<&str>,
    limit: usize,
) -> Result<QueryPage, QueryError> {
    e.query_where(q, order, desc, after, limit, 0, &eval)
}

#[allow(dead_code)]
fn addresses(nodes: &[Node]) -> Vec<String> {
    nodes.iter().map(|n| n.address.clone()).collect()
}

/// Walks every page by its cursor and collects addresses in order.
#[allow(dead_code)]
fn page_all_of(
    e: &mut StorageEngine,
    q: &Query,
    order: Option<&str>,
    desc: bool,
    limit: usize,
) -> Vec<String> {
    let mut out = Vec::new();
    let mut after: Option<String> = None;
    for _ in 0..1000 {
        let got = page(e, q, order, desc, after.as_deref(), limit).expect("query_where ok");
        out.extend(addresses(&got.nodes));
        if got.next.is_empty() {
            return out;
        }
        after = Some(got.next);
    }
    panic!("paging did not terminate");
}

#[allow(dead_code)]
fn page_all(e: &mut StorageEngine, kind: &str, order: Option<&str>, desc: bool, limit: usize) -> Vec<String> {
    page_all_of(e, &ask(Some(kind), None, None, None), order, desc, limit)
}

use facetql::order::bits_order;
use facetql::transaction::{Expectation, Invalidity, TransactionError, TxOperation, Unmet};

fn node_owned(address: &str, kind: &str, owner: &str) -> Node {
    node_with(address, kind, owner, "")
}

fn clear(kind: &str, owner: &str, is_admin: bool) -> TxOperation {
    TxOperation::ClearKind { kind: kind.to_string(), owner: owner.to_string(), is_admin }
}

fn delete_where(kind: &str, where_: Option<Filter>, owner: &str, is_admin: bool) -> TxOperation {
    TxOperation::DeleteWhere { kind: kind.to_string(), where_, owner: owner.to_string(), is_admin }
}

fn delete_node(address: &str) -> TxOperation {
    TxOperation::DeleteNode(address.to_string())
}

fn run(e: &mut StorageEngine, ops: Vec<TxOperation>) -> Result<(), TransactionError> {
    e.execute_transaction(ops, &eval)
}

fn has(e: &mut StorageEngine, address: &str) -> bool {
    e.get(address).expect("read").is_some()
}

#[test]
fn admin_clears_all_of_a_kind() {
    let mut e = open();
    e.insert(node_owned("ck_admin:1", "CkAdminEntity", "alice")).unwrap();
    e.insert(node_owned("ck_admin:2", "CkAdminEntity", "bob")).unwrap();
    e.insert(node_owned("ck_admin:keep", "CkAdminOther", "alice")).unwrap();

    run(&mut e, vec![clear("CkAdminEntity", "root", true)]).expect("admin clear commits");

    assert!(!has(&mut e, "ck_admin:1"), "admin cleared alice's node");
    assert!(!has(&mut e, "ck_admin:2"), "admin cleared bob's node");
    assert!(has(&mut e, "ck_admin:keep"), "other kind untouched");
}

#[test]
fn non_admin_clears_only_its_own_nodes() {
    let mut e = open();
    e.insert(node_owned("ck_own:mine1", "CkOwnEntity", "alice")).unwrap();
    e.insert(node_owned("ck_own:mine2", "CkOwnEntity", "alice")).unwrap();
    e.insert(node_owned("ck_own:theirs", "CkOwnEntity", "bob")).unwrap();

    run(&mut e, vec![clear("CkOwnEntity", "alice", false)]).expect("non-admin clear commits");

    assert!(!has(&mut e, "ck_own:mine1"), "own node cleared");
    assert!(!has(&mut e, "ck_own:mine2"), "own node cleared");
    assert!(has(&mut e, "ck_own:theirs"), "other owner's node of the same kind is left intact");
}

#[test]
fn clear_rolls_back_when_a_later_op_fails() {
    let mut e = open();
    e.insert(node_owned("ck_atom:1", "CkAtomEntity", "alice")).unwrap();
    e.insert(node_owned("ck_atom:2", "CkAtomEntity", "alice")).unwrap();

    let result = run(&mut e, vec![clear("CkAtomEntity", "alice", false), delete_node("ck_atom:missing")]);

    assert!(
        matches!(result, Err(TransactionError::Invalid(Invalidity::TargetNotFound { .. }))),
        "batch must fail on the missing delete target"
    );
    assert!(has(&mut e, "ck_atom:1"), "clear rolled back with the batch");
    assert!(has(&mut e, "ck_atom:2"), "clear rolled back with the batch");
}

#[test]
fn cleared_nodes_do_not_survive_recovery() {
    let mut e = open();
    e.insert(node_owned("ck_rec:gone", "CkRecEntity", "alice")).unwrap();
    e.insert(node_owned("ck_rec:stay", "CkRecOther", "alice")).unwrap();
    run(&mut e, vec![clear("CkRecEntity", "alice", false)]).expect("clear commits");

    let mut recovered = reopen(e);
    assert!(!has(&mut recovered, "ck_rec:gone"), "a cleared node came back after recovery");
    assert!(has(&mut recovered, "ck_rec:stay"), "non-cleared node recovered from durable storage");
}

fn status_eq(status: &str) -> Filter {
    eq("status", &quoted(status))
}

const EXPIRED: &str = r#"{"status":"expired"}"#;
const ACTIVE: &str = r#"{"status":"active"}"#;

#[test]
fn predicate_selects_only_matching_nodes() {
    let mut e = open();
    e.insert(node_with("dw_sel:a", "DwSelEntity", "alice", EXPIRED)).unwrap();
    e.insert(node_with("dw_sel:b", "DwSelEntity", "alice", ACTIVE)).unwrap();
    e.insert(node_with("dw_sel:c", "DwSelEntity", "alice", EXPIRED)).unwrap();
    e.insert(node_with("dw_sel:keep", "DwSelOther", "alice", EXPIRED)).unwrap();

    run(&mut e, vec![delete_where("DwSelEntity", Some(status_eq("expired")), "alice", false)])
        .expect("delete_where commits");

    assert!(!has(&mut e, "dw_sel:a"), "matching node deleted");
    assert!(!has(&mut e, "dw_sel:c"), "matching node deleted");
    assert!(has(&mut e, "dw_sel:b"), "non-matching node of the kind survives");
    assert!(has(&mut e, "dw_sel:keep"), "other kind untouched");
}

#[test]
fn non_admin_deletes_only_own_matching() {
    let mut e = open();
    e.insert(node_with("dw_own:mine", "DwOwnEntity", "alice", EXPIRED)).unwrap();
    e.insert(node_with("dw_own:mine_ok", "DwOwnEntity", "alice", ACTIVE)).unwrap();
    e.insert(node_with("dw_own:theirs", "DwOwnEntity", "bob", EXPIRED)).unwrap();

    run(&mut e, vec![delete_where("DwOwnEntity", Some(status_eq("expired")), "alice", false)])
        .expect("non-admin delete_where commits");

    assert!(!has(&mut e, "dw_own:mine"), "own matching node deleted");
    assert!(has(&mut e, "dw_own:mine_ok"), "own non-matching node survives");
    assert!(has(&mut e, "dw_own:theirs"), "another owner's matching node is left intact for a non-admin");
}

#[test]
fn admin_deletes_all_matching() {
    let mut e = open();
    e.insert(node_with("dw_adm:a", "DwAdmEntity", "alice", EXPIRED)).unwrap();
    e.insert(node_with("dw_adm:b", "DwAdmEntity", "bob", EXPIRED)).unwrap();
    e.insert(node_with("dw_adm:c", "DwAdmEntity", "carol", ACTIVE)).unwrap();

    run(&mut e, vec![delete_where("DwAdmEntity", Some(status_eq("expired")), "root", true)])
        .expect("admin delete_where commits");

    assert!(!has(&mut e, "dw_adm:a"), "admin deleted alice's matching node");
    assert!(!has(&mut e, "dw_adm:b"), "admin deleted bob's matching node");
    assert!(has(&mut e, "dw_adm:c"), "non-matching node survives even for admin");
}

#[test]
fn omitted_where_behaves_like_clear_kind() {
    let mut e = open();
    e.insert(node_with("dw_all:a", "DwAllEntity", "alice", ACTIVE)).unwrap();
    e.insert(node_with("dw_all:b", "DwAllEntity", "alice", EXPIRED)).unwrap();

    run(&mut e, vec![delete_where("DwAllEntity", None, "alice", false)])
        .expect("omitted-where delete_where commits");

    assert!(!has(&mut e, "dw_all:a"), "omitted where deletes all writable of the kind");
    assert!(!has(&mut e, "dw_all:b"), "omitted where deletes all writable of the kind");
}

#[test]
fn unpushable_predicate_aborts_nothing_deleted() {
    let mut e = open();
    e.insert(node_with("dw_bad:a", "DwBadEntity", "alice", EXPIRED)).unwrap();
    e.insert(node_with("dw_bad:b", "DwBadEntity", "alice", EXPIRED)).unwrap();

    let result = run(&mut e, vec![delete_where("DwBadEntity", Some(nonsense()), "alice", false)]);

    assert!(
        matches!(result, Err(TransactionError::Invalid(Invalidity::Condition { .. }))),
        "unpushable predicate must abort the transaction"
    );
    assert!(has(&mut e, "dw_bad:a"), "nothing deleted on predicate error");
    assert!(has(&mut e, "dw_bad:b"), "nothing deleted on predicate error");
}

#[test]
fn rolls_back_when_a_sibling_op_fails() {
    let mut e = open();
    e.insert(node_with("dw_atom:1", "DwAtomEntity", "alice", EXPIRED)).unwrap();
    e.insert(node_with("dw_atom:2", "DwAtomEntity", "alice", EXPIRED)).unwrap();

    let result = run(
        &mut e,
        vec![
            delete_where("DwAtomEntity", Some(status_eq("expired")), "alice", false),
            delete_node("dw_atom:missing"),
        ],
    );

    assert!(result.is_err(), "batch must fail on the missing delete target");
    assert!(has(&mut e, "dw_atom:1"), "delete_where rolled back with the batch");
    assert!(has(&mut e, "dw_atom:2"), "delete_where rolled back with the batch");
}

#[test]
fn deleted_nodes_do_not_survive_recovery() {
    let mut e = open();
    e.insert(node_with("dw_rec:gone", "DwRecEntity", "alice", EXPIRED)).unwrap();
    e.insert(node_with("dw_rec:stay", "DwRecEntity", "alice", ACTIVE)).unwrap();
    run(&mut e, vec![delete_where("DwRecEntity", Some(status_eq("expired")), "alice", false)])
        .expect("delete_where commits");

    let mut recovered = reopen(e);
    assert!(!has(&mut recovered, "dw_rec:gone"), "a deleted node came back after recovery");
    assert!(has(&mut recovered, "dw_rec:stay"), "non-matching node recovered from durable storage");
}

fn slot(address: &str, owner: &str, data: &str) -> Node {
    node_with(address, "SetIfEntity", owner, data)
}

fn set_if(address: &str, field: &str, expect: Expectation, set: &[(&str, &str)], owner: &str) -> TxOperation {
    TxOperation::SetIf {
        address: address.to_string(),
        field: field.to_string(),
        expect,
        set: set.iter().map(|(k, v)| (k.to_string(), json(v))).collect(),
        owner: owner.to_string(),
        is_admin: false,
    }
}

fn at_most(bound: f64) -> Expectation {
    Expectation::AtMost(bound.to_bits())
}

fn field(e: &mut StorageEngine, address: &str, name: &str) -> serde_json::Value {
    let node = e.get(address).expect("read").expect("node exists");
    let data: serde_json::Value = serde_json::from_str(&node.data).expect("data is JSON");
    data.get(name).cloned().unwrap_or(serde_json::Value::Null)
}

#[test]
fn only_one_worker_reserves_a_due_tick() {
    let mut e = open();
    e.insert(slot("si_cron:nightly", "alice", r#"{"next_run":100}"#)).unwrap();

    let reserve = |worker: &str, at: f64| {
        set_if(
            "si_cron:nightly",
            "next_run",
            at_most(at),
            &[("next_run", &serde_json::Value::from(at + 3600.0).to_string()), ("held_by", &quoted(worker))],
            "alice",
        )
    };

    run(&mut e, vec![reserve("worker-a", 150.0)]).expect("first worker reserves the due tick");

    let second = run(&mut e, vec![reserve("worker-b", 150.0)]);
    assert!(
        matches!(second, Err(TransactionError::Precondition(Unmet::SetIf { .. }))),
        "second worker must lose the race, got {second:?}"
    );

    assert_eq!(field(&mut e, "si_cron:nightly", "held_by"), serde_json::Value::from("worker-a"));
    assert_eq!(field(&mut e, "si_cron:nightly", "next_run"), serde_json::Value::from(3750.0));
}

#[test]
fn stale_version_cannot_overwrite() {
    let mut e = open();
    e.insert(slot("si_ver:doc", "alice", r#"{"version":7,"body":"first"}"#)).unwrap();

    let write = |expect_version: &str, body: &str, next: i64| {
        set_if(
            "si_ver:doc",
            "version",
            Expectation::Equals(json(expect_version)),
            &[("version", &next.to_string()), ("body", &quoted(body))],
            "alice",
        )
    };

    run(&mut e, vec![write("7", "second", 8)]).expect("writer holding the current version wins");

    let stale = run(&mut e, vec![write("7", "third", 8)]);
    assert!(
        matches!(stale, Err(TransactionError::Precondition(_))),
        "a stale version must be rejected, got {stale:?}"
    );

    assert_eq!(field(&mut e, "si_ver:doc", "body"), serde_json::Value::from("second"));
    assert_eq!(field(&mut e, "si_ver:doc", "version"), serde_json::Value::from(8));
}

#[test]
fn absent_claims_once_and_null_releases() {
    let mut e = open();
    e.insert(slot("si_once:slot", "alice", r#"{}"#)).unwrap();

    let claim = |worker: &str| {
        set_if("si_once:slot", "owner_worker", Expectation::Absent, &[("owner_worker", &quoted(worker))], "alice")
    };

    run(&mut e, vec![claim("worker-a")]).expect("first claim wins");

    let second = run(&mut e, vec![claim("worker-b")]);
    assert!(
        matches!(second, Err(TransactionError::Precondition(_))),
        "an already-claimed slot must refuse a second claim, got {second:?}"
    );
    assert_eq!(field(&mut e, "si_once:slot", "owner_worker"), serde_json::Value::from("worker-a"));

    run(
        &mut e,
        vec![set_if(
            "si_once:slot",
            "owner_worker",
            Expectation::Equals(json("\"worker-a\"")),
            &[("owner_worker", "null")],
            "alice",
        )],
    )
    .expect("holder releases the slot");

    run(&mut e, vec![claim("worker-b")]).expect("a released slot is claimable again");
    assert_eq!(field(&mut e, "si_once:slot", "owner_worker"), serde_json::Value::from("worker-b"));
}

#[test]
fn set_merges_and_leaves_other_fields_intact() {
    let mut e = open();
    e.insert(slot("si_merge:row", "alice", r#"{"version":1,"title":"keep me","tags":["a"]}"#)).unwrap();

    run(
        &mut e,
        vec![set_if("si_merge:row", "version", Expectation::Equals(json("1")), &[("version", "2")], "alice")],
    )
    .expect("cas applies");

    assert_eq!(field(&mut e, "si_merge:row", "version"), serde_json::Value::from(2));
    assert_eq!(field(&mut e, "si_merge:row", "title"), serde_json::Value::from("keep me"));
    assert_eq!(
        field(&mut e, "si_merge:row", "tags"),
        serde_json::Value::Array(vec![serde_json::Value::from("a")])
    );
}

#[test]
fn a_lost_cas_rolls_back_the_whole_batch() {
    let mut e = open();
    e.insert(slot("si_atom:lease", "alice", r#"{"next_run":900}"#)).unwrap();

    let result = run(
        &mut e,
        vec![
            TxOperation::InsertNode(slot("si_atom:sideeffect", "alice", r#"{}"#)),
            set_if("si_atom:lease", "next_run", at_most(100.0), &[("next_run", "1000")], "alice"),
        ],
    );

    assert!(
        matches!(result, Err(TransactionError::Precondition(_))),
        "an undue lease must fail the batch, got {result:?}"
    );
    assert!(!has(&mut e, "si_atom:sideeffect"), "the batch's other write must roll back with the lost CAS");
    assert_eq!(field(&mut e, "si_atom:lease", "next_run"), serde_json::Value::from(900));
}

#[test]
fn non_owner_cannot_compare_and_set() {
    let mut e = open();
    e.insert(slot("si_auth:row", "alice", r#"{"version":1}"#)).unwrap();

    let result = run(
        &mut e,
        vec![set_if("si_auth:row", "version", Expectation::Equals(json("1")), &[("version", "99")], "mallory")],
    );

    assert!(
        matches!(result, Err(TransactionError::Invalid(Invalidity::NotAuthorized { .. }))),
        "a non-owner CAS must be refused as invalid, got {result:?}"
    );
    assert_eq!(field(&mut e, "si_auth:row", "version"), serde_json::Value::from(1));
}

#[test]
fn a_won_cas_archives_the_previous_value() {
    let mut e = open();
    e.insert(slot("si_hist:slot", "alice", r#"{"next_run":10}"#)).unwrap();

    run(&mut e, vec![set_if("si_hist:slot", "next_run", at_most(50.0), &[("next_run", "60")], "alice")])
        .expect("cas applies");

    let history = e.history_for("si_hist:slot").expect("read history");
    assert_eq!(history.len(), 1, "the replaced value was archived");
    assert!(
        history[0].node.data.contains("\"next_run\":10"),
        "history holds the pre-CAS value, got {}",
        history[0].node.data
    );
}

#[test]
fn a_missing_slot_cannot_be_compared() {
    let mut e = open();
    let result = run(&mut e, vec![set_if("si_no:slot", "x", Expectation::Absent, &[("x", "1")], "alice")]);
    assert!(matches!(result, Err(TransactionError::Precondition(Unmet::SetIfTarget { .. }))));
}

#[test]
fn data_that_is_no_object_cannot_be_set() {
    let mut e = open();
    e.insert(slot("si_arr:slot", "alice", "[1]")).unwrap();
    let result = run(&mut e, vec![set_if("si_arr:slot", "x", Expectation::Absent, &[("x", "1")], "alice")]);
    assert!(result.is_err());
    assert!(e.history_for("si_arr:slot").expect("history").is_empty());
}

#[test]
fn delete_archives_the_removed_state() {
    let mut e = open();
    e.insert(node_with("dh_one:a", "DhEntity", "alice", r#"{"v":1}"#)).unwrap();
    e.delete("dh_one:a").unwrap();

    let history = e.history_for("dh_one:a").expect("read history");
    assert_eq!(history.len(), 1, "the deleted state was archived");
    assert!(history[0].node.data.contains("\"v\":1"));
    assert!(!has(&mut e, "dh_one:a"), "the node is still gone");
}

#[test]
fn overwrite_then_delete_records_both_states() {
    let mut e = open();
    e.insert(node_with("dh_two:a", "DhEntity", "alice", r#"{"v":1}"#)).unwrap();
    e.insert(node_with("dh_two:a", "DhEntity", "alice", r#"{"v":2}"#)).unwrap();
    e.delete("dh_two:a").unwrap();

    let history = e.history_for("dh_two:a").expect("read history");
    assert_eq!(history.len(), 2, "one entry per state that stopped being current");
    assert!(history[0].node.data.contains("\"v\":1"), "oldest first");
    assert!(history[1].node.data.contains("\"v\":2"), "then the deleted state");
}

#[test]
fn bulk_delete_archives_every_removed_node() {
    let mut e = open();
    e.insert(node_with("dh_bulk:a", "DhBulkEntity", "alice", r#"{"v":"a"}"#)).unwrap();
    e.insert(node_with("dh_bulk:b", "DhBulkEntity", "alice", r#"{"v":"b"}"#)).unwrap();

    run(&mut e, vec![clear("DhBulkEntity", "alice", false)]).expect("clear commits");

    for (address, value) in [("dh_bulk:a", "a"), ("dh_bulk:b", "b")] {
        assert!(!has(&mut e, address), "{address} was cleared");
        let history = e.history_for(address).expect("read history");
        assert_eq!(history.len(), 1, "{address} archived its removed state");
        assert!(history[0].node.data.contains(value));
    }
}

#[test]
fn transactional_delete_archive_survives_recovery() {
    let mut e = open();
    e.insert(node_with("dh_rec:a", "DhRecEntity", "alice", r#"{"v":"final"}"#)).unwrap();
    run(&mut e, vec![delete_node("dh_rec:a")]).expect("delete commits");

    let mut recovered = reopen(e);
    assert!(!has(&mut recovered, "dh_rec:a"), "still deleted");
    let history = recovered.history_for("dh_rec:a").expect("read history");
    assert_eq!(history.len(), 1, "the archive is durable, not just in memory");
    assert!(history[0].node.data.contains("final"));
}

#[test]
fn stats_counts_kinds_and_operations() {
    let mut e = open();
    e.insert(node_owned("stat:a1", "StatAlpha", "alice")).unwrap();
    e.insert(node_owned("stat:a2", "StatAlpha", "alice")).unwrap();
    e.insert(node_owned("stat:a3", "StatAlpha", "alice")).unwrap();
    e.insert(node_owned("stat:b1", "StatBeta", "alice")).unwrap();
    e.insert(node_owned("stat:b2", "StatBeta", "alice")).unwrap();
    let n: u64 = 5;

    let m: u64 = 4;
    for addr in ["stat:a1", "stat:a2", "stat:b1", "stat:missing"] {
        let _ = e.get(addr).expect("read");
    }

    let s = e.stats().expect("stats");

    assert!(s.node_count >= n, "node_count {} >= {n}", s.node_count);
    assert_eq!(s.node_count, n);

    let count_of = |kind: &str| {
        s.kinds.iter().find(|entry| entry.kind == kind).map(|entry| entry.count).unwrap_or(0)
    };
    assert_eq!(count_of("StatAlpha"), 3);
    assert_eq!(count_of("StatBeta"), 2);

    let kinds: Vec<&str> = s.kinds.iter().map(|k| k.kind.as_str()).collect();
    let mut sorted = kinds.clone();
    sorted.sort();
    assert_eq!(kinds, sorted, "kinds must come back sorted");

    assert_eq!(s.writes_total, n);
    assert!(s.reads_total >= m, "reads_total {} >= {m}", s.reads_total);

    assert!(s.storage.page_size > 0, "page size reported");
    assert!(s.storage.segments >= 1, "at least one heap segment");
}

#[test]
fn bits_are_in_the_order_of_the_numbers() {
    let numbers: Vec<f64> = vec![-1e300, -2.5, -1.0, 0.0, 0.5, 1.0, 2.0, 10.0, 1e300];
    for i in 0..numbers.len() {
        for j in 0..numbers.len() {
            assert_eq!(bits_order(numbers[i].to_bits()) < bits_order(numbers[j].to_bits()), i < j);
        }
    }
}

#[test]
fn a_transaction_may_not_be_too_long() {
    let mut e = StorageEngine::create(Limits::new(None, Some(2), None, None), None);
    let ops = vec![
        TxOperation::InsertNode(node_owned("tl:1", "Tl", "alice")),
        TxOperation::InsertNode(node_owned("tl:2", "Tl", "alice")),
        TxOperation::InsertNode(node_owned("tl:3", "Tl", "alice")),
    ];
    assert!(matches!(run(&mut e, ops), Err(TransactionError::Invalid(Invalidity::TooMany { .. }))));
    assert!(!has(&mut e, "tl:1"));
}

#[test]
fn another_owner_cannot_take_an_address() {
    let mut e = open();
    e.insert(node_owned("ow:1", "Ow", "alice")).unwrap();
    let result = run(&mut e, vec![TxOperation::InsertNode(node_owned("ow:1", "Ow", "bob"))]);
    assert!(matches!(result, Err(TransactionError::Invalid(Invalidity::Owned { .. }))));
}

#[test]
fn the_targets_of_a_deletion_are_listed() {
    let mut e = open();
    e.insert(node_with("tg:a", "Tg", "alice", EXPIRED)).unwrap();
    e.insert(node_with("tg:b", "Tg", "bob", EXPIRED)).unwrap();
    e.insert(node_with("tg:c", "Tg", "alice", ACTIVE)).unwrap();
    let where_ = Some(status_eq("expired"));
    assert_eq!(e.delete_where_targets("Tg", &where_, "alice", false, &eval).expect("targets"), vec!["tg:a"]);
    assert_eq!(e.delete_where_targets("Tg", &where_, "root", true, &eval).expect("targets"), vec!["tg:a", "tg:b"]);
    assert_eq!(e.delete_where_targets("Tg", &None, "alice", false, &eval).expect("targets"), vec!["tg:a", "tg:c"]);
    assert!(e.delete_where_targets("Tg", &Some(nonsense()), "alice", false, &eval).is_err());
    assert!(has(&mut e, "tg:a"), "listing deletes nothing");
}
