use facetql::engine::{Limits, StorageEngine};
use facetql::filter::Filter;
use facetql::json::{value, Json};
use facetql::tables::open::Parts;
use facetql::tables::query::{Query, QueryError, QueryPage};
use facetql::types::{Coordinate, Node, Visibility};

#[allow(dead_code)]
fn open() -> StorageEngine {
    StorageEngine::create(Limits::new(None, None, None, None), None)
}

/// Opens the database again from its log alone.
#[allow(dead_code)]
fn reopen(engine: StorageEngine) -> StorageEngine {
    let (_, wal) = engine.close().expect("close");
    let mut recovered = StorageEngine::load(Parts::fresh(), wal, Limits::new(None, None, None, None), None)
        .expect("reopen storage engine");
    recovered.recover(0).expect("wal recovery");
    recovered
}

#[allow(dead_code)]
fn node_with(address: &str, kind: &str, owner: &str, data: &str) -> Node {
    let mut n = Node::new(Coordinate::new(0, 0, 0, 0), address.to_string(), kind.to_string(), owner.to_string());
    n.data = data.to_string();
    n
}

#[allow(dead_code)]
fn public(mut n: Node) -> Node {
    n.visibility = Visibility::Public;
    n
}

#[allow(dead_code)]
fn json(text: &str) -> Json {
    value(text).expect("json")
}

#[allow(dead_code)]
fn quoted(text: &str) -> String {
    serde_json::Value::String(text.to_string()).to_string()
}

#[allow(dead_code)]
fn test(op: &str, field: &str, val: &str) -> Filter {
    Filter::new(format!("{{\"op\":{},\"field\":{},\"val\":{}}}", quoted(op), quoted(field), val))
}

/// The member equals the value.
#[allow(dead_code)]
fn eq(field: &str, val: &str) -> Filter {
    let mut f = test("==", field, val);
    let v = json(val);
    if !v.is_null() {
        f.equals.push((field.to_string(), v));
    }
    f
}

/// The member's text contains, begins with or ends with the literal.
#[allow(dead_code)]
fn substring(op: &str, field: &str, literal: &str) -> Filter {
    let mut f = test(op, field, &quoted(literal));
    if op == "starts_with" {
        f.prefixes.push((field.to_string(), literal.to_string()));
    }
    f.contains.push((field.to_string(), literal.to_string()));
    f
}

#[allow(dead_code)]
fn bin(op: &str, l: Filter, r: Filter) -> Filter {
    let mut f = Filter::new(format!("{{\"op\":{},\"l\":{},\"r\":{}}}", quoted(op), l.source, r.source));
    if op == "&&" {
        f.equals.extend(l.equals);
        f.equals.extend(r.equals);
        f.prefixes.extend(l.prefixes);
        f.prefixes.extend(r.prefixes);
        f.contains.extend(l.contains);
        f.contains.extend(r.contains);
    }
    f
}

fn judge(expr: &serde_json::Value, data: &serde_json::Value) -> Result<bool, String> {
    let op = expr.get("op").and_then(|v| v.as_str()).ok_or("cannot evaluate")?;
    if op == "&&" {
        return Ok(judge(&expr["l"], data)? && judge(&expr["r"], data)?);
    }
    if op == "||" {
        return Ok(judge(&expr["l"], data)? || judge(&expr["r"], data)?);
    }
    let field = expr.get("field").and_then(|v| v.as_str()).ok_or("cannot evaluate")?;
    let held = data.get(field).cloned().unwrap_or(serde_json::Value::Null);
    let val = expr.get("val").cloned().unwrap_or(serde_json::Value::Null);
    if op == "==" {
        return Ok(match (held.as_f64(), val.as_f64()) {
            (Some(a), Some(b)) => a == b,
            _ => held == val,
        });
    }
    let (text, literal) = match (held.as_str(), val.as_str()) {
        (Some(text), Some(literal)) => (text, literal),
        _ => return Ok(false),
    };
    match op {
        "contains" => Ok(text.contains(literal)),
        "starts_with" => Ok(text.starts_with(literal)),
        "ends_with" => Ok(text.ends_with(literal)),
        other => Err(format!("unknown op {other}")),
    }
}

fn eval(f: &Filter, n: &Node) -> Result<bool, String> {
    let expr: serde_json::Value = serde_json::from_str(&f.source).map_err(|e| e.to_string())?;
    let data: serde_json::Value = serde_json::from_str(&n.data).unwrap_or(serde_json::Value::Null);
    judge(&expr, &data)
}

/// A condition that cannot be evaluated.
#[allow(dead_code)]
fn nonsense() -> Filter {
    Filter::new("{\"kind\":\"ref\",\"name\":\"somethingElse\"}".to_string())
}

#[allow(dead_code)]
fn ask<'q>(
    kind: Option<&'q str>,
    owner: Option<&'q str>,
    requester: Option<&'q str>,
    filter: Option<&'q Filter>,
) -> Query<'q> {
    Query { kind, owner, requester, filter }
}

#[allow(dead_code)]
fn page(
    e: &mut StorageEngine,
    q: &Query,
    order: Option<&str>,
    desc: bool,
    after: Option<&str>,
    limit: usize,
) -> Result<QueryPage, QueryError> {
    e.query_where(q, order, desc, after, limit, 0, &eval)
}

#[allow(dead_code)]
fn addresses(nodes: &[Node]) -> Vec<String> {
    nodes.iter().map(|n| n.address.clone()).collect()
}

/// Walks every page by its cursor and collects addresses in order.
#[allow(dead_code)]
fn page_all_of(
    e: &mut StorageEngine,
    q: &Query,
    order: Option<&str>,
    desc: bool,
    limit: usize,
) -> Vec<String> {
    let mut out = Vec::new();
    let mut after: Option<String> = None;
    for _ in 0..1000 {
        let got = page(e, q, order, desc, after.as_deref(), limit).expect("query_where ok");
        out.extend(addresses(&got.nodes));
        if got.next.is_empty() {
            return out;
        }
        after = Some(got.next);
    }
    panic!("paging did not terminate");
}

#[allow(dead_code)]
fn page_all(e: &mut StorageEngine, kind: &str, order: Option<&str>, desc: bool, limit: usize) -> Vec<String> {
    page_all_of(e, &ask(Some(kind), None, None, None), order, desc, limit)
}

use facetql::defs::IndexDef;
use facetql::cursor::CursorError;

fn make_node(kind: &str, address: &str, score: i64) -> Node {
    public(node_with(address, kind, "owner", &format!("{{\"score\": {score}}}")))
}

#[test]
fn keyset_pages_cover_all_rows_once_ordered_by_field() {
    let mut e = open();
    for (addr, score) in [("ks1:a", 30), ("ks1:b", 10), ("ks1:c", 20), ("ks1:d", 50), ("ks1:e", 40)] {
        e.insert(make_node("KsOrdered", addr, score)).expect("insert");
    }
    let asc = page_all(&mut e, "KsOrdered", Some("score"), false, 2);
    assert_eq!(asc, vec!["ks1:b", "ks1:c", "ks1:a", "ks1:e", "ks1:d"]);
    let desc = page_all(&mut e, "KsOrdered", Some("score"), true, 2);
    assert_eq!(desc, vec!["ks1:d", "ks1:e", "ks1:a", "ks1:c", "ks1:b"]);
}

#[test]
fn keyset_tiebreak_by_address_with_equal_order_values() {
    let mut e = open();
    for addr in ["ks2:a", "ks2:b", "ks2:c", "ks2:d", "ks2:e"] {
        e.insert(make_node("KsTiebreak", addr, 7)).expect("insert");
    }
    let asc = page_all(&mut e, "KsTiebreak", Some("score"), false, 2);
    assert_eq!(asc, vec!["ks2:a", "ks2:b", "ks2:c", "ks2:d", "ks2:e"]);
}

#[test]
fn keyset_stable_when_a_row_is_deleted_between_pages() {
    let mut e = open();
    for (addr, score) in [("ks3:a", 10), ("ks3:b", 20), ("ks3:c", 30), ("ks3:d", 40)] {
        e.insert(make_node("KsStable", addr, score)).expect("insert");
    }
    let q = ask(Some("KsStable"), None, None, None);
    let page1 = page(&mut e, &q, Some("score"), false, None, 2).expect("query_where ok");
    assert_eq!(addresses(&page1.nodes), vec!["ks3:a", "ks3:b"]);
    assert!(!page1.next.is_empty());

    e.delete("ks3:a").expect("delete");

    let page2 = page(&mut e, &q, Some("score"), false, Some(&page1.next), 2).expect("query_where ok");
    assert_eq!(addresses(&page2.nodes), vec!["ks3:c", "ks3:d"]);
    assert!(page2.next.is_empty(), "reached last page");
}

#[test]
fn order_by_address_when_order_absent() {
    let mut e = open();
    for addr in ["ks4:c", "ks4:a", "ks4:b"] {
        e.insert(make_node("KsAddressOrder", addr, 1)).expect("insert");
    }
    let all = page_all(&mut e, "KsAddressOrder", None, false, 1);
    assert_eq!(all, vec!["ks4:a", "ks4:b", "ks4:c"]);
}

#[test]
fn invalid_cursor_is_rejected() {
    let mut e = open();
    e.insert(make_node("KsBadCursor", "ks5:a", 1)).expect("insert");
    let q = ask(Some("KsBadCursor"), None, None, None);
    let err = page(&mut e, &q, Some("score"), false, Some("not-valid-base64!!"), 10);
    assert!(matches!(err, Err(QueryError::Cursor(CursorError::Letters))));
}

#[test]
fn unpushable_predicate_errors_not_wrong_answer() {
    let mut e = open();
    e.insert(make_node("KsUnpushable", "ks6:a", 1)).expect("insert");
    let f = nonsense();
    let res = page(&mut e, &ask(Some("KsUnpushable"), None, None, Some(&f)), None, false, None, 10);
    assert!(matches!(res, Err(QueryError::Condition { .. })), "unpushable predicate must error");
}

#[test]
fn admin_bypass_lists_private_nodes_others_cannot() {
    let mut e = open();
    let mut private = make_node("KsSecret", "ks7:priv", 1);
    private.visibility = Visibility::Private;
    private.owner = "alice".to_string();
    e.insert(private).expect("insert");

    let admin = e.query(Some("KsSecret"), None, None, 50, 0).expect("query");
    assert_eq!(admin.len(), 1, "admin (None) must see the private node");
    let bob = e.query(Some("KsSecret"), None, Some("bob"), 50, 0).expect("query");
    assert!(bob.is_empty(), "non-admin bob must not see it");

    let admin_page =
        page(&mut e, &ask(Some("KsSecret"), None, None, None), None, false, None, 50).expect("query_where ok");
    assert_eq!(admin_page.nodes.len(), 1, "admin (None) must list via query_where");
    assert_eq!(admin_page.nodes[0].address, "ks7:priv");

    let bob_page =
        page(&mut e, &ask(Some("KsSecret"), None, Some("bob"), None), None, false, None, 50).expect("query_where ok");
    assert!(bob_page.nodes.is_empty(), "non-admin bob must not see it via query_where");
}

#[test]
fn an_offset_skips_and_is_bounded() {
    let mut e = StorageEngine::create(Limits::new(None, None, Some(2), None), None);
    for addr in ["of:a", "of:b", "of:c"] {
        e.insert(make_node("Of", addr, 1)).expect("insert");
    }
    let q = ask(Some("Of"), None, None, None);
    let got = e.query_where(&q, None, false, None, 10, 2, &eval).expect("query");
    assert_eq!(addresses(&got.nodes), vec!["of:c"]);
    assert!(matches!(
        e.query_where(&q, None, false, None, 10, 3, &eval),
        Err(QueryError::Offset { offset: 3, max: 2 })
    ));
}

#[test]
fn an_answer_too_large_to_hold_is_refused() {
    let mut e = StorageEngine::create(Limits::new(Some(2), None, None, None), None);
    for addr in ["sl:a", "sl:b", "sl:c"] {
        e.insert(make_node("Sl", addr, 1)).expect("insert");
    }
    let q = ask(Some("Sl"), None, None, None);
    assert!(matches!(
        page(&mut e, &q, Some("score"), false, None, 10),
        Err(QueryError::ScanLimit { max: 2 })
    ));
}

#[test]
fn nested_order_values_are_paged_through() {
    let mut e = open();
    let data = ["{\"v\":[1,[2]]}", "{\"v\":{\"k\":{\"z\":0.1}}}", "{\"v\":[]}", "{}", "{\"v\":null}", "{\"v\":\"t\"}"];
    for (i, d) in data.iter().enumerate() {
        e.insert(public(node_with(&format!("np:{i}"), "Np", "alice", d))).expect("insert");
    }
    let whole = page_all(&mut e, "Np", Some("v"), false, 100);
    assert_eq!(whole.len(), 6);
    for limit in 1..6 {
        assert_eq!(page_all(&mut e, "Np", Some("v"), false, limit), whole);
    }
}

#[test]
fn a_page_judges_no_further_than_it_has_to() {
    let mut e = open();
    for a in ["pj:a", "pj:b", "pj:c"] {
        e.insert(public(node_with(a, "Pj", "alice", "{}"))).expect("insert");
    }
    let condition = Filter::new("{}".to_string());
    let q = ask(Some("Pj"), None, None, Some(&condition));
    let last_fails = |_f: &Filter, n: &Node| -> Result<bool, String> {
        if n.address == "pj:c" {
            Err("cannot evaluate".to_string())
        } else {
            Ok(true)
        }
    };
    let first = e.query_where(&q, None, false, None, 1, 0, &last_fails).expect("page");
    assert_eq!(addresses(&first.nodes), vec!["pj:a"]);
    assert!(!first.next.is_empty());
    let second = e.query_where(&q, None, false, Some(&first.next), 1, 0, &last_fails);
    assert!(matches!(second, Err(QueryError::Condition { message }) if message == "cannot evaluate"));
    assert!(e.query_where(&q, Some("v"), false, None, 1, 0, &last_fails).is_err(), "sorting takes every row");
    assert!(e.count_where(&q, &last_fails).is_err());
    assert!(e.count_by(&q, "v", None, &last_fails).is_err());
}
