use facetql::engine::{Limits, StorageEngine};
use facetql::filter::Filter;
use facetql::json::{value, Json};
use facetql::tables::open::Parts;
use facetql::tables::query::{Query, QueryError, QueryPage};
use facetql::types::{Coordinate, Node, Visibility};

#[allow(dead_code)]
fn open() -> StorageEngine {
    StorageEngine::create(Limits::new(None, None, None, None), None)
}

/// Opens the database again from its log alone.
#[allow(dead_code)]
fn reopen(engine: StorageEngine) -> StorageEngine {
    let (_, wal) = engine.close().expect("close");
    let mut recovered = StorageEngine::load(Parts::fresh(), wal, Limits::new(None, None, None, None), None)
        .expect("reopen storage engine");
    recovered.recover(0).expect("wal recovery");
    recovered
}

#[allow(dead_code)]
fn node_with(address: &str, kind: &str, owner: &str, data: &str) -> Node {
    let mut n = Node::new(Coordinate::new(0, 0, 0, 0), address.to_string(), kind.to_string(), owner.to_string());
    n.data = data.to_string();
    n
}

#[allow(dead_code)]
fn public(mut n: Node) -> Node {
    n.visibility = Visibility::Public;
    n
}

#[allow(dead_code)]
fn json(text: &str) -> Json {
    value(text).expect("json")
}

#[allow(dead_code)]
fn quoted(text: &str) -> String {
    serde_json::Value::String(text.to_string()).to_string()
}

#[allow(dead_code)]
fn test(op: &str, field: &str, val: &str) -> Filter {
    Filter::new(format!("{{\"op\":{},\"field\":{},\"val\":{}}}", quoted(op), quoted(field), val))
}

/// The member equals the value.
#[allow(dead_code)]
fn eq(field: &str, val: &str) -> Filter {
    let mut f = test("==", field, val);
    let v = json(val);
    if !v.is_null() {
        f.equals.push((field.to_string(), v));
    }
    f
}

/// The member's text contains, begins with or ends with the literal.
#[allow(dead_code)]
fn substring(op: &str, field: &str, literal: &str) -> Filter {
    let mut f = test(op, field, &quoted(literal));
    if op == "starts_with" {
        f.prefixes.push((field.to_string(), literal.to_string()));
    }
    f.contains.push((field.to_string(), literal.to_string()));
    f
}

#[allow(dead_code)]
fn bin(op: &str, l: Filter, r: Filter) -> Filter {
    let mut f = Filter::new(format!("{{\"op\":{},\"l\":{},\"r\":{}}}", quoted(op), l.source, r.source));
    if op == "&&" {
        f.equals.extend(l.equals);
        f.equals.extend(r.equals);
        f.prefixes.extend(l.prefixes);
        f.prefixes.extend(r.prefixes);
        f.contains.extend(l.contains);
        f.contains.extend(r.contains);
    }
    f
}

fn judge(expr: &serde_json::Value, data: &serde_json::Value) -> Result<bool, String> {
    let op = expr.get("op").and_then(|v| v.as_str()).ok_or("cannot evaluate")?;
    if op == "&&" {
        return Ok(judge(&expr["l"], data)? && judge(&expr["r"], data)?);
    }
    if op == "||" {
        return Ok(judge(&expr["l"], data)? || judge(&expr["r"], data)?);
    }
    let field = expr.get("field").and_then(|v| v.as_str()).ok_or("cannot evaluate")?;
    let held = data.get(field).cloned().unwrap_or(serde_json::Value::Null);
    let val = expr.get("val").cloned().unwrap_or(serde_json::Value::Null);
    if op == "==" {
        return Ok(match (held.as_f64(), val.as_f64()) {
            (Some(a), Some(b)) => a == b,
            _ => held == val,
        });
    }
    let (text, literal) = match (held.as_str(), val.as_str()) {
        (Some(text), Some(literal)) => (text, literal),
        _ => return Ok(false),
    };
    match op {
        "contains" => Ok(text.contains(literal)),
        "starts_with" => Ok(text.starts_with(literal)),
        "ends_with" => Ok(text.ends_with(literal)),
        other => Err(format!("unknown op {other}")),
    }
}

fn eval(f: &Filter, n: &Node) -> Result<bool, String> {
    let expr: serde_json::Value = serde_json::from_str(&f.source).map_err(|e| e.to_string())?;
    let data: serde_json::Value = serde_json::from_str(&n.data).unwrap_or(serde_json::Value::Null);
    judge(&expr, &data)
}

/// A condition that cannot be evaluated.
#[allow(dead_code)]
fn nonsense() -> Filter {
    Filter::new("{\"kind\":\"ref\",\"name\":\"somethingElse\"}".to_string())
}

#[allow(dead_code)]
fn ask<'q>(
    kind: Option<&'q str>,
    owner: Option<&'q str>,
    requester: Option<&'q str>,
    filter: Option<&'q Filter>,
) -> Query<'q> {
    Query { kind, owner, requester, filter }
}

#[allow(dead_code)]
fn page(
    e: &mut StorageEngine,
    q: &Query,
    order: Option<&str>,
    desc: bool,
    after: Option<&str>,
    limit: usize,
) -> Result<QueryPage, QueryError> {
    e.query_where(q, order, desc, after, limit, 0, &eval)
}

#[allow(dead_code)]
fn addresses(nodes: &[Node]) -> Vec<String> {
    nodes.iter().map(|n| n.address.clone()).collect()
}

/// Walks every page by its cursor and collects addresses in order.
#[allow(dead_code)]
fn page_all_of(
    e: &mut StorageEngine,
    q: &Query,
    order: Option<&str>,
    desc: bool,
    limit: usize,
) -> Vec<String> {
    let mut out = Vec::new();
    let mut after: Option<String> = None;
    for _ in 0..1000 {
        let got = page(e, q, order, desc, after.as_deref(), limit).expect("query_where ok");
        out.extend(addresses(&got.nodes));
        if got.next.is_empty() {
            return out;
        }
        after = Some(got.next);
    }
    panic!("paging did not terminate");
}

#[allow(dead_code)]
fn page_all(e: &mut StorageEngine, kind: &str, order: Option<&str>, desc: bool, limit: usize) -> Vec<String> {
    page_all_of(e, &ask(Some(kind), None, None, None), order, desc, limit)
}

use facetql::defs::{IndexDef, TextIndexDef};
use facetql::engine::declare::DeclareError;
use facetql::transaction::TxOperation;

fn node(kind: &str, address: &str, body: &str) -> Node {
    public(node_with(address, kind, "owner", &format!("{{\"body\":{}}}", quoted(body))))
}

fn def(name: &str, kind: &str) -> TextIndexDef {
    TextIndexDef { name: name.to_string(), kind: kind.to_string(), field: "body".to_string() }
}

fn search(e: &mut StorageEngine, kind: &str, op: &str, literal: &str) -> (Vec<String>, u64) {
    let predicate = substring(op, "body", literal);
    let q = ask(Some(kind), None, None, Some(&predicate));
    let mut found = Vec::new();
    let mut examined = 0u64;
    let mut after: Option<String> = None;
    loop {
        let got = page(e, &q, None, false, after.as_deref(), 3).expect("query");
        examined += got.examined;
        found.extend(addresses(&got.nodes));
        if got.next.is_empty() {
            break;
        }
        after = Some(got.next);
    }
    (found, examined)
}

fn by_brute_force(e: &mut StorageEngine, kind: &str, op: &str, literal: &str) -> Vec<String> {
    let mut found: Vec<String> = e
        .query(Some(kind), None, None, 10_000, 0)
        .expect("list")
        .into_iter()
        .filter(|n| {
            let data: serde_json::Value = serde_json::from_str(&n.data).expect("json");
            let body = match data.get("body").and_then(|v| v.as_str()) {
                Some(body) => body,
                None => return false,
            };
            match op {
                "contains" => body.contains(literal),
                "starts_with" => body.starts_with(literal),
                "ends_with" => body.ends_with(literal),
                other => panic!("unknown op {other}"),
            }
        })
        .map(|n| n.address)
        .collect();
    found.sort();
    found
}

fn seed(e: &mut StorageEngine, kind: &str) {
    for (address, body) in [
        ("a", "hello world"),
        ("b", "HELLO WORLD"),
        ("c", "abcxbcd"),
        ("d", "abcd"),
        ("e", "the quick brown fox"),
        ("f", "well hello there"),
    ] {
        e.insert(node(kind, &format!("{kind}:{address}"), body)).expect("insert");
    }
    let mut numeric = node(kind, &format!("{kind}:g"), "");
    numeric.data = r#"{"body": 42}"#.to_string();
    e.insert(numeric).expect("insert");
}

fn sorted(mut list: Vec<String>) -> Vec<String> {
    list.sort();
    list
}

#[test]
fn the_index_returns_exactly_what_the_row_by_row_test_returns() {
    let mut e = open();
    seed(&mut e, "TixEq");
    let probes = [
        ("contains", "ell"),
        ("contains", "abcd"),
        ("contains", "hello"),
        ("contains", "HELLO"),
        ("contains", "quick brown"),
        ("contains", "zzz"),
        ("contains", "el"),
        ("starts_with", "hello"),
        ("ends_with", "world"),
    ];
    for (op, literal) in probes {
        let found = sorted(search(&mut e, "TixEq", op, literal).0);
        let expected = by_brute_force(&mut e, "TixEq", op, literal);
        assert_eq!(found, expected, "the scan itself disagrees with `str::{op}` for {literal:?}");
    }

    e.create_text_index(def("tix_eq", "TixEq")).expect("declare text index");

    for (op, literal) in probes {
        let found = sorted(search(&mut e, "TixEq", op, literal).0);
        let expected = by_brute_force(&mut e, "TixEq", op, literal);
        assert_eq!(found, expected, "the index and the scan disagree on `{op}` {literal:?}");
    }
}

#[test]
fn the_index_reads_the_matches_and_not_the_kind() {
    let mut e = open();
    for n in 0..1_000 {
        e.insert(node(
            "TixCost",
            &format!("TixCost:{n:04}"),
            &format!("post number {n} about ordinary things"),
        ))
        .expect("insert");
    }
    e.insert(node("TixCost", "TixCost:needle", "post number 1000 about xylophones")).expect("insert");

    let (before, scanned) = search(&mut e, "TixCost", "contains", "xylophone");
    assert_eq!(before, vec!["TixCost:needle".to_string()]);
    assert_eq!(scanned, 1_001, "without an index every node of the kind is read");

    e.create_text_index(def("tix_cost", "TixCost")).expect("declare text index");

    let (after, read) = search(&mut e, "TixCost", "contains", "xylophone");
    assert_eq!(after, before, "the index changed the cost, not the answer");
    assert_eq!(
        read, 1,
        "the postings should have narrowed this to the one row that matches; read {read} of 1001"
    );
}

#[test]
fn an_update_retracts_the_postings_of_the_text_it_replaced() {
    let mut e = open();
    e.insert(node("TixUpd", "TixUpd:1", "alpha centauri")).expect("insert");
    e.create_text_index(def("tix_upd", "TixUpd")).expect("declare text index");
    assert_eq!(search(&mut e, "TixUpd", "contains", "alpha").0, vec!["TixUpd:1".to_string()]);

    e.insert(node("TixUpd", "TixUpd:1", "bravo cluster")).expect("overwrite");
    assert!(
        search(&mut e, "TixUpd", "contains", "alpha").0.is_empty(),
        "the replaced text is still answering searches"
    );
    assert_eq!(search(&mut e, "TixUpd", "contains", "bravo").0, vec!["TixUpd:1".to_string()]);
    assert_eq!(search(&mut e, "TixUpd", "contains", "o cl").0, vec!["TixUpd:1".to_string()]);
}

#[test]
fn no_delete_path_leaves_a_posting_behind() {
    let mut e = open();
    for (address, body) in [
        ("TixDel:1", "singular removal"),
        ("TixDel:2", "predicated removal"),
        ("TixDel:3", "wholesale removal"),
    ] {
        e.insert(node("TixDel", address, body)).expect("insert");
    }
    e.create_text_index(def("tix_del", "TixDel")).expect("declare text index");
    assert_eq!(search(&mut e, "TixDel", "contains", "removal").0.len(), 3);

    e.delete("TixDel:1").expect("single delete");
    e.execute_transaction(
        vec![TxOperation::DeleteWhere {
            kind: "TixDel".to_string(),
            where_: Some(substring("contains", "body", "predicated")),
            owner: "owner".to_string(),
            is_admin: true,
        }],
        &eval,
    )
    .expect("delete_where commits");
    assert_eq!(
        search(&mut e, "TixDel", "contains", "removal").0,
        vec!["TixDel:3".to_string()],
        "a deleted row is still reachable through its postings"
    );

    e.execute_transaction(
        vec![TxOperation::ClearKind { kind: "TixDel".to_string(), owner: "owner".to_string(), is_admin: true }],
        &eval,
    )
    .expect("clear_kind commits");
    assert!(
        search(&mut e, "TixDel", "contains", "removal").0.is_empty(),
        "clearing the kind left its postings behind"
    );

    e.insert(node("TixDel", "TixDel:4", "later removal")).expect("insert after clear");
    assert_eq!(search(&mut e, "TixDel", "contains", "removal").0, vec!["TixDel:4".to_string()]);
}

#[test]
fn a_text_index_survives_a_restart() {
    let mut e = open();
    e.insert(node("TixRec", "TixRec:1", "durable haystack")).expect("insert");
    e.create_text_index(def("tix_rec", "TixRec")).expect("declare text index");

    let mut e = reopen(e);
    assert!(
        e.list_text_indexes().iter().any(|d| d.name == "tix_rec"),
        "the definition did not survive"
    );
    assert_eq!(
        search(&mut e, "TixRec", "contains", "haystack").0,
        vec!["TixRec:1".to_string()],
        "the postings did not survive"
    );

    e.insert(node("TixRec", "TixRec:2", "later haystack")).expect("insert after restart");
    assert_eq!(
        sorted(search(&mut e, "TixRec", "contains", "haystack").0),
        vec!["TixRec:1".to_string(), "TixRec:2".to_string()]
    );

    e.delete("TixRec:1").expect("delete");
    assert_eq!(search(&mut e, "TixRec", "contains", "haystack").0, vec!["TixRec:2".to_string()]);
}

#[test]
fn a_count_agrees_with_the_query_it_counts() {
    let mut e = open();
    seed(&mut e, "TixCount");
    e.create_text_index(def("tix_count", "TixCount")).expect("declare text index");
    for literal in ["ell", "abcd", "hello", "zzz"] {
        let predicate = substring("contains", "body", literal);
        let counted =
            e.count_where(&ask(Some("TixCount"), None, None, Some(&predicate)), &eval).expect("count") as usize;
        let expected = by_brute_force(&mut e, "TixCount", "contains", literal).len();
        assert_eq!(counted, expected, "count and scan disagree on {literal:?}");
    }
}

#[test]
fn engine_an_ordering_on_another_field_still_selects_through_the_index() {
    let mut e = open();
    for (address, rank, body) in [
        ("TixOrd:a", 3, "findable alpha"),
        ("TixOrd:b", 1, "findable bravo"),
        ("TixOrd:c", 2, "findable charlie"),
        ("TixOrd:d", 0, "missing delta"),
    ] {
        let mut n = node("TixOrd", address, body);
        n.data = format!("{{\"body\":{},\"rank\":{rank}}}", quoted(body));
        e.insert(n).expect("insert");
    }
    e.create_text_index(def("tix_ord", "TixOrd")).expect("declare text index");

    let predicate = substring("contains", "body", "findable");
    let got = page(&mut e, &ask(Some("TixOrd"), None, None, Some(&predicate)), Some("rank"), false, None, 10)
        .expect("ordered query");
    assert_eq!(
        addresses(&got.nodes),
        vec!["TixOrd:b".to_string(), "TixOrd:c".to_string(), "TixOrd:a".to_string()],
        "ordered by rank, selected through the postings"
    );
    assert_eq!(
        got.examined, 3,
        "the sorted plan should have read the three candidates, not the kind; read {}",
        got.examined
    );
}

#[test]
fn one_name_names_one_index_and_a_drop_finds_either() {
    let mut e = open();
    e.create_text_index(def("tix_name", "TixName")).expect("declare text index");

    let clash = e.create_index(IndexDef {
        name: "tix_name".to_string(),
        kind: "TixName".to_string(),
        field: "other".to_string(),
        unique: false,
    });
    assert!(
        matches!(clash, Err(DeclareError::OtherSort { .. })),
        "an ordered index must not be able to take a text index's name"
    );

    e.create_index(IndexDef {
        name: "tix_name_ordered".to_string(),
        kind: "TixName".to_string(),
        field: "body".to_string(),
        unique: false,
    })
    .expect("an ordered index over the same field is not a conflict");

    e.drop_index("tix_name").expect("one drop finds either kind");
    assert!(
        !e.list_text_indexes().iter().any(|d| d.name == "tix_name"),
        "the text index is still declared after being dropped"
    );

    e.insert(node("TixName", "TixName:1", "still searchable")).expect("insert");
    assert_eq!(search(&mut e, "TixName", "contains", "searchable").0, vec!["TixName:1".to_string()]);
}
