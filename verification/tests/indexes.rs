use facetql::engine::{Limits, StorageEngine};
use facetql::filter::Filter;
use facetql::json::{value, Json};
use facetql::tables::open::Parts;
use facetql::tables::query::{Query, QueryError, QueryPage};
use facetql::types::{Coordinate, Node, Visibility};

#[allow(dead_code)]
fn open() -> StorageEngine {
    StorageEngine::create(Limits::new(None, None, None, None), None)
}

/// Opens the database again from its log alone.
#[allow(dead_code)]
fn reopen(engine: StorageEngine) -> StorageEngine {
    let (_, wal) = engine.close().expect("close");
    let mut recovered = StorageEngine::load(Parts::fresh(), wal, Limits::new(None, None, None, None), None)
        .expect("reopen storage engine");
    recovered.recover(0).expect("wal recovery");
    recovered
}

#[allow(dead_code)]
fn node_with(address: &str, kind: &str, owner: &str, data: &str) -> Node {
    let mut n = Node::new(Coordinate::new(0, 0, 0, 0), address.to_string(), kind.to_string(), owner.to_string());
    n.data = data.to_string();
    n
}

#[allow(dead_code)]
fn public(mut n: Node) -> Node {
    n.visibility = Visibility::Public;
    n
}

#[allow(dead_code)]
fn json(text: &str) -> Json {
    value(text).expect("json")
}

#[allow(dead_code)]
fn quoted(text: &str) -> String {
    serde_json::Value::String(text.to_string()).to_string()
}

#[allow(dead_code)]
fn test(op: &str, field: &str, val: &str) -> Filter {
    Filter::new(format!("{{\"op\":{},\"field\":{},\"val\":{}}}", quoted(op), quoted(field), val))
}

/// The member equals the value.
#[allow(dead_code)]
fn eq(field: &str, val: &str) -> Filter {
    let mut f = test("==", field, val);
    let v = json(val);
    if !v.is_null() {
        f.equals.push((field.to_string(), v));
    }
    f
}

/// The member's text contains, begins with or ends with the literal.
#[allow(dead_code)]
fn substring(op: &str, field: &str, literal: &str) -> Filter {
    let mut f = test(op, field, &quoted(literal));
    if op == "starts_with" {
        f.prefixes.push((field.to_string(), literal.to_string()));
    }
    f.contains.push((field.to_string(), literal.to_string()));
    f
}

#[allow(dead_code)]
fn bin(op: &str, l: Filter, r: Filter) -> Filter {
    let mut f = Filter::new(format!("{{\"op\":{},\"l\":{},\"r\":{}}}", quoted(op), l.source, r.source));
    if op == "&&" {
        f.equals.extend(l.equals);
        f.equals.extend(r.equals);
        f.prefixes.extend(l.prefixes);
        f.prefixes.extend(r.prefixes);
        f.contains.extend(l.contains);
        f.contains.extend(r.contains);
    }
    f
}

fn judge(expr: &serde_json::Value, data: &serde_json::Value) -> Result<bool, String> {
    let op = expr.get("op").and_then(|v| v.as_str()).ok_or("cannot evaluate")?;
    if op == "&&" {
        return Ok(judge(&expr["l"], data)? && judge(&expr["r"], data)?);
    }
    if op == "||" {
        return Ok(judge(&expr["l"], data)? || judge(&expr["r"], data)?);
    }
    let field = expr.get("field").and_then(|v| v.as_str()).ok_or("cannot evaluate")?;
    let held = data.get(field).cloned().unwrap_or(serde_json::Value::Null);
    let val = expr.get("val").cloned().unwrap_or(serde_json::Value::Null);
    if op == "==" {
        return Ok(match (held.as_f64(), val.as_f64()) {
            (Some(a), Some(b)) => a == b,
            _ => held == val,
        });
    }
    let (text, literal) = match (held.as_str(), val.as_str()) {
        (Some(text), Some(literal)) => (text, literal),
        _ => return Ok(false),
    };
    match op {
        "contains" => Ok(text.contains(literal)),
        "starts_with" => Ok(text.starts_with(literal)),
        "ends_with" => Ok(text.ends_with(literal)),
        other => Err(format!("unknown op {other}")),
    }
}

fn eval(f: &Filter, n: &Node) -> Result<bool, String> {
    let expr: serde_json::Value = serde_json::from_str(&f.source).map_err(|e| e.to_string())?;
    let data: serde_json::Value = serde_json::from_str(&n.data).unwrap_or(serde_json::Value::Null);
    judge(&expr, &data)
}

/// A condition that cannot be evaluated.
#[allow(dead_code)]
fn nonsense() -> Filter {
    Filter::new("{\"kind\":\"ref\",\"name\":\"somethingElse\"}".to_string())
}

#[allow(dead_code)]
fn ask<'q>(
    kind: Option<&'q str>,
    owner: Option<&'q str>,
    requester: Option<&'q str>,
    filter: Option<&'q Filter>,
) -> Query<'q> {
    Query { kind, owner, requester, filter }
}

#[allow(dead_code)]
fn page(
    e: &mut StorageEngine,
    q: &Query,
    order: Option<&str>,
    desc: bool,
    after: Option<&str>,
    limit: usize,
) -> Result<QueryPage, QueryError> {
    e.query_where(q, order, desc, after, limit, 0, &eval)
}

#[allow(dead_code)]
fn addresses(nodes: &[Node]) -> Vec<String> {
    nodes.iter().map(|n| n.address.clone()).collect()
}

/// Walks every page by its cursor and collects addresses in order.
#[allow(dead_code)]
fn page_all_of(
    e: &mut StorageEngine,
    q: &Query,
    order: Option<&str>,
    desc: bool,
    limit: usize,
) -> Vec<String> {
    let mut out = Vec::new();
    let mut after: Option<String> = None;
    for _ in 0..1000 {
        let got = page(e, q, order, desc, after.as_deref(), limit).expect("query_where ok");
        out.extend(addresses(&got.nodes));
        if got.next.is_empty() {
            return out;
        }
        after = Some(got.next);
    }
    panic!("paging did not terminate");
}

#[allow(dead_code)]
fn page_all(e: &mut StorageEngine, kind: &str, order: Option<&str>, desc: bool, limit: usize) -> Vec<String> {
    page_all_of(e, &ask(Some(kind), None, None, None), order, desc, limit)
}

use facetql::bytes::Order;
use facetql::defs::IndexDef;
use facetql::engine::declare::DeclareError;
use facetql::keys::{address_from_data_key, data_key};
use facetql::order::{compare_order_values, encode_order_value};
use facetql::tables::backfill::BackfillError;
use facetql::transaction::TransactionError;

fn node(kind: &str, address: &str, data: &str) -> Node {
    public(node_with(address, kind, "owner", data))
}

fn declared(e: &StorageEngine, prefix: &str) -> Vec<(String, String, String, bool)> {
    e.list_indexes()
        .into_iter()
        .filter(|d| d.name.starts_with(prefix))
        .map(|d| (d.name, d.kind, d.field, d.unique))
        .collect()
}

fn def(name: &str, kind: &str, field: &str) -> IndexDef {
    IndexDef { name: name.to_string(), kind: kind.to_string(), field: field.to_string(), unique: false }
}

fn unique(name: &str, kind: &str, field: &str) -> IndexDef {
    IndexDef { name: name.to_string(), kind: kind.to_string(), field: field.to_string(), unique: true }
}

fn number(at: usize) -> i32 {
    at as i32
}

#[test]
fn byte_order_matches_value_order() {
    let values: Vec<Option<Json>> = vec![
        Some(json("null")),
        Some(json("false")),
        Some(json("true")),
        Some(json("-1e300")),
        Some(json("-2.5")),
        Some(json("-1")),
        Some(json("0")),
        Some(json("0.5")),
        Some(json("1")),
        Some(json("2")),
        Some(json("10")),
        Some(json("1e300")),
        Some(json("\"\"")),
        Some(json("\"a\"")),
        Some(json("\"aa\"")),
        Some(json("\"b\"")),
        Some(json("\"b\\u0000c\"")),
        Some(json("\"c\"")),
        Some(json("[1,2]")),
        None,
    ];

    for (i, a) in values.iter().enumerate() {
        for (j, b) in values.iter().enumerate() {
            let by_value = match compare_order_values(a.as_ref(), b.as_ref()) {
                Order::Less => -1,
                Order::Equal => 0,
                Order::Greater => 1,
            };
            let x = encode_order_value(a.as_ref());
            let y = encode_order_value(b.as_ref());
            let by_bytes = if x < y {
                -1
            } else if x == y {
                0
            } else {
                1
            };
            assert_eq!(
                by_value, by_bytes,
                "values[{i}] vs values[{j}]: comparator says {by_value:?}, encoding says {by_bytes:?}"
            );
            assert_eq!(
                by_value,
                (number(i) - number(j)).signum(),
                "values[{i}] vs values[{j}] is out of the declared order"
            );
        }
    }
}

#[test]
fn address_survives_the_key_encoding() {
    for value in [
        Some(json("\"plain\"")),
        Some(json("\"has\\u0000nul\"")),
        Some(json("42")),
        Some(json("null")),
        None,
    ] {
        let key = data_key(value.as_ref(), "kind:some-address");
        assert_eq!(
            address_from_data_key(&key),
            Some(b"kind:some-address".to_vec()),
            "address lost for {value:?}"
        );
    }
}

#[test]
fn an_index_returns_exactly_what_the_scan_returns() {
    let mut e = open();
    let rows = [
        ("dix1:a", r#"{"score": 30}"#),
        ("dix1:b", r#"{"score": 10}"#),
        ("dix1:c", r#"{"score": 20}"#),
        ("dix1:d", r#"{"score": 10}"#),
        ("dix1:e", r#"{"score": -5}"#),
        ("dix1:f", r#"{"other": 1}"#),
        ("dix1:g", r#"{"score": "text"}"#),
        ("dix1:h", r#"{"score": null}"#),
        ("dix1:i", r#"{"score": 2.5}"#),
    ];
    for (address, data) in rows {
        e.insert(node("DixOne", address, data)).expect("insert");
    }

    let unindexed_asc = page_all(&mut e, "DixOne", Some("score"), false, 2);
    let unindexed_desc = page_all(&mut e, "DixOne", Some("score"), true, 2);

    e.create_index(def("dix1_score", "DixOne", "score")).expect("create index");

    assert_eq!(
        page_all(&mut e, "DixOne", Some("score"), false, 2),
        unindexed_asc,
        "ascending order changed when the index appeared"
    );
    assert_eq!(
        page_all(&mut e, "DixOne", Some("score"), true, 2),
        unindexed_desc,
        "descending order changed when the index appeared"
    );

    assert_eq!(unindexed_asc.len(), rows.len());
    let mut sorted = unindexed_asc.clone();
    sorted.sort();
    sorted.dedup();
    assert_eq!(sorted.len(), rows.len(), "a row was returned twice");
}

#[test]
fn index_paging_covers_every_row_once() {
    let mut e = open();
    for i in 0..25 {
        e.insert(node("DixPage", &format!("dixp:{i:02}"), &format!(r#"{{"bucket": {}}}"#, i % 4))).expect("insert");
    }
    e.create_index(def("dixp_bucket", "DixPage", "bucket")).expect("create index");

    for limit in [1usize, 3, 7, 25, 100] {
        let got = page_all(&mut e, "DixPage", Some("bucket"), false, limit);
        assert_eq!(got.len(), 25, "limit {limit} lost or repeated rows");
        let mut once = got.clone();
        once.sort();
        once.dedup();
        assert_eq!(once.len(), 25, "limit {limit} returned a row twice");
    }
}

#[test]
fn updates_and_deletes_keep_the_index_true() {
    let mut e = open();
    for (address, rank) in [("dix2:a", 1), ("dix2:b", 2), ("dix2:c", 3)] {
        e.insert(node("DixTwo", address, &format!(r#"{{"rank": {rank}}}"#))).expect("insert");
    }
    e.create_index(def("dix2_rank", "DixTwo", "rank")).expect("create index");
    assert_eq!(page_all(&mut e, "DixTwo", Some("rank"), false, 10), vec!["dix2:a", "dix2:b", "dix2:c"]);

    e.insert(node("DixTwo", "dix2:a", r#"{"rank": 9}"#)).expect("update");
    assert_eq!(page_all(&mut e, "DixTwo", Some("rank"), false, 10), vec!["dix2:b", "dix2:c", "dix2:a"]);

    e.delete("dix2:c").expect("delete");
    assert_eq!(page_all(&mut e, "DixTwo", Some("rank"), false, 10), vec!["dix2:b", "dix2:a"]);
}

#[test]
fn later_writes_land_in_an_existing_index() {
    let mut e = open();
    e.insert(node("DixThree", "dix3:b", r#"{"n": 2}"#)).expect("insert");
    e.create_index(def("dix3_n", "DixThree", "n")).expect("create index");
    e.insert(node("DixThree", "dix3:a", r#"{"n": 1}"#)).expect("insert after");
    e.insert(node("DixThree", "dix3:c", r#"{"n": 3}"#)).expect("insert after");
    assert_eq!(page_all(&mut e, "DixThree", Some("n"), false, 10), vec!["dix3:a", "dix3:b", "dix3:c"]);
}

#[test]
fn a_declared_index_survives_a_restart() {
    let mut e = open();
    for (address, n) in [("dix4:a", 3), ("dix4:b", 1), ("dix4:c", 2)] {
        e.insert(node("DixFour", address, &format!(r#"{{"n": {n}}}"#))).expect("insert");
    }
    e.create_index(def("dix4_n", "DixFour", "n")).expect("create index");

    let mut e = reopen(e);
    assert_eq!(
        declared(&e, "dix4_"),
        vec![("dix4_n".to_string(), "DixFour".to_string(), "n".to_string(), false)],
        "the definition did not survive"
    );
    assert_eq!(
        page_all(&mut e, "DixFour", Some("n"), false, 10),
        vec!["dix4:b", "dix4:c", "dix4:a"],
        "the index contents did not survive"
    );

    e.insert(node("DixFour", "dix4:d", r#"{"n": 0}"#)).expect("insert after restart");
    assert_eq!(
        page_all(&mut e, "DixFour", Some("n"), false, 10),
        vec!["dix4:d", "dix4:b", "dix4:c", "dix4:a"]
    );
}

#[test]
fn a_dropped_index_stays_dropped_and_queries_still_work() {
    let mut e = open();
    for (address, n) in [("dix5:a", 2), ("dix5:b", 1)] {
        e.insert(node("DixFive", address, &format!(r#"{{"n": {n}}}"#))).expect("insert");
    }
    e.create_index(def("dix5_n", "DixFive", "n")).expect("create index");
    e.drop_index("dix5_n").expect("drop index");
    assert!(declared(&e, "dix5_").is_empty(), "still declared after drop");

    let mut e = reopen(e);
    assert!(declared(&e, "dix5_").is_empty(), "the drop did not survive");
    assert_eq!(
        page_all(&mut e, "DixFive", Some("n"), false, 10),
        vec!["dix5:b", "dix5:a"],
        "the query stopped working without its index"
    );
}

#[test]
fn redeclaring_the_same_index_is_a_no_op_but_conflicts_are_errors() {
    let mut e = open();
    e.create_index(def("dix6_n", "DixSix", "n")).expect("create index");
    e.create_index(def("dix6_n", "DixSix", "n")).expect("re-declaring the identical index must converge");

    let same_name = e.create_index(def("dix6_n", "DixSix", "other"));
    assert!(matches!(same_name, Err(DeclareError::Exists { .. })), "a redefinition under a live name");

    let same_field = e.create_index(def("dix6_again", "DixSix", "n"));
    assert!(matches!(same_field, Err(DeclareError::Covered { .. })), "a second index over the same field");

    assert_eq!(declared(&e, "dix6_").len(), 1);
}

#[test]
fn a_name_that_is_not_a_name_is_refused() {
    let mut e = open();
    assert!(e.create_index(def("../escape", "DixSeven", "n")).is_err());
    assert!(e.create_index(def("", "DixSeven", "n")).is_err());
    assert!(e.create_index(def("ok", "", "n")).is_err());
    assert!(e.create_index(def("ok", "DixSeven", "")).is_err());
    assert!(matches!(e.drop_index("never-declared"), Err(DeclareError::NotFound)));
}

#[test]
fn an_unindexable_value_is_refused_not_committed() {
    let mut e = open();
    let huge = format!("{{\"blob\":{}}}", quoted(&"x".repeat(facetql::keys::MAX_INDEX_VALUE_LEN + 64)));

    e.insert(node("DixEight", "dix8:big", &huge)).expect("an unindexed oversized field is ordinary data");
    let refused = e.create_index(def("dix8_blob", "DixEight", "blob"));
    assert!(
        matches!(refused, Err(DeclareError::Backfill(BackfillError::Unfit { .. }))),
        "created an index it cannot maintain"
    );
    assert!(declared(&e, "dix8_").is_empty(), "a refused index was declared");

    e.insert(node("DixNine", "dix9:a", r#"{"blob": "small"}"#)).expect("insert");
    e.create_index(def("dix9_blob", "DixNine", "blob")).expect("create index");
    let refused = e.insert(node("DixNine", "dix9:b", &huge));
    assert!(matches!(refused, Err(TransactionError::Storage(_))), "wrote a row the index cannot hold");
    assert_eq!(
        page_all(&mut e, "DixNine", Some("blob"), false, 10),
        vec!["dix9:a"],
        "the refused write left something behind"
    );
}

#[test]
fn an_index_covers_only_its_own_kind() {
    let mut e = open();
    e.insert(node("DixTenA", "dix10:a", r#"{"n": 1}"#)).expect("insert");
    e.insert(node("DixTenB", "dix10:b", r#"{"n": 2}"#)).expect("insert");
    e.create_index(def("dix10_n", "DixTenA", "n")).expect("create index");
    assert_eq!(page_all(&mut e, "DixTenA", Some("n"), false, 10), vec!["dix10:a"]);
    assert_eq!(
        page_all(&mut e, "DixTenB", Some("n"), false, 10),
        vec!["dix10:b"],
        "the other kind stopped answering"
    );
}

#[test]
fn an_index_does_not_leak_a_private_row() {
    let mut e = open();
    let mut shown = node("DixEleven", "dix11:pub", r#"{"n": 1}"#);
    shown.owner = "alice".to_string();
    let mut private = node("DixEleven", "dix11:priv", r#"{"n": 2}"#);
    private.owner = "alice".to_string();
    private.visibility = Visibility::Private;
    e.insert(shown).expect("insert");
    e.insert(private).expect("insert");
    e.create_index(def("dix11_n", "DixEleven", "n")).expect("create index");

    let got = page(&mut e, &ask(Some("DixEleven"), None, Some("bob"), None), Some("n"), false, None, 10)
        .expect("query_where ok");
    assert_eq!(addresses(&got.nodes), vec!["dix11:pub"], "an index scan bypassed visibility");
}

fn same_with_and_without_index(
    e: &mut StorageEngine,
    kind: &str,
    index: IndexDef,
    predicate: &Filter,
    order: Option<&str>,
    desc: bool,
    limit: usize,
) -> Vec<String> {
    let name = index.name.clone();
    let q = ask(Some(kind), None, None, Some(predicate));
    let unindexed = page_all_of(e, &q, order, desc, limit);
    e.create_index(index).expect("create index");
    let indexed = page_all_of(e, &q, order, desc, limit);
    e.drop_index(&name).expect("drop index");
    assert_eq!(
        indexed, unindexed,
        "the index changed the answer for order={order:?} desc={desc} limit={limit}"
    );
    unindexed
}

#[test]
fn an_equality_predicate_is_served_by_a_prefix_of_the_index() {
    let mut e = open();
    for i in 0..20 {
        let status = if i % 3 == 0 { "open" } else { "closed" };
        e.insert(node(
            "DixEq",
            &format!("dixeq:{i:02}"),
            &format!(r#"{{"status": "{status}", "n": {i}}}"#),
        ))
        .expect("insert");
    }
    let predicate = eq("status", "\"open\"");
    for (order, desc, limit) in [
        (None, false, 2usize),
        (None, true, 3),
        (Some("status"), false, 1),
        (Some("status"), true, 4),
        (None, false, 100),
    ] {
        let got = same_with_and_without_index(
            &mut e,
            "DixEq",
            def("dixeq_status", "DixEq", "status"),
            &predicate,
            order,
            desc,
            limit,
        );
        assert_eq!(got.len(), 7, "wrong number of matches");
    }

    e.create_index(def("dixeq_status", "DixEq", "status")).expect("create index");
    let got = page(&mut e, &ask(Some("DixEq"), None, None, Some(&predicate)), None, false, None, 100)
        .expect("query_where ok");
    assert_eq!(got.examined, 7, "the index should have narrowed the rows read");
}

#[test]
fn an_ordering_on_another_field_is_not_served_by_the_prefix() {
    let mut e = open();
    for (address, group, n) in
        [("dixord:a", "x", 3), ("dixord:b", "x", 1), ("dixord:c", "y", 2), ("dixord:d", "x", 2)]
    {
        e.insert(node("DixOrd", address, &format!(r#"{{"group": "{group}", "n": {n}}}"#))).expect("insert");
    }
    let predicate = eq("group", "\"x\"");
    let got = same_with_and_without_index(
        &mut e,
        "DixOrd",
        def("dixord_group", "DixOrd", "group"),
        &predicate,
        Some("n"),
        false,
        2,
    );
    assert_eq!(got, vec!["dixord:b", "dixord:d", "dixord:a"]);
}

#[test]
fn a_disjunction_is_not_pushed_into_a_prefix() {
    let mut e = open();
    for (address, tag, n) in [("dixor:a", "keep", 1), ("dixor:b", "drop", 9), ("dixor:c", "drop", 1)] {
        e.insert(node("DixOr", address, &format!(r#"{{"tag": "{tag}", "n": {n}}}"#))).expect("insert");
    }
    let predicate = bin("||", eq("tag", "\"keep\""), eq("n", "9"));
    let got = same_with_and_without_index(
        &mut e,
        "DixOr",
        def("dixor_tag", "DixOr", "tag"),
        &predicate,
        None,
        false,
        10,
    );
    assert_eq!(got, vec!["dixor:a", "dixor:b"]);
}

#[test]
fn a_conjunction_is_pushed_and_still_applies_the_rest() {
    let mut e = open();
    for (address, tag, n) in [("dixand:a", "keep", 1), ("dixand:b", "keep", 2), ("dixand:c", "other", 1)] {
        e.insert(node("DixAnd", address, &format!(r#"{{"tag": "{tag}", "n": {n}}}"#))).expect("insert");
    }
    let predicate = bin("&&", eq("tag", "\"keep\""), eq("n", "1"));
    for index in [def("dixand_tag", "DixAnd", "tag"), def("dixand_n", "DixAnd", "n")] {
        let got = same_with_and_without_index(&mut e, "DixAnd", index, &predicate, None, false, 10);
        assert_eq!(got, vec!["dixand:a"]);
    }
}

#[test]
fn a_null_comparison_is_not_pushed_into_a_prefix() {
    let mut e = open();
    e.insert(node("DixNull", "dixnull:explicit", r#"{"x": null}"#)).expect("insert");
    e.insert(node("DixNull", "dixnull:absent", r#"{"y": 1}"#)).expect("insert");
    e.insert(node("DixNull", "dixnull:present", r#"{"x": 1}"#)).expect("insert");
    let predicate = eq("x", "null");
    let got = same_with_and_without_index(
        &mut e,
        "DixNull",
        def("dixnull_x", "DixNull", "x"),
        &predicate,
        None,
        false,
        10,
    );
    assert_eq!(got, vec!["dixnull:absent", "dixnull:explicit"]);
}

#[test]
fn numeric_equality_ignores_the_written_representation() {
    let mut e = open();
    e.insert(node("DixNum", "dixnum:int", r#"{"n": 7}"#)).expect("insert");
    e.insert(node("DixNum", "dixnum:float", r#"{"n": 7.0}"#)).expect("insert");
    e.insert(node("DixNum", "dixnum:other", r#"{"n": 8}"#)).expect("insert");
    let got = same_with_and_without_index(
        &mut e,
        "DixNum",
        def("dixnum_n", "DixNum", "n"),
        &eq("n", "7"),
        None,
        false,
        10,
    );
    assert_eq!(got, vec!["dixnum:float", "dixnum:int"]);
}

#[test]
fn a_prefix_of_a_text_is_served_by_the_index() {
    let mut e = open();
    for (address, name) in [("pre:a", "alpha"), ("pre:b", "alpine"), ("pre:c", "beta"), ("pre:d", "al")] {
        e.insert(node("Pre", address, &format!(r#"{{"name": "{name}"}}"#))).expect("insert");
    }
    let predicate = substring("starts_with", "name", "alp");
    let got = same_with_and_without_index(
        &mut e,
        "Pre",
        def("pre_name", "Pre", "name"),
        &predicate,
        Some("name"),
        true,
        1,
    );
    assert_eq!(got, vec!["pre:b", "pre:a"]);
}

#[test]
fn a_unique_index_stays_unique() {
    let mut e = open();
    e.insert(node("Uni", "uni:a", r#"{"mail": "a@x"}"#)).expect("insert");
    e.create_index(unique("uni_mail", "Uni", "mail")).expect("create index");
    assert!(matches!(
        e.insert(node("Uni", "uni:b", r#"{"mail": "a@x"}"#)),
        Err(TransactionError::Invalid(facetql::transaction::Invalidity::Unique(_)))
    ));
    e.insert(node("Uni", "uni:a", r#"{"mail": "a@x", "n": 1}"#)).expect("its own value is not a clash");
    e.insert(node("Uni", "uni:b", r#"{"mail": "b@x"}"#)).expect("another value");
}

#[test]
fn a_unique_index_is_unique_from_the_start() {
    let mut e = open();
    e.insert(node("Uni2", "uni2:a", r#"{"mail": "a@x"}"#)).expect("insert");
    e.insert(node("Uni2", "uni2:b", r#"{"mail": "a@x"}"#)).expect("insert");
    assert!(matches!(
        e.create_index(unique("uni2_mail", "Uni2", "mail")),
        Err(DeclareError::Backfill(BackfillError::Shared { .. }))
    ));
}
