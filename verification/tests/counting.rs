use facetql::engine::{Limits, StorageEngine};
use facetql::filter::Filter;
use facetql::json::{value, Json};
use facetql::tables::open::Parts;
use facetql::tables::query::{Query, QueryError, QueryPage};
use facetql::types::{Coordinate, Node, Visibility};

#[allow(dead_code)]
fn open() -> StorageEngine {
    StorageEngine::create(Limits::new(None, None, None, None), None)
}

/// Opens the database again from its log alone.
#[allow(dead_code)]
fn reopen(engine: StorageEngine) -> StorageEngine {
    let (_, wal) = engine.close().expect("close");
    let mut recovered = StorageEngine::load(Parts::fresh(), wal, Limits::new(None, None, None, None), None)
        .expect("reopen storage engine");
    recovered.recover(0).expect("wal recovery");
    recovered
}

#[allow(dead_code)]
fn node_with(address: &str, kind: &str, owner: &str, data: &str) -> Node {
    let mut n = Node::new(Coordinate::new(0, 0, 0, 0), address.to_string(), kind.to_string(), owner.to_string());
    n.data = data.to_string();
    n
}

#[allow(dead_code)]
fn public(mut n: Node) -> Node {
    n.visibility = Visibility::Public;
    n
}

#[allow(dead_code)]
fn json(text: &str) -> Json {
    value(text).expect("json")
}

#[allow(dead_code)]
fn quoted(text: &str) -> String {
    serde_json::Value::String(text.to_string()).to_string()
}

#[allow(dead_code)]
fn test(op: &str, field: &str, val: &str) -> Filter {
    Filter::new(format!("{{\"op\":{},\"field\":{},\"val\":{}}}", quoted(op), quoted(field), val))
}

/// The member equals the value.
#[allow(dead_code)]
fn eq(field: &str, val: &str) -> Filter {
    let mut f = test("==", field, val);
    let v = json(val);
    if !v.is_null() {
        f.equals.push((field.to_string(), v));
    }
    f
}

/// The member's text contains, begins with or ends with the literal.
#[allow(dead_code)]
fn substring(op: &str, field: &str, literal: &str) -> Filter {
    let mut f = test(op, field, &quoted(literal));
    if op == "starts_with" {
        f.prefixes.push((field.to_string(), literal.to_string()));
    }
    f.contains.push((field.to_string(), literal.to_string()));
    f
}

#[allow(dead_code)]
fn bin(op: &str, l: Filter, r: Filter) -> Filter {
    let mut f = Filter::new(format!("{{\"op\":{},\"l\":{},\"r\":{}}}", quoted(op), l.source, r.source));
    if op == "&&" {
        f.equals.extend(l.equals);
        f.equals.extend(r.equals);
        f.prefixes.extend(l.prefixes);
        f.prefixes.extend(r.prefixes);
        f.contains.extend(l.contains);
        f.contains.extend(r.contains);
    }
    f
}

fn judge(expr: &serde_json::Value, data: &serde_json::Value) -> Result<bool, String> {
    let op = expr.get("op").and_then(|v| v.as_str()).ok_or("cannot evaluate")?;
    if op == "&&" {
        return Ok(judge(&expr["l"], data)? && judge(&expr["r"], data)?);
    }
    if op == "||" {
        return Ok(judge(&expr["l"], data)? || judge(&expr["r"], data)?);
    }
    let field = expr.get("field").and_then(|v| v.as_str()).ok_or("cannot evaluate")?;
    let held = data.get(field).cloned().unwrap_or(serde_json::Value::Null);
    let val = expr.get("val").cloned().unwrap_or(serde_json::Value::Null);
    if op == "==" {
        return Ok(match (held.as_f64(), val.as_f64()) {
            (Some(a), Some(b)) => a == b,
            _ => held == val,
        });
    }
    let (text, literal) = match (held.as_str(), val.as_str()) {
        (Some(text), Some(literal)) => (text, literal),
        _ => return Ok(false),
    };
    match op {
        "contains" => Ok(text.contains(literal)),
        "starts_with" => Ok(text.starts_with(literal)),
        "ends_with" => Ok(text.ends_with(literal)),
        other => Err(format!("unknown op {other}")),
    }
}

fn eval(f: &Filter, n: &Node) -> Result<bool, String> {
    let expr: serde_json::Value = serde_json::from_str(&f.source).map_err(|e| e.to_string())?;
    let data: serde_json::Value = serde_json::from_str(&n.data).unwrap_or(serde_json::Value::Null);
    judge(&expr, &data)
}

/// A condition that cannot be evaluated.
#[allow(dead_code)]
fn nonsense() -> Filter {
    Filter::new("{\"kind\":\"ref\",\"name\":\"somethingElse\"}".to_string())
}

#[allow(dead_code)]
fn ask<'q>(
    kind: Option<&'q str>,
    owner: Option<&'q str>,
    requester: Option<&'q str>,
    filter: Option<&'q Filter>,
) -> Query<'q> {
    Query { kind, owner, requester, filter }
}

#[allow(dead_code)]
fn page(
    e: &mut StorageEngine,
    q: &Query,
    order: Option<&str>,
    desc: bool,
    after: Option<&str>,
    limit: usize,
) -> Result<QueryPage, QueryError> {
    e.query_where(q, order, desc, after, limit, 0, &eval)
}

#[allow(dead_code)]
fn addresses(nodes: &[Node]) -> Vec<String> {
    nodes.iter().map(|n| n.address.clone()).collect()
}

/// Walks every page by its cursor and collects addresses in order.
#[allow(dead_code)]
fn page_all_of(
    e: &mut StorageEngine,
    q: &Query,
    order: Option<&str>,
    desc: bool,
    limit: usize,
) -> Vec<String> {
    let mut out = Vec::new();
    let mut after: Option<String> = None;
    for _ in 0..1000 {
        let got = page(e, q, order, desc, after.as_deref(), limit).expect("query_where ok");
        out.extend(addresses(&got.nodes));
        if got.next.is_empty() {
            return out;
        }
        after = Some(got.next);
    }
    panic!("paging did not terminate");
}

#[allow(dead_code)]
fn page_all(e: &mut StorageEngine, kind: &str, order: Option<&str>, desc: bool, limit: usize) -> Vec<String> {
    page_all_of(e, &ask(Some(kind), None, None, None), order, desc, limit)
}

use facetql::defs::IndexDef;
use facetql::engine::search::GroupCount;
use facetql::keys::data_key;
use facetql::order::{compare_order_values, encode_order_value};
use facetql::tables::fold::FoldError;
use facetql::tables::group::MAX_GROUP_VALUES;
use facetql::tables::Tables;

fn node(kind: &str, address: &str, owner: &str, data: &str, shown: bool) -> Node {
    let n = node_with(address, kind, owner, data);
    if shown {
        public(n)
    } else {
        n
    }
}

fn index(name: &str, kind: &str, field: &str) -> IndexDef {
    IndexDef { name: name.to_string(), kind: kind.to_string(), field: field.to_string(), unique: false }
}

fn author_is(who: &str) -> Filter {
    eq("author", &quoted(who))
}

fn rows_returned(e: &mut StorageEngine, q: &Query) -> u64 {
    page_all_of(e, q, None, false, 7).len() as u64
}

fn seed(e: &mut StorageEngine, kind: &str, tag: &str) {
    for i in 0..40 {
        let author = if i % 4 == 0 { "alice" } else { "bob" };
        let (owner, shown) = if i % 3 == 0 { ("carol", false) } else { ("alice", true) };
        e.insert(node(
            kind,
            &format!("{tag}:{i:02}"),
            owner,
            &format!(r#"{{"author": "{author}", "n": {i}}}"#),
            shown,
        ))
        .expect("insert");
    }
}

#[test]
fn counting_a_kind_reads_no_records() {
    let mut e = open();
    seed(&mut e, "CountKind", "ck");
    let q = ask(Some("CountKind"), None, None, None);
    assert_eq!(e.count_where(&q, &eval).expect("count ok"), 40);
    let counted = e.count_where(&q, &eval).expect("count ok");
    assert_eq!(counted, rows_returned(&mut e, &q), "the fast path disagrees with the query it summarises");
}

#[test]
fn counting_with_a_predicate_matches_the_query() {
    let mut e = open();
    seed(&mut e, "CountScan", "cs");
    let predicate = author_is("alice");
    let q = ask(Some("CountScan"), None, None, Some(&predicate));
    let counted = e.count_where(&q, &eval).expect("count ok");
    assert_eq!(counted, rows_returned(&mut e, &q));
    assert_eq!(counted, 10);
}

#[test]
fn an_index_changes_the_path_and_not_the_answer() {
    let mut e = open();
    seed(&mut e, "CountIndexed", "ci");
    let predicate = author_is("alice");
    let q = ask(Some("CountIndexed"), None, None, Some(&predicate));
    let unindexed = e.count_where(&q, &eval).expect("count ok");
    e.create_index(index("ci_author", "CountIndexed", "author")).expect("create index");
    let indexed = e.count_where(&q, &eval).expect("count ok");
    assert_eq!(indexed, unindexed, "the index changed the count");
    assert_eq!(indexed, rows_returned(&mut e, &q));
}

#[test]
fn a_count_never_includes_a_row_the_caller_cannot_read() {
    let mut e = open();
    seed(&mut e, "CountVisible", "cv");
    let everything = e.count_where(&ask(Some("CountVisible"), None, None, None), &eval).expect("count ok");
    let dave = ask(Some("CountVisible"), None, Some("dave"), None);
    let as_dave = e.count_where(&dave, &eval).expect("count ok");
    assert!(as_dave < everything, "the private rows were counted for someone who cannot read them");
    assert_eq!(
        as_dave,
        rows_returned(&mut e, &dave),
        "the count and the query disagree about what dave may see"
    );

    e.create_index(index("cv_author", "CountVisible", "author")).expect("create index");
    let predicate = author_is("alice");
    let dave = ask(Some("CountVisible"), None, Some("dave"), Some(&predicate));
    let counted = e.count_where(&dave, &eval).expect("count ok");
    assert_eq!(
        counted,
        rows_returned(&mut e, &dave),
        "the indexed count leaks what the indexed query does not"
    );
}

#[test]
fn nothing_matching_counts_zero() {
    let mut e = open();
    e.insert(node("CountZero", "cz:1", "alice", r#"{"author":"alice"}"#, true)).expect("insert");
    assert_eq!(
        e.count_where(&ask(Some("CountNeverWritten"), None, None, None), &eval).expect("count ok"),
        0
    );
    let nobody = author_is("nobody");
    assert_eq!(
        e.count_where(&ask(Some("CountZero"), None, None, Some(&nobody)), &eval).expect("count ok"),
        0
    );
}

#[test]
fn an_unpushable_predicate_errors_rather_than_counting_zero() {
    let mut e = open();
    e.insert(node("CountBad", "cb:1", "alice", r#"{"author":"alice"}"#, true)).expect("insert");
    let f = Filter::new("{\"kind\":\"wat\"}".to_string());
    assert!(
        matches!(
            e.count_where(&ask(Some("CountBad"), None, None, Some(&f)), &eval),
            Err(FoldError::Condition { .. })
        ),
        "an unevaluatable predicate produced a number"
    );
}

#[test]
fn an_ordering_on_another_field_still_selects_through_the_index() {
    let mut e = open();
    for i in 0..60 {
        e.insert(node(
            "SelKind",
            &format!("sel:{i:03}"),
            "owner",
            &format!(r#"{{"author": "u{}", "created": {}}}"#, i % 5, 1_000_000 - i),
            true,
        ))
        .expect("insert");
    }
    let predicate = author_is("u3");
    let q = ask(Some("SelKind"), None, None, Some(&predicate));
    let scanned = page(&mut e, &q, Some("created"), true, None, 5).expect("query_where ok");
    assert_eq!(scanned.nodes.len(), 5, "expected a full page of u3's rows");

    e.create_index(index("sel_author", "SelKind", "author")).expect("create index");
    let indexed = page(&mut e, &q, Some("created"), true, None, 5).expect("query_where ok");
    assert_eq!(
        addresses(&indexed.nodes),
        addresses(&scanned.nodes),
        "selecting through the index changed the ordered answer"
    );
}

fn like(address: &str, tweet: i64, owner: &str, shown: bool) -> Node {
    node("GbLike", address, owner, &format!(r#"{{"tweet": {tweet}}}"#), shown)
}

fn seed_likes(e: &mut StorageEngine, carol_public: bool) {
    let rows: &[(&str, i64, &str, bool)] = &[
        ("gb:1", 1, "alice", true),
        ("gb:2", 1, "alice", true),
        ("gb:3", 1, "carol", carol_public),
        ("gb:4", 2, "alice", true),
        ("gb:5", 2, "carol", carol_public),
        ("gb:6", 3, "alice", true),
    ];
    for (address, tweet, owner, shown) in rows {
        e.insert(like(address, *tweet, owner, *shown)).expect("insert");
    }
}

fn likes_by(
    e: &mut StorageEngine,
    requester: Option<&str>,
    by: &str,
    values: Option<&Vec<Json>>,
) -> Result<Vec<GroupCount>, FoldError> {
    e.count_by(&ask(Some("GbLike"), None, requester, None), by, values, &eval)
}

fn pairs(groups: &[GroupCount]) -> Vec<(Option<String>, u64)> {
    groups.iter().map(|g| (g.value.as_ref().map(|v| v.text.clone()), g.count)).collect()
}

fn assert_groups_match_individual_counts(e: &mut StorageEngine, requester: Option<&str>) {
    let groups = likes_by(e, requester, "tweet", None).expect("count_by ok");
    assert!(!groups.is_empty(), "no groups at all");
    for group in &groups {
        let value = group.value.as_ref().expect("a tweet id");
        let predicate = eq("tweet", &value.text);
        let individually =
            e.count_where(&ask(Some("GbLike"), None, requester, Some(&predicate)), &eval).expect("count_where ok");
        assert_eq!(
            group.count, individually,
            "group {:?} counted {} but counting it on its own gives {}",
            group.value, group.count, individually
        );
    }
}

#[test]
fn a_grouped_count_equals_the_individual_counts() {
    let mut e = open();
    seed_likes(&mut e, true);
    let groups = likes_by(&mut e, None, "tweet", None).expect("count_by ok");
    assert_eq!(
        groups.iter().map(|g| g.count).collect::<Vec<_>>(),
        vec![3, 2, 1],
        "groups should be ordered by value: tweet 1, 2, 3"
    );
    assert_groups_match_individual_counts(&mut e, None);
}

#[test]
fn the_indexed_path_gives_the_same_groups_as_the_scan() {
    let mut e = open();
    seed_likes(&mut e, true);
    let scanned = likes_by(&mut e, None, "tweet", None).expect("count_by ok");
    e.create_index(index("gb_tweet", "GbLike", "tweet")).expect("create index");
    let indexed = likes_by(&mut e, None, "tweet", None).expect("count_by ok");
    assert_eq!(pairs(&indexed), pairs(&scanned), "the index changed the grouping");
    assert_groups_match_individual_counts(&mut e, None);
}

#[test]
fn grouping_respects_visibility() {
    let mut e = open();
    seed_likes(&mut e, false);
    let everything = likes_by(&mut e, None, "tweet", None).expect("count_by ok");
    let as_dave = likes_by(&mut e, Some("dave"), "tweet", None).expect("count_by ok");
    let total = |gs: &[GroupCount]| gs.iter().map(|g| g.count).sum::<u64>();
    assert!(
        total(&as_dave) < total(&everything),
        "private rows were counted for someone who cannot read them"
    );
    assert_groups_match_individual_counts(&mut e, Some("dave"));
}

#[test]
fn rows_missing_the_field_group_under_null() {
    let mut e = open();
    seed_likes(&mut e, true);
    let groups = likes_by(&mut e, None, "nosuchfield", None).expect("count_by ok");
    assert_eq!(groups.len(), 1, "expected one bucket, got {groups:?}");
    assert!(groups[0].value.is_none());
    assert_eq!(groups[0].count, 6, "every row must land somewhere");
}

#[test]
fn the_groups_sum_to_the_plain_count() {
    let mut e = open();
    seed_likes(&mut e, true);
    let grouped: u64 = likes_by(&mut e, None, "tweet", None).expect("count_by ok").iter().map(|g| g.count).sum();
    let plain = e.count_where(&ask(Some("GbLike"), None, None, None), &eval).expect("count ok");
    assert_eq!(grouped, plain);
}

#[test]
fn restricting_to_named_values_answers_exactly_those() {
    let mut e = open();
    seed_likes(&mut e, true);
    let wanted = vec![json("3"), json("1"), json("99")];
    for indexed in [false, true] {
        if indexed {
            e.create_index(index("gb_named", "GbLike", "tweet")).expect("create index");
        }
        let got = likes_by(&mut e, None, "tweet", Some(&wanted)).expect("count_by ok");
        let mut found: Vec<(i64, u64)> = got
            .iter()
            .map(|g| (g.value.as_ref().and_then(|v| v.text.parse().ok()).unwrap_or(-1), g.count))
            .collect();
        found.sort();
        assert_eq!(
            found,
            vec![(1, 3), (3, 1), (99, 0)],
            "indexed={indexed}: wrong answers for the named values"
        );
    }
}

#[test]
fn a_value_named_twice_is_answered_once() {
    let mut e = open();
    seed_likes(&mut e, true);
    let wanted = vec![json("1"), json("1"), json("1.0"), json("2")];
    let scanned = likes_by(&mut e, None, "tweet", Some(&wanted)).expect("count_by ok");
    e.create_index(index("gb_twice", "GbLike", "tweet")).expect("create index");
    let indexed = likes_by(&mut e, None, "tweet", Some(&wanted)).expect("count_by ok");
    assert_eq!(
        pairs(&scanned),
        vec![(Some("1".to_string()), 3), (Some("2".to_string()), 2)],
        "the scan answered a repeated value more than once"
    );
    assert_eq!(
        pairs(&indexed),
        pairs(&scanned),
        "the index answered a repeated value differently from the scan"
    );
}

#[test]
fn no_value_has_two_groups() {
    let mut e = open();
    seed_likes(&mut e, true);
    e.insert(like("gb:7", 2, "alice", true)).expect("insert");
    e.insert(node("GbLike", "gb:8", "alice", r#"{"tweet": 2.0}"#, true)).expect("insert");
    e.create_index(index("gb_once", "GbLike", "tweet")).expect("create index");
    let groups = likes_by(&mut e, None, "tweet", None).expect("count_by ok");
    for (i, a) in groups.iter().enumerate() {
        for b in &groups[i + 1..] {
            assert_ne!(
                compare_order_values(a.value.as_ref(), b.value.as_ref()),
                facetql::bytes::Order::Equal,
                "two entries for one value: {a:?} and {b:?}"
            );
            assert_ne!(encode_order_value(a.value.as_ref()), encode_order_value(b.value.as_ref()));
        }
    }
    assert_eq!(groups.iter().map(|g| g.count).sum::<u64>(), 8);
}

#[test]
fn too_many_named_values_is_refused() {
    let mut e = open();
    seed_likes(&mut e, true);
    let far_too_many: Vec<Json> = (0..MAX_GROUP_VALUES as i64 + 1).map(|i| json(&i.to_string())).collect();
    assert!(
        matches!(
            likes_by(&mut e, None, "tweet", Some(&far_too_many)),
            Err(FoldError::Values { .. })
        ),
        "an unbounded value list was accepted"
    );
}

fn sum(state: u64, v: Option<Json>) -> Result<u64, String> {
    match v {
        Some(j) => match j.text.parse::<u64>() {
            Ok(n) => Ok(state + n),
            Err(e) => Err(e.to_string()),
        },
        None => Ok(state),
    }
}

fn zero() -> u64 {
    0
}

#[test]
fn an_aggregate_folds_the_rows_of_the_query() {
    let mut e = open();
    seed(&mut e, "Agg", "ag");
    let predicate = author_is("alice");
    let total = e
        .aggregate_where(&ask(Some("Agg"), None, None, Some(&predicate)), "n", 0u64, &sum, &eval)
        .expect("aggregate");
    assert_eq!(total, 0 + 4 + 8 + 12 + 16 + 20 + 24 + 28 + 32 + 36);

    let groups =
        e.aggregate_by(&ask(Some("Agg"), None, None, None), "author", None, "n", &zero, &sum, &eval).expect("groups");
    assert_eq!(groups.len(), 2);
    assert_eq!(groups[0].result, total);
    assert_eq!(groups[0].result + groups[1].result, (0..40).sum::<u64>());

    let failed = e.aggregate_where(&ask(Some("Agg"), None, None, None), "author", 0u64, &sum, &eval);
    assert!(matches!(failed, Err(FoldError::Value { .. })));
}

#[test]
fn runs_that_cannot_name_their_value_are_one_group() {
    let mut e = open();
    seed_likes(&mut e, true);
    e.create_index(index("gb_vanished", "GbLike", "tweet")).expect("create index");

    let (mut parts, wal) = e.close().expect("close");
    for (tweet, address) in [(7i64, "gb:gone-a"), (8, "gb:gone-b")] {
        parts.data[0]
            .put(&data_key(Some(&json(&tweet.to_string())), address), &[])
            .expect("stage an entry whose record is gone");
    }
    let tables = Tables::assemble(parts).expect("assemble");
    let mut e = StorageEngine::open(tables, wal, Limits::new(None, None, None, None), None);

    let groups = likes_by(&mut e, None, "tweet", None).expect("count_by ok");
    let unnamed: Vec<&GroupCount> = groups.iter().filter(|g| g.value.is_none()).collect();
    assert_eq!(unnamed.len(), 1, "one entry per value, `null` included: {groups:?}");
    assert_eq!(unnamed[0].count, 2, "both runs belong in the total");

    for (i, a) in groups.iter().enumerate() {
        for b in &groups[i + 1..] {
            assert_ne!(
                compare_order_values(a.value.as_ref(), b.value.as_ref()),
                facetql::bytes::Order::Equal,
                "two entries for one value: {a:?} and {b:?}"
            );
        }
    }
    assert_eq!(
        groups.iter().map(|g| g.count).sum::<u64>(),
        8,
        "the 6 seeded rows plus the 2 whose records are gone"
    );
}

#[test]
fn null_and_absent_are_one_group() {
    let mut e = open();
    e.insert(node("K", "k:a", "alice", r#"{"x":null}"#, true)).expect("insert");
    e.insert(node("K", "k:b", "alice", r#"{"y":1}"#, true)).expect("insert");
    e.insert(node("K", "k:c", "alice", r#"{"x":5}"#, true)).expect("insert");
    let null = vec![json("null"), json("7")];
    for declared in [false, true] {
        if declared {
            e.create_index(index("k_x", "K", "x")).expect("index");
        }
        let q = ask(Some("K"), None, None, None);
        let groups = e.count_by(&q, "x", None, &eval).expect("count_by ok");
        assert_eq!(pairs(&groups), vec![(Some("5".to_string()), 1), (None, 2)], "{declared}");
        let named = e.count_by(&q, "x", Some(&null), &eval).expect("count_by ok");
        assert_eq!(pairs(&named), vec![(Some("7".to_string()), 0), (None, 2)], "{declared}");
    }
}

#[test]
fn a_group_reports_the_value_named_first() {
    let mut e = open();
    seed_likes(&mut e, true);
    let values = vec![json("9.0"), json("9"), json("1"), json("1.0")];
    for declared in [false, true] {
        if declared {
            e.create_index(index("gb_first", "GbLike", "tweet")).expect("create index");
        }
        let groups = likes_by(&mut e, None, "tweet", Some(&values)).expect("count_by ok");
        assert_eq!(pairs(&groups), vec![(Some("1".to_string()), 3), (Some("9.0".to_string()), 0)], "{declared}");
    }
}

#[test]
fn a_condition_that_cannot_be_judged_is_refused_by_counts() {
    let mut e = open();
    seed_likes(&mut e, true);
    let f = nonsense();
    let q = ask(Some("GbLike"), None, None, Some(&f));
    assert!(matches!(e.count_where(&q, &eval), Err(FoldError::Condition { .. })));
    assert!(matches!(e.count_by(&q, "tweet", None, &eval), Err(FoldError::Condition { .. })));
    assert!(matches!(page(&mut e, &q, Some("tweet"), true, None, 1), Err(QueryError::Condition { .. })));
    let nobody = ask(Some("Nothing"), None, None, Some(&f));
    assert_eq!(e.count_where(&nobody, &eval).expect("nothing to judge"), 0);
}

#[test]
fn values_without_rows_do_not_count_toward_the_bound() {
    let mut e = StorageEngine::create(Limits::new(Some(2), None, None, None), None);
    for (i, v) in ["1", "2", "2"].iter().enumerate() {
        e.insert(node("Vb", &format!("vb:{i}"), "alice", &format!("{{\"v\":{v}}}"), true)).expect("insert");
    }
    let values: Vec<Json> = ["1", "2", "3", "4", "5"].iter().map(|v| json(v)).collect();
    let q = ask(Some("Vb"), None, None, None);
    let counts = |groups: Vec<GroupCount>| groups.iter().map(|g| g.count).collect::<Vec<u64>>();
    let scanned = counts(e.count_by(&q, "v", Some(&values), &eval).expect("counts"));
    assert_eq!(scanned, vec![1, 2, 0, 0, 0]);
    e.create_index(index("vb_v", "Vb", "v")).expect("index");
    assert_eq!(counts(e.count_by(&q, "v", Some(&values), &eval).expect("counts")), scanned);

    e.insert(node("Vb", "vb:3", "alice", "{\"v\":3}", true)).expect("insert");
    assert!(matches!(e.count_by(&q, "v", Some(&values), &eval), Err(FoldError::ScanLimit { max: 2 })));
    assert!(matches!(e.count_by(&q, "v", None, &eval), Err(FoldError::ScanLimit { max: 2 })));
    e.drop_index("vb_v").expect("drop");
    assert!(matches!(e.count_by(&q, "v", Some(&values), &eval), Err(FoldError::ScanLimit { max: 2 })));
}
