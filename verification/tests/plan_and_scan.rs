use dynamo_rename::confirm::{is_confirmed, trim, white_space};
use dynamo_rename::plan::{prepare, try_prepare};
use dynamo_rename::record::{Record, Value};
use dynamo_rename::rule::Replace;
use dynamo_rename::scan::absorb_page;

fn n(s: &str) -> Value {
    Value::N(s.to_string())
}

fn record(fields: Vec<(&str, Value)>) -> Record {
    let mut r = Record::new();
    for (k, v) in fields {
        r.insert(k.to_string(), v);
    }
    r
}

#[test]
fn prepare_queues_changed_records_in_order() {
    let rows = vec![
        record(vec![("id", n("1")), ("a", n("10"))]),
        record(vec![("id", n("2")), ("c", n("20"))]),
        record(vec![("id", n("3")), ("a", n("30")), ("b", n("31"))]),
    ];
    let rules = vec![Replace::from_str("a>b").unwrap()];
    let plan = prepare(rows, &rules);
    assert_eq!(plan.result.replacements, 2);
    assert_eq!(plan.result.overwrites, 1);
    assert!(plan.has_replacements());
    assert_eq!(plan.dirty.len(), 2);
    assert!(plan.dirty[0].original == record(vec![("id", n("1")), ("a", n("10"))]));
    assert!(plan.dirty[0].mutated == record(vec![("id", n("1")), ("b", n("10"))]));
    assert!(plan.dirty[1].original == record(vec![("id", n("3")), ("a", n("30")), ("b", n("31"))]));
    assert!(plan.dirty[1].mutated == record(vec![("id", n("3")), ("b", n("30"))]));
}

#[test]
fn prepare_leaves_out_records_without_source_fields() {
    let rows = vec![
        record(vec![("id", n("1")), ("x", n("10"))]),
        record(vec![("id", n("2")), ("m", Value::M(record(vec![("y", n("1"))])))]),
    ];
    let rules = vec![Replace::from_str("a>b").unwrap(), Replace::from_str("*c>*d").unwrap()];
    let plan = prepare(rows, &rules);
    assert!(plan.dirty.is_empty());
    assert_eq!(plan.result.replacements, 0);
    assert_eq!(plan.result.overwrites, 0);
    assert!(!plan.has_replacements());
}

#[test]
fn prepare_counts_a_rename_to_the_same_name_but_queues_nothing() {
    let rows = vec![record(vec![("a", n("1"))])];
    let rules = vec![Replace::from_str("a>a").unwrap()];
    let plan = prepare(rows, &rules);
    assert!(plan.dirty.is_empty());
    assert_eq!(plan.result.replacements, 1);
    assert!(plan.has_replacements());
}

#[test]
fn prepare_of_no_records() {
    let plan = prepare(Vec::new(), &[Replace::from_str("a>b").unwrap()]);
    assert!(plan.dirty.is_empty());
    assert!(!plan.has_replacements());
}

#[test]
fn absorb_page_appends_and_passes_the_key_on() {
    let mut rows = vec![record(vec![("id", n("1"))])];
    let key = record(vec![("id", n("2"))]);
    let next = absorb_page(
        &mut rows,
        Some(vec![record(vec![("id", n("2"))]), record(vec![("id", n("3"))])]),
        Some(key.clone()),
    );
    assert!(next == Some(key));
    assert_eq!(rows.len(), 3);
    assert!(rows[0] == record(vec![("id", n("1"))]));
    assert!(rows[1] == record(vec![("id", n("2"))]));
    assert!(rows[2] == record(vec![("id", n("3"))]));
}

#[test]
fn absorb_page_stops_without_a_key() {
    let mut rows = Vec::new();
    let next = absorb_page(&mut rows, Some(vec![record(vec![("id", n("1"))])]), None);
    assert!(next.is_none());
    assert_eq!(rows.len(), 1);
}

#[test]
fn absorb_page_takes_a_page_without_records_as_empty() {
    let mut rows = vec![record(vec![("id", n("1"))])];
    let key = record(vec![("id", n("1"))]);
    let next = absorb_page(&mut rows, None, Some(key.clone()));
    assert!(next == Some(key));
    assert_eq!(rows.len(), 1);
}

#[test]
fn scan_loop_collects_all_pages() {
    let pages = vec![
        (Some(vec![record(vec![("id", n("1"))])]), Some(record(vec![("id", n("1"))]))),
        (None, Some(record(vec![("id", n("1"))]))),
        (Some(vec![record(vec![("id", n("2"))]), record(vec![("id", n("3"))])]), None),
        (Some(vec![record(vec![("id", n("4"))])]), None),
    ];
    let mut rows = Vec::new();
    let mut fetched = 0;
    for (items, key) in pages {
        fetched += 1;
        if absorb_page(&mut rows, items, key).is_none() {
            break;
        }
    }
    assert_eq!(fetched, 3);
    assert_eq!(rows.len(), 3);
    assert!(rows[2] == record(vec![("id", n("3"))]));
}

#[test]
fn only_the_affirmative_token_confirms() {
    assert!(is_confirmed("Y"));
    assert!(is_confirmed("Y\n"));
    assert!(is_confirmed("  Y \r\n"));
    assert!(is_confirmed("\tY\u{a0}\u{3000}"));
    assert!(!is_confirmed("y"));
    assert!(!is_confirmed("yes"));
    assert!(!is_confirmed("Yes"));
    assert!(!is_confirmed("YY"));
    assert!(!is_confirmed("Y Y"));
    assert!(!is_confirmed(""));
    assert!(!is_confirmed("\n"));
    assert!(!is_confirmed("N"));
    assert!(!is_confirmed("\u{200b}Y"));
}

#[test]
fn trim_removes_white_space_at_both_ends_only() {
    assert_eq!(trim("  a b  "), "a b");
    assert_eq!(trim("a"), "a");
    assert_eq!(trim(""), "");
    assert_eq!(trim(" \t\r\n"), "");
    assert_eq!(trim("\u{2028}x\u{2029}"), "x");
    assert_eq!(trim("\u{e9} "), "\u{e9}");
}

#[test]
fn white_space_is_the_unicode_property() {
    for code in 0u32..0x3100 {
        if let Some(c) = char::from_u32(code) {
            assert_eq!(white_space(c), c.is_whitespace());
        }
    }
    assert!(!white_space('\u{feff}'));
}

#[test]
fn try_prepare_gives_the_plan_where_the_counts_fit() {
    let rows = vec![
        record(vec![("a", n("1"))]),
        record(vec![("b", n("2"))]),
        record(vec![("m", Value::M(record(vec![("a", n("3")), ("b", n("4"))])))]),
    ];
    let rules = vec![Replace::from_str("*a>*b").unwrap()];
    let plan = try_prepare(rows, &rules).unwrap();
    assert_eq!(plan.result.replacements, 2);
    assert_eq!(plan.result.overwrites, 1);
    assert_eq!(plan.dirty.len(), 2);
    assert!(plan.dirty[0].mutated == record(vec![("b", n("1"))]));
    assert!(plan.dirty[1].original
        == record(vec![("m", Value::M(record(vec![("a", n("3")), ("b", n("4"))])))]));
    assert!(plan.dirty[1].mutated == record(vec![("m", Value::M(record(vec![("b", n("3"))])))]));
}
