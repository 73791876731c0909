use dynamo_rename::record::{Record, Value};
use dynamo_rename::rewrite::{
    has_suffix, join_path, replace, rewrite, rule_fires, try_replace, try_rewrite, ReplaceResult,
};
use dynamo_rename::rule::Replace;

fn num(s: &str) -> Value {
    Value::N(s.to_string())
}

fn rec(fields: Vec<(&str, Value)>) -> Record {
    let mut r = Record::new();
    for (k, v) in fields {
        r.insert(k.to_string(), v);
    }
    r
}

fn map(fields: Vec<(&str, Value)>) -> Value {
    Value::M(rec(fields))
}

fn rules(directives: Vec<&str>) -> Vec<Replace> {
    directives.into_iter().map(|d| Replace::from_str(d).unwrap()).collect()
}

fn counts(replacements: usize, overwrites: usize) -> ReplaceResult {
    ReplaceResult { replacements, overwrites }
}

#[test]
fn renames_a_top_level_field() {
    let (after, result) = rewrite(rec(vec![("a", num("1")), ("c", num("3"))]), &rules(vec!["a>b"]));
    assert!(after == rec(vec![("b", num("1")), ("c", num("3"))]));
    assert_eq!(result, counts(1, 0));
}

#[test]
fn overwrite_is_counted() {
    let (after, result) = rewrite(rec(vec![("a", num("1")), ("b", num("2"))]), &rules(vec!["a>b"]));
    assert!(after == rec(vec![("b", num("1"))]));
    assert_eq!(result, counts(1, 1));
}

#[test]
fn record_without_source_fields_is_unchanged() {
    let before = rec(vec![("x", num("1")), ("m", map(vec![("y", num("2"))]))]);
    let (after, result) = rewrite(before.clone(), &rules(vec!["a>b", "*c>*d", "m.a>m.b"]));
    assert!(after == before);
    assert_eq!(result, counts(0, 0));
}

#[test]
fn root_rule_with_empty_prefix_fires_at_top_level_only() {
    let before = rec(vec![
        ("a", num("1")),
        ("m", map(vec![("a", num("2")), ("n", map(vec![("a", num("3"))]))])),
    ]);
    let (after, result) = rewrite(before, &rules(vec!["a>b"]));
    let expected = rec(vec![
        ("b", num("1")),
        ("m", map(vec![("a", num("2")), ("n", map(vec![("a", num("3"))]))])),
    ]);
    assert!(after == expected);
    assert_eq!(result, counts(1, 0));
}

#[test]
fn wildcard_rule_with_empty_prefix_fires_at_every_level() {
    let before = rec(vec![
        ("a", num("1")),
        ("m", map(vec![("a", num("2")), ("n", map(vec![("a", num("3"))]))])),
    ]);
    let (after, result) = rewrite(before, &rules(vec!["*a>*b"]));
    let expected = rec(vec![
        ("b", num("1")),
        ("m", map(vec![("b", num("2")), ("n", map(vec![("b", num("3"))]))])),
    ]);
    assert!(after == expected);
    assert_eq!(result, counts(3, 0));
}

#[test]
fn root_rule_with_prefix_fires_at_exact_path_only() {
    let before = rec(vec![
        ("user", map(vec![("name", map(vec![("x", num("1"))]))])),
        ("a", map(vec![("user", map(vec![("name", map(vec![("x", num("2"))]))]))])),
        ("xuser", map(vec![("name", map(vec![("x", num("3"))]))])),
    ]);
    let (after, result) = rewrite(before, &rules(vec!["user.name.x>user.name.y"]));
    let expected = rec(vec![
        ("user", map(vec![("name", map(vec![("y", num("1"))]))])),
        ("a", map(vec![("user", map(vec![("name", map(vec![("x", num("2"))]))]))])),
        ("xuser", map(vec![("name", map(vec![("x", num("3"))]))])),
    ]);
    assert!(after == expected);
    assert_eq!(result, counts(1, 0));
}

#[test]
fn suffix_rule_matches_raw_string_suffix() {
    let before = rec(vec![
        ("user", map(vec![("name", map(vec![("x", num("1"))]))])),
        ("a", map(vec![("user", map(vec![("name", map(vec![("x", num("2"))]))]))])),
        ("xuser", map(vec![("name", map(vec![("x", num("3"))]))])),
        ("user", map(vec![("name", map(vec![("x", num("1"))]))])),
        ("name", map(vec![("x", num("4"))])),
        ("user2", map(vec![("name", map(vec![("x", num("5"))]))])),
    ]);
    let (after, result) = rewrite(before, &rules(vec!["*user.name.x>*user.name.y"]));
    let expected = rec(vec![
        ("user", map(vec![("name", map(vec![("y", num("1"))]))])),
        ("a", map(vec![("user", map(vec![("name", map(vec![("y", num("2"))]))]))])),
        ("xuser", map(vec![("name", map(vec![("y", num("3"))]))])),
        ("name", map(vec![("x", num("4"))])),
        ("user2", map(vec![("name", map(vec![("x", num("5"))]))])),
    ]);
    assert!(after == expected);
    assert_eq!(result, counts(3, 0));
}

#[test]
fn rule_fires_on_paths() {
    let root = Replace::from_str("user.name.x>user.name.y").unwrap();
    assert!(rule_fires(&root, "user.name"));
    assert!(!rule_fires(&root, "a.user.name"));
    assert!(!rule_fires(&root, "xuser.name"));
    assert!(!rule_fires(&root, ""));
    let suffix = Replace::from_str("*user.name.x>*user.name.y").unwrap();
    assert!(rule_fires(&suffix, "user.name"));
    assert!(rule_fires(&suffix, "a.user.name"));
    assert!(rule_fires(&suffix, "xuser.name"));
    assert!(!rule_fires(&suffix, "user.name.z"));
    assert!(!rule_fires(&suffix, "name"));
    assert!(!rule_fires(&suffix, ""));
    let top = Replace::from_str("a>b").unwrap();
    assert!(rule_fires(&top, ""));
    assert!(!rule_fires(&top, "a"));
    let everywhere = Replace::from_str("*a>*b").unwrap();
    assert!(rule_fires(&everywhere, ""));
    assert!(rule_fires(&everywhere, "p.q"));
}

#[test]
fn has_suffix_compares_characters() {
    assert!(has_suffix("a.b.c", "b.c"));
    assert!(has_suffix("xb.c", "b.c"));
    assert!(has_suffix("b.c", "b.c"));
    assert!(has_suffix("abc", ""));
    assert!(has_suffix("", ""));
    assert!(!has_suffix("b.c", "a.b.c"));
    assert!(!has_suffix("a.b.d", "b.c"));
    assert!(!has_suffix("", "a"));
    assert!(has_suffix("a\u{e9}", "\u{e9}"));
}

#[test]
fn join_path_puts_a_dot_between() {
    assert_eq!(join_path("", "a"), "a");
    assert_eq!(join_path("a", "b"), "a.b");
    assert_eq!(join_path("a.b", "c"), "a.b.c");
    assert_eq!(join_path("", ""), "");
    assert_eq!(join_path("a", ""), "a.");
}

#[test]
fn renamed_map_is_visited_under_its_new_name() {
    let before = rec(vec![("m", map(vec![("a", num("1"))]))]);
    let (after, result) = rewrite(before, &rules(vec!["m>n", "m.a>m.b"]));
    assert!(after == rec(vec![("n", map(vec![("a", num("1"))]))]));
    assert_eq!(result, counts(1, 0));

    let before = rec(vec![("m", map(vec![("a", num("1"))]))]);
    let (after, result) = rewrite(before, &rules(vec!["m>n", "n.a>n.b"]));
    assert!(after == rec(vec![("n", map(vec![("b", num("1"))]))]));
    assert_eq!(result, counts(2, 0));
}

#[test]
fn chained_rules_apply_one_step_per_pass() {
    let chain = rules(vec!["a>b", "b>c"]);
    let (once, first) = rewrite(rec(vec![("a", num("1"))]), &chain);
    assert!(once == rec(vec![("b", num("1"))]));
    assert_eq!(first, counts(1, 0));
    let (twice, second) = rewrite(once, &chain);
    assert!(twice == rec(vec![("c", num("1"))]));
    assert_eq!(second, counts(1, 0));
    let (thrice, third) = rewrite(twice, &chain);
    assert!(thrice == rec(vec![("c", num("1"))]));
    assert_eq!(third, counts(0, 0));
}

#[test]
fn chained_rules_in_reverse_order_apply_one_step_per_pass() {
    let chain = rules(vec!["b>c", "a>b"]);
    let (once, first) = rewrite(rec(vec![("a", num("1"))]), &chain);
    assert!(once == rec(vec![("b", num("1"))]));
    assert_eq!(first, counts(1, 0));
    let (twice, second) = rewrite(once, &chain);
    assert!(twice == rec(vec![("c", num("1"))]));
    assert_eq!(second, counts(1, 0));
}

#[test]
fn field_put_by_a_rule_is_no_source_in_the_same_pass() {
    let (after, result) =
        rewrite(rec(vec![("a", num("1")), ("b", num("2"))]), &rules(vec!["a>b", "b>c"]));
    assert!(after == rec(vec![("b", num("1"))]));
    assert_eq!(result, counts(1, 1));
}

#[test]
fn removed_source_is_gone_for_later_rules() {
    let (after, result) = rewrite(rec(vec![("a", num("1"))]), &rules(vec!["a>b", "a>c"]));
    assert!(after == rec(vec![("b", num("1"))]));
    assert_eq!(result, counts(1, 0));
}

#[test]
fn overwrite_of_a_field_put_by_an_earlier_rule_is_counted() {
    let (after, result) =
        rewrite(rec(vec![("a", num("1")), ("b", num("2"))]), &rules(vec!["a>c", "b>c"]));
    assert!(after == rec(vec![("c", num("2"))]));
    assert_eq!(result, counts(2, 1));
}

#[test]
fn rename_to_the_same_name_counts_without_overwrite() {
    let (after, result) = rewrite(rec(vec![("a", num("1"))]), &rules(vec!["a>a"]));
    assert!(after == rec(vec![("a", num("1"))]));
    assert_eq!(result, counts(1, 0));
}

#[test]
fn applying_twice_equals_applying_once_without_chains() {
    let set = rules(vec!["a>b", "*x>*y", "m.p>m.q"]);
    let before = rec(vec![
        ("a", num("1")),
        ("x", num("2")),
        ("m", map(vec![("p", num("3")), ("x", num("4")), ("k", map(vec![("x", num("5"))]))])),
    ]);
    let (once, first) = rewrite(before, &set);
    let expected = rec(vec![
        ("b", num("1")),
        ("y", num("2")),
        ("m", map(vec![("q", num("3")), ("y", num("4")), ("k", map(vec![("y", num("5"))]))])),
    ]);
    assert!(once == expected);
    assert_eq!(first, counts(5, 0));
    let (twice, second) = rewrite(once.clone(), &set);
    assert!(twice == once);
    assert_eq!(second, counts(0, 0));
}

#[test]
fn maps_inside_lists_are_not_visited() {
    let before = rec(vec![("l", Value::L(vec![map(vec![("a", num("1"))])]))]);
    let (after, result) = rewrite(before.clone(), &rules(vec!["*a>*b"]));
    assert!(after == before);
    assert_eq!(result, counts(0, 0));
}

#[test]
fn map_under_empty_name_has_the_empty_path() {
    let before = rec(vec![("", map(vec![("a", num("1"))]))]);
    let (after, result) = rewrite(before, &rules(vec!["a>b"]));
    assert!(after == rec(vec![("", map(vec![("b", num("1"))]))]));
    assert_eq!(result, counts(1, 0));
}

#[test]
fn empty_rule_list_changes_nothing() {
    let before = rec(vec![("a", num("1")), ("m", map(vec![("a", num("2"))]))]);
    let (after, result) = rewrite(before.clone(), &[]);
    assert!(after == before);
    assert_eq!(result, counts(0, 0));
}

#[test]
fn replace_starts_from_the_given_path_and_adds_to_the_counts() {
    let mut record = rec(vec![("x", num("1")), ("y", num("0")), ("k", map(vec![("x", num("2"))]))]);
    let mut result = counts(10, 20);
    replace("m".to_string(), &mut record, &rules(vec!["m.x>m.y", "m.k.x>m.k.z"]), &mut result);
    assert!(record == rec(vec![("y", num("1")), ("k", map(vec![("z", num("2"))]))]));
    assert_eq!(result, counts(12, 21));
}

#[test]
fn default_counts_are_zero() {
    assert_eq!(ReplaceResult::default(), counts(0, 0));
}

#[test]
fn try_rewrite_gives_the_pass_where_the_counts_fit() {
    let done = try_rewrite(rec(vec![("a", num("1")), ("b", num("2"))]), &rules(vec!["a>b"]));
    let (after, result) = done.unwrap();
    assert!(after == rec(vec![("b", num("1"))]));
    assert_eq!(result, counts(1, 1));
}

#[test]
fn try_replace_adds_to_the_counts() {
    let mut record = rec(vec![("a", num("1")), ("m", map(vec![("a", num("2")), ("b", num("3"))]))]);
    let mut result = counts(usize::MAX - 2, usize::MAX - 1);
    assert!(try_replace(String::new(), &mut record, &rules(vec!["*a>*b"]), &mut result));
    assert!(record == rec(vec![("b", num("1")), ("m", map(vec![("b", num("2"))]))]));
    assert_eq!(result, counts(usize::MAX, usize::MAX));
}

#[test]
fn try_replace_refuses_where_replacements_leave_the_counter() {
    let mut record = rec(vec![("a", num("1")), ("m", map(vec![("a", num("2"))]))]);
    let mut result = counts(usize::MAX - 1, 0);
    assert!(!try_replace(String::new(), &mut record, &rules(vec!["*a>*b"]), &mut result));

    let mut record = rec(vec![("a", num("1"))]);
    let mut result = counts(usize::MAX, 0);
    assert!(!try_replace(String::new(), &mut record, &rules(vec!["a>b"]), &mut result));

    let mut record = rec(vec![("x", num("1"))]);
    let mut result = counts(usize::MAX, usize::MAX);
    assert!(try_replace(String::new(), &mut record, &rules(vec!["a>b"]), &mut result));
    assert_eq!(result, counts(usize::MAX, usize::MAX));
}

#[test]
fn try_replace_refuses_where_overwrites_leave_the_counter() {
    let mut record = rec(vec![("a", num("1")), ("b", num("2"))]);
    let mut result = counts(0, usize::MAX);
    assert!(!try_replace(String::new(), &mut record, &rules(vec!["a>b"]), &mut result));

    let mut record = rec(vec![("a", num("1"))]);
    let mut result = counts(0, usize::MAX);
    assert!(try_replace(String::new(), &mut record, &rules(vec!["a>b"]), &mut result));
    assert_eq!(result, counts(1, usize::MAX));
}
