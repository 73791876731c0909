use dynamo_rename::condition::{build_put, decimal_text, PutRequest};
use dynamo_rename::record::{Record, Value};
use dynamo_rename::rewrite::rewrite;
use dynamo_rename::rule::Replace;
use dynamo_rename::writer::{after_write, begin, Report, Step, WriteOutcome};

fn v(s: &str) -> Value {
    Value::N(s.to_string())
}

fn item(fields: Vec<(&str, Value)>) -> Record {
    let mut r = Record::new();
    for (k, val) in fields {
        r.insert(k.to_string(), val);
    }
    r
}

fn wide(n: usize) -> Record {
    let mut r = Record::new();
    for i in 0..n {
        r.insert(format!("f{}", i), v("0"));
    }
    r
}

fn store_put(stored: &mut Record, request: &PutRequest) -> WriteOutcome {
    if request.admits(stored) {
        *stored = request.item.clone();
        WriteOutcome::Written
    } else {
        WriteOutcome::Conflict
    }
}

fn drive(total: usize, answers: &[WriteOutcome]) -> (Report, usize) {
    let mut attempts = 0;
    let mut step = begin(total);
    loop {
        match step {
            Step::Halt(report) => return (report, attempts),
            Step::Write(i) => {
                assert_eq!(i, attempts);
                attempts += 1;
                step = after_write(i, total, answers[i]);
            }
        }
    }
}

#[test]
fn decimal_text_of_numbers() {
    assert_eq!(decimal_text(0), "0");
    assert_eq!(decimal_text(7), "7");
    assert_eq!(decimal_text(10), "10");
    assert_eq!(decimal_text(109), "109");
    assert_eq!(decimal_text(1234567890), "1234567890");
    assert_eq!(decimal_text(usize::MAX), usize::MAX.to_string());
}

#[test]
fn put_without_original_fields_is_unconditional() {
    let request = build_put(Record::new(), item(vec![("a", v("1"))]));
    assert!(request.condition_expression.is_none());
    assert!(request.guards.is_empty());
    assert!(request.item == item(vec![("a", v("1"))]));
    assert!(request.admits(&Record::new()));
    assert!(request.admits(&item(vec![("z", v("9"))])));
}

#[test]
fn put_guards_one_field() {
    let request = build_put(item(vec![("a", v("1"))]), item(vec![("b", v("1"))]));
    assert_eq!(request.condition_expression.as_deref(), Some("#a0 = :a0"));
    assert_eq!(request.guards.len(), 1);
    assert_eq!(request.guards[0].name_placeholder, "#a0");
    assert_eq!(request.guards[0].value_placeholder, ":a0");
    assert_eq!(request.guards[0].field, "a");
    assert!(request.guards[0].expected == v("1"));
    assert!(request.item == item(vec![("b", v("1"))]));
}

#[test]
fn put_guards_every_original_field() {
    let original = item(vec![("a", v("1")), ("b", v("2"))]);
    let request = build_put(original.clone(), item(vec![("b", v("1"))]));
    assert_eq!(request.condition_expression.as_deref(), Some("#a0 = :a0 AND #a1 = :a1"));
    assert_eq!(request.guards.len(), 2);
    let mut fields: Vec<String> = Vec::new();
    for (i, guard) in request.guards.iter().enumerate() {
        assert_eq!(guard.name_placeholder, format!("#a{}", i));
        assert_eq!(guard.value_placeholder, format!(":a{}", i));
        assert!(original.get(&guard.field) == Some(&guard.expected));
        fields.push(guard.field.clone());
    }
    fields.sort();
    assert_eq!(fields, vec!["a".to_string(), "b".to_string()]);
}

#[test]
fn put_numbers_placeholders_in_decimal() {
    let request = build_put(wide(12), Record::new());
    let expected: Vec<String> = (0..12).map(|i| format!("#a{} = :a{}", i, i)).collect();
    assert_eq!(request.condition_expression, Some(expected.join(" AND ")));
    assert_eq!(request.guards[11].name_placeholder, "#a11");
    assert_eq!(request.guards[10].value_placeholder, ":a10");
}

#[test]
fn placeholders_keep_odd_field_names_out_of_the_condition() {
    let request = build_put(item(vec![("size AND 1 = 1", v("1"))]), Record::new());
    assert_eq!(request.condition_expression.as_deref(), Some("#a0 = :a0"));
    assert_eq!(request.guards[0].field, "size AND 1 = 1");
}

#[test]
fn changed_guarded_field_is_a_conflict() {
    let original = item(vec![("a", v("1")), ("b", v("2"))]);
    let rules = vec![Replace::from_str("a>c").unwrap()];
    let (mutated, _) = rewrite(original.clone(), &rules);
    let request = build_put(original.clone(), mutated);

    let mut unchanged = original.clone();
    assert_eq!(store_put(&mut unchanged, &request), WriteOutcome::Written);
    assert!(unchanged == item(vec![("c", v("1")), ("b", v("2"))]));

    let mut changed_a = item(vec![("a", v("9")), ("b", v("2"))]);
    assert_eq!(store_put(&mut changed_a, &request), WriteOutcome::Conflict);
    assert!(changed_a == item(vec![("a", v("9")), ("b", v("2"))]));

    let mut changed_b = item(vec![("a", v("1")), ("b", v("3"))]);
    assert_eq!(store_put(&mut changed_b, &request), WriteOutcome::Conflict);

    let mut lost_b = item(vec![("a", v("1"))]);
    assert_eq!(store_put(&mut lost_b, &request), WriteOutcome::Conflict);

    let mut gone = Record::new();
    assert_eq!(store_put(&mut gone, &request), WriteOutcome::Conflict);

    let mut other_kind = item(vec![("a", Value::S("1".to_string())), ("b", v("2"))]);
    assert_eq!(store_put(&mut other_kind, &request), WriteOutcome::Conflict);
}

#[test]
fn field_added_in_the_store_is_no_conflict() {
    let original = item(vec![("a", v("1"))]);
    let request = build_put(original, item(vec![("b", v("1"))]));
    assert!(request.admits(&item(vec![("a", v("1")), ("extra", v("5"))])));
}

#[test]
fn failure_on_third_write_reports_two_and_stops() {
    let answers = [
        WriteOutcome::Written,
        WriteOutcome::Written,
        WriteOutcome::Failed,
        WriteOutcome::Written,
        WriteOutcome::Written,
    ];
    assert_eq!(drive(5, &answers), (Report::Failed(2), 3));
}

#[test]
fn conflict_halts_the_run_with_the_count_so_far() {
    let answers = [WriteOutcome::Written, WriteOutcome::Conflict, WriteOutcome::Written];
    assert_eq!(drive(3, &answers), (Report::Conflict(1), 2));
    let answers = [WriteOutcome::Conflict, WriteOutcome::Failed];
    assert_eq!(drive(2, &answers), (Report::Conflict(0), 1));
}

#[test]
fn run_of_successes_reports_all() {
    let answers = [WriteOutcome::Written; 4];
    assert_eq!(drive(4, &answers), (Report::Updated(4), 4));
    assert_eq!(drive(1, &answers), (Report::Updated(1), 1));
}

#[test]
fn run_over_nothing_reports_zero() {
    assert_eq!(begin(0), Step::Halt(Report::Updated(0)));
    assert_eq!(drive(0, &[]), (Report::Updated(0), 0));
}

#[test]
fn steps_follow_the_answers() {
    assert_eq!(begin(3), Step::Write(0));
    assert_eq!(after_write(0, 3, WriteOutcome::Written), Step::Write(1));
    assert_eq!(after_write(1, 3, WriteOutcome::Written), Step::Write(2));
    assert_eq!(after_write(2, 3, WriteOutcome::Written), Step::Halt(Report::Updated(3)));
    assert_eq!(after_write(1, 3, WriteOutcome::Failed), Step::Halt(Report::Failed(1)));
    assert_eq!(after_write(2, 3, WriteOutcome::Conflict), Step::Halt(Report::Conflict(2)));
}
