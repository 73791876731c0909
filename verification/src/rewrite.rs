//! The rewrite engine: applies rename rules to a record, level by level.
//!
//! At each map the rules that match the map's path are applied in the order
//! given. A rule takes its source field out of the map and puts the value
//! back under the target name, where it may displace a field; a field that
//! a rule has put there is no source for a later rule of the same pass.
//! Then every field that holds a map is visited in turn, under the path
//! extended by the field's name. Each map is visited once.

use crate::record::{deeply_finite, Record, RecordModel, Value, ValueModel};
use crate::rule::{Replace, ReplaceModel};
use vstd::prelude::*;
use vstd::string::*;

verus! {

/// Whether the rule applies to the map at `path`: a root rule where the
/// path is its prefix, any other rule where the path ends with its prefix,
/// character by character.
pub open spec fn fires(rule: ReplaceModel, path: Seq<char>) -> bool {
    path == rule.prefix || (!rule.root && rule.prefix.is_suffix_of(path))
}

/// A map while the rules of its level are applied: its fields, and the
/// names of those that a rule of this pass has put there. Such a field is
/// no source for a later rule of the same pass.
pub struct Level {
    pub fields: RecordModel,
    pub fresh: Set<Seq<char>>,
}

/// The level of a map before any rule.
pub open spec fn start_level(m: RecordModel) -> Level {
    Level { fields: m, fresh: Set::empty() }
}

/// Whether the rule renames a field of the level at `path`: it applies
/// there, and its source is a field that no rule of this pass has written.
pub open spec fn replaces(rule: ReplaceModel, path: Seq<char>, level: Level) -> bool {
    fires(rule, path) && level.fields.dom().contains(rule.from) && !level.fresh.contains(rule.from)
}

/// Whether the rule, renaming a field of the level, displaces another one.
pub open spec fn overwrites(rule: ReplaceModel, path: Seq<char>, level: Level) -> bool {
    replaces(rule, path, level) && rule.to != rule.from && level.fields.dom().contains(rule.to)
}

/// The level at `path` after the rule.
pub open spec fn apply_rule(rule: ReplaceModel, path: Seq<char>, level: Level) -> Level {
    if replaces(rule, path, level) {
        Level {
            fields: level.fields.remove(rule.from).insert(rule.to, level.fields[rule.from]),
            fresh: level.fresh.insert(rule.to),
        }
    } else {
        level
    }
}

/// The level at `path` after the rules, applied from the first to the last.
pub open spec fn apply_rules(rules: Seq<ReplaceModel>, path: Seq<char>, level: Level) -> Level
    decreases rules.len(),
{
    if rules.len() == 0 {
        level
    } else {
        apply_rules(rules.drop_first(), path, apply_rule(rules.first(), path, level))
    }
}

/// The fields of the map `m` at `path` after the rules of its level.
pub open spec fn level_fields(rules: Seq<ReplaceModel>, path: Seq<char>, m: RecordModel) -> RecordModel {
    apply_rules(rules, path, start_level(m)).fields
}

/// What is counted: every renaming, or only those that displace a field.
pub enum Tally {
    Replacements,
    Overwrites,
}

/// Whether the rule, applied to the level at `path`, adds one to the tally.
pub open spec fn counted(tally: Tally, rule: ReplaceModel, path: Seq<char>, level: Level) -> bool {
    match tally {
        Tally::Replacements => replaces(rule, path, level),
        Tally::Overwrites => overwrites(rule, path, level),
    }
}

/// The tally of the rules at one level: each rule is counted against the
/// level that the rules before it have left.
pub open spec fn level_count(
    tally: Tally,
    rules: Seq<ReplaceModel>,
    path: Seq<char>,
    level: Level,
) -> nat
    decreases rules.len(),
{
    if rules.len() == 0 {
        0
    } else {
        (if counted(tally, rules.first(), path, level) {
            1nat
        } else {
            0nat
        }) + level_count(tally, rules.drop_first(), path, apply_rule(rules.first(), path, level))
    }
}

/// The path of the map under the field `key` of the map at `path`.
pub open spec fn child_path(path: Seq<char>, key: Seq<char>) -> Seq<char> {
    if path.len() == 0 {
        key
    } else {
        path + seq!['.'] + key
    }
}

/// Every value of the level after the rules is a value of the level before.
pub proof fn lemma_apply_rules_values(rules: Seq<ReplaceModel>, path: Seq<char>, level: Level)
    ensures
        level.fields.dom().finite() ==> apply_rules(rules, path, level).fields.dom().finite(),
        forall|k: Seq<char>|
            (#[trigger] apply_rules(rules, path, level).fields.dom().contains(k)) ==> exists|
                o: Seq<char>,
            |
                (#[trigger] level.fields.dom().contains(o)) && level.fields[o] == apply_rules(
                    rules,
                    path,
                    level,
                ).fields[k],
    decreases rules.len(),
{
    let m = level.fields;
    if rules.len() > 0 {
        let rule = rules.first();
        let next = apply_rule(rule, path, level);
        lemma_apply_rules_values(rules.drop_first(), path, next);
        let rest = apply_rules(rules.drop_first(), path, next);
        assert(apply_rules(rules, path, level) == rest);
        assert forall|k: Seq<char>| (#[trigger] rest.fields.dom().contains(k)) implies exists|
            o: Seq<char>,
        | (#[trigger] m.dom().contains(o)) && m[o] == rest.fields[k] by {
            let mid = choose|o: Seq<char>|
                (#[trigger] next.fields.dom().contains(o)) && next.fields[o] == rest.fields[k];
            assert(next.fields.dom().contains(mid));
            if replaces(rule, path, level) && mid == rule.to {
                assert(m.dom().contains(rule.from));
            } else {
                assert(m.dom().contains(mid));
            }
        }
    } else {
        assert forall|k: Seq<char>|
            (#[trigger] apply_rules(rules, path, level).fields.dom().contains(k)) implies exists|
            o: Seq<char>,
        | (#[trigger] m.dom().contains(o)) && m[o] == apply_rules(rules, path, level).fields[k] by {
            assert(m.dom().contains(k));
        }
    }
}

/// Every value of a map after the rules of its level is a value of the map.
pub proof fn lemma_level_fields_values(rules: Seq<ReplaceModel>, path: Seq<char>, m: RecordModel)
    ensures
        m.dom().finite() ==> level_fields(rules, path, m).dom().finite(),
        forall|k: Seq<char>|
            (#[trigger] level_fields(rules, path, m).dom().contains(k)) ==> exists|o: Seq<char>|
                (#[trigger] m.dom().contains(o)) && m[o] == level_fields(rules, path, m)[k],
{
    lemma_apply_rules_values(rules, path, start_level(m));
}

/// The map `m` at `path` after a whole pass: the rules applied at this
/// level, then each nested map rewritten under its own path.
pub open spec fn rewritten(path: Seq<char>, m: RecordModel, rules: Seq<ReplaceModel>) -> RecordModel
    decreases m, 1nat,
    when m.dom().finite()
{
    let level = level_fields(rules, path, m);
    Map::new(
        |k: Seq<char>| level.dom().contains(k),
        |k: Seq<char>|
            if level.dom().contains(k) {
                proof {
                    lemma_level_fields_values(rules, path, m);
                }
                rewritten_value(child_path(path, k), level[k], rules)
            } else {
                ValueModel::Unknown
            },
    )
}

/// The value at `path` after a whole pass: a map is rewritten, any other
/// value is kept.
pub open spec fn rewritten_value(
    path: Seq<char>,
    v: ValueModel,
    rules: Seq<ReplaceModel>,
) -> ValueModel
    decreases v, 0nat,
{
    match v {
        ValueModel::M(m) => ValueModel::M(rewritten(path, m, rules)),
        _ => v,
    }
}

/// The tally of a whole pass over the map `m` at `path`: that of this level
/// and those of the maps nested in what the level's rules leave.
pub open spec fn count(tally: Tally, path: Seq<char>, m: RecordModel, rules: Seq<ReplaceModel>) -> nat
    decreases m, 2nat, 0nat,
    when m.dom().finite()
{
    level_count(tally, rules, path, start_level(m)) + nested_count(
        tally,
        path,
        m,
        rules,
        level_fields(rules, path, m).dom(),
    )
}

/// The sum, over the given keys, of the tallies of the maps that the map `m`
/// at `path` holds under them once the rules of its level are applied.
pub open spec fn nested_count(
    tally: Tally,
    path: Seq<char>,
    m: RecordModel,
    rules: Seq<ReplaceModel>,
    keys: Set<Seq<char>>,
) -> nat
    decreases m, 1nat, keys.len(),
    when m.dom().finite() && keys.finite()
{
    if keys.len() == 0 {
        0
    } else {
        let k = keys.choose();
        child_count(tally, path, m, rules, k) + nested_count(tally, path, m, rules, keys.remove(k))
    }
}

/// The tally of a whole pass over what the map `m` at `path` holds under `k`
/// once the rules of its level are applied.
pub open spec fn child_count(
    tally: Tally,
    path: Seq<char>,
    m: RecordModel,
    rules: Seq<ReplaceModel>,
    k: Seq<char>,
) -> nat
    decreases m, 0nat, 0nat,
    when m.dom().finite()
{
    let level = level_fields(rules, path, m);
    if level.dom().contains(k) {
        proof {
            lemma_level_fields_values(rules, path, m);
        }
        value_count(tally, child_path(path, k), level[k], rules)
    } else {
        0
    }
}

/// The tally of a whole pass over the value at `path`.
pub open spec fn value_count(
    tally: Tally,
    path: Seq<char>,
    v: ValueModel,
    rules: Seq<ReplaceModel>,
) -> nat
    decreases v, 0nat, 0nat,
{
    match v {
        ValueModel::M(m) => count(tally, path, m, rules),
        _ => 0,
    }
}

/// The sum over a set of keys is the share of any one key and the sum over
/// the other keys.
pub proof fn lemma_nested_count_pick(
    tally: Tally,
    path: Seq<char>,
    m: RecordModel,
    rules: Seq<ReplaceModel>,
    keys: Set<Seq<char>>,
    k: Seq<char>,
)
    requires
        m.dom().finite(),
        keys.finite(),
        keys.contains(k),
    ensures
        nested_count(tally, path, m, rules, keys) == child_count(tally, path, m, rules, k)
            + nested_count(tally, path, m, rules, keys.remove(k)),
    decreases keys.len(),
{
    reveal_with_fuel(nested_count, 2);
    let c = keys.choose();
    if c != k {
        lemma_nested_count_pick(tally, path, m, rules, keys.remove(c), k);
        lemma_nested_count_pick(tally, path, m, rules, keys.remove(k), c);
        assert(keys.remove(c).remove(k) =~= keys.remove(k).remove(c));
    }
}

/// At one level, no more fields are displaced than renamed.
pub proof fn lemma_level_overwrites_are_replacements(
    rules: Seq<ReplaceModel>,
    path: Seq<char>,
    level: Level,
)
    ensures
        level_count(Tally::Overwrites, rules, path, level) <= level_count(
            Tally::Replacements,
            rules,
            path,
            level,
        ),
    decreases rules.len(),
{
    if rules.len() > 0 {
        lemma_level_overwrites_are_replacements(
            rules.drop_first(),
            path,
            apply_rule(rules.first(), path, level),
        );
    }
}

/// A sum of smaller shares is smaller.
proof fn lemma_nested_overwrites_are_replacements(
    path: Seq<char>,
    m: RecordModel,
    rules: Seq<ReplaceModel>,
    keys: Set<Seq<char>>,
)
    requires
        m.dom().finite(),
        keys.finite(),
        forall|k: Seq<char>|
            keys.contains(k) ==> (#[trigger] child_count(Tally::Overwrites, path, m, rules, k))
                <= child_count(Tally::Replacements, path, m, rules, k),
    ensures
        nested_count(Tally::Overwrites, path, m, rules, keys) <= nested_count(
            Tally::Replacements,
            path,
            m,
            rules,
            keys,
        ),
    decreases keys.len(),
{
    reveal_with_fuel(nested_count, 2);
    if keys.len() > 0 {
        let k = keys.choose();
        assert(keys.contains(k));
        assert(child_count(Tally::Overwrites, path, m, rules, k) <= child_count(
            Tally::Replacements,
            path,
            m,
            rules,
            k,
        ));
        lemma_nested_overwrites_are_replacements(path, m, rules, keys.remove(k));
    }
}

/// Over a whole pass, no more fields are displaced than renamed.
pub proof fn lemma_overwrites_are_replacements(
    path: Seq<char>,
    m: RecordModel,
    rules: Seq<ReplaceModel>,
)
    requires
        deeply_finite(m),
    ensures
        count(Tally::Overwrites, path, m, rules) <= count(Tally::Replacements, path, m, rules),
    decreases m,
{
    reveal_with_fuel(count, 2);
    reveal_with_fuel(child_count, 2);
    reveal_with_fuel(value_count, 2);
    let level = level_fields(rules, path, m);
    lemma_level_fields_values(rules, path, m);
    lemma_level_overwrites_are_replacements(rules, path, start_level(m));
    assert forall|k: Seq<char>| level.dom().contains(k) implies (#[trigger] child_count(
        Tally::Overwrites,
        path,
        m,
        rules,
        k,
    )) <= child_count(Tally::Replacements, path, m, rules, k) by {
        let o = choose|o: Seq<char>| (#[trigger] m.dom().contains(o)) && m[o] == level[k];
        assert(m.dom().contains(o));
        match m[o] {
            ValueModel::M(inner) => {
                assert(deeply_finite(inner));
                lemma_overwrites_are_replacements(child_path(path, k), inner, rules);
            },
            _ => {},
        }
    }
    lemma_nested_overwrites_are_replacements(path, m, rules, level.dom());
}

/// The counts of a run: how many fields were renamed, and how many of
/// these renamings displaced a field that was there before.
#[derive(Debug, Clone, Copy, PartialEq, Eq)]
pub struct ReplaceResult {
    pub replacements: usize,
    pub overwrites: usize,
}

impl Default for ReplaceResult {
    fn default() -> (r: ReplaceResult)
        ensures
            r.replacements == 0,
            r.overwrites == 0,
    {
        ReplaceResult { replacements: 0, overwrites: 0 }
    }
}

/// The models of a list of rules.
pub open spec fn rules_model(rules: Seq<Replace>) -> Seq<ReplaceModel> {
    Seq::new(rules.len(), |i: int| rules[i]@)
}

/// Whether the text ends with the suffix, character by character.
pub fn has_suffix(text: &str, suffix: &str) -> (r: bool)
    ensures
        r == suffix@.is_suffix_of(text@),
{
    let n = text.unicode_len();
    let k = suffix.unicode_len();
    if k > n {
        return false;
    }
    let ghost tail = text@.subrange(n - k, n as int);
    let mut j: usize = 0;
    while j < k
        invariant
            j <= k <= n,
            n == text@.len(),
            k == suffix@.len(),
            tail == text@.subrange(n - k, n as int),
            forall|i: int| 0 <= i < j ==> suffix@[i] == tail[i],
        decreases k - j,
    {
        if suffix.get_char(j) != text.get_char(n - k + j) {
            assert(suffix@[j as int] != tail[j as int]);
            return false;
        }
        j += 1;
    }
    assert(suffix@ =~= tail);
    true
}

/// Whether the rule applies to the map at `path`.
pub fn rule_fires(rule: &Replace, path: &str) -> (r: bool)
    ensures
        r == fires(rule@, path@),
{
    *path == *rule.prefix.as_str() || (!rule.root && has_suffix(path, rule.prefix.as_str()))
}

/// The path of the map under the field `key` of the map at `path`.
pub fn join_path(path: &str, key: &str) -> (r: String)
    ensures
        r@ == child_path(path@, key@),
{
    if path.is_empty() {
        String::from_str(key)
    } else {
        let mut joined = String::from_str(path);
        proof {
            reveal_strlit(".");
        }
        joined.append(".");
        joined.append(key);
        assert("."@ =~= seq!['.']);
        joined
    }
}

/// The set of the names in a list.
spec fn names_of(names: Seq<String>) -> Set<Seq<char>> {
    Set::new(|k: Seq<char>| exists|i: int| 0 <= i < names.len() && (#[trigger] names[i])@ == k)
}

/// Whether the name is in the list.
fn has_name(names: &Vec<String>, name: &str) -> (r: bool)
    ensures
        r == names_of(names@).contains(name@),
{
    let mut i: usize = 0;
    while i < names.len()
        invariant
            i <= names.len(),
            forall|j: int| 0 <= j < i ==> (#[trigger] names[j])@ != name@,
        decreases names.len() - i,
    {
        if *names[i].as_str() == *name {
            return true;
        }
        i += 1;
    }
    false
}

/// Whether the counts stay within `usize` when a pass over the map `m` at
/// `path` is added to them.
pub open spec fn counts_fit(
    counts: ReplaceResult,
    path: Seq<char>,
    m: RecordModel,
    rules: Seq<ReplaceModel>,
) -> bool {
    &&& counts.replacements + count(Tally::Replacements, path, m, rules) <= usize::MAX
    &&& counts.overwrites + count(Tally::Overwrites, path, m, rules) <= usize::MAX
}

/// Whether `after` is `before` with a pass over the map `m` at `path` added.
pub open spec fn counts_add(
    before: ReplaceResult,
    after: ReplaceResult,
    path: Seq<char>,
    m: RecordModel,
    rules: Seq<ReplaceModel>,
) -> bool {
    &&& after.replacements == before.replacements + count(Tally::Replacements, path, m, rules)
    &&& after.overwrites == before.overwrites + count(Tally::Overwrites, path, m, rules)
}

/// Applies the rules to one map, without visiting the maps nested in it.
/// Stops, and returns `false`, where a count would leave `usize`.
fn apply_level(path: &str, attribute: &mut Record, rules: &[Replace], result: &mut ReplaceResult) -> (ok:
    bool)
    ensures
        ok == (old(result).replacements + level_count(
            Tally::Replacements,
            rules_model(rules@),
            path@,
            start_level(old(attribute)@),
        ) <= usize::MAX && old(result).overwrites + level_count(
            Tally::Overwrites,
            rules_model(rules@),
            path@,
            start_level(old(attribute)@),
        ) <= usize::MAX),
        ok ==> final(attribute)@ == level_fields(rules_model(rules@), path@, old(attribute)@),
        ok ==> final(result).replacements == old(result).replacements + level_count(
            Tally::Replacements,
            rules_model(rules@),
            path@,
            start_level(old(attribute)@),
        ),
        ok ==> final(result).overwrites == old(result).overwrites + level_count(
            Tally::Overwrites,
            rules_model(rules@),
            path@,
            start_level(old(attribute)@),
        ),
{
    let ghost all = rules_model(rules@);
    let ghost start = start_level(attribute@);
    let ghost replacements_end = result.replacements + level_count(
        Tally::Replacements,
        all,
        path@,
        start,
    );
    let ghost overwrites_end = result.overwrites + level_count(Tally::Overwrites, all, path@, start);
    let mut fresh: Vec<String> = Vec::new();
    let mut i: usize = 0;
    assert(all.skip(0) =~= all);
    assert(names_of(fresh@) =~= Set::<Seq<char>>::empty());
    while i < rules.len()
        invariant
            i <= rules.len(),
            all == rules_model(rules@),
            apply_rules(
                all.skip(i as int),
                path@,
                Level { fields: attribute@, fresh: names_of(fresh@) },
            ) == apply_rules(all, path@, start),
            result.replacements + level_count(
                Tally::Replacements,
                all.skip(i as int),
                path@,
                Level { fields: attribute@, fresh: names_of(fresh@) },
            ) == replacements_end,
            result.overwrites + level_count(
                Tally::Overwrites,
                all.skip(i as int),
                path@,
                Level { fields: attribute@, fresh: names_of(fresh@) },
            ) == overwrites_end,
            replacements_end == old(result).replacements + level_count(
                Tally::Replacements,
                all,
                path@,
                start_level(old(attribute)@),
            ),
            overwrites_end == old(result).overwrites + level_count(
                Tally::Overwrites,
                all,
                path@,
                start_level(old(attribute)@),
            ),
            start == start_level(old(attribute)@),
        decreases rules.len() - i,
    {
        let rule = &rules[i];
        let ghost rest = all.skip(i as int);
        let ghost before = Level { fields: attribute@, fresh: names_of(fresh@) };
        proof {
            assert(rest.first() == rule@);
            assert(rest.drop_first() =~= all.skip(i + 1));
        }
        if rule_fires(rule, path) && !has_name(&fresh, rule.from.as_str()) {
            match attribute.remove(rule.from.as_str()) {
                Some(value) => {
                    match result.replacements.checked_add(1) {
                        Some(more) => {
                            result.replacements = more;
                        },
                        None => {
                            return false;
                        },
                    }
                    let displaced = attribute.insert(rule.to.clone(), value);
                    if displaced.is_some() {
                        match result.overwrites.checked_add(1) {
                            Some(more) => {
                                result.overwrites = more;
                            },
                            None => {
                                return false;
                            },
                        }
                    }
                    let ghost listed = fresh@;
                    fresh.push(rule.to.clone());
                    proof {
                        assert(names_of(fresh@) =~= names_of(listed).insert(rule@.to)) by {
                            assert forall|k: Seq<char>|
                                names_of(listed).insert(rule@.to).contains(k) implies names_of(
                                fresh@,
                            ).contains(k) by {
                                if k == rule@.to {
                                    assert(fresh@[listed.len() as int]@ == k);
                                } else {
                                    let j = choose|j: int|
                                        0 <= j < listed.len() && (#[trigger] listed[j])@ == k;
                                    assert(fresh@[j]@ == k);
                                }
                            }
                        }
                    }
                },
                None => {},
            }
        }
        proof {
            let after = apply_rule(rule@, path@, before);
            assert(attribute@ == after.fields);
            assert(names_of(fresh@) == after.fresh);
        }
        i += 1;
    }
    true
}

/// Rewrites the map at `path` in place, as [`replace`] does, as far as the
/// counts stay within `usize`. Returns whether they do; if they do not, the
/// pass stops where a count would leave `usize`, and the map and the counts
/// are left as they are at that point.
pub fn try_replace(
    path: String,
    attribute: &mut Record,
    replacements: &[Replace],
    result: &mut ReplaceResult,
) -> (ok: bool)
    ensures
        ok == counts_fit(*old(result), path@, old(attribute)@, rules_model(replacements@)),
        ok ==> final(attribute)@ == rewritten(path@, old(attribute)@, rules_model(replacements@)),
        ok ==> counts_add(
            *old(result),
            *final(result),
            path@,
            old(attribute)@,
            rules_model(replacements@),
        ),
    decreases old(attribute)@,
{
    let ghost rules = rules_model(replacements@);
    let ghost start = attribute@;
    let ghost level = level_fields(rules, path@, start);
    let ghost replacements_end = result.replacements + count(
        Tally::Replacements,
        path@,
        start,
        rules,
    );
    let ghost overwrites_end = result.overwrites + count(Tally::Overwrites, path@, start, rules);
    proof {
        attribute.lemma_deeply_finite();
        reveal_with_fuel(count, 2);
        reveal_with_fuel(nested_count, 2);
        lemma_level_fields_values(rules, path@, start);
    }
    if !apply_level(path.as_str(), attribute, replacements, result) {
        return false;
    }
    let keys = attribute.keys();
    let ghost mut remaining = level.dom();
    let mut i: usize = 0;
    while i < keys.len()
        invariant
            i <= keys.len(),
            rules == rules_model(replacements@),
            level == level_fields(rules, path@, start),
            start == old(attribute)@,
            start.dom().finite(),
            level.dom().finite(),
            forall|k: Seq<char>|
                (#[trigger] level.dom().contains(k)) ==> exists|o: Seq<char>|
                    (#[trigger] start.dom().contains(o)) && start[o] == level[k],
            forall|a: int, b: int| 0 <= a < b < keys.len() ==> keys[a]@ != keys[b]@,
            forall|a: int| 0 <= a < keys.len() ==> level.dom().contains(#[trigger] keys[a]@),
            forall|k: Seq<char>|
                level.dom().contains(k) ==> exists|a: int|
                    0 <= a < keys.len() && #[trigger] keys[a]@ == k,
            remaining.finite(),
            remaining.subset_of(level.dom()),
            forall|a: int| 0 <= a < keys.len() ==> (remaining.contains(#[trigger] keys[a]@) <==> i <= a),
            attribute@.dom() == level.dom(),
            forall|k: Seq<char>|
                (#[trigger] level.dom().contains(k)) ==> attribute@[k] == (if remaining.contains(k) {
                    level[k]
                } else {
                    rewritten_value(child_path(path@, k), level[k], rules)
                }),
            result.replacements + nested_count(
                Tally::Replacements,
                path@,
                start,
                rules,
                remaining,
            ) == replacements_end,
            result.overwrites + nested_count(Tally::Overwrites, path@, start, rules, remaining)
                == overwrites_end,
            replacements_end == old(result).replacements + count(
                Tally::Replacements,
                path@,
                start,
                rules,
            ),
            overwrites_end == old(result).overwrites + count(Tally::Overwrites, path@, start, rules),
        decreases keys.len() - i,
    {
        let key = &keys[i];
        proof {
            reveal_with_fuel(child_count, 2);
            reveal_with_fuel(value_count, 2);
            lemma_nested_count_pick(Tally::Replacements, path@, start, rules, remaining, key@);
            lemma_nested_count_pick(Tally::Overwrites, path@, start, rules, remaining, key@);
        }
        match attribute.remove(key.as_str()) {
            Some(value) => {
                let rewritten_child = match value {
                    Value::M(inner) => {
                        let mut inner = inner;
                        proof {
                            let o = choose|o: Seq<char>|
                                (#[trigger] start.dom().contains(o)) && start[o] == level[key@];
                            vstd::map::axiom_map_index_decreases_finite(start, o);
                            inner.lemma_deeply_finite();
                            assert(level[key@] == ValueModel::M(inner@));
                            reveal_with_fuel(child_count, 2);
                            reveal_with_fuel(value_count, 2);
                        }
                        if !try_replace(
                            join_path(path.as_str(), key.as_str()),
                            &mut inner,
                            replacements,
                            result,
                        ) {
                            return false;
                        }
                        Value::M(inner)
                    },
                    other => other,
                };
                attribute.insert(key.clone(), rewritten_child);
            },
            None => {},
        }
        proof {
            remaining = remaining.remove(key@);
            assert(attribute@.dom() =~= level.dom());
        }
        i += 1;
    }
    proof {
        assert(remaining =~= Set::empty()) by {
            assert forall|k: Seq<char>| !remaining.contains(k) by {
                if remaining.contains(k) {
                    let a = choose|a: int| 0 <= a < keys.len() && #[trigger] keys[a]@ == k;
                    assert(remaining.contains(keys[a]@));
                }
            }
        }
        reveal_with_fuel(nested_count, 2);
        assert(attribute@ =~= rewritten(path@, start, rules));
    }
    true
}

/// Rewrites the map at `path` in place: applies the rules to it, then
/// visits each map nested in it, and adds what was done to the counts.
pub fn replace(
    path: String,
    attribute: &mut Record,
    replacements: &[Replace],
    result: &mut ReplaceResult,
)
    requires
        counts_fit(*old(result), path@, old(attribute)@, rules_model(replacements@)),
    ensures
        final(attribute)@ == rewritten(path@, old(attribute)@, rules_model(replacements@)),
        counts_add(
            *old(result),
            *final(result),
            path@,
            old(attribute)@,
            rules_model(replacements@),
        ),
{
    let _ = try_replace(path, attribute, replacements, result);
}

/// Rewrites a record from its root and returns it with the counts of the
/// pass, or nothing if there are more replacements than `usize` holds.
pub fn try_rewrite(record: Record, rules: &[Replace]) -> (r: Option<(Record, ReplaceResult)>)
    ensures
        r is Some == (count(Tally::Replacements, Seq::empty(), record@, rules_model(rules@))
            <= usize::MAX),
        r matches Some(done) ==> {
            &&& done.0@ == rewritten(Seq::empty(), record@, rules_model(rules@))
            &&& done.1.replacements == count(
                Tally::Replacements,
                Seq::empty(),
                record@,
                rules_model(rules@),
            )
            &&& done.1.overwrites == count(
                Tally::Overwrites,
                Seq::empty(),
                record@,
                rules_model(rules@),
            )
        },
{
    let mut record = record;
    let mut result = ReplaceResult::default();
    proof {
        record.lemma_deeply_finite();
        lemma_overwrites_are_replacements(Seq::empty(), record@, rules_model(rules@));
    }
    if try_replace(String::new(), &mut record, rules, &mut result) {
        Some((record, result))
    } else {
        None
    }
}

/// Rewrites a record from its root and returns it with the counts of the
/// pass.
pub fn rewrite(record: Record, rules: &[Replace]) -> (r: (Record, ReplaceResult))
    requires
        count(Tally::Replacements, Seq::empty(), record@, rules_model(rules@)) <= usize::MAX,
    ensures
        r.0@ == rewritten(Seq::empty(), record@, rules_model(rules@)),
        r.1.replacements == count(
            Tally::Replacements,
            Seq::empty(),
            record@,
            rules_model(rules@),
        ),
        r.1.overwrites == count(Tally::Overwrites, Seq::empty(), record@, rules_model(rules@)),
{
    let mut record = record;
    let mut result = ReplaceResult::default();
    proof {
        record.lemma_deeply_finite();
        lemma_overwrites_are_replacements(Seq::empty(), record@, rules_model(rules@));
    }
    replace(String::new(), &mut record, rules, &mut result);
    (record, result)
}

} // verus!
