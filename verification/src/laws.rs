//! What holds of every pass of the rewrite engine.

use crate::record::{deeply_finite, RecordModel, ValueModel};
use crate::rewrite::{
    apply_rule, apply_rules, child_count, child_path, count, fires, lemma_level_fields_values,
    level_count, level_fields, nested_count, replaces, rewritten, rewritten_value, start_level,
    value_count, Level, Tally,
};
use crate::rule::ReplaceModel;
use vstd::prelude::*;

verus! {

/// Among the rules that apply at `path`, none produces a name that one of
/// them consumes.
pub open spec fn chain_free_at(rules: Seq<ReplaceModel>, path: Seq<char>) -> bool {
    forall|i: int, j: int|
        0 <= i < rules.len() && 0 <= j < rules.len() && fires(#[trigger] rules[i], path) && fires(
            #[trigger] rules[j],
            path,
        ) ==> rules[i].to != rules[j].from
}

/// At no level does a rule produce a name that a rule of that level
/// consumes.
pub open spec fn chain_free(rules: Seq<ReplaceModel>) -> bool {
    forall|path: Seq<char>| #[trigger] chain_free_at(rules, path)
}

/// Where no rule renames a field of the level, the rules leave the level
/// as it is and count nothing.
pub proof fn lemma_level_quiet(tally: Tally, rules: Seq<ReplaceModel>, path: Seq<char>, level: Level)
    requires
        forall|i: int| 0 <= i < rules.len() ==> !replaces(#[trigger] rules[i], path, level),
    ensures
        apply_rules(rules, path, level) == level,
        level_count(tally, rules, path, level) == 0,
    decreases rules.len(),
{
    if rules.len() > 0 {
        assert(!replaces(rules[0], path, level));
        let rest = rules.drop_first();
        assert forall|i: int| 0 <= i < rest.len() implies !replaces(
            #[trigger] rest[i],
            path,
            level,
        ) by {
            assert(rest[i] == rules[i + 1]);
        }
        lemma_level_quiet(tally, rest, path, level);
    }
}

/// A name that the level lacks and that no rule applying at `path` writes
/// is still missing after the rules.
pub proof fn lemma_absent_stays_absent(
    rules: Seq<ReplaceModel>,
    path: Seq<char>,
    level: Level,
    name: Seq<char>,
)
    requires
        !level.fields.dom().contains(name),
        forall|i: int|
            0 <= i < rules.len() && fires(#[trigger] rules[i], path) ==> rules[i].to != name,
    ensures
        !apply_rules(rules, path, level).fields.dom().contains(name),
    decreases rules.len(),
{
    if rules.len() > 0 {
        let rest = rules.drop_first();
        assert(fires(rules[0], path) ==> rules[0].to != name);
        assert forall|i: int| 0 <= i < rest.len() && fires(#[trigger] rest[i], path) implies rest[i].to
            != name by {
            assert(rest[i] == rules[i + 1]);
        }
        lemma_absent_stays_absent(rest, path, apply_rule(rules[0], path, level), name);
    }
}

/// After the rules of a list that is chain-free at `path`, applied to a
/// level in which the source of no applying rule is fresh, no rule that
/// applies at `path` has left its source field behind.
pub proof fn lemma_sources_consumed(rules: Seq<ReplaceModel>, path: Seq<char>, level: Level)
    requires
        chain_free_at(rules, path),
        forall|i: int|
            0 <= i < rules.len() && fires(#[trigger] rules[i], path) ==> !level.fresh.contains(
                rules[i].from,
            ),
    ensures
        forall|i: int|
            0 <= i < rules.len() && fires(#[trigger] rules[i], path) ==> !apply_rules(
                rules,
                path,
                level,
            ).fields.dom().contains(rules[i].from),
    decreases rules.len(),
{
    if rules.len() > 0 {
        let first = rules[0];
        let rest = rules.drop_first();
        let next = apply_rule(first, path, level);
        assert(chain_free_at(rest, path)) by {
            assert forall|i: int, j: int|
                0 <= i < rest.len() && 0 <= j < rest.len() && fires(#[trigger] rest[i], path)
                    && fires(#[trigger] rest[j], path) implies rest[i].to != rest[j].from by {
                assert(rest[i] == rules[i + 1]);
                assert(rest[j] == rules[j + 1]);
            }
        }
        assert forall|i: int| 0 <= i < rest.len() && fires(#[trigger] rest[i], path) implies !next.fresh.contains(
            rest[i].from,
        ) by {
            assert(rest[i] == rules[i + 1]);
            assert(!level.fresh.contains(rules[i + 1].from));
            if fires(rules[0], path) {
                assert(rules[0].to != rules[i + 1].from);
            }
        }
        lemma_sources_consumed(rest, path, next);
        assert forall|i: int| 0 <= i < rules.len() && fires(#[trigger] rules[i], path) implies !apply_rules(
            rules,
            path,
            level,
        ).fields.dom().contains(rules[i].from) by {
            if i == 0 {
                assert(first.to != first.from);
                assert(!level.fresh.contains(rules[0].from));
                assert(!next.fields.dom().contains(first.from));
                assert forall|j: int| 0 <= j < rest.len() && fires(#[trigger] rest[j], path) implies rest[j].to
                    != first.from by {
                    assert(rest[j] == rules[j + 1]);
                }
                lemma_absent_stays_absent(rest, path, next, first.from);
            } else {
                assert(rest[i - 1] == rules[i]);
            }
        }
    }
}

/// A sum of shares that are all zero is zero.
pub proof fn lemma_nested_count_zero(
    tally: Tally,
    path: Seq<char>,
    m: RecordModel,
    rules: Seq<ReplaceModel>,
    keys: Set<Seq<char>>,
)
    requires
        m.dom().finite(),
        keys.finite(),
        forall|k: Seq<char>|
            keys.contains(k) ==> (#[trigger] child_count(tally, path, m, rules, k)) == 0,
    ensures
        nested_count(tally, path, m, rules, keys) == 0,
    decreases keys.len(),
{
    reveal_with_fuel(nested_count, 2);
    if keys.len() > 0 {
        let k = keys.choose();
        assert(keys.contains(k));
        assert(child_count(tally, path, m, rules, k) == 0);
        lemma_nested_count_zero(tally, path, m, rules, keys.remove(k));
    }
}

/// A pass keeps the map finite at every depth.
pub proof fn lemma_rewritten_finite(path: Seq<char>, m: RecordModel, rules: Seq<ReplaceModel>)
    requires
        deeply_finite(m),
    ensures
        deeply_finite(rewritten(path, m, rules)),
        rewritten(path, m, rules).dom() == level_fields(rules, path, m).dom(),
    decreases m,
{
    reveal_with_fuel(rewritten, 2);
    reveal_with_fuel(rewritten_value, 2);
    let level = level_fields(rules, path, m);
    let after = rewritten(path, m, rules);
    lemma_level_fields_values(rules, path, m);
    assert(after.dom() =~= level.dom());
    assert forall|k: Seq<char>| after.dom().contains(k) implies ((#[trigger] after[k]) matches ValueModel::M(
        inner,
    ) ==> deeply_finite(inner)) by {
        let o = choose|o: Seq<char>| (#[trigger] m.dom().contains(o)) && m[o] == level[k];
        assert(m.dom().contains(o));
        match m[o] {
            ValueModel::M(inner) => {
                assert(deeply_finite(inner));
                lemma_rewritten_finite(child_path(path, k), inner, rules);
            },
            _ => {},
        }
    }
}

/// Idempotence. Where at no level a rule produces a name that a rule of
/// that level consumes, a second pass over the result of a pass changes
/// nothing and counts nothing.
pub proof fn lemma_second_pass_is_quiet(
    tally: Tally,
    path: Seq<char>,
    m: RecordModel,
    rules: Seq<ReplaceModel>,
)
    requires
        deeply_finite(m),
        chain_free(rules),
    ensures
        rewritten(path, rewritten(path, m, rules), rules) == rewritten(path, m, rules),
        count(tally, path, rewritten(path, m, rules), rules) == 0,
    decreases m,
{
    reveal_with_fuel(rewritten, 2);
    reveal_with_fuel(rewritten_value, 2);
    reveal_with_fuel(count, 2);
    reveal_with_fuel(child_count, 2);
    reveal_with_fuel(value_count, 2);
    let level = level_fields(rules, path, m);
    let once = rewritten(path, m, rules);
    lemma_level_fields_values(rules, path, m);
    lemma_rewritten_finite(path, m, rules);
    assert(chain_free_at(rules, path));
    lemma_sources_consumed(rules, path, start_level(m));
    assert forall|i: int| 0 <= i < rules.len() implies !replaces(
        #[trigger] rules[i],
        path,
        start_level(once),
    ) by {
        if fires(rules[i], path) {
            assert(!level.dom().contains(rules[i].from));
        }
    }
    lemma_level_quiet(tally, rules, path, start_level(once));
    let twice = rewritten(path, once, rules);
    assert forall|k: Seq<char>| once.dom().contains(k) implies rewritten_value(
        child_path(path, k),
        #[trigger] once[k],
        rules,
    ) == once[k] && child_count(tally, path, once, rules, k) == 0 by {
        let o = choose|o: Seq<char>| (#[trigger] m.dom().contains(o)) && m[o] == level[k];
        assert(m.dom().contains(o));
        match m[o] {
            ValueModel::M(inner) => {
                assert(deeply_finite(inner));
                lemma_second_pass_is_quiet(tally, child_path(path, k), inner, rules);
                lemma_rewritten_finite(child_path(path, k), inner, rules);
            },
            _ => {},
        }
    }
    assert(twice =~= once);
    lemma_nested_count_zero(tally, path, once, rules, once.dom());
}

/// Whether the map, or a map nested in it at any depth, has a field of that
/// name.
pub open spec fn has_field(m: RecordModel, name: Seq<char>) -> bool
    decreases m,
{
    m.dom().finite() && (m.dom().contains(name) || exists|k: Seq<char>|
        m.dom().contains(k) && ((#[trigger] m[k]) matches ValueModel::M(inner) && has_field(
            inner,
            name,
        )))
}

/// A record that has none of the rules' source fields, at any depth, comes
/// out of a pass as it went in, and nothing is counted.
pub proof fn lemma_pass_without_sources(
    tally: Tally,
    path: Seq<char>,
    m: RecordModel,
    rules: Seq<ReplaceModel>,
)
    requires
        deeply_finite(m),
        forall|i: int| 0 <= i < rules.len() ==> !has_field(m, (#[trigger] rules[i]).from),
    ensures
        rewritten(path, m, rules) == m,
        count(tally, path, m, rules) == 0,
    decreases m,
{
    reveal_with_fuel(rewritten, 2);
    reveal_with_fuel(rewritten_value, 2);
    reveal_with_fuel(count, 2);
    reveal_with_fuel(child_count, 2);
    reveal_with_fuel(value_count, 2);
    assert forall|i: int| 0 <= i < rules.len() implies !replaces(
        #[trigger] rules[i],
        path,
        start_level(m),
    ) by {
        assert(!has_field(m, rules[i].from));
    }
    lemma_level_quiet(tally, rules, path, start_level(m));
    assert forall|k: Seq<char>| m.dom().contains(k) implies rewritten_value(
        child_path(path, k),
        #[trigger] m[k],
        rules,
    ) == m[k] && child_count(tally, path, m, rules, k) == 0 by {
        match m[k] {
            ValueModel::M(inner) => {
                assert(deeply_finite(inner));
                assert forall|i: int| 0 <= i < rules.len() implies !has_field(
                    inner,
                    (#[trigger] rules[i]).from,
                ) by {
                    assert(!has_field(m, rules[i].from));
                }
                lemma_pass_without_sources(tally, child_path(path, k), inner, rules);
            },
            _ => {},
        }
    }
    assert(rewritten(path, m, rules) =~= m);
    lemma_nested_count_zero(tally, path, m, rules, m.dom());
}

/// Every rule is a root rule for the record's own level.
pub open spec fn top_level_only(rules: Seq<ReplaceModel>) -> bool {
    forall|i: int| 0 <= i < rules.len() ==> (#[trigger] rules[i]).root && rules[i].prefix.len() == 0
}

/// A root rule with the empty prefix applies at the empty path and at no
/// other.
pub proof fn lemma_top_rule_fires_at_top_only(rule: ReplaceModel, path: Seq<char>)
    requires
        rule.root,
        rule.prefix.len() == 0,
    ensures
        fires(rule, path) <==> path.len() == 0,
{
    if path.len() == 0 {
        assert(path =~= rule.prefix);
    }
}

/// The path of a map under a field with a name is not empty.
pub proof fn lemma_child_path_not_empty(path: Seq<char>, key: Seq<char>)
    requires
        key.len() > 0,
    ensures
        child_path(path, key).len() > 0,
{
}

/// Below the top level, a pass of root rules with the empty prefix changes
/// nothing and counts nothing.
pub proof fn lemma_top_rules_quiet_below(
    tally: Tally,
    path: Seq<char>,
    m: RecordModel,
    rules: Seq<ReplaceModel>,
)
    requires
        deeply_finite(m),
        top_level_only(rules),
        path.len() > 0,
    ensures
        rewritten(path, m, rules) == m,
        count(tally, path, m, rules) == 0,
    decreases m,
{
    reveal_with_fuel(rewritten, 2);
    reveal_with_fuel(rewritten_value, 2);
    reveal_with_fuel(count, 2);
    reveal_with_fuel(child_count, 2);
    reveal_with_fuel(value_count, 2);
    assert forall|i: int| 0 <= i < rules.len() implies !replaces(
        #[trigger] rules[i],
        path,
        start_level(m),
    ) by {
        lemma_top_rule_fires_at_top_only(rules[i], path);
    }
    lemma_level_quiet(tally, rules, path, start_level(m));
    assert forall|k: Seq<char>| m.dom().contains(k) implies rewritten_value(
        child_path(path, k),
        #[trigger] m[k],
        rules,
    ) == m[k] && child_count(tally, path, m, rules, k) == 0 by {
        match m[k] {
            ValueModel::M(inner) => {
                assert(deeply_finite(inner));
                lemma_top_rules_quiet_below(tally, child_path(path, k), inner, rules);
            },
            _ => {},
        }
    }
    assert(rewritten(path, m, rules) =~= m);
    lemma_nested_count_zero(tally, path, m, rules, m.dom());
}

/// Root rules with the empty prefix act on the top level of a record and
/// nowhere else, as long as no field of the top level has the empty name:
/// the pass is the application of the rules to the top level.
pub proof fn lemma_top_rules_touch_top_only(tally: Tally, m: RecordModel, rules: Seq<ReplaceModel>)
    requires
        deeply_finite(m),
        top_level_only(rules),
        forall|k: Seq<char>|
            (#[trigger] level_fields(rules, Seq::empty(), m).dom().contains(k)) ==> k.len() > 0,
    ensures
        rewritten(Seq::empty(), m, rules) == level_fields(rules, Seq::empty(), m),
        count(tally, Seq::empty(), m, rules) == level_count(
            tally,
            rules,
            Seq::empty(),
            start_level(m),
        ),
{
    reveal_with_fuel(rewritten, 2);
    reveal_with_fuel(rewritten_value, 2);
    reveal_with_fuel(count, 2);
    reveal_with_fuel(child_count, 2);
    reveal_with_fuel(value_count, 2);
    let top = Seq::<char>::empty();
    let level = level_fields(rules, top, m);
    lemma_level_fields_values(rules, top, m);
    assert forall|k: Seq<char>| level.dom().contains(k) implies rewritten_value(
        child_path(top, k),
        #[trigger] level[k],
        rules,
    ) == level[k] && child_count(tally, top, m, rules, k) == 0 by {
        let o = choose|o: Seq<char>| (#[trigger] m.dom().contains(o)) && m[o] == level[k];
        assert(m.dom().contains(o));
        match m[o] {
            ValueModel::M(inner) => {
                assert(deeply_finite(inner));
                assert(k.len() > 0);
                lemma_top_rules_quiet_below(tally, child_path(top, k), inner, rules);
            },
            _ => {},
        }
    }
    assert(rewritten(top, m, rules) =~= level);
    lemma_nested_count_zero(tally, top, m, rules, level.dom());
}

/// A rule for every depth applies exactly where the path ends with its
/// prefix, character by character, wherever a field name begins: it applies
/// at the prefix itself and at the prefix behind any other text.
pub proof fn lemma_suffix_rule_fires(rule: ReplaceModel, lead: Seq<char>, path: Seq<char>)
    requires
        !rule.root,
    ensures
        fires(rule, path) <==> rule.prefix.is_suffix_of(path),
        fires(rule, rule.prefix),
        fires(rule, lead + rule.prefix),
{
    let whole = lead + rule.prefix;
    assert(whole.subrange(whole.len() - rule.prefix.len(), whole.len() as int) =~= rule.prefix);
    assert(rule.prefix.subrange(0, rule.prefix.len() as int) =~= rule.prefix);
    if path == rule.prefix {
        assert(rule.prefix.is_suffix_of(path));
    }
}

} // verus!
