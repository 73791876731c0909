//! The first phase of a run: every record is rewritten in memory, and those
//! that changed are queued, each with its original, for the write-back.

use crate::laws::{has_field, lemma_pass_without_sources};
use crate::record::{deeply_finite, Record, RecordModel};
use crate::rewrite::{
    count, lemma_overwrites_are_replacements, rewritten, rules_model, try_replace, ReplaceResult,
    Tally,
};
use crate::rule::{Replace, ReplaceModel};
use vstd::prelude::*;

verus! {

/// A record as it was read, and as it is after the rules.
#[derive(Debug)]
pub struct Change {
    pub original: Record,
    pub mutated: Record,
}

/// The mathematical content of a [`Change`].
pub struct ChangeModel {
    pub original: RecordModel,
    pub mutated: RecordModel,
}

impl View for Change {
    type V = ChangeModel;

    open spec fn view(&self) -> ChangeModel {
        ChangeModel { original: self.original@, mutated: self.mutated@ }
    }
}

/// What a run has found: the records to write, in the order in which they
/// were read, and the counts over all records.
#[derive(Debug)]
pub struct Plan {
    pub dirty: Vec<Change>,
    pub result: ReplaceResult,
}

/// The models of a list of records.
pub open spec fn records_model(rows: Seq<Record>) -> Seq<RecordModel> {
    Seq::new(rows.len(), |i: int| rows[i]@)
}

/// The models of a list of changes.
pub open spec fn changes_model(changes: Seq<Change>) -> Seq<ChangeModel> {
    Seq::new(changes.len(), |i: int| changes[i]@)
}

/// The tally of the passes over all records.
pub open spec fn total_count(tally: Tally, rows: Seq<RecordModel>, rules: Seq<ReplaceModel>) -> nat
    decreases rows.len(),
{
    if rows.len() == 0 {
        0
    } else {
        total_count(tally, rows.drop_last(), rules) + count(
            tally,
            Seq::empty(),
            rows.last(),
            rules,
        )
    }
}

/// The records that a pass changes, each with what it becomes, in the order
/// of the records.
pub open spec fn changed(rows: Seq<RecordModel>, rules: Seq<ReplaceModel>) -> Seq<ChangeModel>
    decreases rows.len(),
{
    if rows.len() == 0 {
        Seq::empty()
    } else {
        let before = changed(rows.drop_last(), rules);
        let mutated = rewritten(Seq::empty(), rows.last(), rules);
        if mutated != rows.last() {
            before.push(ChangeModel { original: rows.last(), mutated })
        } else {
            before
        }
    }
}

/// The tally of the first records is at most that of all.
pub proof fn lemma_total_count_prefix(
    tally: Tally,
    rows: Seq<RecordModel>,
    rules: Seq<ReplaceModel>,
    n: int,
)
    requires
        0 <= n <= rows.len(),
    ensures
        total_count(tally, rows.take(n), rules) <= total_count(tally, rows, rules),
    decreases rows.len(),
{
    if n < rows.len() {
        lemma_total_count_prefix(tally, rows.drop_last(), rules, n);
        assert(rows.drop_last().take(n) =~= rows.take(n));
    } else {
        assert(rows.take(n) =~= rows);
    }
}

/// Over all records, no more fields are displaced than renamed.
pub proof fn lemma_total_overwrites_are_replacements(
    rows: Seq<RecordModel>,
    rules: Seq<ReplaceModel>,
)
    requires
        forall|r: int| 0 <= r < rows.len() ==> deeply_finite(#[trigger] rows[r]),
    ensures
        total_count(Tally::Overwrites, rows, rules) <= total_count(Tally::Replacements, rows, rules),
    decreases rows.len(),
{
    if rows.len() > 0 {
        let init = rows.drop_last();
        assert forall|r: int| 0 <= r < init.len() implies deeply_finite(#[trigger] init[r]) by {
            assert(init[r] == rows[r]);
        }
        lemma_total_overwrites_are_replacements(init, rules);
        assert(deeply_finite(rows[rows.len() - 1]));
        lemma_overwrites_are_replacements(Seq::empty(), rows.last(), rules);
    }
}

/// Records that have none of the rules' source fields, at any depth, leave
/// nothing to write and nothing counted.
pub proof fn lemma_nothing_to_write_without_sources(
    tally: Tally,
    rows: Seq<RecordModel>,
    rules: Seq<ReplaceModel>,
)
    requires
        forall|r: int| 0 <= r < rows.len() ==> deeply_finite(#[trigger] rows[r]),
        forall|r: int, i: int|
            0 <= r < rows.len() && 0 <= i < rules.len() ==> !has_field(
                #[trigger] rows[r],
                (#[trigger] rules[i]).from,
            ),
    ensures
        changed(rows, rules).len() == 0,
        total_count(tally, rows, rules) == 0,
    decreases rows.len(),
{
    if rows.len() > 0 {
        let init = rows.drop_last();
        assert forall|r: int| 0 <= r < init.len() implies deeply_finite(#[trigger] init[r]) by {
            assert(init[r] == rows[r]);
        }
        assert forall|r: int, i: int| 0 <= r < init.len() && 0 <= i < rules.len() implies !has_field(
            #[trigger] init[r],
            (#[trigger] rules[i]).from,
        ) by {
            assert(init[r] == rows[r]);
        }
        lemma_nothing_to_write_without_sources(tally, init, rules);
        let last = rows[rows.len() - 1];
        assert forall|i: int| 0 <= i < rules.len() implies !has_field(
            last,
            (#[trigger] rules[i]).from,
        ) by {
            assert(!has_field(rows[rows.len() - 1], rules[i].from));
        }
        lemma_pass_without_sources(tally, Seq::empty(), last, rules);
    }
}

/// What a plan says of the records and the rules it was made from: it
/// queues the records that the rules change, in their order, each with
/// what it becomes, and counts what the passes over all records did.
pub open spec fn plan_of(plan: Plan, rows: Seq<RecordModel>, rules: Seq<ReplaceModel>) -> bool {
    &&& changes_model(plan.dirty@) == changed(rows, rules)
    &&& plan.result.replacements == total_count(Tally::Replacements, rows, rules)
    &&& plan.result.overwrites == total_count(Tally::Overwrites, rows, rules)
}

/// Rewrites every record and queues those that changed; returns nothing if
/// there are more replacements than `usize` holds.
pub fn try_prepare(rows: Vec<Record>, rules: &[Replace]) -> (r: Option<Plan>)
    ensures
        r is Some == (total_count(Tally::Replacements, records_model(rows@), rules_model(rules@))
            <= usize::MAX),
        r matches Some(plan) ==> plan_of(plan, records_model(rows@), rules_model(rules@)),
{
    let ghost all = records_model(rows@);
    let ghost rm = rules_model(rules@);
    let mut result = ReplaceResult::default();
    let mut dirty: Vec<Change> = Vec::new();
    let mut i: usize = 0;
    proof {
        assert forall|r: int| 0 <= r < all.len() implies deeply_finite(#[trigger] all[r]) by {
            rows@[r].lemma_deeply_finite();
        }
    }
    assert(all.take(0) =~= Seq::<RecordModel>::empty());
    while i < rows.len()
        invariant
            i <= rows.len(),
            all == records_model(rows@),
            rm == rules_model(rules@),
            forall|r: int| 0 <= r < all.len() ==> deeply_finite(#[trigger] all[r]),
            changes_model(dirty@) == changed(all.take(i as int), rm),
            result.replacements == total_count(Tally::Replacements, all.take(i as int), rm),
            result.overwrites == total_count(Tally::Overwrites, all.take(i as int), rm),
        decreases rows.len() - i,
    {
        let mut row = rows[i].clone();
        proof {
            let done = all.take(i + 1);
            lemma_total_count_prefix(Tally::Replacements, all, rm, i + 1);
            assert(done.drop_last() =~= all.take(i as int));
            assert(done.last() == rows[i as int]@);
            assert forall|r: int| 0 <= r < done.len() implies deeply_finite(#[trigger] done[r]) by {
                assert(done[r] == all[r]);
            }
            lemma_total_overwrites_are_replacements(done, rm);
        }
        if !try_replace(String::new(), &mut row, rules, &mut result) {
            return None;
        }
        let ghost queued = changes_model(dirty@);
        if rows[i] != row {
            dirty.push(Change { original: rows[i].clone(), mutated: row });
            assert(changes_model(dirty@) =~= queued.push(
                ChangeModel {
                    original: rows[i as int]@,
                    mutated: rewritten(Seq::empty(), rows[i as int]@, rm),
                },
            ));
        }
        i += 1;
    }
    assert(all.take(rows.len() as int) =~= all);
    Some(Plan { dirty, result })
}

/// Rewrites every record and queues those that changed.
pub fn prepare(rows: Vec<Record>, rules: &[Replace]) -> (plan: Plan)
    requires
        total_count(Tally::Replacements, records_model(rows@), rules_model(rules@)) <= usize::MAX,
    ensures
        plan_of(plan, records_model(rows@), rules_model(rules@)),
{
    match try_prepare(rows, rules) {
        Some(plan) => plan,
        None => vstd::pervasive::unreached(),
    }
}

impl Plan {
    /// Whether the rules renamed any field. A plan without replacements
    /// leaves nothing to confirm and nothing to write.
    pub fn has_replacements(&self) -> (r: bool)
        ensures
            r == (self.result.replacements > 0),
    {
        self.result.replacements != 0
    }
}

} // verus!
