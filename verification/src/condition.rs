//! The guarded write-back of one record.
//!
//! A changed record is written under the condition that every field of the
//! record as it was read still has the value it had then. Each guarded field
//! is bound through two placeholders, `#a<i>` for its name and `:a<i>` for
//! its value, so that no field name can collide with the condition's syntax.

use crate::record::{Record, RecordModel, Value, ValueModel};
use vstd::prelude::*;
use vstd::string::*;

verus! {

/// The character of a decimal digit.
pub open spec fn digit_char(d: nat) -> char {
    if d == 0 {
        '0'
    } else if d == 1 {
        '1'
    } else if d == 2 {
        '2'
    } else if d == 3 {
        '3'
    } else if d == 4 {
        '4'
    } else if d == 5 {
        '5'
    } else if d == 6 {
        '6'
    } else if d == 7 {
        '7'
    } else if d == 8 {
        '8'
    } else {
        '9'
    }
}

/// The number in decimal digits, without leading zeros.
pub open spec fn decimal(n: nat) -> Seq<char>
    decreases n,
{
    if n < 10 {
        seq![digit_char(n)]
    } else {
        decimal(n / 10).push(digit_char(n % 10))
    }
}

/// The placeholder that stands for the name of the guarded field `i`.
pub open spec fn name_placeholder(i: nat) -> Seq<char> {
    seq!['#', 'a'] + decimal(i)
}

/// The placeholder that stands for the expected value of the guarded field
/// `i`.
pub open spec fn value_placeholder(i: nat) -> Seq<char> {
    seq![':', 'a'] + decimal(i)
}

/// The comparison that guards field `i`.
pub open spec fn comparison(i: nat) -> Seq<char> {
    name_placeholder(i) + seq![' ', '=', ' '] + value_placeholder(i)
}

/// The comparisons of the first `n` guarded fields, joined by `AND`.
pub open spec fn conjunction(n: nat) -> Seq<char>
    decreases n,
{
    if n == 0 {
        Seq::empty()
    } else if n == 1 {
        comparison(0)
    } else {
        conjunction((n - 1) as nat) + seq![' ', 'A', 'N', 'D', ' '] + comparison((n - 1) as nat)
    }
}

/// One guarded field: its two placeholders, its name, and the value that the
/// store must still hold for it.
#[derive(Debug)]
pub struct Guard {
    pub name_placeholder: String,
    pub value_placeholder: String,
    pub field: String,
    pub expected: Value,
}

/// The mathematical content of a [`Guard`].
pub struct GuardModel {
    pub name_placeholder: Seq<char>,
    pub value_placeholder: Seq<char>,
    pub field: Seq<char>,
    pub expected: ValueModel,
}

impl View for Guard {
    type V = GuardModel;

    open spec fn view(&self) -> GuardModel {
        GuardModel {
            name_placeholder: self.name_placeholder@,
            value_placeholder: self.value_placeholder@,
            field: self.field@,
            expected: self.expected@,
        }
    }
}

/// A write of one record: the record, the condition under which the store
/// may accept it, and the bindings of the condition's placeholders. Without
/// a condition the write is unconditional.
#[derive(Debug)]
pub struct PutRequest {
    pub item: Record,
    pub condition_expression: Option<String>,
    pub guards: Vec<Guard>,
}

/// The models of a list of guards.
pub open spec fn guards_model(guards: Seq<Guard>) -> Seq<GuardModel> {
    Seq::new(guards.len(), |i: int| guards[i]@)
}

/// The guards are those of the record `original`: one for each of its
/// fields, numbered from zero, each expecting the field's value.
pub open spec fn guards_of(guards: Seq<GuardModel>, original: RecordModel) -> bool {
    &&& guards.len() == original.dom().len()
    &&& forall|i: int|
        0 <= i < guards.len() ==> {
            &&& (#[trigger] guards[i]).name_placeholder == name_placeholder(i as nat)
            &&& guards[i].value_placeholder == value_placeholder(i as nat)
            &&& original.dom().contains(guards[i].field)
            &&& guards[i].expected == original[guards[i].field]
        }
    &&& forall|i: int, j: int|
        0 <= i < j < guards.len() ==> (#[trigger] guards[i]).field != (#[trigger] guards[j]).field
    &&& forall|k: Seq<char>|
        original.dom().contains(k) ==> exists|i: int|
            0 <= i < guards.len() && (#[trigger] guards[i]).field == k
}

/// Whether a stored record meets the guards: it has each guarded field
/// with the expected value.
pub open spec fn admits(guards: Seq<GuardModel>, stored: RecordModel) -> bool {
    forall|i: int|
        0 <= i < guards.len() ==> stored.dom().contains((#[trigger] guards[i]).field)
            && stored[guards[i].field] == guards[i].expected
}

/// Whether the stored record still has every field of `original` with the
/// value it has there.
pub open spec fn unchanged_since(original: RecordModel, stored: RecordModel) -> bool {
    forall|k: Seq<char>|
        (#[trigger] original.dom().contains(k)) ==> stored.dom().contains(k) && stored[k]
            == original[k]
}

/// The guards of a record admit exactly the stored records in which no
/// field of the record has changed or gone. A stored record that differs
/// from the original in any guarded field is refused.
pub proof fn lemma_guards_detect_change(
    guards: Seq<GuardModel>,
    original: RecordModel,
    stored: RecordModel,
)
    requires
        guards_of(guards, original),
    ensures
        admits(guards, stored) <==> unchanged_since(original, stored),
{
    if admits(guards, stored) {
        assert forall|k: Seq<char>| (#[trigger] original.dom().contains(k)) implies stored.dom().contains(
            k,
        ) && stored[k] == original[k] by {
            let i = choose|i: int| 0 <= i < guards.len() && (#[trigger] guards[i]).field == k;
            assert(stored.dom().contains(guards[i].field));
        }
    }
    if unchanged_since(original, stored) {
        assert forall|i: int| 0 <= i < guards.len() implies stored.dom().contains(
            (#[trigger] guards[i]).field,
        ) && stored[guards[i].field] == guards[i].expected by {
            assert(original.dom().contains(guards[i].field));
        }
    }
}

/// The text of one decimal digit.
fn digit_text(d: usize) -> (r: &'static str)
    requires
        d < 10,
    ensures
        r@ == seq![digit_char(d as nat)],
{
    proof {
        reveal_strlit("0");
        reveal_strlit("1");
        reveal_strlit("2");
        reveal_strlit("3");
        reveal_strlit("4");
        reveal_strlit("5");
        reveal_strlit("6");
        reveal_strlit("7");
        reveal_strlit("8");
        reveal_strlit("9");
    }
    let r = if d == 0 {
        "0"
    } else if d == 1 {
        "1"
    } else if d == 2 {
        "2"
    } else if d == 3 {
        "3"
    } else if d == 4 {
        "4"
    } else if d == 5 {
        "5"
    } else if d == 6 {
        "6"
    } else if d == 7 {
        "7"
    } else if d == 8 {
        "8"
    } else {
        "9"
    };
    assert(r@ =~= seq![digit_char(d as nat)]);
    r
}

/// The number in decimal digits.
pub fn decimal_text(n: usize) -> (r: String)
    ensures
        r@ == decimal(n as nat),
    decreases n,
{
    if n < 10 {
        String::from_str(digit_text(n))
    } else {
        let mut text = decimal_text(n / 10);
        text.append(digit_text(n % 10));
        assert(text@ =~= decimal(n as nat));
        text
    }
}

/// A placeholder: the lead, then the number.
fn placeholder(lead: &str, i: usize) -> (r: String)
    ensures
        r@ == lead@ + decimal(i as nat),
{
    let mut text = String::from_str(lead);
    let digits = decimal_text(i);
    text.append(digits.as_str());
    text
}

/// The write of `item` under the guards of `old`, the record as it was
/// read.
pub fn build_put(old: Record, item: Record) -> (request: PutRequest)
    ensures
        request.item@ == item@,
        guards_of(guards_model(request.guards@), old@),
        match request.condition_expression {
            None => old@.dom().len() == 0,
            Some(text) => old@.dom().len() > 0 && text@ == conjunction(old@.dom().len()),
        },
{
    let mut old = old;
    let ghost original = old@;
    let keys = old.keys();
    let mut guards: Vec<Guard> = Vec::new();
    let mut condition = String::new();
    let mut i: usize = 0;
    proof {
        reveal_strlit("#a");
        reveal_strlit(":a");
        reveal_strlit(" = ");
        reveal_strlit(" AND ");
        assert("#a"@ =~= seq!['#', 'a']);
        assert(":a"@ =~= seq![':', 'a']);
        assert(" = "@ =~= seq![' ', '=', ' ']);
        assert(" AND "@ =~= seq![' ', 'A', 'N', 'D', ' ']);
    }
    while i < keys.len()
        invariant
            i <= keys.len(),
            keys.len() == original.dom().len(),
            "#a"@ == seq!['#', 'a'],
            ":a"@ == seq![':', 'a'],
            " = "@ == seq![' ', '=', ' '],
            " AND "@ == seq![' ', 'A', 'N', 'D', ' '],
            forall|a: int| 0 <= a < keys.len() ==> original.dom().contains(#[trigger] keys[a]@),
            forall|a: int, b: int| 0 <= a < b < keys.len() ==> keys[a]@ != keys[b]@,
            forall|a: int|
                i <= a < keys.len() ==> old@.dom().contains(#[trigger] keys[a]@) && old@[keys[a]@]
                    == original[keys[a]@],
            guards.len() == i,
            forall|a: int|
                0 <= a < i ==> {
                    &&& (#[trigger] guards[a])@.name_placeholder == name_placeholder(a as nat)
                    &&& guards[a]@.value_placeholder == value_placeholder(a as nat)
                    &&& guards[a]@.field == keys[a]@
                    &&& guards[a]@.expected == original[keys[a]@]
                },
            condition@ == conjunction(i as nat),
        decreases keys.len() - i,
    {
        let key = &keys[i];
        match old.remove(key.as_str()) {
            Some(expected) => {
                let name_placeholder = placeholder("#a", i);
                let value_placeholder = placeholder(":a", i);
                if i > 0 {
                    condition.append(" AND ");
                }
                condition.append(name_placeholder.as_str());
                condition.append(" = ");
                condition.append(value_placeholder.as_str());
                assert(condition@ =~= conjunction((i + 1) as nat));
                guards.push(Guard { name_placeholder, value_placeholder, field: key.clone(), expected });
            },
            None => {
                assert(false);
            },
        }
        i += 1;
    }
    proof {
        let g = guards_model(guards@);
        assert forall|k: Seq<char>| original.dom().contains(k) implies exists|a: int|
            0 <= a < g.len() && (#[trigger] g[a]).field == k by {
            let a = choose|a: int| 0 <= a < keys.len() && #[trigger] keys[a]@ == k;
            assert(g[a].field == k);
        }
        assert forall|a: int, b: int| 0 <= a < b < g.len() implies (#[trigger] g[a]).field != (
        #[trigger] g[b]).field by {
            assert(keys[a]@ != keys[b]@);
        }
        assert(guards_of(g, original));
    }
    let condition_expression = if keys.len() == 0 {
        None
    } else {
        Some(condition)
    };
    PutRequest { item, condition_expression, guards }
}

impl PutRequest {
    /// Whether the stored record meets the request's guards.
    pub fn admits(&self, stored: &Record) -> (r: bool)
        ensures
            r == admits(guards_model(self.guards@), stored@),
    {
        let ghost g = guards_model(self.guards@);
        let mut i: usize = 0;
        while i < self.guards.len()
            invariant
                i <= self.guards.len(),
                g == guards_model(self.guards@),
                forall|a: int|
                    0 <= a < i ==> stored@.dom().contains((#[trigger] g[a]).field)
                        && stored@[g[a].field] == g[a].expected,
            decreases self.guards.len() - i,
        {
            let guard = &self.guards[i];
            let met = match stored.get(guard.field.as_str()) {
                Some(value) => value.equals(&guard.expected),
                None => false,
            };
            if !met {
                assert(g[i as int].field == guard.field@);
                return false;
            }
            assert(g[i as int] == guard@);
            i += 1;
        }
        true
    }
}

} // verus!
