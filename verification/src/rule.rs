//! Rename rules and the directives they are written in.
//!
//! A directive has the form `<before>><after>`. Both sides may carry a
//! leading `*`, which makes the rule match at every depth; otherwise it
//! matches only where the path from the record's root equals its prefix.

use vstd::prelude::*;
use vstd::string::*;

verus! {

/// The grammar of attribute names, as a regular expression.
pub const NAME_PATTERN: &'static str = "[a-zA-Z0-9_\\-.]+";

/// A rename rule: in each map that its prefix selects, the field `from`
/// becomes the field `to`.
#[derive(Debug, PartialEq, Eq)]
pub struct Replace {
    pub root: bool,
    pub prefix: String,
    pub from: String,
    pub to: String,
}

/// The mathematical content of a [`Replace`].
pub struct ReplaceModel {
    pub root: bool,
    pub prefix: Seq<char>,
    pub from: Seq<char>,
    pub to: Seq<char>,
}

impl View for Replace {
    type V = ReplaceModel;

    open spec fn view(&self) -> ReplaceModel {
        ReplaceModel { root: self.root, prefix: self.prefix@, from: self.from@, to: self.to@ }
    }
}

/// Why a directive is no rule.
#[derive(Debug, PartialEq, Eq)]
pub enum ReplaceParseError {
    /// The directive has no `>`.
    MissingArrow,
    /// A side of the directive is no attribute name; the side is given.
    InvalidAttribute(String),
    /// The rule would move a value to another level, or only one side is
    /// marked with `*`.
    Unsupported,
}

/// The mathematical content of a [`ReplaceParseError`].
pub enum ReplaceParseErrorModel {
    MissingArrow,
    InvalidAttribute(Seq<char>),
    Unsupported,
}

impl View for ReplaceParseError {
    type V = ReplaceParseErrorModel;

    open spec fn view(&self) -> ReplaceParseErrorModel {
        match self {
            ReplaceParseError::MissingArrow => ReplaceParseErrorModel::MissingArrow,
            ReplaceParseError::InvalidAttribute(a) => ReplaceParseErrorModel::InvalidAttribute(a@),
            ReplaceParseError::Unsupported => ReplaceParseErrorModel::Unsupported,
        }
    }
}

/// Whether `Regex::new` accepts the pattern.
pub uninterp spec fn regex_compiles(pattern: Seq<char>) -> bool;

/// The byte offsets, start and end, of the match that `Regex::find` reports
/// for the pattern in the text.
pub uninterp spec fn regex_find(pattern: Seq<char>, text: Seq<char>) -> Option<(usize, usize)>;

/// The error of `regex::Regex::new`, carried as a value of which nothing is
/// known.
#[verifier::external_type_specification]
#[verifier::external_body]
pub struct ExRegexError(regex::Error);

/// Compiles the pattern with `regex::Regex::new` and searches the text with
/// `Regex::find`. The error is the one that `Regex::new` returned; on
/// success the result holds `Match::start` and `Match::end` of the match
/// found, if any. Both outcomes are named, not described: nothing is
/// claimed of which patterns compile or of what they match.
#[verifier::external_body]
fn find_first(pattern: &str, text: &str) -> (r: Result<Option<(usize, usize)>, regex::Error>)
    ensures
        r is Ok == regex_compiles(pattern@),
        r matches Ok(found) ==> found == regex_find(pattern@, text@),
{
    match regex::Regex::new(pattern) {
        Ok(re) => Ok(
            match re.find(text) {
                Some(m) => Some((m.start(), m.end())),
                None => None,
            },
        ),
        Err(e) => Err(e),
    }
}

/// The number of bytes of the text in UTF-8, as `str::len` gives it.
pub open spec fn byte_len(text: Seq<char>) -> usize {
    vstd::utf8::encode_utf8(text).len() as usize
}

/// Whether a match covers a text of `len` bytes from its first byte to its
/// last.
pub open spec fn spans_all(found: Option<(usize, usize)>, len: usize) -> bool {
    found matches Some(span) && span.0 == 0 && span.1 == len
}

/// Whether the text as a whole is an attribute name: the first match of the
/// name grammar in it is the text itself.
pub open spec fn is_attribute_name(name: Seq<char>) -> bool {
    regex_compiles(NAME_PATTERN@) && spans_all(regex_find(NAME_PATTERN@, name), byte_len(name))
}

/// Whether the match that a search reported covers the whole text. A match
/// of a part of the text, or of nothing, does not.
pub fn covers(found: Option<(usize, usize)>, len: usize) -> (r: bool)
    ensures
        r == spans_all(found, len),
{
    match found {
        Some((start, end)) => start == 0 && end == len,
        None => false,
    }
}

/// Accepts the text if it is an attribute name, and names it in the error
/// if it is not.
pub fn validate_attribute_name(name: &str) -> (r: Result<(), ReplaceParseError>)
    ensures
        r is Ok == is_attribute_name(name@),
        r matches Err(e) ==> e@ == ReplaceParseErrorModel::InvalidAttribute(name@),
{
    let valid = match find_first(NAME_PATTERN, name) {
        Ok(found) => covers(found, name.len()),
        Err(_) => false,
    };
    if valid {
        Ok(())
    } else {
        Err(ReplaceParseError::InvalidAttribute(String::from_str(name)))
    }
}

/// Whether the side of a directive carries the mark of a rule for every
/// depth.
pub open spec fn is_starred(side: Seq<char>) -> bool {
    side.len() > 0 && side[0] == '*'
}

/// The two sides of a directive, without their marks, and whether the rule
/// is a root rule. The directive is cut at its first `>`.
pub open spec fn directive_sides(s: Seq<char>) -> Result<
    (bool, Seq<char>, Seq<char>),
    ReplaceParseErrorModel,
> {
    match s.index_of_first('>') {
        None => Err(ReplaceParseErrorModel::MissingArrow),
        Some(i) => {
            let before = s.subrange(0, i);
            let after = s.subrange(i + 1, s.len() as int);
            if is_starred(before) != is_starred(after) {
                Err(ReplaceParseErrorModel::Unsupported)
            } else if is_starred(before) {
                Ok((false, before.drop_first(), after.drop_first()))
            } else {
                Ok((true, before, after))
            }
        },
    }
}

/// The rule that two sides make. A dotted `before` is cut at its last `.`
/// into prefix and source name, and `after` must then repeat the prefix and
/// its dot; an undotted `before` takes an undotted `after`.
pub open spec fn rule_of_sides(root: bool, before: Seq<char>, after: Seq<char>) -> Result<
    ReplaceModel,
    ReplaceParseErrorModel,
> {
    match before.index_of_last('.') {
        Some(i) => {
            if before.subrange(0, i + 1).is_prefix_of(after) {
                Ok(
                    ReplaceModel {
                        root,
                        prefix: before.subrange(0, i),
                        from: before.subrange(i + 1, before.len() as int),
                        to: after.subrange(i + 1, after.len() as int),
                    },
                )
            } else {
                Err(ReplaceParseErrorModel::Unsupported)
            }
        },
        None => {
            if after.contains('.') {
                Err(ReplaceParseErrorModel::Unsupported)
            } else {
                Ok(ReplaceModel { root, prefix: Seq::empty(), from: before, to: after })
            }
        },
    }
}

/// What a directive means: its rule, or the reason why it has none.
pub open spec fn parse_rule(s: Seq<char>) -> Result<ReplaceModel, ReplaceParseErrorModel> {
    match directive_sides(s) {
        Err(e) => Err(e),
        Ok((root, before, after)) => {
            if !is_attribute_name(before) {
                Err(ReplaceParseErrorModel::InvalidAttribute(before))
            } else if !is_attribute_name(after) {
                Err(ReplaceParseErrorModel::InvalidAttribute(after))
            } else {
                rule_of_sides(root, before, after)
            }
        },
    }
}

/// The place of the first `c` in the text.
fn first_index(s: &str, c: char) -> (r: Option<usize>)
    ensures
        match r {
            Some(i) => s@.index_of_first(c) == Some(i as int),
            None => s@.index_of_first(c) is None,
        },
{
    let n = s.unicode_len();
    let mut i: usize = 0;
    while i < n
        invariant
            i <= n,
            n == s@.len(),
            forall|j: int| 0 <= j < i ==> s@[j] != c,
        decreases n - i,
    {
        if s.get_char(i) == c {
            proof {
                s@.index_of_first_ensures(c);
            }
            return Some(i);
        }
        i += 1;
    }
    proof {
        s@.index_of_first_ensures(c);
    }
    None
}

/// The place of the last `c` in the text.
fn last_index(s: &str, c: char) -> (r: Option<usize>)
    ensures
        match r {
            Some(i) => s@.index_of_last(c) == Some(i as int),
            None => s@.index_of_last(c) is None,
        },
{
    let n = s.unicode_len();
    let mut i: usize = n;
    while i > 0
        invariant
            i <= n,
            n == s@.len(),
            forall|j: int| i <= j < n ==> s@[j] != c,
        decreases i,
    {
        i -= 1;
        if s.get_char(i) == c {
            proof {
                s@.index_of_last_ensures(c);
            }
            return Some(i);
        }
    }
    proof {
        s@.index_of_last_ensures(c);
    }
    None
}

/// Whether the first `n` characters of `a` are those of `b`.
fn same_start(a: &str, b: &str, n: usize) -> (r: bool)
    requires
        n <= a@.len(),
    ensures
        r == a@.subrange(0, n as int).is_prefix_of(b@),
{
    if b.unicode_len() < n {
        return false;
    }
    let mut j: usize = 0;
    while j < n
        invariant
            j <= n,
            n <= a@.len(),
            n <= b@.len(),
            forall|k: int| 0 <= k < j ==> a@[k] == b@[k],
        decreases n - j,
    {
        if a.get_char(j) != b.get_char(j) {
            assert(a@.subrange(0, n as int)[j as int] != b@.subrange(0, n as int)[j as int]);
            return false;
        }
        j += 1;
    }
    assert(a@.subrange(0, n as int) =~= b@.subrange(0, n as int));
    true
}

/// Cuts a directive at its first `>` and takes the marks off its sides.
pub fn split_directive<'a>(s: &'a str) -> (r: Result<(bool, &'a str, &'a str), ReplaceParseError>)
    ensures
        match r {
            Ok((root, before, after)) => directive_sides(s@) == Ok::<
                (bool, Seq<char>, Seq<char>),
                ReplaceParseErrorModel,
            >((root, before@, after@)),
            Err(e) => directive_sides(s@) == Err::<
                (bool, Seq<char>, Seq<char>),
                ReplaceParseErrorModel,
            >(e@),
        },
{
    match first_index(s, '>') {
        None => Err(ReplaceParseError::MissingArrow),
        Some(i) => {
            let n = s.unicode_len();
            proof {
                s@.index_of_first_ensures('>');
            }
            let before = s.substring_char(0, i);
            let after = s.substring_char(i + 1, n);
            let before_len = before.unicode_len();
            let after_len = after.unicode_len();
            let before_starred = before_len > 0 && before.get_char(0) == '*';
            let after_starred = after_len > 0 && after.get_char(0) == '*';
            if before_starred != after_starred {
                Err(ReplaceParseError::Unsupported)
            } else if before_starred {
                let b = before.substring_char(1, before_len);
                let a = after.substring_char(1, after_len);
                Ok((false, b, a))
            } else {
                Ok((true, before, after))
            }
        },
    }
}

/// Makes the rule of two sides that are attribute names.
pub fn derive_rule(root: bool, before: &str, after: &str) -> (r: Result<
    Replace,
    ReplaceParseError,
>)
    ensures
        match r {
            Ok(rule) => rule_of_sides(root, before@, after@) == Ok::<
                ReplaceModel,
                ReplaceParseErrorModel,
            >(rule@),
            Err(e) => rule_of_sides(root, before@, after@) == Err::<
                ReplaceModel,
                ReplaceParseErrorModel,
            >(e@),
        },
{
    let before_len = before.unicode_len();
    match last_index(before, '.') {
        Some(i) => {
            proof {
                before@.index_of_last_ensures('.');
            }
            if same_start(before, after, i + 1) {
                let prefix = String::from_str(before.substring_char(0, i));
                let from = String::from_str(before.substring_char(i + 1, before_len));
                let to = String::from_str(after.substring_char(i + 1, after.unicode_len()));
                Ok(Replace { root, prefix, from, to })
            } else {
                Err(ReplaceParseError::Unsupported)
            }
        },
        None => {
            let dotted = first_index(after, '.');
            proof {
                after@.index_of_first_ensures('.');
            }
            if dotted.is_some() {
                Err(ReplaceParseError::Unsupported)
            } else {
                Ok(
                    Replace {
                        root,
                        prefix: String::new(),
                        from: String::from_str(before),
                        to: String::from_str(after),
                    },
                )
            }
        },
    }
}

impl Replace {
    /// Reads a directive.
    pub fn from_str(s: &str) -> (r: Result<Replace, ReplaceParseError>)
        ensures
            match r {
                Ok(rule) => parse_rule(s@) == Ok::<ReplaceModel, ReplaceParseErrorModel>(rule@),
                Err(e) => parse_rule(s@) == Err::<ReplaceModel, ReplaceParseErrorModel>(e@),
            },
    {
        let (root, before, after) = match split_directive(s) {
            Ok(sides) => sides,
            Err(e) => {
                return Err(e);
            },
        };
        if let Err(e) = validate_attribute_name(before) {
            return Err(e);
        }
        if let Err(e) = validate_attribute_name(after) {
            return Err(e);
        }
        derive_rule(root, before, after)
    }
}

/// What a user is told of an error.
pub open spec fn error_text(e: ReplaceParseErrorModel) -> Seq<char> {
    match e {
        ReplaceParseErrorModel::MissingArrow => "replacement missing arrow ('>')"@,
        ReplaceParseErrorModel::InvalidAttribute(a) => "attribute '"@ + a + "' is invalid"@,
        ReplaceParseErrorModel::Unsupported =>
            "replacements that that move values are not yet supported"@,
    }
}

impl ReplaceParseError {
    /// The error in words.
    pub fn message(&self) -> (r: String)
        ensures
            r@ == error_text(self@),
    {
        match self {
            ReplaceParseError::MissingArrow => String::from_str("replacement missing arrow ('>')"),
            ReplaceParseError::InvalidAttribute(a) => {
                let mut text = String::from_str("attribute '");
                text.append(a.as_str());
                text.append("' is invalid");
                text
            },
            ReplaceParseError::Unsupported => String::from_str(
                "replacements that that move values are not yet supported",
            ),
        }
    }
}

} // verus!
