//! The user's consent, which stands between the two phases of a run:
//! nothing is written unless the answer to the summary is the affirmative
//! token, `Y`, alone on its line.

use vstd::prelude::*;
use vstd::string::*;

verus! {

/// Whether the character is white space: one of the characters that carry
/// the Unicode property `White_Space`.
pub open spec fn is_white_space(c: char) -> bool {
    let u = c as u32;
    ||| 0x09 <= u <= 0x0d
    ||| u == 0x20
    ||| u == 0x85
    ||| u == 0xa0
    ||| u == 0x1680
    ||| 0x2000 <= u <= 0x200a
    ||| u == 0x2028
    ||| u == 0x2029
    ||| u == 0x202f
    ||| u == 0x205f
    ||| u == 0x3000
}

/// The text without the white space at its start.
pub open spec fn trim_start(s: Seq<char>) -> Seq<char>
    decreases s.len(),
{
    if s.len() > 0 && is_white_space(s.first()) {
        trim_start(s.drop_first())
    } else {
        s
    }
}

/// The text without the white space at its end.
pub open spec fn trim_end(s: Seq<char>) -> Seq<char>
    decreases s.len(),
{
    if s.len() > 0 && is_white_space(s.last()) {
        trim_end(s.drop_last())
    } else {
        s
    }
}

/// The text without the white space at its start and at its end.
pub open spec fn trimmed(s: Seq<char>) -> Seq<char> {
    trim_end(trim_start(s))
}

/// Whether the character is white space.
pub fn white_space(c: char) -> (r: bool)
    ensures
        r == is_white_space(c),
{
    let u = c as u32;
    (0x09 <= u && u <= 0x0d) || u == 0x20 || u == 0x85 || u == 0xa0 || u == 0x1680 || (0x2000 <= u
        && u <= 0x200a) || u == 0x2028 || u == 0x2029 || u == 0x202f || u == 0x205f || u == 0x3000
}

/// The text without the white space at its start and at its end.
pub fn trim<'a>(line: &'a str) -> (r: &'a str)
    ensures
        r@ == trimmed(line@),
{
    let n = line.unicode_len();
    let mut start: usize = 0;
    assert(line@.subrange(0, n as int) =~= line@);
    while start < n && white_space(line.get_char(start))
        invariant
            start <= n,
            n == line@.len(),
            trim_start(line@) == trim_start(line@.subrange(start as int, n as int)),
        decreases n - start,
    {
        assert(line@.subrange(start as int, n as int).drop_first() =~= line@.subrange(
            start + 1,
            n as int,
        ));
        start += 1;
    }
    let ghost rest = line@.subrange(start as int, n as int);
    assert(trim_start(line@) == rest);
    let mut end: usize = n;
    assert(rest.subrange(0, n - start) =~= rest);
    while end > start && white_space(line.get_char(end - 1))
        invariant
            start <= end <= n,
            n == line@.len(),
            rest == line@.subrange(start as int, n as int),
            trim_end(rest) == trim_end(line@.subrange(start as int, end as int)),
        decreases end - start,
    {
        assert(line@.subrange(start as int, end as int).drop_last() =~= line@.subrange(
            start as int,
            end - 1,
        ));
        end -= 1;
    }
    line.substring_char(start, end)
}

/// Whether the line that the user typed is the affirmative token.
pub fn is_confirmed(line: &str) -> (r: bool)
    ensures
        r == (trimmed(line@) == seq!['Y']),
{
    proof {
        reveal_strlit("Y");
        assert("Y"@ =~= seq!['Y']);
    }
    *trim(line) == *"Y"
}

} // verus!
