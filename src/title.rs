//! The display title of a molecule, derived from its stored name.
use vstd::prelude::*;
use vstd::string::*;

verus! {

/// The length of the first line of `s`: the characters before the first `'\n'`.
pub open spec fn line_end(s: Seq<char>) -> nat
    decreases s.len(),
{
    if s.len() == 0 || s[0] == '\n' {
        0
    } else {
        1 + line_end(s.drop_first())
    }
}

/// A line without the carriage return of a `"\r\n"` ending.
pub open spec fn strip_cr(l: Seq<char>, ended: bool) -> Seq<char> {
    if ended && l.len() > 0 && l.last() == '\r' { l.drop_last() } else { l }
}

/// The lines of a text, as `str::lines` splits it: at each `'\n'`, a `'\r'`
/// before it dropped, and no empty line after a final line ending.
pub open spec fn lines_of(s: Seq<char>) -> Seq<Seq<char>>
    decreases s.len(),
{
    if s.len() == 0 {
        Seq::empty()
    } else {
        let n = line_end(s);
        if n >= s.len() {
            seq![s]
        } else {
            seq![strip_cr(s.take(n as int), true)] + lines_of(s.skip(n as int + 1))
        }
    }
}

/// Unicode's White_Space characters, which `str::trim` removes.
pub open spec fn is_white_space(c: char) -> bool {
    ('\u{9}' <= c && c <= '\u{d}') || c == ' ' || c == '\u{85}' || c == '\u{a0}'
        || c == '\u{1680}' || ('\u{2000}' <= c && c <= '\u{200a}') || c == '\u{2028}'
        || c == '\u{2029}' || c == '\u{202f}' || c == '\u{205f}' || c == '\u{3000}'
}

pub open spec fn trim_start(s: Seq<char>) -> Seq<char>
    decreases s.len(),
{
    if s.len() > 0 && is_white_space(s[0]) { trim_start(s.drop_first()) } else { s }
}

pub open spec fn trim_end(s: Seq<char>) -> Seq<char>
    decreases s.len(),
{
    if s.len() > 0 && is_white_space(s.last()) { trim_end(s.drop_last()) } else { s }
}

/// A text without its leading and trailing white space.
pub open spec fn trimmed(s: Seq<char>) -> Seq<char> {
    trim_end(trim_start(s))
}

/// Relies on `str::lines`: the lines of `s`.
#[verifier::external_body]
pub(crate) fn split_lines(s: &str) -> (r: Vec<&str>)
    ensures
        r@.map_values(|x: &str| x@) == lines_of(s@),
{
    s.lines().collect()
}

/// Relies on `str::trim`: `s` without surrounding white space.
#[verifier::external_body]
pub(crate) fn trim_text(s: &str) -> (r: &str)
    ensures
        r@ == trimmed(s@),
{
    s.trim()
}

pub open spec fn untitled() -> Seq<char> {
    seq!['u', 'n', 't', 'i', 't', 'l', 'e', 'd']
}

/// The first non-empty text of `ls`, or the placeholder where all are empty.
pub open spec fn first_nonempty(ls: Seq<Seq<char>>) -> Seq<char>
    decreases ls.len(),
{
    if ls.len() == 0 {
        untitled()
    } else if ls[0].len() > 0 {
        ls[0]
    } else {
        first_nonempty(ls.drop_first())
    }
}

/// The display title of a name: its first line that holds more than white
/// space, trimmed, or "untitled".
pub open spec fn title_of(name: Seq<char>) -> Seq<char> {
    first_nonempty(lines_of(name).map_values(|l: Seq<char>| trimmed(l)))
}

/// The first non-empty text of `lines`, or "untitled" where all are empty.
pub fn pick_title(lines: &[&str]) -> (r: String)
    ensures
        r@ == first_nonempty(lines@.map_values(|x: &str| x@)),
{
    let ghost ls = lines@.map_values(|x: &str| x@);
    assert(ls.skip(0) =~= ls);
    let mut i: usize = 0;
    while i < lines.len()
        invariant
            0 <= i <= lines@.len(),
            ls == lines@.map_values(|x: &str| x@),
            first_nonempty(ls) == first_nonempty(ls.skip(i as int)),
        decreases lines@.len() - i,
    {
        proof {
            assert(ls.skip(i as int)[0] == lines@[i as int]@);
            assert(ls.skip(i as int).drop_first() == ls.skip(i + 1));
        }
        if !lines[i].is_empty() {
            return String::from_str(lines[i]);
        }
        i = i + 1;
    }
    proof {
        reveal_strlit("untitled");
        assert(ls.skip(i as int).len() == 0);
    }
    String::from_str("untitled")
}

} // verus!
