//! Loose comparison of a copyright-notice prototype against the text found
//! in a file.  Literal characters must match exactly, but a single ASCII
//! space in the prototype may stand for a run of whitespace that spans line
//! breaks and the comment decoration that begins continuation lines.

use vstd::prelude::*;
use vstd::std_specs::iter::IteratorSpec;

verus! {

broadcast use vstd::string::next_postcondition, vstd::string::axiom_spec_iter;

/// The ASCII whitespace characters.
pub open spec fn spec_is_ascii_whitespace(c: char) -> bool {
    c == ' ' || c == '\t' || c == '\n' || c == '\u{c}' || c == '\r'
}

/// The characters accepted as comment decoration after a line break.
pub open spec fn spec_is_comment_char(c: char) -> bool {
    c == '-' || c == '#' || c == ';' || c == '/' || c == '*'
}

/// Where the flexible-whitespace run that a prototype space may stand for
/// ends, starting at `j` in `prac`.  A line break starts a fresh line;
/// comment characters are accepted only while at the start of a line;
/// ordinary whitespace after comment decoration re-arms line breaking.
pub open spec fn spec_flex_space_end(
    prac: Seq<char>,
    j: int,
    line_broken: bool,
    comment_seen: bool,
) -> int
    decreases prac.len() - j,
{
    if j < 0 || j >= prac.len() {
        j
    } else {
        let c = prac[j];
        if c == '\r' || c == '\n' {
            spec_flex_space_end(prac, j + 1, true, false)
        } else if spec_is_ascii_whitespace(c) {
            if comment_seen {
                spec_flex_space_end(prac, j + 1, false, false)
            } else {
                spec_flex_space_end(prac, j + 1, line_broken, comment_seen)
            }
        } else if line_broken && spec_is_comment_char(c) {
            spec_flex_space_end(prac, j + 1, line_broken, true)
        } else {
            j
        }
    }
}

/// The prototype from index `i` on matches the practice from index `j` on.
/// A prototype space stands for a flexible-whitespace run that must be
/// non-empty and must leave at least one character of practice; every other
/// prototype character must appear verbatim, and the practice must be
/// exhausted exactly when the prototype is.
pub open spec fn spec_prototype_matches(proto: Seq<char>, prac: Seq<char>, i: int, j: int) -> bool
    decreases proto.len() - i,
{
    if i < 0 || i >= proto.len() {
        j == prac.len()
    } else if proto[i] == ' ' {
        let e = spec_flex_space_end(prac, j, false, false);
        if e >= prac.len() || e == j {
            false
        } else {
            spec_prototype_matches(proto, prac, i + 1, e)
        }
    } else {
        0 <= j < prac.len() && prac[j] == proto[i] && spec_prototype_matches(
            proto,
            prac,
            i + 1,
            j + 1,
        )
    }
}

/// Collects the characters of `s` in order.
fn chars_of(s: &str) -> (v: Vec<char>)
    ensures
        v@ == s@,
{
    let mut it = s.chars();
    let mut v: Vec<char> = Vec::new();
    proof {
        assert(it.remaining() =~= s@.skip(0));
        assert(v@ =~= s@.take(0));
    }
    loop
        invariant
            0 <= v@.len() <= s@.len(),
            it.obeys_prophetic_iter_laws(),
            it.remaining() == s@.skip(v@.len() as int),
            v@ == s@.take(v@.len() as int),
        decreases s@.len() - v@.len(),
    {
        let ghost n = v@.len() as int;
        match it.next() {
            Some(c) => {
                proof {
                    assert(s@.skip(n)[0] == s@[n]);
                }
                v.push(c);
                proof {
                    assert(s@.skip(n).drop_first() =~= s@.skip(n + 1));
                    assert(v@ =~= s@.take(n + 1));
                }
            },
            None => {
                proof {
                    assert(v@ =~= s@);
                }
                return v;
            },
        }
    }
}

/// Decides whether `c` is ASCII whitespace.
fn is_ascii_whitespace_char(c: char) -> (r: bool)
    ensures
        r == spec_is_ascii_whitespace(c),
{
    c == ' ' || c == '\t' || c == '\n' || c == '\u{c}' || c == '\r'
}

/// Decides whether `c` is accepted as comment decoration.
fn is_comment_char(c: char) -> (r: bool)
    ensures
        r == spec_is_comment_char(c),
{
    c == '-' || c == '#' || c == ';' || c == '/' || c == '*'
}

/// Walks the flexible-whitespace run starting at `start`: the index where
/// it ends, or `None` when it runs off the end of the practice text.
fn skip_flexible_space(prac: &Vec<char>, start: usize) -> (r: Option<usize>)
    requires
        start <= prac@.len(),
    ensures
        ({
            let e = spec_flex_space_end(prac@, start as int, false, false);
            match r {
                Some(k) => k as int == e && e < prac@.len() && start <= k,
                None => e == prac@.len(),
            }
        }),
{
    let mut j = start;
    let mut line_broken = false;
    let mut comment_seen = false;
    while j < prac.len()
        invariant
            start <= j <= prac@.len(),
            spec_flex_space_end(prac@, start as int, false, false) == spec_flex_space_end(
                prac@,
                j as int,
                line_broken,
                comment_seen,
            ),
        decreases prac@.len() - j,
    {
        let c = prac[j];
        if c == '\r' || c == '\n' {
            line_broken = true;
            comment_seen = false;
        } else if is_ascii_whitespace_char(c) {
            if comment_seen {
                line_broken = false;
                comment_seen = false;
            }
        } else if line_broken && is_comment_char(c) {
            comment_seen = true;
        } else {
            return Some(j);
        }
        j = j + 1;
    }
    None
}

/// Compares a copyright-notice prototype against practice text: every
/// prototype character must appear verbatim, except that a single space may
/// stand for a non-empty flexible run of whitespace, line breaks and
/// comment decoration.
#[verifier::loop_isolation(false)]
pub fn prototype_matches_practice(prototype: &str, practice: &str) -> (r: bool)
    ensures
        r == spec_prototype_matches(prototype@, practice@, 0, 0),
{
    let proto = chars_of(prototype);
    let prac = chars_of(practice);
    let mut i: usize = 0;
    let mut j: usize = 0;
    while i < proto.len()
        invariant
            0 <= i <= proto@.len(),
            0 <= j <= prac@.len(),
            spec_prototype_matches(prototype@, practice@, 0, 0) == spec_prototype_matches(
                prototype@,
                practice@,
                i as int,
                j as int,
            ),
        decreases proto@.len() - i,
    {
        let pc = proto[i];
        if pc == ' ' {
            match skip_flexible_space(&prac, j) {
                None => {
                    return false;
                },
                Some(e) => {
                    if e == j {
                        return false;
                    }
                    j = e;
                    i = i + 1;
                },
            }
        } else {
            if j == prac.len() {
                return false;
            }
            if prac[j] != pc {
                return false;
            }
            i = i + 1;
            j = j + 1;
        }
    }
    j == prac.len()
}

} // verus!
