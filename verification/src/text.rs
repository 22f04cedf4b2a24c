//! Verified text predicates.
//!
//! The search filter of the root resolver matches a row when the needle
//! occurs inside a text column, compared after folding ASCII letters to
//! lower case. [`position`] gives the one-based position of the first
//! occurrence of a substring, and zero when there is none.

use vstd::prelude::*;

verus! {

/// ASCII lower-casing of one character; anything but `'A'..='Z'` is
/// unchanged.
pub open spec fn lower_char(c: char) -> char {
    match c {
        'A' => 'a',
        'B' => 'b',
        'C' => 'c',
        'D' => 'd',
        'E' => 'e',
        'F' => 'f',
        'G' => 'g',
        'H' => 'h',
        'I' => 'i',
        'J' => 'j',
        'K' => 'k',
        'L' => 'l',
        'M' => 'm',
        'N' => 'n',
        'O' => 'o',
        'P' => 'p',
        'Q' => 'q',
        'R' => 'r',
        'S' => 's',
        'T' => 't',
        'U' => 'u',
        'V' => 'v',
        'W' => 'w',
        'X' => 'x',
        'Y' => 'y',
        'Z' => 'z',
        _ => c,
    }
}

/// ASCII lower-casing of a character sequence.
pub open spec fn lower_seq(s: Seq<char>) -> Seq<char> {
    s.map_values(|c: char| lower_char(c))
}

/// The pattern occurs in the text starting at position `i`.
pub open spec fn match_at(text: Seq<char>, pat: Seq<char>, i: int) -> bool {
    0 <= i && i + pat.len() <= text.len() && text.subrange(i, i + pat.len()) == pat
}

/// The pattern occurs somewhere in the text.
pub open spec fn text_contains(text: Seq<char>, pat: Seq<char>) -> bool {
    exists|i: int| match_at(text, pat, i)
}

/// The lower-cased lookup a search filter performs.
pub open spec fn contains_folded(text: Seq<char>, pat: Seq<char>) -> bool {
    text_contains(lower_seq(text), lower_seq(pat))
}

/// The lower-case form of an upper-case ASCII letter, as a string slice.
fn lower_az_str(c: char) -> (r: &'static str)
    requires
        'A' <= c && c <= 'Z',
    ensures
        r@ =~= seq![lower_char(c)],
{
    proof {
        reveal_strlit("a");
        reveal_strlit("b");
        reveal_strlit("c");
        reveal_strlit("d");
        reveal_strlit("e");
        reveal_strlit("f");
        reveal_strlit("g");
        reveal_strlit("h");
        reveal_strlit("i");
        reveal_strlit("j");
        reveal_strlit("k");
        reveal_strlit("l");
        reveal_strlit("m");
        reveal_strlit("n");
        reveal_strlit("o");
        reveal_strlit("p");
        reveal_strlit("q");
        reveal_strlit("r");
        reveal_strlit("s");
        reveal_strlit("t");
        reveal_strlit("u");
        reveal_strlit("v");
        reveal_strlit("w");
        reveal_strlit("x");
        reveal_strlit("y");
        reveal_strlit("z");
    }
    match c {
        'A' => "a",
        'B' => "b",
        'C' => "c",
        'D' => "d",
        'E' => "e",
        'F' => "f",
        'G' => "g",
        'H' => "h",
        'I' => "i",
        'J' => "j",
        'K' => "k",
        'L' => "l",
        'M' => "m",
        'N' => "n",
        'O' => "o",
        'P' => "p",
        'Q' => "q",
        'R' => "r",
        'S' => "s",
        'T' => "t",
        'U' => "u",
        'V' => "v",
        'W' => "w",
        'X' => "x",
        'Y' => "y",
        _ => "z",
    }
}

/// ASCII lower-casing of a string.
pub fn lower_string(s: &str) -> (r: String)
    ensures
        r@ == lower_seq(s@),
{
    let n = s.unicode_len();
    let mut out = String::new();
    let mut i: usize = 0;
    while i < n
        invariant
            n == s@.len(),
            i <= n,
            out@ == lower_seq(s@.subrange(0, i as int)),
        decreases n - i,
    {
        let c = s.get_char(i);
        if 'A' <= c && c <= 'Z' {
            out.append(lower_az_str(c));
        } else {
            out.append(s.substring_char(i, i + 1));
        }
        proof {
            assert(s@.subrange(i as int, i + 1) =~= seq![s@[i as int]]);
            assert(lower_seq(s@.subrange(0, i + 1)) =~= lower_seq(
                s@.subrange(0, i as int),
            ) + seq![lower_char(s@[i as int])]);
        }
        i += 1;
    }
    proof {
        assert(s@.subrange(0, n as int) =~= s@);
    }
    out
}

/// Lower-cases the first character of a non-empty string and keeps the
/// rest. The first character must be a one-byte character; multi-byte
/// first characters are outside this function's domain.
pub fn lower_first(input: &str) -> (r: String)
    requires
        input@.len() > 0,
        input@[0] as u32 <= 127,
    ensures
        r@ == seq![lower_char(input@[0])] + input@.skip(1),
{
    let n = input.unicode_len();
    let c = input.get_char(0);
    let first: &str = if 'A' <= c && c <= 'Z' {
        lower_az_str(c)
    } else {
        let f = input.substring_char(0, 1);
        proof {
            assert(f@ =~= seq![lower_char(input@[0])]);
        }
        f
    };
    let rest = input.substring_char(1, n);
    let r = String::from_str(first).concat(rest);
    proof {
        assert(r@ =~= seq![lower_char(input@[0])] + input@.skip(1));
    }
    r
}

/// Whether text and pattern agree, character by character, at offset `i`
/// of the text.
fn check_match(text: &str, pat: &str, i: usize, n: usize, m: usize) -> (r: bool)
    requires
        n == text@.len(),
        m == pat@.len(),
        i + m <= n,
    ensures
        r == match_at(text@, pat@, i as int),
{
    let mut j: usize = 0;
    while j < m
        invariant
            n == text@.len(),
            m == pat@.len(),
            i + m <= n,
            j <= m,
            forall|k: int| 0 <= k < j ==> text@[i + k] == pat@[k],
        decreases m - j,
    {
        if text.get_char(i + j) != pat.get_char(j) {
            assert(text@.subrange(i as int, i + m) != pat@) by {
                assert(text@.subrange(i as int, i + m)[j as int] == text@[i + j]);
            }
            return false;
        }
        j += 1;
    }
    proof {
        assert(text@.subrange(i as int, i + m) =~= pat@);
    }
    true
}

/// One-based position of the first occurrence of `pat` in `text`, or
/// zero when `pat` does not occur; an empty pattern occurs at the start.
pub fn position(text: &str, pat: &str) -> (r: usize)
    ensures
        r == 0 ==> !text_contains(text@, pat@),
        r > 0 ==> match_at(text@, pat@, r - 1) && (forall|j: int|
            0 <= j < r - 1 ==> !match_at(text@, pat@, j)),
{
    let n = text.unicode_len();
    let m = pat.unicode_len();
    if m == 0 {
        proof {
            assert(text@.subrange(0, 0) =~= pat@);
        }
        return 1;
    }
    if m > n {
        return 0;
    }
    let mut i: usize = 0;
    while i <= n - m
        invariant
            n == text@.len(),
            m == pat@.len(),
            0 < m <= n,
            i <= n - m + 1,
            forall|j: int| 0 <= j < i ==> !match_at(text@, pat@, j),
        decreases n - m + 1 - i,
    {
        if check_match(text, pat, i, n, m) {
            return i + 1;
        }
        i += 1;
    }
    proof {
        assert forall|j: int| !match_at(text@, pat@, j) by {
            if j > n - m {
            }
        }
    }
    0
}

/// A prepared substring-position predicate: where its substring first
/// occurs in a text, one-based, and zero when it does not occur.
pub struct Position {
    pub substring: String,
}

impl Position {
    /// One-based position of the first occurrence of the prepared
    /// substring in the text, or zero when there is none.
    pub fn of(&self, text: &str) -> (r: usize)
        ensures
            r == 0 ==> !text_contains(text@, self.substring@),
            r > 0 ==> match_at(text@, self.substring@, r - 1) && (forall|j: int|
                0 <= j < r - 1 ==> !match_at(text@, self.substring@, j)),
    {
        position(text, self.substring.as_str())
    }
}

/// Whether the needle occurs in the text when both are folded to ASCII
/// lower case, as a search filter compares them.
pub fn contains_ci(text: &str, needle: &str) -> (r: bool)
    ensures
        r == contains_folded(text@, needle@),
{
    let lt = lower_string(text);
    let ln = lower_string(needle);
    position(lt.as_str(), ln.as_str()) > 0
}

} // verus!
