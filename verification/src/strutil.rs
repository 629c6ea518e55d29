//! Character-level string utilities: whitespace classification, tokenizing,
//! trimming, searching and equality, each with an exact specification.

use vstd::prelude::*;
use vstd::string::StrSliceExecFns;
use vstd::string::StringExecFns;

verus! {

/// The characters of the Unicode `White_Space` set, the set that
/// `char::is_whitespace` accepts.
pub open spec fn is_space_char(c: char) -> bool {
    c == ' ' || c == '\t' || c == '\n' || c == '\u{b}' || c == '\u{c}' || c == '\r'
        || c == '\u{85}' || c == '\u{a0}' || c == '\u{1680}' || c == '\u{2000}' || c == '\u{2001}'
        || c == '\u{2002}' || c == '\u{2003}' || c == '\u{2004}' || c == '\u{2005}'
        || c == '\u{2006}' || c == '\u{2007}' || c == '\u{2008}' || c == '\u{2009}'
        || c == '\u{200a}' || c == '\u{2028}' || c == '\u{2029}' || c == '\u{202f}'
        || c == '\u{205f}' || c == '\u{3000}'
}

/// Decides `is_space_char`.
pub fn is_space(c: char) -> (r: bool)
    ensures
        r == is_space_char(c),
{
    c == ' ' || c == '\t' || c == '\n' || c == '\u{b}' || c == '\u{c}' || c == '\r'
        || c == '\u{85}' || c == '\u{a0}' || c == '\u{1680}' || c == '\u{2000}' || c == '\u{2001}'
        || c == '\u{2002}' || c == '\u{2003}' || c == '\u{2004}' || c == '\u{2005}'
        || c == '\u{2006}' || c == '\u{2007}' || c == '\u{2008}' || c == '\u{2009}'
        || c == '\u{200a}' || c == '\u{2028}' || c == '\u{2029}' || c == '\u{202f}'
        || c == '\u{205f}' || c == '\u{3000}'
}

/// One step of whitespace splitting: `cur` is the token being read and `acc`
/// the tokens already read, with the scan standing at position `i`.
pub open spec fn split_ws_from(s: Seq<char>, i: int, cur: Seq<char>, acc: Seq<Seq<char>>) -> Seq<
    Seq<char>,
>
    decreases s.len() - i,
{
    if i < 0 || i >= s.len() {
        if cur.len() > 0 {
            acc.push(cur)
        } else {
            acc
        }
    } else if is_space_char(s[i]) {
        if cur.len() > 0 {
            split_ws_from(s, i + 1, Seq::empty(), acc.push(cur))
        } else {
            split_ws_from(s, i + 1, cur, acc)
        }
    } else {
        split_ws_from(s, i + 1, cur.push(s[i]), acc)
    }
}

/// The whitespace-separated tokens of `s`, in order, as
/// `str::split_whitespace` yields them.
pub open spec fn spec_split_ws(s: Seq<char>) -> Seq<Seq<char>> {
    split_ws_from(s, 0, Seq::empty(), Seq::empty())
}

/// The views of a sequence of strings.
pub open spec fn string_views(v: Seq<String>) -> Seq<Seq<char>> {
    Seq::new(v.len(), |i: int| v[i]@)
}

/// Splits `s` on whitespace into its tokens.
#[verifier::loop_isolation(false)]
pub fn split_whitespace_tokens(s: &str) -> (toks: Vec<String>)
    ensures
        string_views(toks@) == spec_split_ws(s@),
{
    let n = s.unicode_len();
    let mut toks: Vec<String> = Vec::new();
    proof {
        assert(string_views(toks@) =~= Seq::<Seq<char>>::empty());
    }
    let mut start: Option<usize> = None;
    let mut i: usize = 0;
    while i < n
        invariant
            i <= n,
            match start {
                Some(a) => a < i && spec_split_ws(s@) == split_ws_from(
                    s@,
                    i as int,
                    s@.subrange(a as int, i as int),
                    string_views(toks@),
                ),
                None => spec_split_ws(s@) == split_ws_from(
                    s@,
                    i as int,
                    Seq::empty(),
                    string_views(toks@),
                ),
            },
        decreases n - i,
    {
        let c = s.get_char(i);
        if is_space(c) {
            match start {
                Some(a) => {
                    let tok = s.substring_char(a, i).to_owned();
                    proof {
                        assert(string_views(toks@.push(tok)) =~= string_views(toks@).push(tok@));
                    }
                    toks.push(tok);
                    start = None;
                },
                None => {},
            }
        } else {
            match start {
                Some(a) => {
                    proof {
                        assert(s@.subrange(a as int, i + 1) =~= s@.subrange(a as int, i as int).push(
                            s@[i as int],
                        ));
                    }
                },
                None => {
                    start = Some(i);
                    proof {
                        assert(s@.subrange(i as int, i + 1) =~= Seq::empty().push(s@[i as int]));
                    }
                },
            }
        }
        i = i + 1;
    }
    match start {
        Some(a) => {
            let tok = s.substring_char(a, n).to_owned();
            proof {
                assert(string_views(toks@.push(tok)) =~= string_views(toks@).push(tok@));
            }
            toks.push(tok);
        },
        None => {},
    }
    toks
}

/// The position where the leading whitespace of `s` ends, scanning from `i`;
/// `s.len()` when everything from `i` on is whitespace.
pub open spec fn start_trim(s: Seq<char>, i: int) -> int
    decreases s.len() - i,
{
    if i < 0 || i >= s.len() {
        s.len() as int
    } else if !is_space_char(s[i]) {
        i
    } else {
        start_trim(s, i + 1)
    }
}

/// The position where the trailing whitespace of `s` begins; `0` when `s` is
/// all whitespace.
pub open spec fn end_trim(s: Seq<char>) -> int
    decreases s.len(),
{
    if s.len() == 0 {
        0
    } else if is_space_char(s.last()) {
        end_trim(s.drop_last())
    } else {
        s.len() as int
    }
}

/// `s` without its surrounding whitespace, as `str::trim` returns it.
pub open spec fn spec_trim(s: Seq<char>) -> Seq<char> {
    if start_trim(s, 0) == s.len() {
        Seq::empty()
    } else {
        s.subrange(start_trim(s, 0), end_trim(s))
    }
}

/// Trims surrounding whitespace from `s`.
#[verifier::loop_isolation(false)]
pub fn trim_str(s: &str) -> (r: String)
    ensures
        r@ == spec_trim(s@),
{
    let n = s.unicode_len();
    let mut a: usize = 0;
    while a < n && is_space(s.get_char(a))
        invariant
            a <= n,
            start_trim(s@, 0) == start_trim(s@, a as int),
        decreases n - a,
    {
        a = a + 1;
    }
    if a == n {
        return String::new();
    }
    let mut b: usize = n;
    proof {
        assert(s@.subrange(0, n as int) =~= s@);
    }
    while b > a && is_space(s.get_char(b - 1))
        invariant
            a < b <= n,
            !is_space_char(s@[a as int]),
            end_trim(s@) == end_trim(s@.subrange(0, b as int)),
        decreases b,
    {
        proof {
            assert(s@.subrange(0, b as int).drop_last() =~= s@.subrange(0, b - 1));
        }
        b = b - 1;
    }
    proof {
        assert(s@.subrange(0, b as int).last() == s@[b - 1]);
    }
    s.substring_char(a, b).to_owned()
}

/// The index of the first `c` in `s` at or after `i`, or `s.len()` when there
/// is none.
pub open spec fn find_char_from(s: Seq<char>, c: char, i: int) -> int
    decreases s.len() - i,
{
    if i < 0 || i >= s.len() {
        s.len() as int
    } else if s[i] == c {
        i
    } else {
        find_char_from(s, c, i + 1)
    }
}

/// Finds the first occurrence of `c` in `s`, returning its index, or the
/// length of `s` when it does not occur.
#[verifier::loop_isolation(false)]
pub fn find_char(s: &str, c: char) -> (r: usize)
    ensures
        r as int == find_char_from(s@, c, 0),
        r <= s@.len(),
        r < s@.len() ==> s@[r as int] == c,
{
    let n = s.unicode_len();
    let mut i: usize = 0;
    while i < n && s.get_char(i) != c
        invariant
            i <= n,
            find_char_from(s@, c, 0) == find_char_from(s@, c, i as int),
        decreases n - i,
    {
        i = i + 1;
    }
    i
}

/// Character-for-character string equality.
#[verifier::loop_isolation(false)]
pub fn str_eq(a: &str, b: &str) -> (r: bool)
    ensures
        r == (a@ == b@),
{
    let an = a.unicode_len();
    let bn = b.unicode_len();
    if an != bn {
        return false;
    }
    let mut i: usize = 0;
    while i < an
        invariant
            i <= an,
            a@.len() == b@.len() == an,
            forall|k: int| 0 <= k < i ==> a@[k] == b@[k],
        decreases an - i,
    {
        if a.get_char(i) != b.get_char(i) {
            return false;
        }
        i = i + 1;
    }
    proof {
        assert(a@ =~= b@);
    }
    true
}

} // verus!
