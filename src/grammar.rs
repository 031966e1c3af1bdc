//! The character classes of the hosts format and the scanners built on them.
//!
//! Positions are counted in characters. Each scanner moves forward from a
//! position while the character there belongs to a class, and stops at the
//! first one that does not, or at the end of the line.
use vstd::prelude::*;
use vstd::string::StrSliceExecFns;

verus! {

/// Space and tab are the only separators of the hosts format.
pub open spec fn is_ws(c: char) -> bool {
    c == ' ' || c == '\t'
}

/// The alphabet of a candidate address: hexadecimal digits, `.` and `:`.
pub open spec fn is_addr_char(c: char) -> bool {
    ('0' <= c && c <= '9') || ('a' <= c && c <= 'f') || ('A' <= c && c <= 'F') || c == '.' || c
        == ':'
}

/// The first position at or after `i` that holds no separator.
pub open spec fn skip_ws(s: Seq<char>, i: int) -> int
    decreases s.len() - i,
{
    if 0 <= i < s.len() && is_ws(s[i]) {
        skip_ws(s, i + 1)
    } else {
        i
    }
}

/// The first position at or after `i` that holds a separator, or the end.
pub open spec fn word_end(s: Seq<char>, i: int) -> int
    decreases s.len() - i,
{
    if 0 <= i < s.len() && !is_ws(s[i]) {
        word_end(s, i + 1)
    } else {
        i
    }
}

/// The end of the maximal run of address characters that starts at `i`.
pub open spec fn addr_end(s: Seq<char>, i: int) -> int
    decreases s.len() - i,
{
    if 0 <= i < s.len() && is_addr_char(s[i]) {
        addr_end(s, i + 1)
    } else {
        i
    }
}

/// The hostnames from position `i` on: the whitespace-separated words up to
/// the end of the line or up to the first word that starts with `#`.
pub open spec fn names_from(s: Seq<char>, i: int) -> Seq<Seq<char>>
    decreases s.len() - i,
    via names_from_decreases
{
    let j = skip_ws(s, i);
    if j < 0 || j >= s.len() || s[j] == '#' {
        seq![]
    } else {
        let k = word_end(s, j);
        seq![s.subrange(j, k)] + names_from(s, k)
    }
}

/// All whitespace-separated words from position `i` on.
pub open spec fn words_from(s: Seq<char>, i: int) -> Seq<Seq<char>>
    decreases s.len() - i,
    via words_from_decreases
{
    let j = skip_ws(s, i);
    if j < 0 || j >= s.len() {
        seq![]
    } else {
        let k = word_end(s, j);
        seq![s.subrange(j, k)] + words_from(s, k)
    }
}

#[via_fn]
proof fn words_from_decreases(s: Seq<char>, i: int) {
    lemma_skip_ws_bounds(s, i);
    let j = skip_ws(s, i);
    if 0 <= j < s.len() {
        lemma_word_end_bounds(s, j);
    }
}

/// The words before the first one that starts with `#`.
pub open spec fn before_comment(words: Seq<Seq<char>>) -> Seq<Seq<char>>
    decreases words.len(),
{
    if words.len() == 0 || words[0].len() == 0 || words[0][0] == '#' {
        seq![]
    } else {
        seq![words[0]] + before_comment(words.drop_first())
    }
}

/// The hostnames from a position are its words up to a comment.
pub proof fn lemma_names_are_words(s: Seq<char>, i: int)
    ensures
        names_from(s, i) == before_comment(words_from(s, i)),
    decreases s.len() - i,
{
    lemma_skip_ws_bounds(s, i);
    let j = skip_ws(s, i);
    if 0 <= j < s.len() {
        lemma_word_end_bounds(s, j);
        let k = word_end(s, j);
        let ws = words_from(s, i);
        assert(ws[0] == s.subrange(j, k));
        assert(ws[0][0] == s[j]);
        assert(ws.drop_first() =~= words_from(s, k));
        if s[j] != '#' {
            lemma_names_are_words(s, k);
        }
    }
}

/// Inside the word that starts at `j`, the run of address characters is the
/// one at the start of the word taken alone.
pub proof fn lemma_addr_in_word(s: Seq<char>, j: int, m: int)
    requires
        0 <= j <= m <= word_end(s, j),
        j < s.len(),
    ensures
        addr_end(s, m) == j + addr_end(s.subrange(j, word_end(s, j)), m - j),
    decreases word_end(s, j) - m,
{
    lemma_word_end_bounds(s, j);
    let w = s.subrange(j, word_end(s, j));
    if m < word_end(s, j) {
        assert(w[m - j] == s[m]);
        lemma_addr_in_word(s, j, m + 1);
        assert(m + 1 - j == m - j + 1);
    }
}

#[via_fn]
proof fn names_from_decreases(s: Seq<char>, i: int) {
    lemma_skip_ws_bounds(s, i);
    let j = skip_ws(s, i);
    if 0 <= j < s.len() && s[j] != '#' {
        lemma_word_end_bounds(s, j);
    }
}

/// `skip_ws` never moves backwards, and from a position inside the line it
/// stays inside the line, or stops at its end.
pub proof fn lemma_skip_ws_bounds(s: Seq<char>, i: int)
    ensures
        i <= skip_ws(s, i),
        0 <= i <= s.len() ==> skip_ws(s, i) <= s.len(),
        0 <= i && skip_ws(s, i) < s.len() ==> !is_ws(s[skip_ws(s, i)]),
    decreases s.len() - i,
{
    if 0 <= i < s.len() && is_ws(s[i]) {
        lemma_skip_ws_bounds(s, i + 1);
    }
}

/// `word_end` moves past every character that is not a separator, at least
/// one when there is one at `i`.
pub proof fn lemma_word_end_bounds(s: Seq<char>, i: int)
    ensures
        i <= word_end(s, i),
        0 <= i <= s.len() ==> word_end(s, i) <= s.len(),
        0 <= i < s.len() && !is_ws(s[i]) ==> i < word_end(s, i),
        forall|m: int| i <= m < word_end(s, i) ==> 0 <= m < s.len() && !is_ws(#[trigger] s[m]),
        0 <= i && word_end(s, i) < s.len() ==> is_ws(s[word_end(s, i)]),
    decreases s.len() - i,
{
    if 0 <= i < s.len() && !is_ws(s[i]) {
        lemma_word_end_bounds(s, i + 1);
    }
}

/// The characters from `i` up to `addr_end(s, i)` are address characters.
pub proof fn lemma_addr_end_bounds(s: Seq<char>, i: int)
    ensures
        i <= addr_end(s, i),
        0 <= i <= s.len() ==> addr_end(s, i) <= s.len(),
        forall|m: int|
            i <= m < addr_end(s, i) ==> 0 <= m < s.len() && is_addr_char(#[trigger] s[m]),
    decreases s.len() - i,
{
    if 0 <= i < s.len() && is_addr_char(s[i]) {
        lemma_addr_end_bounds(s, i + 1);
    }
}

/// A run of separators from `i` to `e`, followed by the end of the line or
/// by another character, is what `skip_ws` skips.
pub proof fn lemma_ws_run(s: Seq<char>, i: int, e: int)
    requires
        0 <= i <= e <= s.len(),
        forall|m: int| i <= m < e ==> is_ws(#[trigger] s[m]),
        e == s.len() || !is_ws(s[e]),
    ensures
        skip_ws(s, i) == e,
    decreases e - i,
{
    if i < e {
        lemma_ws_run(s, i + 1, e);
    }
}

/// A run of other characters from `i` to `e`, followed by the end of the line
/// or by a separator, is one word.
pub proof fn lemma_word_run(s: Seq<char>, i: int, e: int)
    requires
        0 <= i <= e <= s.len(),
        forall|m: int| i <= m < e ==> !is_ws(#[trigger] s[m]),
        e == s.len() || is_ws(s[e]),
    ensures
        word_end(s, i) == e,
    decreases e - i,
{
    if i < e {
        lemma_word_run(s, i + 1, e);
    }
}

/// A run of address characters from `i` to `e`, followed by the end of the
/// line or by another character, is what `addr_end` scans.
pub proof fn lemma_addr_run(s: Seq<char>, i: int, e: int)
    requires
        0 <= i <= e <= s.len(),
        forall|m: int| i <= m < e ==> is_addr_char(#[trigger] s[m]),
        e == s.len() || !is_addr_char(s[e]),
    ensures
        addr_end(s, i) == e,
    decreases e - i,
{
    if i < e {
        lemma_addr_run(s, i + 1, e);
    }
}

/// A line `t` that ends, from `d` characters on, as `s` does from position
/// `i` on: every scan from there moves by `d` in `t`.
pub proof fn lemma_offset_scans(s: Seq<char>, t: Seq<char>, d: int, i: int)
    requires
        0 <= i,
        0 <= d,
        t.len() == s.len() + d,
        forall|m: int| i <= m < s.len() ==> #[trigger] t[m + d] == s[m],
    ensures
        skip_ws(t, i + d) == skip_ws(s, i) + d,
        word_end(t, i + d) == word_end(s, i) + d,
        addr_end(t, i + d) == addr_end(s, i) + d,
    decreases s.len() - i,
{
    if i < s.len() {
        assert(t[i + d] == s[i]);
        lemma_offset_scans(s, t, d, i + 1);
        assert(i + 1 + d == i + d + 1);
    }
}

/// A line `t` that ends, from `d` characters on, as `s` does from position
/// `i` on: the hostnames from there are those of `s`.
pub proof fn lemma_offset_names(s: Seq<char>, t: Seq<char>, d: int, i: int)
    requires
        0 <= i,
        0 <= d,
        t.len() == s.len() + d,
        forall|m: int| i <= m < s.len() ==> #[trigger] t[m + d] == s[m],
    ensures
        names_from(t, i + d) == names_from(s, i),
    decreases s.len() - i,
{
    lemma_offset_scans(s, t, d, i);
    lemma_skip_ws_bounds(s, i);
    let j = skip_ws(s, i);
    if j < s.len() {
        assert(t[j + d] == s[j]);
        if s[j] != '#' {
            lemma_offset_scans(s, t, d, j);
            lemma_word_end_bounds(s, j);
            let k = word_end(s, j);
            assert forall|x: int| 0 <= x < k - j implies #[trigger] t.subrange(j + d, k + d)[x]
                == s.subrange(j, k)[x] by {
                assert(t[(j + x) + d] == s[j + x]);
            }
            assert(t.subrange(j + d, k + d) =~= s.subrange(j, k));
            lemma_offset_names(s, t, d, k);
        }
    }
}

/// A line `t` that goes on after `s` with a separator: scans from inside `s`
/// end where they end in `s`, except that a run of separators that reaches
/// the end of `s` goes on into `t`.
pub proof fn lemma_prefix_scans(s: Seq<char>, t: Seq<char>, i: int)
    requires
        0 <= i <= s.len() < t.len(),
        t.subrange(0, s.len() as int) == s,
        is_ws(t[s.len() as int]),
    ensures
        word_end(t, i) == word_end(s, i),
        addr_end(t, i) == addr_end(s, i),
        skip_ws(s, i) < s.len() ==> skip_ws(t, i) == skip_ws(s, i),
        skip_ws(s, i) >= s.len() ==> skip_ws(t, i) == skip_ws(t, s.len() as int),
    decreases s.len() - i,
{
    if i < s.len() {
        assert(t[i] == t.subrange(0, s.len() as int)[i]);
        lemma_prefix_scans(s, t, i + 1);
    }
}

/// Tests whether `c` is a separator.
pub fn is_separator(c: char) -> (r: bool)
    ensures
        r == is_ws(c),
{
    c == ' ' || c == '\t'
}

/// Tests whether `c` may stand in a candidate address.
pub fn is_address_char(c: char) -> (r: bool)
    ensures
        r == is_addr_char(c),
{
    ('0' <= c && c <= '9') || ('a' <= c && c <= 'f') || ('A' <= c && c <= 'F') || c == '.' || c
        == ':'
}

/// Moves from `i` past a run of separators.
pub fn skip_separators(s: &str, len: usize, i: usize) -> (r: usize)
    requires
        len == s@.len(),
        i <= len,
    ensures
        r == skip_ws(s@, i as int),
        i <= r <= len,
        r < len ==> !is_ws(s@[r as int]),
{
    let mut k: usize = i;
    while k < len && is_separator(s.get_char(k))
        invariant
            len == s@.len(),
            i <= k <= len,
            skip_ws(s@, k as int) == skip_ws(s@, i as int),
        decreases len - k,
    {
        k = k + 1;
    }
    k
}

/// Moves from `i` to the end of the word that starts there.
pub fn skip_word(s: &str, len: usize, i: usize) -> (r: usize)
    requires
        len == s@.len(),
        i <= len,
    ensures
        r == word_end(s@, i as int),
        i <= r <= len,
        i < len && !is_ws(s@[i as int]) ==> i < r,
{
    let mut k: usize = i;
    while k < len && !is_separator(s.get_char(k))
        invariant
            len == s@.len(),
            i <= k <= len,
            word_end(s@, k as int) == word_end(s@, i as int),
        decreases len - k,
    {
        k = k + 1;
    }
    k
}

/// Moves from `i` to the end of the run of address characters there.
pub fn skip_address(s: &str, len: usize, i: usize) -> (r: usize)
    requires
        len == s@.len(),
        i <= len,
    ensures
        r == addr_end(s@, i as int),
        i <= r <= len,
{
    let mut k: usize = i;
    while k < len && is_address_char(s.get_char(k))
        invariant
            len == s@.len(),
            i <= k <= len,
            addr_end(s@, k as int) == addr_end(s@, i as int),
        decreases len - k,
    {
        k = k + 1;
    }
    k
}

} // verus!
