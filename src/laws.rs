//! Properties of the parsers that hold for all inputs.
use vstd::prelude::*;
use crate::entry::{
    address_token_of, entry_of, token_end, token_start, Address, EntryFault,
};
use crate::file::{file_of, file_upto, is_skipped, lemma_error_persists, trimmed, FileFault};
use crate::grammar::{
    addr_end, before_comment, is_addr_char, is_ws, lemma_addr_end_bounds, lemma_addr_in_word,
    lemma_addr_run, lemma_names_are_words, lemma_offset_names, lemma_offset_scans,
    lemma_prefix_scans, lemma_skip_ws_bounds, lemma_word_end_bounds, lemma_word_run, lemma_ws_run,
    names_from, skip_ws, word_end, words_from,
};

verus! {

/// A word that can stand as a hostname: not empty, without separators, and
/// not the start of a comment.
pub open spec fn is_plain_name(name: Seq<char>) -> bool {
    &&& name.len() > 0
    &&& name[0] != '#'
    &&& forall|m: int| 0 <= m < name.len() ==> !is_ws(#[trigger] name[m])
}

/// The names, each after one space.
pub open spec fn spaced(names: Seq<Seq<char>>) -> Seq<char>
    decreases names.len(),
{
    if names.len() == 0 {
        seq![]
    } else {
        seq![' '] + names[0] + spaced(names.drop_first())
    }
}

/// Reading the hostnames back from names that were each put after a space.
proof fn lemma_spaced_names(names: Seq<Seq<char>>)
    requires
        forall|m: int| 0 <= m < names.len() ==> is_plain_name(#[trigger] names[m]),
    ensures
        names_from(spaced(names), 0) == names,
    decreases names.len(),
{
    let s = spaced(names);
    if names.len() == 0 {
        assert(names_from(s, 0) =~= names);
    } else {
        let w = names[0];
        let r = names.drop_first();
        let rest = spaced(r);
        assert(is_plain_name(w));
        assert forall|m: int| 0 <= m < r.len() implies is_plain_name(#[trigger] r[m]) by {
            assert(r[m] == names[m + 1]);
        }
        lemma_spaced_names(r);
        let e = 1 + w.len() as int;
        assert(s[0] == ' ');
        assert(s[1] == w[0]);
        lemma_ws_run(s, 0, 1);
        assert forall|m: int| 1 <= m < e implies !is_ws(#[trigger] s[m]) by {
            assert(s[m] == w[m - 1]);
        }
        if r.len() > 0 {
            assert(s[e] == rest[0]);
        }
        lemma_word_run(s, 1, e);
        assert(s.subrange(1, e) =~= w);
        assert forall|m: int| 0 <= m < rest.len() implies #[trigger] s[m + e] == rest[m] by {}
        lemma_offset_names(rest, s, e, 0);
        assert(names_from(s, 0) =~= seq![w] + r);
        assert(seq![w] + r =~= names);
    }
}

/// An address literal followed by hostnames, each after one space, makes an
/// entry of that address with those names, in their order: the address
/// token is the literal, and the entry holds whatever address the parser
/// read from it.
pub proof fn lemma_names_in_order(literal: Seq<char>, names: Seq<Seq<char>>, address: Address)
    requires
        literal.len() > 0,
        forall|m: int| 0 <= m < literal.len() ==> is_addr_char(#[trigger] literal[m]),
        names.len() > 0,
        forall|m: int| 0 <= m < names.len() ==> is_plain_name(#[trigger] names[m]),
    ensures
        address_token_of(literal + spaced(names)) == literal,
        entry_of(literal + spaced(names), Ok(address)) == Ok::<
            (Address, Seq<Seq<char>>),
            EntryFault,
        >((address, names)),
{
    let tail = spaced(names);
    let line = literal + tail;
    let n = literal.len() as int;
    assert(line[0] == literal[0]);
    lemma_ws_run(line, 0, 0);
    assert forall|m: int| 0 <= m < n implies is_addr_char(#[trigger] line[m]) by {
        assert(line[m] == literal[m]);
    }
    assert(tail[0] == ' ');
    assert(line[n] == tail[0]);
    lemma_addr_run(line, 0, n);
    assert(line.subrange(0, n) =~= literal);
    assert forall|m: int| 0 <= m < tail.len() implies #[trigger] line[m + n] == tail[m] by {}
    lemma_offset_names(tail, line, n, 0);
    lemma_spaced_names(names);
}

/// An address literal, one space and one hostname make an entry of that
/// address with that single name: the address token is the literal, and the
/// entry holds whatever address the parser read from it.
pub proof fn lemma_single_name(literal: Seq<char>, name: Seq<char>, address: Address)
    requires
        literal.len() > 0,
        forall|m: int| 0 <= m < literal.len() ==> is_addr_char(#[trigger] literal[m]),
        name.len() > 0,
        name[0] != '#',
        forall|m: int| 0 <= m < name.len() ==> !is_ws(#[trigger] name[m]),
    ensures
        address_token_of(literal + seq![' '] + name) == literal,
        entry_of(literal + seq![' '] + name, Ok(address)) == Ok::<
            (Address, Seq<Seq<char>>),
            EntryFault,
        >((address, seq![name])),
{
    let names = seq![name];
    assert(names.drop_first().len() == 0);
    assert(spaced(names.drop_first()) == Seq::<char>::empty());
    assert(names[0] == name);
    assert(spaced(names) =~= seq![' '] + name);
    assert(literal + seq![' '] + name =~= literal + spaced(names));
    lemma_names_in_order(literal, names, address);
}

/// Leading spaces and tabs, any number of them, change neither the address
/// token nor the entry.
pub proof fn lemma_leading_whitespace(
    prefix: Seq<char>,
    line: Seq<char>,
    address: Result<Address, Seq<char>>,
)
    requires
        forall|m: int| 0 <= m < prefix.len() ==> is_ws(#[trigger] prefix[m]),
    ensures
        address_token_of(prefix + line) == address_token_of(line),
        entry_of(prefix + line, address) == entry_of(line, address),
{
    let t = prefix + line;
    let p = prefix.len() as int;
    assert forall|m: int| 0 <= m < p implies is_ws(#[trigger] t[m]) by {
        assert(t[m] == prefix[m]);
    }
    assert forall|m: int| 0 <= m < line.len() implies #[trigger] t[m + p] == line[m] by {}
    lemma_skip_prefix(t, p, 0);
    lemma_offset_scans(line, t, p, 0);
    lemma_skip_ws_bounds(line, 0);
    let ts = token_start(line);
    lemma_offset_scans(line, t, p, ts);
    lemma_addr_end_bounds(line, ts);
    let te = token_end(line);
    assert(t.subrange(ts + p, te + p) =~= line.subrange(ts, te));
    if te < line.len() {
        assert(t[te + p] == line[te]);
    }
    lemma_offset_names(line, t, p, te);
}

/// Skipping separators from inside a leading run of them ends where skipping
/// from the end of that run does.
proof fn lemma_skip_prefix(t: Seq<char>, p: int, i: int)
    requires
        0 <= i <= p <= t.len(),
        forall|m: int| 0 <= m < p ==> is_ws(#[trigger] t[m]),
    ensures
        skip_ws(t, i) == skip_ws(t, p),
    decreases p - i,
{
    if i < p {
        lemma_skip_prefix(t, p, i + 1);
    }
}

/// A comment after the hostnames changes nothing: a line whose address is
/// followed by a separator has the same address token and the same entry
/// when a separator, `#` and any text are put after it.
pub proof fn lemma_trailing_comment(
    line: Seq<char>,
    c: char,
    comment: Seq<char>,
    address: Result<Address, Seq<char>>,
)
    requires
        token_end(line) < line.len(),
        is_ws(line[token_end(line)]),
        is_ws(c),
    ensures
        address_token_of(line + seq![c, '#'] + comment) == address_token_of(line),
        entry_of(line + seq![c, '#'] + comment, address) == entry_of(line, address),
{
    let s = line;
    let t = line + seq![c, '#'] + comment;
    let n = s.len() as int;
    assert(t.subrange(0, n) =~= s);
    assert(t[n] == c);
    assert(t[n + 1] == '#');
    lemma_skip_ws_bounds(s, 0);
    lemma_prefix_scans(s, t, 0);
    let ts = token_start(s);
    lemma_addr_end_bounds(s, ts);
    if ts >= n {
        lemma_addr_run(s, ts, ts);
    }
    lemma_prefix_scans(s, t, ts);
    let te = token_end(s);
    assert(t.subrange(ts, te) =~= s.subrange(ts, te));
    assert(t[te] == s[te]);
    lemma_comment_tail_names(s, t, te);
}

/// The hostnames from inside `s` are those of `t`, in which `s` goes on
/// with a separator and `#`.
proof fn lemma_comment_tail_names(s: Seq<char>, t: Seq<char>, i: int)
    requires
        0 <= i <= s.len(),
        s.len() + 2 <= t.len(),
        t.subrange(0, s.len() as int) == s,
        is_ws(t[s.len() as int]),
        t[s.len() + 1 as int] == '#',
    ensures
        names_from(t, i) == names_from(s, i),
    decreases s.len() - i,
{
    let n = s.len() as int;
    lemma_prefix_scans(s, t, i);
    lemma_skip_ws_bounds(s, i);
    let j = skip_ws(s, i);
    if j < n {
        assert(t[j] == t.subrange(0, n)[j]);
        if s[j] != '#' {
            lemma_prefix_scans(s, t, j);
            lemma_word_end_bounds(s, j);
            let w = word_end(s, j);
            assert(t.subrange(j, w) =~= s.subrange(j, w));
            lemma_comment_tail_names(s, t, w);
        }
    } else {
        assert(skip_ws(t, n) == skip_ws(t, n + 1));
        assert(skip_ws(t, n + 1) == n + 1);
    }
}

/// The address token, read from the words of a line: the run of address
/// characters at the start of the first word.
pub open spec fn token_of_words(words: Seq<Seq<char>>) -> Seq<char> {
    if words.len() == 0 {
        seq![]
    } else {
        words[0].subrange(0, addr_end(words[0], 0))
    }
}

/// The entry, read from the words of a line: the first word must be the
/// address token alone, and the hostnames are the words after it up to a
/// comment.
pub open spec fn entry_of_words(
    words: Seq<Seq<char>>,
    address: Result<Address, Seq<char>>,
) -> Result<(Address, Seq<Seq<char>>), EntryFault> {
    match address {
        Err(d) => Err(EntryFault::InvalidAddress(d)),
        Ok(a) => if words.len() == 0 {
            Err(EntryFault::MissingHostname)
        } else if addr_end(words[0], 0) < words[0].len() {
            Err(EntryFault::MissingSeparator)
        } else if before_comment(words.drop_first()).len() == 0 {
            Err(EntryFault::MissingHostname)
        } else {
            Ok((a, before_comment(words.drop_first())))
        },
    }
}

/// A line's address token and entry depend on its words alone.
proof fn lemma_entry_by_words(line: Seq<char>, address: Result<Address, Seq<char>>)
    ensures
        address_token_of(line) == token_of_words(words_from(line, 0)),
        entry_of(line, address) == entry_of_words(words_from(line, 0), address),
{
    let s = line;
    let ws = words_from(s, 0);
    lemma_skip_ws_bounds(s, 0);
    let j = token_start(s);
    lemma_names_are_words(s, token_end(s));
    if j >= s.len() {
        lemma_addr_run(s, j, j);
        lemma_ws_run(s, j, j);
        assert(words_from(s, j) =~= Seq::<Seq<char>>::empty());
        assert(ws =~= Seq::<Seq<char>>::empty());
        assert(address_token_of(s) =~= Seq::<char>::empty());
    } else {
        lemma_word_end_bounds(s, j);
        let we = word_end(s, j);
        let w = s.subrange(j, we);
        assert(ws[0] == w);
        assert(ws.drop_first() =~= words_from(s, we));
        lemma_addr_in_word(s, j, j);
        lemma_addr_end_bounds(w, 0);
        let te = token_end(s);
        assert(te == j + addr_end(w, 0));
        assert(s.subrange(j, te) =~= w.subrange(0, addr_end(w, 0)));
        if te < we {
            assert(!is_ws(s[te]));
        }
    }
}

/// Spaces and tabs are interchangeable, in any mix and in runs of any length,
/// and leading whitespace does not count: two lines with the same words have
/// the same address token and the same entry.
pub proof fn lemma_same_words(
    line1: Seq<char>,
    line2: Seq<char>,
    address: Result<Address, Seq<char>>,
)
    requires
        words_from(line1, 0) == words_from(line2, 0),
    ensures
        address_token_of(line1) == address_token_of(line2),
        entry_of(line1, address) == entry_of(line2, address),
{
    lemma_entry_by_words(line1, address);
    lemma_entry_by_words(line2, address);
}

/// A comment line or a blank line adds nothing to the entries of a file.
pub proof fn lemma_skipped_line_adds_nothing(
    lines: Seq<Seq<char>>,
    addresses: Seq<Result<Address, Seq<char>>>,
    line: Seq<char>,
    address: Result<Address, Seq<char>>,
)
    requires
        lines.len() == addresses.len(),
        is_skipped(line),
    ensures
        file_of(lines.push(line), addresses.push(address), None) == file_of(
            lines,
            addresses,
            None,
        ),
{
    lemma_prefix_only(lines, addresses, line, address, lines.len());
}

/// A comment line or a blank line inserted anywhere in a file that parses
/// leaves its entries as they were, in the same order.
pub proof fn lemma_skipped_line_anywhere(
    lines: Seq<Seq<char>>,
    addresses: Seq<Result<Address, Seq<char>>>,
    k: int,
    line: Seq<char>,
    address: Result<Address, Seq<char>>,
    entries: Seq<(Address, Seq<Seq<char>>)>,
)
    requires
        lines.len() == addresses.len(),
        0 <= k <= lines.len(),
        is_skipped(line),
        file_of(lines, addresses, None) == Ok::<Seq<(Address, Seq<Seq<char>>)>, FileFault>(
            entries,
        ),
    ensures
        file_of(lines.insert(k, line), addresses.insert(k, address), None) == Ok::<
            Seq<(Address, Seq<Seq<char>>)>,
            FileFault,
        >(entries),
{
    lemma_inserted_skipped(lines, addresses, k, line, address, lines.len());
}

/// With a skipped line inserted at `k`, the first `n + 1` lines fare as the
/// first `n` did before, as long as those parse; before `k` nothing changes.
proof fn lemma_inserted_skipped(
    lines: Seq<Seq<char>>,
    addresses: Seq<Result<Address, Seq<char>>>,
    k: int,
    line: Seq<char>,
    address: Result<Address, Seq<char>>,
    n: nat,
)
    requires
        lines.len() == addresses.len(),
        0 <= k <= lines.len(),
        n <= lines.len(),
        is_skipped(line),
    ensures
        n <= k ==> file_upto(lines.insert(k, line), addresses.insert(k, address), n)
            == file_upto(lines, addresses, n),
        n >= k && file_upto(lines, addresses, n) is Ok ==> file_upto(
            lines.insert(k, line),
            addresses.insert(k, address),
            n + 1,
        ) == file_upto(lines, addresses, n),
    decreases n,
{
    let ls = lines.insert(k, line);
    let ads = addresses.insert(k, address);
    lines.insert_ensures(k, line);
    addresses.insert_ensures(k, address);
    if n > 0 {
        lemma_inserted_skipped(lines, addresses, k, line, address, (n - 1) as nat);
        if n <= k {
            assert(ls[n - 1] == lines[n - 1]);
            assert(ads[n - 1] == addresses[n - 1]);
        } else if file_upto(lines, addresses, n) is Ok {
            if file_upto(lines, addresses, (n - 1) as nat) is Err {
                lemma_error_persists(lines, addresses, (n - 1) as nat, n);
            }
            assert(ls[n as int] == lines[n - 1]);
            assert(ads[n as int] == addresses[n - 1]);
        }
    }
    if n == k {
        assert(ls[k] == line);
    }
}

/// A valid entry line adds its entry after those of the lines before it.
pub proof fn lemma_entry_line_appends(
    lines: Seq<Seq<char>>,
    addresses: Seq<Result<Address, Seq<char>>>,
    line: Seq<char>,
    address: Result<Address, Seq<char>>,
    entries: Seq<(Address, Seq<Seq<char>>)>,
    entry: (Address, Seq<Seq<char>>),
)
    requires
        lines.len() == addresses.len(),
        file_of(lines, addresses, None) == Ok::<Seq<(Address, Seq<Seq<char>>)>, FileFault>(
            entries,
        ),
        !is_skipped(line),
        entry_of(trimmed(line), address) == Ok::<(Address, Seq<Seq<char>>), EntryFault>(entry),
    ensures
        file_of(lines.push(line), addresses.push(address), None) == Ok::<
            Seq<(Address, Seq<Seq<char>>)>,
            FileFault,
        >(entries.push(entry)),
{
    lemma_prefix_only(lines, addresses, line, address, lines.len());
}

/// The outcome for the first `n` lines does not depend on the lines after
/// them.
proof fn lemma_prefix_only(
    lines: Seq<Seq<char>>,
    addresses: Seq<Result<Address, Seq<char>>>,
    line: Seq<char>,
    address: Result<Address, Seq<char>>,
    n: nat,
)
    requires
        lines.len() == addresses.len(),
        n <= lines.len(),
    ensures
        file_upto(lines.push(line), addresses.push(address), n) == file_upto(lines, addresses, n),
    decreases n,
{
    if n > 0 {
        lemma_prefix_only(lines, addresses, line, address, (n - 1) as nat);
        assert(lines.push(line)[n - 1] == lines[n - 1]);
        assert(addresses.push(address)[n - 1] == addresses[n - 1]);
    }
}

/// The first line that is neither skipped nor a valid entry fails the whole
/// file, with its 1-based number and its content without leading whitespace,
/// whatever the lines after it hold and whether reading went on.
pub proof fn lemma_first_bad_line(
    lines: Seq<Seq<char>>,
    addresses: Seq<Result<Address, Seq<char>>>,
    read_error: Option<Seq<char>>,
    k: nat,
    fault: EntryFault,
)
    requires
        lines.len() == addresses.len(),
        k < lines.len(),
        file_upto(lines, addresses, k) is Ok,
        !is_skipped(lines[k as int]),
        entry_of(trimmed(lines[k as int]), addresses[k as int]) == Err::<
            (Address, Seq<Seq<char>>),
            EntryFault,
        >(fault),
    ensures
        file_of(lines, addresses, read_error) == Err::<Seq<(Address, Seq<Seq<char>>)>, FileFault>(
            FileFault::Line(fault, k + 1 as int, trimmed(lines[k as int])),
        ),
{
    lemma_error_persists(lines, addresses, k + 1, lines.len());
}

/// Parsing is a function of the file's content: the same lines, address
/// outcomes and read outcome give the same result every time.
pub proof fn lemma_parse_deterministic(
    lines1: Seq<Seq<char>>,
    addresses1: Seq<Result<Address, Seq<char>>>,
    read_error1: Option<Seq<char>>,
    lines2: Seq<Seq<char>>,
    addresses2: Seq<Result<Address, Seq<char>>>,
    read_error2: Option<Seq<char>>,
)
    requires
        lines1 == lines2,
        addresses1 == addresses2,
        read_error1 == read_error2,
    ensures
        file_of(lines1, addresses1, read_error1) == file_of(lines2, addresses2, read_error2),
{
}

} // verus!
