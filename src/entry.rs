//! One line of a hosts file: an address followed by its hostnames.
use vstd::prelude::*;
use vstd::string::StrSliceExecFns;
use crate::grammar::{
    addr_end, is_separator, is_ws, names_from, skip_address, skip_separators, skip_word, skip_ws,
};

verus! {

/// An IP address, in the width of its family.
#[derive(Debug, Clone, Copy, PartialEq, Eq)]
pub enum Address {
    V4([u8; 4]),
    V6([u16; 8]),
}

/// A line of a hosts file that maps an address to its hostnames.
#[derive(Debug, Clone, PartialEq)]
pub struct HostEntry {
    pub ip: Address,
    pub names: Vec<String>,
}

/// Why a line is not a valid entry.
#[derive(Debug, Clone, PartialEq)]
pub enum EntryError {
    /// The address token is no IPv4 or IPv6 literal; holds the diagnostic
    /// of the address parser.
    InvalidAddress(String),
    /// No space or tab follows the address token.
    MissingSeparator,
    /// No hostname precedes the end of the line or a comment.
    MissingHostname,
}

/// What an `EntryError` says, with its diagnostic as characters.
pub enum EntryFault {
    InvalidAddress(Seq<char>),
    MissingSeparator,
    MissingHostname,
}

impl View for HostEntry {
    type V = (Address, Seq<Seq<char>>);

    open spec fn view(&self) -> (Address, Seq<Seq<char>>) {
        (self.ip, self.names@.map_values(|n: String| n@))
    }
}

impl View for EntryError {
    type V = EntryFault;

    open spec fn view(&self) -> EntryFault {
        match self {
            EntryError::InvalidAddress(d) => EntryFault::InvalidAddress(d@),
            EntryError::MissingSeparator => EntryFault::MissingSeparator,
            EntryError::MissingHostname => EntryFault::MissingHostname,
        }
    }
}

/// Where the address token of `line` starts: after the leading whitespace.
pub open spec fn token_start(line: Seq<char>) -> int {
    skip_ws(line, 0)
}

/// Where the address token of `line` ends.
pub open spec fn token_end(line: Seq<char>) -> int {
    addr_end(line, token_start(line))
}

/// The candidate address of `line`: the longest run of address characters
/// after the leading whitespace.
pub open spec fn address_token_of(line: Seq<char>) -> Seq<char> {
    line.subrange(token_start(line), token_end(line))
}

/// The address token runs straight into other text: the line goes on after
/// it with a character that is neither a space nor a tab.
pub open spec fn glued(line: Seq<char>) -> bool {
    token_end(line) < line.len() && !is_ws(line[token_end(line)])
}

/// The hostnames of `line`.
pub open spec fn names_of(line: Seq<char>) -> Seq<Seq<char>> {
    names_from(line, token_end(line))
}

/// The entry that `line` stands for, given what the address parser made of
/// its address token.
pub open spec fn entry_of(line: Seq<char>, address: Result<Address, Seq<char>>) -> Result<
    (Address, Seq<Seq<char>>),
    EntryFault,
> {
    match address {
        Err(d) => Err(EntryFault::InvalidAddress(d)),
        Ok(a) => if glued(line) {
            Err(EntryFault::MissingSeparator)
        } else if names_of(line).len() == 0 {
            Err(EntryFault::MissingHostname)
        } else {
            Ok((a, names_of(line)))
        },
    }
}

/// The outcome of the address parser, with its diagnostic as characters.
pub open spec fn address_view(address: Result<Address, String>) -> Result<Address, Seq<char>> {
    match address {
        Ok(a) => Ok(a),
        Err(d) => Err(d@),
    }
}

/// The model of what `parse_entry_with` returns.
pub open spec fn entry_view(r: Result<HostEntry, EntryError>) -> Result<
    (Address, Seq<Seq<char>>),
    EntryFault,
> {
    match r {
        Ok(e) => Ok(e@),
        Err(f) => Err(f@),
    }
}

/// The candidate address of `line`, to be handed to an IPv4/IPv6 address
/// parser. The scan does not check the address grammar: any character
/// outside the address alphabet ends it.
pub fn address_token(line: &str) -> (r: String)
    ensures
        r@ == address_token_of(line@),
{
    let len = line.unicode_len();
    let start = skip_separators(line, len, 0);
    let end = skip_address(line, len, start);
    line.substring_char(start, end).to_owned()
}

/// Parses one line into an entry, given `address`, the outcome of parsing
/// `address_token(line)` as an IPv4 or IPv6 literal (an error holds the
/// parser's diagnostic).
///
/// A character other than a space or a tab right after the address is a
/// missing separator. The hostnames are the whitespace-separated words after
/// the address, up to a word that starts with `#`, and there must be at
/// least one: a line that ends after its address has none.
pub fn parse_entry_with(line: &str, address: Result<Address, String>) -> (r: Result<
    HostEntry,
    EntryError,
>)
    ensures
        entry_view(r) == entry_of(line@, address_view(address)),
{
    let ip = match address {
        Ok(a) => a,
        Err(d) => {
            return Err(EntryError::InvalidAddress(d));
        },
    };
    let len = line.unicode_len();
    let start = skip_separators(line, len, 0);
    let end = skip_address(line, len, start);
    if end < len && !is_separator(line.get_char(end)) {
        return Err(EntryError::MissingSeparator);
    }
    let mut names: Vec<String> = Vec::new();
    let mut i: usize = end;
    loop
        invariant
            len == line@.len(),
            end <= i <= len,
            end == token_end(line@),
            names_of(line@) == names@.map_values(|n: String| n@) + names_from(line@, i as int),
        ensures
            names_of(line@) == names@.map_values(|n: String| n@),
        decreases len - i,
    {
        let j = skip_separators(line, len, i);
        if j == len || line.get_char(j) == '#' {
            proof {
                assert(names_from(line@, i as int) =~= Seq::<Seq<char>>::empty());
                assert(names@.map_values(|n: String| n@) + Seq::<Seq<char>>::empty()
                    =~= names@.map_values(|n: String| n@));
            }
            break;
        }
        let k = skip_word(line, len, j);
        let name = line.substring_char(j, k).to_owned();
        let ghost before = names@;
        names.push(name);
        proof {
            assert(names@.map_values(|n: String| n@) =~= before.map_values(|n: String| n@).push(
                name@,
            ));
            assert(names_from(line@, i as int) == seq![line@.subrange(j as int, k as int)]
                + names_from(line@, k as int));
        }
        i = k;
    }
    if names.len() == 0 {
        return Err(EntryError::MissingHostname);
    }
    Ok(HostEntry { ip, names })
}

} // verus!
