//! A whole hosts file: its lines in order, comments and blank lines skipped.
use vstd::prelude::*;
use vstd::string::StrSliceExecFns;
use crate::entry::{
    address_view, entry_of, parse_entry_with, Address, EntryError, EntryFault,
    HostEntry,
};
use crate::grammar::{skip_separators, skip_ws};

verus! {

/// Why a hosts file could not be parsed.
#[derive(Debug, Clone, PartialEq)]
pub enum FileError {
    /// Nothing exists at the path.
    NotFound(String),
    /// The path names something other than a regular file.
    NotAFile(String),
    /// The file exists but could not be opened.
    OpenFailed(String),
    /// Reading failed at the given 1-based line, with the diagnostic.
    Read(usize, String),
    /// The line with the given 1-based number and content is no valid entry.
    Line(EntryError, usize, String),
    /// The system's hosts file could not be located.
    Locate(String),
}

/// What a `FileError` says, with its texts as characters.
pub enum FileFault {
    NotFound(Seq<char>),
    NotAFile(Seq<char>),
    OpenFailed(Seq<char>),
    Read(int, Seq<char>),
    Line(EntryFault, int, Seq<char>),
    Locate(Seq<char>),
}

impl View for FileError {
    type V = FileFault;

    open spec fn view(&self) -> FileFault {
        match self {
            FileError::NotFound(p) => FileFault::NotFound(p@),
            FileError::NotAFile(p) => FileFault::NotAFile(p@),
            FileError::OpenFailed(p) => FileFault::OpenFailed(p@),
            FileError::Read(n, d) => FileFault::Read(*n as int, d@),
            FileError::Line(e, n, c) => FileFault::Line(e@, *n as int, c@),
            FileError::Locate(d) => FileFault::Locate(d@),
        }
    }
}

/// A line that is blank, or whose first non-whitespace character is `#`.
pub open spec fn is_skipped(line: Seq<char>) -> bool {
    skip_ws(line, 0) >= line.len() || line[skip_ws(line, 0)] == '#'
}

/// The line without its leading whitespace.
pub open spec fn trimmed(line: Seq<char>) -> Seq<char> {
    line.subrange(skip_ws(line, 0), line.len() as int)
}

/// The entries of the first `n` lines, or the error at the first line among
/// them that is neither skipped nor a valid entry. `addresses[i]` is what the
/// address parser made of the address token of `lines[i]`.
pub open spec fn file_upto(
    lines: Seq<Seq<char>>,
    addresses: Seq<Result<Address, Seq<char>>>,
    n: nat,
) -> Result<Seq<(Address, Seq<Seq<char>>)>, FileFault>
    decreases n,
{
    if n == 0 {
        Ok(seq![])
    } else {
        match file_upto(lines, addresses, (n - 1) as nat) {
            Err(f) => Err(f),
            Ok(es) => {
                let line = lines[n - 1];
                if is_skipped(line) {
                    Ok(es)
                } else {
                    match entry_of(trimmed(line), addresses[n - 1]) {
                        Ok(e) => Ok(es.push(e)),
                        Err(f) => Err(FileFault::Line(f, n as int, trimmed(line))),
                    }
                }
            },
        }
    }
}

/// Once a prefix of the lines fails, every longer prefix fails the same way.
pub proof fn lemma_error_persists(
    lines: Seq<Seq<char>>,
    addresses: Seq<Result<Address, Seq<char>>>,
    k: nat,
    m: nat,
)
    requires
        k <= m,
        file_upto(lines, addresses, k) is Err,
    ensures
        file_upto(lines, addresses, m) == file_upto(lines, addresses, k),
    decreases m - k,
{
    if k < m {
        lemma_error_persists(lines, addresses, k, (m - 1) as nat);
    }
}

/// The outcome for a file whose reading gave `lines` and then, if
/// `read_error` holds a diagnostic, failed on the next line.
pub open spec fn file_of(
    lines: Seq<Seq<char>>,
    addresses: Seq<Result<Address, Seq<char>>>,
    read_error: Option<Seq<char>>,
) -> Result<Seq<(Address, Seq<Seq<char>>)>, FileFault> {
    match file_upto(lines, addresses, lines.len()) {
        Err(f) => Err(f),
        Ok(es) => match read_error {
            None => Ok(es),
            Some(d) => Err(FileFault::Read(lines.len() + 1 as int, d)),
        },
    }
}

/// The model of what `parse_lines` returns.
pub open spec fn file_view(r: Result<Vec<HostEntry>, FileError>) -> Result<
    Seq<(Address, Seq<Seq<char>>)>,
    FileFault,
> {
    match r {
        Ok(es) => Ok(es@.map_values(|e: HostEntry| e@)),
        Err(f) => Err(f@),
    }
}

/// The lines as characters.
pub open spec fn lines_view(lines: Seq<String>) -> Seq<Seq<char>> {
    lines.map_values(|l: String| l@)
}

/// The address parser's outcomes, with their diagnostics as characters.
pub open spec fn addresses_view(addresses: Seq<Result<Address, String>>) -> Seq<
    Result<Address, Seq<char>>,
> {
    addresses.map_values(|a: Result<Address, String>| address_view(a))
}

/// The read diagnostic as characters.
pub open spec fn read_view(read_error: Option<String>) -> Option<Seq<char>> {
    match read_error {
        Some(d) => Some(d@),
        None => None,
    }
}

/// Decides whether a path may be read as a hosts file, from whether
/// something exists there and whether it is a regular file.
pub fn check_source(path: &str, exists: bool, is_file: bool) -> (r: Result<(), FileError>)
    ensures
        !exists ==> r is Err && r->Err_0@ == FileFault::NotFound(path@),
        exists && !is_file ==> r is Err && r->Err_0@ == FileFault::NotAFile(path@),
        exists && is_file ==> r is Ok,
{
    if !exists {
        Err(FileError::NotFound(path.to_owned()))
    } else if !is_file {
        Err(FileError::NotAFile(path.to_owned()))
    } else {
        Ok(())
    }
}

/// Parses the lines of a hosts file, in order. `addresses[i]` is the outcome
/// of parsing `address_token(&lines[i])` as an IPv4 or IPv6 literal;
/// `read_error` holds the diagnostic if reading stopped with an error after
/// these lines.
///
/// Lines that are blank or start with `#` after their leading whitespace are
/// skipped. Every other line, without its leading whitespace, must be a valid
/// entry: the first that is not fails the whole file, with its 1-based number
/// and trimmed content.
pub fn parse_lines(
    lines: &Vec<String>,
    addresses: &Vec<Result<Address, String>>,
    read_error: Option<String>,
) -> (r: Result<Vec<HostEntry>, FileError>)
    requires
        lines.len() == addresses.len(),
        lines.len() < usize::MAX,
    ensures
        file_view(r) == file_of(
            lines_view(lines@),
            addresses_view(addresses@),
            read_view(read_error),
        ),
{
    let ghost ls = lines_view(lines@);
    let ghost ads = addresses_view(addresses@);
    let mut entries: Vec<HostEntry> = Vec::new();
    let n = lines.len();
    let mut i: usize = 0;
    assert(entries@.map_values(|e: HostEntry| e@) =~= Seq::<(Address, Seq<Seq<char>>)>::empty());
    while i < n
        invariant
            n == lines.len(),
            n == addresses.len(),
            n < usize::MAX,
            i <= n,
            ls == lines_view(lines@),
            ads == addresses_view(addresses@),
            file_upto(ls, ads, i as nat) == Ok::<Seq<(Address, Seq<Seq<char>>)>, FileFault>(
                entries@.map_values(|e: HostEntry| e@),
            ),
        decreases n - i,
    {
        let line: &str = lines[i].as_str();
        let len = line.unicode_len();
        let start = skip_separators(line, len, 0);
        if start == len || line.get_char(start) == '#' {
            i = i + 1;
            continue;
        }
        let content = line.substring_char(start, len);
        let address = match &addresses[i] {
            Ok(a) => Ok(*a),
            Err(d) => Err(d.clone()),
        };
        assert(address_view(address) == ads[i as int]);
        match parse_entry_with(content, address) {
            Ok(e) => {
                let ghost before = entries@;
                entries.push(e);
                proof {
                    assert(entries@.map_values(|e: HostEntry| e@) =~= before.map_values(
                        |e: HostEntry| e@,
                    ).push(e@));
                }
            },
            Err(f) => {
                proof {
                    lemma_error_persists(ls, ads, (i + 1) as nat, n as nat);
                }
                return Err(FileError::Line(f, i + 1, content.to_owned()));
            },
        }
        i = i + 1;
    }
    match read_error {
        Some(d) => Err(FileError::Read(n + 1, d)),
        None => Ok(entries),
    }
}

} // verus!
