use hostfile::entry::{address_token, Address, EntryError, HostEntry};
use hostfile::file::{check_source, parse_lines, FileError};

const BAD_ADDRESS: &str = "invalid IP address syntax";

/// What an IPv4/IPv6 address parser reads from the address tokens that
/// these tests use.
fn read_address(token: &str) -> Result<Address, String> {
    match token {
        "127.0.0.1" => Ok(Address::V4([127, 0, 0, 1])),
        "255.255.255.255" => Ok(Address::V4([255, 255, 255, 255])),
        "1.1.1.1" => Ok(Address::V4([1, 1, 1, 1])),
        "1.1.1.2" => Ok(Address::V4([1, 1, 1, 2])),
        "1.1.1.3" => Ok(Address::V4([1, 1, 1, 3])),
        "1.1.1.4" => Ok(Address::V4([1, 1, 1, 4])),
        "1.1.1.5" => Ok(Address::V4([1, 1, 1, 5])),
        "::1" => Ok(Address::V6([0, 0, 0, 0, 0, 0, 0, 1])),
        "bad:dad::ded" => Ok(Address::V6([0xbad, 0xdad, 0, 0, 0, 0, 0, 0xded])),
        _ => Err(BAD_ADDRESS.to_string()),
    }
}

fn parse_text(text: &str, read_error: Option<String>) -> Result<Vec<HostEntry>, FileError> {
    let lines: Vec<String> = text.lines().map(|l| l.to_string()).collect();
    let addresses: Vec<Result<Address, String>> =
        lines.iter().map(|l| read_address(&address_token(l))).collect();
    parse_lines(&lines, &addresses, read_error)
}

fn entry(ip: Address, names: &[&str]) -> HostEntry {
    HostEntry { ip, names: names.iter().map(|n| n.to_string()).collect() }
}

#[test]
fn test_parse_file() {
    let text = "\
            # This is a sample hosts file\n\
               \n# Sometimes hosts files can have wonky spacing
            127.0.0.1       localhost\n\
            ::1             localhost\n\
            255.255.255.255 broadcast\n\
            \n\
            # Comments can really be anywhere\n\
            bad:dad::ded    multiple hostnames for address\n\
            1.1.1.1\ttabSeperatedHostname\n\
            1.1.1.2\t tabAndSpaceSeparatedHostName\n\
            \t1.1.1.3\t\t\tlineStartsWithTab\n\
              1.1.1.4 lineStartsWithSpace\n\
            1.1.1.5 skip_blank_line
        ";
    assert_eq!(
        parse_text(text, None),
        Ok(vec!(
            entry(Address::V4([127, 0, 0, 1]), &["localhost"]),
            entry(Address::V6([0, 0, 0, 0, 0, 0, 0, 1]), &["localhost"]),
            entry(Address::V4([255, 255, 255, 255]), &["broadcast"]),
            entry(
                Address::V6([0xbad, 0xdad, 0, 0, 0, 0, 0, 0xded]),
                &["multiple", "hostnames", "for", "address"]
            ),
            entry(Address::V4([1, 1, 1, 1]), &["tabSeperatedHostname"]),
            entry(Address::V4([1, 1, 1, 2]), &["tabAndSpaceSeparatedHostName"]),
            entry(Address::V4([1, 1, 1, 3]), &["lineStartsWithTab"]),
            entry(Address::V4([1, 1, 1, 4]), &["lineStartsWithSpace"]),
            entry(Address::V4([1, 1, 1, 5]), &["skip_blank_line"]),
        ))
    );
}

#[test]
fn test_parse_file_errors() {
    assert_eq!(
        parse_text("127.0.0.1localhost\n", None),
        Err(FileError::Line(EntryError::MissingSeparator, 1, "127.0.0.1localhost".to_string()))
    );
    assert_eq!(
        parse_text("127.0.0 localhost\n", None),
        Err(FileError::Line(
            EntryError::InvalidAddress(BAD_ADDRESS.to_string()),
            1,
            "127.0.0 localhost".to_string()
        ))
    );
    assert_eq!(
        parse_text("127.0.0 local\nhost\n", None),
        Err(FileError::Line(
            EntryError::InvalidAddress(BAD_ADDRESS.to_string()),
            1,
            "127.0.0 local".to_string()
        ))
    );
    assert_eq!(
        parse_text("127.0.0.1 localhost\nlocalhost myhost", None),
        Err(FileError::Line(
            EntryError::InvalidAddress(BAD_ADDRESS.to_string()),
            2,
            "localhost myhost".to_string()
        ))
    );
    assert_eq!(
        check_source("/tmp/somewhere", true, false),
        Err(FileError::NotAFile("/tmp/somewhere".to_string()))
    );
}

#[test]
fn comments_and_blank_lines_contribute_nothing() {
    let text = "# head\n\n   \n\t# indented comment\n1.1.1.1 one\n#\n  \t\n1.1.1.2 two # tail\n";
    assert_eq!(
        parse_text(text, None),
        Ok(vec![
            entry(Address::V4([1, 1, 1, 1]), &["one"]),
            entry(Address::V4([1, 1, 1, 2]), &["two"]),
        ])
    );
    assert_eq!(parse_text("# only\n\n \t \n", None), Ok(vec![]));
    assert_eq!(parse_text("", None), Ok(vec![]));
}

#[test]
fn first_bad_line_fails_the_file() {
    let text = "# c\n1.1.1.1 one\n\n  \t1.1.1.2\n1.1.1.3 ok\nnot an entry\n";
    assert_eq!(
        parse_text(text, None),
        Err(FileError::Line(EntryError::MissingHostname, 4, "1.1.1.2".to_string()))
    );
    assert_eq!(
        parse_text("1.1.1.1 one\n1.1.1.2 #none\n", None),
        Err(FileError::Line(EntryError::MissingHostname, 2, "1.1.1.2 #none".to_string()))
    );
}

#[test]
fn read_failure_is_reported_after_the_lines_read() {
    assert_eq!(
        parse_text("1.1.1.1 one\n# c\n", Some("disk gone".to_string())),
        Err(FileError::Read(3, "disk gone".to_string()))
    );
    assert_eq!(
        parse_text("1.1.1.1 one\nbad line\n", Some("disk gone".to_string())),
        Err(FileError::Line(
            EntryError::InvalidAddress(BAD_ADDRESS.to_string()),
            2,
            "bad line".to_string()
        ))
    );
}

#[test]
fn sources_must_be_regular_files() {
    assert_eq!(
        check_source("/no/such/file", false, false),
        Err(FileError::NotFound("/no/such/file".to_string()))
    );
    assert_eq!(
        check_source("/etc", true, false),
        Err(FileError::NotAFile("/etc".to_string()))
    );
    assert_eq!(check_source("/etc/hosts", true, true), Ok(()));
}

#[test]
fn parsing_twice_gives_equal_results() {
    let text = "127.0.0.1 localhost\n::1 localhost ip6-localhost\n# c\n";
    let first = parse_text(text, None);
    assert!(first.is_ok());
    assert_eq!(first, parse_text(text, None));
    let bad = "1.1.1.1 ok\n1.1.1.1\n";
    assert_eq!(parse_text(bad, None), parse_text(bad, None));
}

#[test]
fn mixed_separators_in_a_file() {
    let tabs = parse_text("\t1.1.1.1\t\t\tname\n", None);
    let spaces = parse_text(" 1.1.1.1 name\n", None);
    assert_eq!(tabs, Ok(vec![entry(Address::V4([1, 1, 1, 1]), &["name"])]));
    assert_eq!(tabs, spaces);
}
