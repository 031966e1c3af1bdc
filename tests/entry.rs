use hostfile::entry::{address_token, parse_entry_with, Address, EntryError, HostEntry};

const BAD_ADDRESS: &str = "invalid IP address syntax";

fn localhost_v4() -> Address {
    Address::V4([127, 0, 0, 1])
}

fn localhost_v6() -> Address {
    Address::V6([0, 0, 0, 0, 0, 0, 0, 1])
}

fn names(list: &[&str]) -> Vec<String> {
    list.iter().map(|n| n.to_string()).collect()
}

#[test]
fn parse_ipv4() {
    assert_eq!(address_token("127.0.0.1"), "127.0.0.1");
}

#[test]
fn parse_ipv6() {
    assert_eq!(address_token("::1"), "::1");
}

#[test]
fn parse_entry() {
    assert_eq!(
        parse_entry_with("127.0.0.1 localhost", Ok(localhost_v4())),
        Ok(HostEntry { ip: localhost_v4(), names: vec![String::from("localhost")] })
    );
}

#[test]
fn parse_entry_multiple_names() {
    assert_eq!(
        parse_entry_with("127.0.0.1 localhost home  ", Ok(localhost_v4())),
        Ok(HostEntry {
            ip: localhost_v4(),
            names: vec![String::from("localhost"), String::from("home")],
        })
    );
}

#[test]
fn parse_entry_ipv6() {
    assert_eq!(
        parse_entry_with("::1 localhost", Ok(localhost_v6())),
        Ok(HostEntry { ip: localhost_v6(), names: vec![String::from("localhost")] })
    );
}

#[test]
fn parse_entry_with_ws_and_comments() {
    let line = "    ::1 \tlocalhost # comment";
    assert_eq!(address_token(line), "::1");
    assert_eq!(
        parse_entry_with(line, Ok(localhost_v6())),
        Ok(HostEntry { ip: localhost_v6(), names: vec![String::from("localhost")] })
    );
}

#[test]
fn test_clone() {
    let host_entry = HostEntry {
        ip: Address::V4([192, 168, 42, 42]),
        names: vec![String::from("comp1"), String::from("computer1")],
    };
    let cloned = host_entry.clone();
    assert_eq!(host_entry, cloned)
}

#[test]
fn address_token_stops_at_first_other_character() {
    assert_eq!(address_token("127.0.0.1localhost"), "127.0.0.1");
    assert_eq!(address_token("\t bad:dad::ded multiple"), "bad:dad::ded");
    assert_eq!(address_token("localhost myhost"), "");
    assert_eq!(address_token(""), "");
    assert_eq!(address_token("1.2.3.4\tname"), "1.2.3.4");
}

#[test]
fn single_name_entries() {
    let v4 = Address::V4([10, 0, 0, 7]);
    assert_eq!(address_token("10.0.0.7 box"), "10.0.0.7");
    assert_eq!(
        parse_entry_with("10.0.0.7 box", Ok(v4)),
        Ok(HostEntry { ip: v4, names: names(&["box"]) })
    );
    let v6 = Address::V6([0xfe80, 0, 0, 0, 0, 0, 0, 0x1a]);
    assert_eq!(address_token("fe80::1a box6"), "fe80::1a");
    assert_eq!(
        parse_entry_with("fe80::1a box6", Ok(v6)),
        Ok(HostEntry { ip: v6, names: names(&["box6"]) })
    );
}

#[test]
fn leading_whitespace_is_ignored() {
    let plain = parse_entry_with("1.1.1.1 name", Ok(Address::V4([1, 1, 1, 1])));
    for prefix in ["   ", "\t", " \t \t", ""] {
        let line = format!("{prefix}1.1.1.1 name");
        assert_eq!(address_token(&line), "1.1.1.1");
        assert_eq!(parse_entry_with(&line, Ok(Address::V4([1, 1, 1, 1]))), plain);
    }
}

#[test]
fn names_keep_their_order() {
    assert_eq!(
        parse_entry_with("127.0.0.1 a b c", Ok(localhost_v4())),
        Ok(HostEntry { ip: localhost_v4(), names: names(&["a", "b", "c"]) })
    );
    assert_eq!(
        parse_entry_with("127.0.0.1 b a b", Ok(localhost_v4())),
        Ok(HostEntry { ip: localhost_v4(), names: names(&["b", "a", "b"]) })
    );
}

#[test]
fn trailing_comment_ends_the_names() {
    assert_eq!(
        parse_entry_with("::1 localhost # note", Ok(localhost_v6())),
        Ok(HostEntry { ip: localhost_v6(), names: names(&["localhost"]) })
    );
    assert_eq!(
        parse_entry_with("::1 a b #c d", Ok(localhost_v6())),
        Ok(HostEntry { ip: localhost_v6(), names: names(&["a", "b"]) })
    );
    assert_eq!(
        parse_entry_with("::1 a#b", Ok(localhost_v6())),
        Ok(HostEntry { ip: localhost_v6(), names: names(&["a#b"]) })
    );
}

#[test]
fn missing_separator_fails() {
    assert_eq!(address_token("127.0.0.1localhost"), "127.0.0.1");
    assert_eq!(
        parse_entry_with("127.0.0.1localhost", Ok(localhost_v4())),
        Err(EntryError::MissingSeparator)
    );
    assert_eq!(
        parse_entry_with("::1#x", Ok(localhost_v6())),
        Err(EntryError::MissingSeparator)
    );
}

#[test]
fn malformed_address_fails() {
    assert_eq!(address_token("127.0.0 localhost"), "127.0.0");
    assert_eq!(
        parse_entry_with("127.0.0 localhost", Err(BAD_ADDRESS.to_string())),
        Err(EntryError::InvalidAddress(BAD_ADDRESS.to_string()))
    );
}

#[test]
fn missing_hostname_fails() {
    assert_eq!(
        parse_entry_with("1.1.1.1 #comment", Ok(Address::V4([1, 1, 1, 1]))),
        Err(EntryError::MissingHostname)
    );
    assert_eq!(
        parse_entry_with("1.1.1.1 \t ", Ok(Address::V4([1, 1, 1, 1]))),
        Err(EntryError::MissingHostname)
    );
    assert_eq!(
        parse_entry_with("1.1.1.1", Ok(Address::V4([1, 1, 1, 1]))),
        Err(EntryError::MissingHostname)
    );
    assert_eq!(
        parse_entry_with("  127.0.0.1", Ok(localhost_v4())),
        Err(EntryError::MissingHostname)
    );
}

#[test]
fn tabs_and_spaces_are_interchangeable() {
    let a = Address::V4([1, 1, 1, 1]);
    let tabs = parse_entry_with("\t1.1.1.1\t\t\tname", Ok(a));
    let spaces = parse_entry_with(" 1.1.1.1 name", Ok(a));
    assert_eq!(tabs, Ok(HostEntry { ip: a, names: names(&["name"]) }));
    assert_eq!(tabs, spaces);
    assert_eq!(
        parse_entry_with("1.1.1.1 \tx\t y \t", Ok(a)),
        Ok(HostEntry { ip: a, names: names(&["x", "y"]) })
    );
}
