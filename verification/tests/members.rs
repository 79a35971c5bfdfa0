use team_rounds::members::{load_members, parse_members, InvalidText};

#[test]
fn test_load_members() {
    let test_members_str = "Alice,Bob , Charlie\nDavid,Eve ,\tFrank\t\n";
    let reader = test_members_str.as_bytes();
    let members = load_members(reader).unwrap();
    assert_eq!(members, vec!["Alice", "Bob", "Charlie", "David", "Eve", "Frank"]);
}

#[test]
fn load_members_rejects_bytes_that_are_not_utf8() {
    let bytes: [u8; 4] = [b'A', 0xff, b',', b'B'];
    assert_eq!(load_members(&bytes), Err(InvalidText));
}

#[test]
fn load_members_of_nothing_is_empty() {
    assert_eq!(load_members(b""), Ok(Vec::<String>::new()));
    assert_eq!(load_members(b" , ,\n\n , \t"), Ok(Vec::<String>::new()));
}

#[test]
fn parse_members_keeps_inner_white_space_and_windows_line_ends() {
    let members = parse_members("Ann Lee,\u{3000}Bo\u{a0}\r\nCy\r\n");
    assert_eq!(members, vec!["Ann Lee", "Bo", "Cy"]);
}

#[test]
fn parse_members_keeps_the_order_and_repeats() {
    let members = parse_members("b,a,b");
    assert_eq!(members, vec!["b", "a", "b"]);
}

#[test]
fn parse_members_reads_names_beyond_ascii() {
    let members = parse_members("花子, 太郎\nÉmile");
    assert_eq!(members, vec!["花子", "太郎", "Émile"]);
}
