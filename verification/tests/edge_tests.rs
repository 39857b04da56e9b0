use cstring::CString;

#[test]
fn test_compare_shorter_prefix() {
    let s1 = CString::from("Be");
    let s2 = CString::from("Bee");
    assert_eq!(cstring::cstring_cmp(s1.as_bytes(), s2.as_bytes()), -1);
    assert!(s1 < s2);
}

#[test]
fn test_compare_empty() {
    let e = CString::from("");
    let s = CString::from("a");
    assert_eq!(cstring::cstring_cmp(e.as_bytes(), e.as_bytes()), 0);
    assert_eq!(cstring::cstring_cmp(e.as_bytes(), s.as_bytes()), -1);
    assert_eq!(cstring::cstring_cmp(s.as_bytes(), e.as_bytes()), 1);
}

#[test]
fn test_strtol_plus_sign() {
    let s = CString::from("+12ab");
    let mut cur = s.into_cursor();
    let res = CString::strtol(&mut cur);
    assert!(res.unwrap() == 12);
    assert!(cur.next().unwrap() as char == 'a');
}

#[test]
fn test_strtol_empty() {
    let s = CString::from("");
    let mut cur = s.into_cursor();
    assert!(CString::strtol(&mut cur).is_none());
    assert!(cur.next().is_none());
}

#[test]
fn test_strtol_bare_sign_at_end() {
    let s = CString::from("+");
    let mut cur = s.into_cursor();
    assert!(CString::strtol(&mut cur).is_none());
    assert!(cur.next().unwrap() as char == '+');
}

#[test]
fn test_strtol_non_number() {
    let s = CString::from("xyz");
    let mut cur = s.into_cursor();
    assert!(CString::strtol(&mut cur).is_none());
    assert!(cur.next().unwrap() as char == 'x');
}

#[test]
fn test_strtol_overflow() {
    let s = CString::from("99999999999end");
    let mut cur = s.into_cursor();
    assert!(CString::strtol(&mut cur).is_none());
    // the whole digit run is consumed even on overflow
    assert!(cur.next().unwrap() as char == 'e');
}

#[test]
fn test_strtol_i32_bounds() {
    let mut cur = CString::from("2147483647").into_cursor();
    assert!(CString::strtol(&mut cur).unwrap() == 2147483647);

    let mut cur = CString::from("-2147483648").into_cursor();
    assert!(CString::strtol(&mut cur).unwrap() == -2147483648);

    let mut cur = CString::from("2147483648").into_cursor();
    assert!(CString::strtol(&mut cur).is_none());

    let mut cur = CString::from("-2147483649").into_cursor();
    assert!(CString::strtol(&mut cur).is_none());
}

#[test]
fn test_strtol_leading_zeroes() {
    let mut cur = CString::from("007").into_cursor();
    assert!(CString::strtol(&mut cur).unwrap() == 7);
    assert!(cur.next().is_none());
}

#[test]
fn test_strtok_empty_input() {
    let res = CString::strtok(CString::from(""), '-');
    assert_eq!(res.len(), 1);
    assert!(res[0].len() == 0);
}

#[test]
fn test_strtok_boundary_delimiters() {
    let res = CString::strtok(CString::from("-a-"), '-');
    assert_eq!(res.len(), 3);
    assert!(res[0] == CString::from(""));
    assert!(res[1] == CString::from("a"));
    assert!(res[2] == CString::from(""));
}

#[test]
fn test_strtok_consecutive_delimiters() {
    let res = CString::strtok(CString::from("a::b"), ':');
    assert_eq!(res.len(), 3);
    assert!(res[0] == CString::from("a"));
    assert!(res[1] == CString::from(""));
    assert!(res[2] == CString::from("b"));
}

#[test]
fn test_round_trip() {
    let text = "The quick brown fox; 0123456789!";
    let s = CString::from(text);
    assert_eq!(s.to_string(), String::from(text));
}

#[test]
fn test_from_utf8_bytes() {
    let v = vec![104u8, 105u8];
    let s = CString::from_utf8(v);
    assert!(s == CString::from("hi"));
    assert_eq!(s.as_bytes(), &vec![104u8, 105u8]);
}

#[test]
fn test_get_out_of_bounds() {
    let s = CString::from("ab");
    assert!(s.get(0).unwrap() == b'a');
    assert!(s.get(1).unwrap() == b'b');
    assert!(s.get(2).is_none());
}

#[test]
fn test_clone_is_independent() {
    let s = CString::from("data");
    let c = s.clone();
    assert!(s == c);
    assert_eq!(c.to_string(), String::from("data"));
}

#[test]
fn test_substring() {
    let s = CString::from("hello world");
    assert_eq!(s.substring(0, 5).unwrap(), String::from("hello"));
    assert_eq!(s.substring(6, 11).unwrap(), String::from("world"));
    assert_eq!(s.substring(3, 3).unwrap(), String::from(""));
    assert!(s.substring(7, 12).is_none());
    assert!(s.substring(5, 2).is_none());
}

#[test]
fn test_push_str() {
    let mut s = CString::from("ab");
    s.push_str("cd");
    assert!(s == CString::from("abcd"));
    assert_eq!(s.len(), 4);
}

#[test]
fn test_append() {
    let mut s = CString::from("left|");
    s.append(CString::from("right"));
    assert!(s == CString::from("left|right"));
}

#[test]
fn test_order_laws_concrete() {
    let a = CString::from("Ab");
    let b = CString::from("b");
    let c = CString::from("ba");
    // transitivity instance
    assert!(a < b);
    assert!(b < c);
    assert!(a < c);
    // reversing the arguments flips the result
    assert!(c > b);
    assert!(b > a);
    // reflexivity via equality
    let d = CString::from("Ab");
    assert!(a == d);
    assert!(a <= d);
    assert!(a >= d);
}

#[test]
fn test_cursor_peek_and_next() {
    let mut cur = CString::from("xy").into_cursor();
    assert!(cur.peek().unwrap() == b'x');
    assert!(cur.peek_second().unwrap() == b'y');
    assert!(cur.next().unwrap() == b'x');
    assert!(cur.peek().unwrap() == b'y');
    assert!(cur.peek_second().is_none());
    assert!(cur.next().unwrap() == b'y');
    assert!(cur.peek().is_none());
    assert!(cur.next().is_none());
}
