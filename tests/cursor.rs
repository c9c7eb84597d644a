use replacinator::Replacinator;

fn parse_json_array(src: &mut Replacinator) -> Vec<String> {
    let mut values = Vec::new();
    assert_eq!(src.skip_char(), Some('['));
    loop {
        match src.skip_char() {
            Some('"') => {
                let _ = src.start();
                loop {
                    match src.read_char().expect("string ended early") {
                        '\\' => {
                            let decoded = match src.read_char().expect("escape ended early") {
                                '"' => '"',
                                '\\' => '\\',
                                '/' => '/',
                                'b' => '\x08',
                                'f' => '\x0c',
                                'n' => '\n',
                                'r' => '\r',
                                't' => '\t',
                                'u' => {
                                    let mut res = 0;
                                    for _ in 0..4 {
                                        let d = src.read_char().expect("short escape");
                                        res = res * 16 + d.to_digit(16).expect("hex digit");
                                    }
                                    char::from_u32(res).expect("valid character")
                                }
                                other => panic!("invalid escape {:?}", other),
                            };
                            assert!(src.fits(decoded));
                            src.write_char(decoded);
                        }
                        '"' => {
                            values.push(src.start().to_string());
                            assert!(src.fits('"'));
                            src.write_char('"');
                            break;
                        }
                        other => {
                            assert!(src.fits(other));
                            src.write_char(other);
                        }
                    }
                }
            }
            Some(']') => break,
            Some(',') | Some(' ') | Some('\n') | Some('\t') => (),
            res => panic!("unexpected {:?}", res),
        }
    }
    values
}

#[test]
fn scenario_empty_array() {
    let mut buf = String::from("[]");
    let values = Replacinator::new_in(&mut buf, parse_json_array);
    assert!(values.is_empty());
    assert_eq!(buf, "[]");
}

#[test]
fn scenario_no_escapes() {
    let mut buf = String::from("[\"ab\"]");
    let values = Replacinator::new_in(&mut buf, parse_json_array);
    assert_eq!(values, vec!["ab".to_string()]);
    assert_eq!(buf, "[\"ab\"]");
}

#[test]
fn scenario_shrinking_escape() {
    let mut buf = String::from("[\"a\\n\"]");
    assert_eq!(buf.len(), 7);
    let values = Replacinator::new_in(&mut buf, parse_json_array);
    assert_eq!(values, vec!["a\n".to_string()]);
    assert_eq!(values[0].len(), 2);
    assert_eq!(buf.as_bytes(), &[b'[', b'"', b'a', b'\n', b'"', b']', b' ']);
}

#[test]
fn unicode_escape_and_several_strings() {
    let mut buf = String::from("[\"\\u00e9x\", \"y\\t\"]");
    let values = Replacinator::new_in(&mut buf, parse_json_array);
    assert_eq!(values, vec!["\u{e9}x".to_string(), "y\t".to_string()]);
    assert_eq!(buf.len(), 18);
    assert_eq!(buf, "[\"\u{e9}x\", \"y\t\"]     ");
}

#[test]
fn construct_then_finish_keeps_text() {
    let c = Replacinator::construct(String::from("h\u{e9}llo"));
    assert_eq!(c.read_position(), 0);
    assert_eq!(c.write_position(), 0);
    assert_eq!(c.finish(), "h\u{e9}llo");
}

#[test]
fn empty_text() {
    let mut c = Replacinator::construct(String::new());
    assert_eq!(c.peek(), None);
    assert_eq!(c.read_char(), None);
    assert_eq!(c.skip_char(), None);
    assert_eq!(c.take_start(), "");
    assert_eq!(c.finish(), "");
}

#[test]
fn read_advances_by_encoded_length() {
    let mut c = Replacinator::construct(String::from("a\u{e9}\u{20ac}\u{1f600}"));
    assert_eq!(c.peek(), Some('a'));
    assert_eq!(c.read_char(), Some('a'));
    assert_eq!(c.read_position(), 1);
    assert_eq!(c.read_char(), Some('\u{e9}'));
    assert_eq!(c.read_position(), 3);
    assert_eq!(c.read_char(), Some('\u{20ac}'));
    assert_eq!(c.read_position(), 6);
    assert_eq!(c.peek(), Some('\u{1f600}'));
    assert_eq!(c.read_char(), Some('\u{1f600}'));
    assert_eq!(c.read_position(), 10);
    assert_eq!(c.write_position(), 0);
    assert_eq!(c.gap_len(), 10);
}

#[test]
fn read_at_end_changes_nothing() {
    let mut c = Replacinator::construct(String::from("z"));
    assert_eq!(c.read_char(), Some('z'));
    assert_eq!(c.read_char(), None);
    assert_eq!(c.read_position(), 1);
    assert_eq!(c.remainder(), "");
    assert_eq!(c.finish(), " ");
}

#[test]
fn remainder_is_unread_text() {
    let mut c = Replacinator::construct(String::from("\u{e9}tude"));
    assert_eq!(c.remainder(), "\u{e9}tude");
    c.read_char();
    assert_eq!(c.remainder(), "tude");
}

#[test]
fn write_shrinks_into_gap() {
    let mut c = Replacinator::construct(String::from("\u{20ac}rest"));
    assert_eq!(c.read_char(), Some('\u{20ac}'));
    assert!(c.fits('\u{e9}'));
    c.write_char('\u{e9}');
    assert_eq!(c.write_position(), 2);
    assert_eq!(c.gap_len(), 1);
    assert_eq!(c.take_start(), "\u{e9}");
    assert_eq!(c.remainder(), "rest");
    assert_eq!(c.finish(), "\u{e9} rest");
}

#[test]
fn write_overflow_is_detected_for_every_short_gap() {
    let mut c = Replacinator::construct(String::from("abcd"));
    for gap in 0..4 {
        assert_eq!(c.gap_len(), gap);
        assert!(!c.fits('\u{1f600}'));
        c.read_char();
    }
    assert_eq!(c.gap_len(), 4);
    assert!(c.fits('\u{1f600}'));
    c.write_char('\u{1f600}');
    assert_eq!(c.finish(), "\u{1f600}");
}

#[test]
fn synchronise_fills_gap_and_is_idempotent() {
    let mut c = Replacinator::construct(String::from("abc\u{e9}"));
    c.read_char();
    c.read_char();
    c.write_char('x');
    c.synchronise();
    assert_eq!(c.write_position(), 2);
    assert_eq!(c.read_position(), 2);
    assert_eq!(c.gap_len(), 0);
    c.synchronise();
    assert_eq!(c.write_position(), 2);
    assert_eq!(c.read_position(), 2);
    assert_eq!(c.remainder(), "c\u{e9}");
    assert_eq!(c.finish(), "x c\u{e9}");
}

#[test]
fn skip_copies_through() {
    let mut c = Replacinator::construct(String::from("\u{e9}\u{1f600}q"));
    assert_eq!(c.skip_char(), Some('\u{e9}'));
    assert_eq!(c.write_position(), 2);
    assert_eq!(c.read_position(), 2);
    assert_eq!(c.skip_char(), Some('\u{1f600}'));
    assert_eq!(c.write_position(), 6);
    assert_eq!(c.read_position(), 6);
    assert_eq!(c.take_start(), "\u{e9}\u{1f600}");
    assert_eq!(c.finish(), "\u{e9}\u{1f600}q");
}

#[test]
fn take_start_returns_exactly_what_was_written() {
    let mut c = Replacinator::construct(String::from("abcdef"));
    c.read_char();
    c.read_char();
    c.write_char('X');
    assert_eq!(c.take_start(), "X");
    assert_eq!(c.write_position(), 0);
    assert_eq!(c.read_position(), 0);
    assert_eq!(c.remainder(), "cdef");
    c.skip_char();
    c.read_char();
    assert_eq!(c.take_start(), "c");
    assert_eq!(c.take_start(), "");
    assert_eq!(c.finish(), "X c ef");
}

#[test]
fn start_keeps_the_gap() {
    let mut c = Replacinator::construct(String::from("ab\"c"));
    c.skip_char();
    c.skip_char();
    c.read_char();
    assert_eq!(c.start(), "ab");
    assert_eq!(c.write_position(), 0);
    assert_eq!(c.read_position(), 1);
    c.write_char('"');
    assert_eq!(c.start(), "\"");
    assert_eq!(c.read_position(), 0);
    assert_eq!(c.finish(), "ab\"c");
}

#[test]
fn check_invariants_passes() {
    let mut c = Replacinator::construct(String::from("xy"));
    c.check_invariants();
    c.read_char();
    c.check_invariants();
    c.synchronise();
    c.check_invariants();
}
