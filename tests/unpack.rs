use toy_shell::unpack;

#[test]
fn empty() {
    assert_eq!(unpack("").unwrap(), "");
}

#[test]
fn only_letters() {
    assert_eq!(unpack("abc").unwrap(), "abc");
}

#[test]
fn start_with_number() {
    assert!(unpack("1abc").is_none());
    assert!(unpack("45").is_none());
}

#[test]
fn strings_and_numbers() {
    assert_eq!(unpack("a4bc2d5e").unwrap(), "aaaabccddddde");
    assert_eq!(unpack("a1234").unwrap(), "aaaaaaa");
}

#[test]
fn escaped() {
    assert_eq!(unpack(r"qwe\4\5").unwrap(), "qwe45");
    assert_eq!(unpack(r"qwe\1\2\3\").unwrap(), r"qwe123\");
    assert_eq!(unpack(r"qwe\1\2\3r").unwrap(), "qwe123r");

    assert_eq!(unpack(r"qwe\45").unwrap(), "qwe44444");
    assert_eq!(unpack(r"qwe\45\").unwrap(), r"qwe44444\");
    assert_eq!(unpack(r"qwe\45r").unwrap(), "qwe44444r");

    assert_eq!(unpack(r"qwe\\5").unwrap(), r"qwe\\\\\");
    assert_eq!(unpack(r"qwe\\5\\").unwrap(), r"qwe\\\\\\");
    assert_eq!(unpack(r"qwe\\5r").unwrap(), r"qwe\\\\\r");
    assert_eq!(unpack(r"qwe\\5r\").unwrap(), r"qwe\\\\\r\");
}

#[test]
fn zero_count_drops_the_letter_copies() {
    assert_eq!(unpack("a0b").unwrap(), "ab");
    assert_eq!(unpack("ж3").unwrap(), "жжж");
}
