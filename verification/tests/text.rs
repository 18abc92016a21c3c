use manslib::text::{chars_of, find, replace, skip, skip_until, split, take_until, to_string, trim, words};

fn c(s: &str) -> Vec<char> {
    s.chars().collect()
}

fn s(v: &[char]) -> String {
    v.iter().collect()
}

#[test]
fn replace_takes_matches_from_the_left() {
    assert_eq!(s(&replace(&c("aaa"), &c("aa"), &c("b"))), "ba");
    assert_eq!(s(&replace(&c("a,b,,c"), &c(","), &c(""))), "abc");
    assert_eq!(s(&replace(&c("\\- x \\-"), &c("\\-"), &c("-"))), "- x -");
    assert_eq!(s(&replace(&c("abc"), &c("abcd"), &c("x"))), "abc");
    assert_eq!(s(&replace(&c("x\\y"), &c("\\"), &c("\\"))), "x\\y");
}

#[test]
fn find_answers_whether_a_pattern_occurs() {
    assert!(find(&c("a .SH b"), &c(".SH")));
    assert!(!find(&c("a .Sh b"), &c(".SH")));
    assert!(find(&c(""), &c("")));
    assert!(!find(&c("ab"), &c("abc")));
}

#[test]
fn trim_removes_unicode_white_space() {
    assert_eq!(s(&trim(&c("  a b \n"))), "a b");
    assert_eq!(s(&trim(&c("\u{a0}\u{3000}x\u{2009}"))), "x");
    assert_eq!(s(&trim(&c(" \t\n"))), "");
}

#[test]
fn skip_and_take() {
    assert_eq!(s(&skip(&c("abcdef"), 4)), "ef");
    assert_eq!(s(&skip(&c("abc"), 7)), "");
    assert_eq!(s(&take_until(&c("ab\\cd"), &c("\\"))), "ab");
    assert_eq!(s(&take_until(&c("a b,c"), &c(" ,"))), "a");
    assert_eq!(s(&skip_until(&c("x y z"), &c(" "))), " y z");
    assert_eq!(s(&skip_until(&c("xyz"), &c(" "))), "");
}

#[test]
fn split_and_words() {
    let pieces: Vec<String> = split(&c("a- b- - c"), &c("- ")).iter().map(|p| s(p)).collect();
    assert_eq!(pieces, vec!["a", "b", "", "c"]);
    let w: Vec<String> = words(&c("  bc  dc ")).iter().map(|p| s(p)).collect();
    assert_eq!(w, vec!["bc", "dc"]);
    assert!(words(&c("   ")).is_empty());
}

#[test]
fn strings_and_chars_convert_both_ways() {
    assert_eq!(chars_of("héllo"), c("héllo"));
    assert_eq!(to_string(&c("héllo")), "héllo");
}
