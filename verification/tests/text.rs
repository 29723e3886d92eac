use xcr::text::contains_chars;
use xcr::text::copy_range;
use xcr::text::find_from;
use xcr::text::first_index_of;
use xcr::text::from_chars;
use xcr::text::last_index_of;
use xcr::text::matches_at;
use xcr::text::replace_chars;
use xcr::text::same_chars;
use xcr::text::to_chars;
use xcr::text::trim_chars;
use xcr::text::trim_end_chars;
use xcr::text::Strip;

fn chars(s: &str) -> Vec<char> {
    s.chars().collect()
}

fn contains(s: &str, pat: &str) -> bool {
    contains_chars(&chars(s), &chars(pat))
}

fn replace(s: &str, from: &str, to: &str) -> String {
    replace_chars(&chars(s), &chars(from), &chars(to)).into_iter().collect()
}

#[test]
fn chars_round_trip() {
    let v = to_chars("héllo/wörld");
    assert_eq!(v, chars("héllo/wörld"));
    assert_eq!(from_chars(&v), "héllo/wörld");
    assert_eq!(to_chars(""), Vec::<char>::new());
    assert_eq!(from_chars(&Vec::new()), "");
}

#[test]
fn copy_range_takes_the_middle() {
    let v = chars("abcdef");
    assert_eq!(copy_range(&v, 1, 4), chars("bcd"));
    assert_eq!(copy_range(&v, 0, 6), v);
    assert_eq!(copy_range(&v, 3, 3), Vec::<char>::new());
}

#[test]
fn matches_at_positions() {
    let s = chars("MyApp.swift");
    assert!(matches_at(&s, &chars("MyApp"), 0));
    assert!(matches_at(&s, &chars("App"), 2));
    assert!(!matches_at(&s, &chars("App"), 1));
    assert!(!matches_at(&s, &chars("swift"), 7));
    assert!(matches_at(&s, &chars(""), 11));
    assert!(!matches_at(&s, &chars(""), 12));
    assert!(!matches_at(&s, &chars("MyApp.swift!"), 0));
}

#[test]
fn find_from_gives_the_first_position() {
    let s = chars("abcabc");
    assert_eq!(find_from(&s, &chars("bc"), 0), Some(1));
    assert_eq!(find_from(&s, &chars("bc"), 2), Some(4));
    assert_eq!(find_from(&s, &chars("bc"), 5), None);
    assert_eq!(find_from(&s, &chars("x"), 0), None);
    assert_eq!(find_from(&s, &chars(""), 6), Some(6));
    assert_eq!(find_from(&s, &chars(""), 7), None);
}

#[test]
fn contains_is_literal() {
    assert!(contains("MyApp.xcodeproj", "MyApp"));
    assert!(contains("xMyAppx", "MyApp"));
    assert!(!contains("MyAp", "MyApp"));
    assert!(!contains("myapp", "MyApp"));
    assert!(contains("a.b", "."));
    assert!(!contains("ab", "."));
    assert!(contains("", ""));
    assert!(contains_chars(&chars("abc"), &chars("")));
}

#[test]
fn replace_every_occurrence() {
    assert_eq!(replace("MyApp and MyApp", "MyApp", "CoolApp"), "CoolApp and CoolApp");
    assert_eq!(replace("nothing here", "MyApp", "CoolApp"), "nothing here");
    assert_eq!(replace("MyAppMyApp", "MyApp", ""), "");
    assert_eq!(replace("", "MyApp", "CoolApp"), "");
}

#[test]
fn replace_scans_from_the_left_without_overlap() {
    assert_eq!(replace("aaa", "aa", "b"), "ba");
    assert_eq!(replace("aaaa", "aa", "b"), "bb");
    assert_eq!(replace("aab", "ab", "b"), "ab");
    assert_eq!(replace("abab", "ab", "abab"), "abababab");
}

#[test]
fn replace_of_the_empty_text_goes_between_all_characters() {
    assert_eq!(replace("abc", "", "X"), "XaXbXcX");
    assert_eq!(replace("", "", "X"), "X");
}

#[test]
fn replace_agrees_with_the_standard_library() {
    let texts = ["", "a", "aaa", "abcabc", "MyApp/MyApp.swift", "ééé", "com.example.myapp"];
    let patterns = ["", "a", "aa", "abc", "MyApp", "é", ".", "com.example.myapp"];
    let substitutes = ["", "b", "aa", "CoolApp", "éé"];
    for t in texts {
        for p in patterns {
            for s in substitutes {
                assert_eq!(replace(t, p, s), t.replace(p, s), "{:?} {:?} {:?}", t, p, s);
                assert_eq!(contains(t, p), t.contains(p), "{:?} {:?}", t, p);
            }
        }
    }
}

#[test]
fn replace_chars_is_not_the_identity() {
    let r = replace_chars(&chars("MyApp"), &chars("My"), &chars("Cool"));
    assert_eq!(r, chars("CoolApp"));
}

#[test]
fn same_chars_compares_content() {
    assert!(same_chars(&chars("abc"), &chars("abc")));
    assert!(!same_chars(&chars("abc"), &chars("abd")));
    assert!(!same_chars(&chars("abc"), &chars("ab")));
    assert!(same_chars(&chars(""), &chars("")));
}

#[test]
fn positions_of_a_character() {
    let s = chars("a=b=c");
    assert_eq!(first_index_of(&s, '=', 0), 1);
    assert_eq!(first_index_of(&s, '=', 2), 3);
    assert_eq!(first_index_of(&s, '=', 4), 5);
    assert_eq!(first_index_of(&s, 'x', 0), 5);
    assert_eq!(last_index_of(&s, '='), Some(3));
    assert_eq!(last_index_of(&s, 'a'), Some(0));
    assert_eq!(last_index_of(&s, 'x'), None);
    assert_eq!(last_index_of(&Vec::new(), 'x'), None);
}

#[test]
fn white_space_is_what_unicode_says() {
    for u in 0u32..0x3100 {
        if let Some(c) = char::from_u32(u) {
            assert_eq!(Strip::WhiteSpace.takes(c), c.is_whitespace(), "U+{:04X}", u);
        }
    }
    assert!(!Strip::WhiteSpace.takes('\u{FEFF}'));
    assert!(Strip::Char(';').takes(';'));
    assert!(!Strip::Char(';').takes(':'));
}

#[test]
fn trim_takes_both_ends() {
    assert_eq!(trim_chars(&chars("  a b \t\r\n"), Strip::WhiteSpace), chars("a b"));
    assert_eq!(trim_chars(&chars("   "), Strip::WhiteSpace), chars(""));
    assert_eq!(trim_chars(&chars(""), Strip::WhiteSpace), chars(""));
    assert_eq!(trim_chars(&chars("\"\"x\"y\"\""), Strip::Char('"')), chars("x\"y"));
    assert_eq!(trim_chars(&chars("abc"), Strip::Char('"')), chars("abc"));
}

#[test]
fn trim_end_leaves_the_start() {
    assert_eq!(trim_end_chars(&chars(";a;;"), Strip::Char(';')), chars(";a"));
    assert_eq!(trim_end_chars(&chars(";;"), Strip::Char(';')), chars(""));
    assert_eq!(trim_end_chars(&chars(" a "), Strip::WhiteSpace), chars(" a"));
}
