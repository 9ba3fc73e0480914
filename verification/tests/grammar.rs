use nicknamedb::classes::{permitted_in_value, permitted_key, space};
use nicknamedb::grammar::{
    append_chars, contains_pair, decode, encode, find_value, put, retain, rewrite, run_end,
    slice_chars, strip_tokens, token_starts, Attribute,
};
use nicknamedb::text::{chars_of, copy_chars, same_chars, string_of, trim};

fn chars(s: &str) -> Vec<char> {
    s.chars().collect()
}

fn pairs(list: &Vec<Attribute>) -> Vec<(char, String)> {
    list.iter().map(|a| (a.key, a.value.iter().collect())).collect()
}

#[test]
fn character_classes() {
    assert!(space(' '));
    assert!(space('\t'));
    assert!(space('\u{2003}'));
    assert!(!space('x'));
    assert!(permitted_key('a'));
    assert!(permitted_key('Z'));
    assert!(permitted_key('7'));
    assert!(permitted_key('_'));
    assert!(permitted_key('ß'));
    assert!(!permitted_key('^'));
    assert!(!permitted_key(' '));
    assert!(!permitted_key('-'));
    assert!(permitted_in_value('-', '^'));
    assert!(!permitted_in_value('^', '^'));
    assert!(permitted_in_value('^', '|'));
    assert!(!permitted_in_value('\n', '^'));
}

#[test]
fn strings_and_characters() {
    assert_eq!(chars_of("aé^"), vec!['a', 'é', '^']);
    assert_eq!(string_of(&vec!['a', 'é', '^']), "aé^");
    assert_eq!(copy_chars(&chars("abc")), chars("abc"));
    assert!(same_chars(&chars("abc"), &chars("abc")));
    assert!(!same_chars(&chars("abc"), &chars("abd")));
    assert!(!same_chars(&chars("abc"), &chars("ab")));
    assert_eq!(trim(&chars("  a b \t")), chars("a b"));
    assert_eq!(trim(&chars(" \n ")), chars(""));
    assert_eq!(trim(&chars("")), chars(""));
    let mut a = chars("ab");
    append_chars(&mut a, &chars("cd"));
    assert_eq!(a, chars("abcd"));
    assert_eq!(slice_chars(&chars("abcdef"), 2, 4), chars("cd"));
}

#[test]
fn tokens_are_found_from_left_to_right() {
    let host = chars("x ^AFOO^bBAR y^c ^dQ");
    assert!(token_starts(&host, '^', 2));
    assert!(!token_starts(&host, '^', 0));
    assert!(!token_starts(&host, '^', 14));
    assert!(!token_starts(&host, '^', 100));
    assert_eq!(run_end(&host, '^', 4), 7);
    assert_eq!(run_end(&host, '^', 7), 7);
    assert_eq!(
        pairs(&decode(&host, '^')),
        vec![('A', "FOO".to_owned()), ('b', "BAR".to_owned()), ('d', "Q".to_owned())]
    );
    assert_eq!(strip_tokens(&host, '^'), chars("x  y^c "));
    assert_eq!(find_value(&host, '^', 'b'), Some(chars("BAR")));
    assert_eq!(find_value(&host, '^', 'c'), None);
    assert!(contains_pair(&host, '^', 'c'));
    assert!(!contains_pair(&host, '^', 'e'));
    assert!(!contains_pair(&chars("^"), '^', 'e'));
}

#[test]
fn lists_of_attributes() {
    let list = decode(&chars("^A1^B2^A3"), '^');
    assert_eq!(pairs(&list), vec![('A', "3".to_owned()), ('B', "2".to_owned())]);
    let list = put(list, 'C', &chars("4"));
    let list = put(list, 'B', &chars("5"));
    assert_eq!(
        pairs(&list),
        vec![('A', "3".to_owned()), ('B', "5".to_owned()), ('C', "4".to_owned())]
    );
    assert_eq!(encode(&list, '^'), chars("^A3^B5^C4"));
    assert_eq!(encode(&Vec::new(), '^'), chars(""));
    assert_eq!(
        pairs(&retain(&list, 'B', &None)),
        vec![('A', "3".to_owned()), ('C', "4".to_owned())]
    );
    assert_eq!(pairs(&retain(&list, 'B', &Some(chars("5")))).len(), 3);
    assert_eq!(pairs(&retain(&list, 'B', &Some(chars("6")))).len(), 2);
    assert_eq!(rewrite(&chars(" n ^A1 m "), '^', &list), chars("n  m ^A3^B5^C4"));
}

#[test]
fn space_is_the_white_space_property() {
    let mut n: u32 = 0;
    let mut count = 0;
    while n <= 0x10FFFF {
        if let Some(c) = char::from_u32(n) {
            assert_eq!(space(c), c.is_whitespace());
            if space(c) {
                count += 1;
            }
        }
        n += 1;
    }
    assert_eq!(count, 25);
}
