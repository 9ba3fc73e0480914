use nicknamedb::Document;

#[test]
fn insert() {
    let mut document = Document::new("menfie".to_owned(), '^');
    document.insert('A', "FOO");
    document.insert('b', "BAR");
    assert_eq!(document.name, "menfie ^AFOO^bBAR");
}

#[test]
fn delete() {
    let mut document = Document::new("menfie".to_owned(), '^');
    document.insert('A', "FOO");
    document.insert('b', "BAR");
    document.delete('A', None);
    assert_eq!(document.name, "menfie ^bBAR");
    document.insert('A', "FOO");
    document.delete('A', Some("FOO"));
    assert_eq!(document.name, "menfie ^bBAR^AFOO");
    assert_eq!(document.fetch('A'), Some("FOO".to_owned()));
    assert_eq!(document.fetch('b'), Some("BAR".to_owned()));
}

#[test]
fn fetch() {
    let mut document = Document::new("menfie".to_owned(), '^');
    document.insert('A', "FOO");
    assert_eq!(document.fetch('A'), Some("FOO".to_owned()));
}

#[test]
fn insert_then_fetch_gives_the_value() {
    let mut document = Document::new("  some name  ".to_owned(), '^');
    document.insert('x', "1");
    document.insert('y', "two");
    document.insert('x', "3");
    assert_eq!(document.fetch('x'), Some("3".to_owned()));
    assert_eq!(document.fetch('y'), Some("two".to_owned()));
    assert_eq!(document.name, "some name ^x3^ytwo");
}

#[test]
fn insert_overwrites() {
    let mut document = Document::new("n ^AFOO".to_owned(), '^');
    document.insert('A', "BAR");
    assert_eq!(document.name, "n ^ABAR");
}

#[test]
fn delete_twice_changes_nothing_more() {
    let mut document = Document::new("menfie ^AFOO^bBAR".to_owned(), '^');
    document.delete('A', None);
    let once = document.name.clone();
    document.delete('A', None);
    assert_eq!(document.name, once);
    assert_eq!(once, "menfie ^bBAR");
}

#[test]
fn delete_of_the_last_attribute_leaves_the_blank() {
    let mut document = Document::new("menfie ^AFOO".to_owned(), '^');
    document.delete('A', None);
    assert_eq!(document.name, "menfie ");
    document.delete('A', None);
    assert_eq!(document.name, "menfie ");
}

#[test]
fn delete_with_another_value_removes() {
    let mut document = Document::new("menfie ^AFOO^bBAR".to_owned(), '^');
    document.delete('A', Some("OTHER"));
    assert_eq!(document.name, "menfie ^bBAR");
    assert_eq!(document.fetch('A'), None);
}

#[test]
fn delete_with_the_same_value_keeps() {
    let mut document = Document::new("menfie ^AFOO^bBAR".to_owned(), '^');
    document.delete('A', Some("FOO"));
    assert_eq!(document.name, "menfie ^AFOO^bBAR");
}

#[test]
fn delete_of_an_absent_key_is_a_no_op() {
    let mut document = Document::new("  menfie ^AFOO  ".to_owned(), '^');
    document.delete('z', None);
    assert_eq!(document.name, "  menfie ^AFOO  ");
}

#[test]
fn free_text_is_kept_but_for_the_trim() {
    let mut document = Document::new("  hello ^AFOO big world ^bBAR! ".to_owned(), '^');
    document.insert('c', "X");
    assert_eq!(document.name, "hello  big world ^AFOO^bBAR!^cX");
}

#[test]
fn later_token_wins_on_rewrite_and_first_on_fetch() {
    let mut document = Document::new("n ^A1 ^A2".to_owned(), '^');
    assert_eq!(document.fetch('A'), Some("1".to_owned()));
    document.insert('b', "x");
    assert_eq!(document.name, "n ^A2^bx");
}

#[test]
fn exists_looks_for_the_pair() {
    let mut document = Document::new("menfie ^A".to_owned(), '^');
    assert!(document.exists_key('A'));
    assert!(!document.exists_key('b'));
}

#[test]
fn token_without_value_is_text() {
    let mut document = Document::new("menfie ^A ^b".to_owned(), '^');
    assert_eq!(document.fetch('A'), None);
    document.insert('c', "1");
    assert_eq!(document.name, "menfie ^A ^b ^c1");
}

#[test]
fn key_must_be_a_word_character() {
    let mut document = Document::new("menfie ^-x ^_y ^éz".to_owned(), '^');
    assert_eq!(document.fetch('-'), None);
    assert_eq!(document.fetch('_'), Some("y".to_owned()));
    assert_eq!(document.fetch('é'), Some("z".to_owned()));
}

#[test]
fn value_ends_at_whitespace_and_delimiter() {
    let mut document = Document::new("^AFOO\tBAR^bX\u{3000}Y^cZ^dW".to_owned(), '^');
    assert_eq!(document.fetch('A'), Some("FOO".to_owned()));
    assert_eq!(document.fetch('b'), Some("X".to_owned()));
    assert_eq!(document.fetch('c'), Some("Z".to_owned()));
    assert_eq!(document.fetch('d'), Some("W".to_owned()));
}

#[test]
fn trim_takes_every_whitespace() {
    let mut document = Document::new("\t\u{3000} name \n".to_owned(), '^');
    document.insert('k', "v");
    assert_eq!(document.name, "name ^kv");
}

#[test]
fn other_delimiter() {
    let mut document = Document::new("menfie".to_owned(), '|');
    document.insert('A', "FOO^");
    assert_eq!(document.name, "menfie |AFOO^");
    assert_eq!(document.fetch('A'), Some("FOO^".to_owned()));
    assert_eq!(document.prefix(), '|');
}

#[test]
fn access_times() {
    let mut document = Document::new_at("menfie".to_owned(), '^', 1_000);
    assert_eq!(document.last_access(), 1_000);
    assert_eq!(document.idle_at(1_500), 500);
    document.insert_at('A', "FOO", 2_000);
    assert_eq!(document.last_access(), 2_000);
    assert_eq!(document.fetch_at('A', 3_000), Some("FOO".to_owned()));
    assert_eq!(document.last_access(), 3_000);
    document.delete_at('A', None, 2_500);
    assert_eq!(document.last_access(), 3_000);
    document.touch_at(4_000);
    assert_eq!(document.idle_at(3_000), -1_000);
    assert_eq!(Document::new_at(String::new(), '^', i64::MIN).idle_at(i64::MAX), i64::MAX);
    assert_eq!(Document::new_at(String::new(), '^', i64::MAX).idle_at(i64::MIN), i64::MIN);
}

#[test]
fn clock_is_read() {
    let document = Document::new("menfie".to_owned(), '^');
    assert!(document.last_access() > 1_500_000_000_000);
    let idle = document.since_last_access();
    assert!(idle >= 0 && idle < 60_000);
}

#[test]
fn holds_compares_the_host_string() {
    let document = Document::new("menfie".to_owned(), '^');
    assert!(document.holds("menfie"));
    assert!(!document.holds("menfie "));
}

#[test]
fn exists_records_the_access() {
    let mut document = Document::new_at("menfie ^A".to_owned(), '^', 5);
    assert!(document.exists_key_at('A', 9));
    assert_eq!(document.last_access(), 9);
}

#[test]
fn delimiter_that_is_a_key_character_mixes_text_and_tokens() {
    let mut document = Document::new("aaaXaV".to_owned(), 'a');
    document.insert('a', "Z");
    assert_eq!(document.name, "aaV aaZ");
    assert_eq!(document.fetch('a'), Some("V".to_owned()));
}

#[test]
fn value_with_a_blank_is_cut_when_read() {
    let mut document = Document::new("menfie".to_owned(), '^');
    document.insert('A', "FOO BAR");
    assert_eq!(document.name, "menfie ^AFOO BAR");
    assert_eq!(document.fetch('A'), Some("FOO".to_owned()));
}

#[test]
fn empty_value_is_not_read_back() {
    let mut document = Document::new("menfie".to_owned(), '^');
    document.insert('A', "");
    assert_eq!(document.name, "menfie ^A");
    assert_eq!(document.fetch('A'), None);
}

#[test]
fn end_to_end() {
    let mut document = Document::new("menfie".to_owned(), '^');
    document.insert('A', "FOO");
    document.insert('b', "BAR");
    assert!(document.name.contains("^AFOO"));
    assert!(document.name.contains("^bBAR"));
    let host: Vec<char> = document.name.chars().collect();
    let list = nicknamedb::grammar::decode(&host, '^');
    assert_eq!(list.len(), 2);
    assert!(list.iter().any(|a| a.key == 'A' && a.value == vec!['F', 'O', 'O']));
    assert!(list.iter().any(|a| a.key == 'b' && a.value == vec!['B', 'A', 'R']));
    document.delete('A', Some("OTHER"));
    assert_eq!(document.name, "menfie ^bBAR");
}

#[test]
fn clock_before_the_epoch_is_a_negative_time() {
    let document = Document::new_at("menfie".to_owned(), '^', -5);
    assert_eq!(document.last_access(), -5);
    assert_eq!(document.idle_at(-2), 3);
}
