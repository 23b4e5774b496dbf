use wordfreq::export::word_le;
use wordfreq::table::{bytes_eq, FrequencyHashMap};
use wordfreq::{count_words, export, word_frequencies};

fn pairs(r: &[(usize, Vec<u8>)]) -> Vec<(usize, String)> {
    r.iter()
        .map(|(c, w)| (*c, String::from_utf8(w.clone()).unwrap()))
        .collect()
}

fn expect(input: &[u8], want: &[(usize, &str)]) {
    let got = pairs(&word_frequencies(input));
    let want: Vec<(usize, String)> = want.iter().map(|(c, w)| (*c, w.to_string())).collect();
    assert_eq!(got, want);
}

#[test]
fn sentence_with_repeated_word() {
    expect(
        b"The cat sat on the mat.",
        &[(2, "the"), (1, "cat"), (1, "mat"), (1, "on"), (1, "sat")],
    );
}

#[test]
fn empty_input_gives_no_lines() {
    expect(b"", &[]);
}

#[test]
fn case_variants_are_one_word() {
    expect(b"aaa AAA aaA", &[(3, "aaa")]);
}

#[test]
fn no_letters_gives_no_lines() {
    expect(b"123 ,.;!? 42-7\n\t()", &[]);
}

#[test]
fn table_grows_past_initial_capacity() {
    assert_eq!(FrequencyHashMap::new().capacity(), 128);
    let mut input = Vec::new();
    for i in 0..200u32 {
        let a = b'a' + (i / 26) as u8;
        let b = b'a' + (i % 26) as u8;
        input.extend_from_slice(&[a, b, b' ']);
    }
    let table = count_words(&input);
    assert_eq!(table.len(), 200);
    assert!(table.capacity() >= 256);
    let out = export(table);
    assert_eq!(out.len(), 200);
    assert!(out.iter().all(|(c, _)| *c == 1));
}

#[test]
fn equal_hashes_keep_separate_counts() {
    let mut table = FrequencyHashMap::new();
    table.increment(7, b"abc");
    table.increment(7, b"xyz");
    table.increment(7, b"abc");
    assert_eq!(table.len(), 2);
    let out = pairs(&export(table));
    assert_eq!(out, vec![(2, "abc".to_string()), (1, "xyz".to_string())]);
}

#[test]
fn colliding_home_slots_probe_onwards() {
    let mut table = FrequencyHashMap::new();
    for (i, w) in [b"one".as_slice(), b"two", b"three", b"four"].iter().enumerate() {
        for _ in 0..=i {
            table.increment(128 * i as u64 + 5, w);
        }
    }
    let out = pairs(&export(table));
    assert_eq!(
        out,
        vec![
            (4, "four".to_string()),
            (3, "three".to_string()),
            (2, "two".to_string()),
            (1, "one".to_string())
        ]
    );
}

#[test]
fn ties_sorted_by_word() {
    expect(b"b a b c c zz", &[(2, "b"), (2, "c"), (1, "a"), (1, "zz")]);
}

#[test]
fn separators_split_and_coalesce() {
    expect(
        b"Hello, WORLD!hello--world\xc3\xa9x",
        &[(2, "hello"), (2, "world"), (1, "x")],
    );
}

#[test]
fn word_at_end_is_counted() {
    expect(b"...end", &[(1, "end")]);
    expect(b"end", &[(1, "end")]);
}

#[test]
fn prefix_orders_first() {
    expect(b"ab a abc", &[(1, "a"), (1, "ab"), (1, "abc")]);
}

#[test]
fn export_is_repeatable_and_counts_add_up() {
    let input = b"one two two three three three, One!";
    let first = word_frequencies(input);
    let second = word_frequencies(input);
    assert_eq!(first, second);
    let sum: usize = first.iter().map(|(c, _)| *c).sum();
    assert_eq!(sum, 7);
    for w in first.windows(2) {
        assert!(w[0].0 > w[1].0 || (w[0].0 == w[1].0 && w[0].1 <= w[1].1));
    }
}

#[test]
fn byte_comparisons() {
    assert!(bytes_eq(b"abc", b"abc"));
    assert!(!bytes_eq(b"abc", b"abd"));
    assert!(!bytes_eq(b"ab", b"abc"));
    assert!(word_le(b"ab", b"abc"));
    assert!(!word_le(b"abc", b"ab"));
    assert!(word_le(b"abc", b"abc"));
    assert!(word_le(b"abc", b"abd"));
    assert!(!word_le(b"b", b"abc"));
}

#[test]
fn empty_table_exports_nothing() {
    let table = FrequencyHashMap::new();
    assert_eq!(table.len(), 0);
    assert!(export(table).is_empty());
}
