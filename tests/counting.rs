use wc_engine::counter::{count, Counter, Counts};
use wc_engine::options::{select, Selection, Switch};
use wc_engine::report::{needs_total, total};

fn counts(bytes: u64, characters: u64, words: u64, lines: u64, longest_line: u64) -> Counts {
    Counts { bytes, characters, words, lines, longest_line }
}

#[test]
fn hello_world_default_row() {
    let c = count(true, false, b"hello world\n");
    assert_eq!((c.lines, c.words, c.bytes), (1, 2, 12));
    assert_eq!(select(&vec![]), Selection { bytes: true, characters: false, words: true, lines: true, longest_line: false });
}

#[test]
fn trailing_fragment_without_newline() {
    let c = count(true, false, b"hello\nworld");
    assert_eq!((c.lines, c.words, c.bytes), (1, 2, 11));
    assert_eq!(c.longest_line, 5);
}

#[test]
fn words_across_tabs_and_blank_lines() {
    let c = count(true, false, b"a  b\tc\n\n");
    assert_eq!(c.words, 3);
    assert_eq!(c.lines, 2);
}

#[test]
fn two_files_and_total() {
    let a = count(true, false, b"x\n");
    let b = count(true, false, b"yy\nzzz\n");
    assert_eq!((a.lines, a.words, a.bytes), (1, 1, 2));
    assert_eq!((b.lines, b.words, b.bytes), (2, 2, 7));
    assert!(needs_total(2));
    assert!(!needs_total(1));
    let t = total(&vec![a, b]).unwrap();
    assert_eq!((t.lines, t.words, t.bytes), (3, 3, 9));
    assert_eq!(t.longest_line, 3);
}

#[test]
fn characters_switch_wins_when_last() {
    let sel = select(&vec![Switch::Bytes, Switch::Characters]);
    assert!(sel.characters);
    assert!(!sel.bytes);
    let c = count(true, sel.characters, "αβγ\n".as_bytes());
    assert_eq!(c.characters, 4);
    assert_eq!(c.bytes, 7);
    assert_eq!(c.longest_line, 3);
}

#[test]
fn bytes_switch_wins_when_last() {
    let sel = select(&vec![Switch::Characters, Switch::Lines, Switch::Bytes]);
    assert!(sel.bytes);
    assert!(!sel.characters);
    assert!(sel.lines);
    assert!(!sel.words);
    assert!(!sel.longest_line);
}

#[test]
fn longest_line_switch() {
    let sel = select(&vec![Switch::Longest]);
    assert_eq!(sel, Selection { bytes: false, characters: false, words: false, lines: false, longest_line: true });
    let c = count(true, false, b"line one is longer\nshort\n");
    assert_eq!(c.longest_line, 18);
}

#[test]
fn empty_input_is_all_zero() {
    assert_eq!(count(true, true, b""), counts(0, 0, 0, 0, 0));
    assert_eq!(count(false, false, b""), counts(0, 0, 0, 0, 0));
}

#[test]
fn bytes_at_least_characters() {
    let data = "añb€c😀\n".as_bytes();
    let c = count(true, true, data);
    assert_eq!(c.bytes, 13);
    assert_eq!(c.characters, 7);
    let single = count(false, true, data);
    assert_eq!(single.bytes, single.characters);
    assert_eq!(single.characters, 13);
}

#[test]
fn lines_equal_newline_bytes() {
    let c = count(true, false, b"\n\nab\ncd");
    assert_eq!(c.lines, 3);
    let c = count(true, false, b"no newline");
    assert_eq!(c.lines, 0);
}

#[test]
fn words_are_runs_of_non_space() {
    let c = count(true, false, b"  one\x0btwo\x0cthree\r four  ");
    assert_eq!(c.words, 4);
    // U+00A0 and U+3000 separate words in UTF-8.
    let c = count(true, false, "a\u{a0}b\u{3000}c".as_bytes());
    assert_eq!(c.words, 3);
}

#[test]
fn longest_line_in_bytes_or_characters() {
    let data = "ééé\nabcd\n".as_bytes();
    assert_eq!(count(true, false, data).longest_line, 6);
    assert_eq!(count(true, true, data).longest_line, 4);
    assert_eq!(count(true, false, b"ab\nabcdef").longest_line, 6);
}

#[test]
fn invalid_bytes_count_one_each() {
    // A broken sequence: each of its bytes is one character.
    let c = count(true, true, &[0xE2, 0x82, 0x41]);
    assert_eq!(c.characters, 3);
    assert_eq!(c.bytes, 3);
    // A stray continuation byte and an invalid lead byte.
    let c = count(true, true, &[0x80, 0xC0, 0x41]);
    assert_eq!(c.characters, 3);
    assert_eq!(c.words, 1);
}

#[test]
fn unfinished_sequence_at_end_is_one_character() {
    let c = count(true, false, &[0x61, 0x0A, 0xF0, 0x9F, 0x98]);
    assert_eq!(c.characters, 3);
    assert_eq!(c.bytes, 5);
    assert_eq!(c.longest_line, 3);
    let c = count(true, true, &[0xF0, 0x9F, 0x98]);
    assert_eq!(c.longest_line, 1);
}

#[test]
fn chunks_give_the_same_counts() {
    let data = "héllo wörld\n😀 end\nlast".as_bytes();
    let whole = count(true, true, data);
    for split in 0..=data.len() {
        let mut c = Counter::new(true, true);
        c.feed(&data[..split]);
        c.feed(&data[split..]);
        assert_eq!(c.finish(), whole);
    }
    let mut c = Counter::new(true, true);
    for b in data {
        c.feed(&[*b]);
    }
    assert_eq!(c.finish(), whole);
    assert_eq!(c.bytes_read(), data.len() as u64);
}

#[test]
fn total_sums_and_takes_maximum() {
    let rows = vec![counts(5, 4, 2, 1, 3), counts(10, 10, 3, 2, 7), counts(1, 1, 0, 0, 1)];
    let t = total(&rows).unwrap();
    assert_eq!(t, counts(16, 15, 5, 3, 7));
}

#[test]
fn total_ignores_row_order() {
    let a = counts(5, 4, 2, 1, 3);
    let b = counts(10, 10, 3, 2, 7);
    let c = counts(1, 1, 0, 0, 1);
    assert_eq!(total(&vec![a, b, c]), total(&vec![c, a, b]));
    assert_eq!(total(&vec![a, b, c]), total(&vec![b, c, a]));
}

#[test]
fn total_overflow_is_none() {
    let rows = vec![counts(u64::MAX, 0, 0, 0, 0), counts(1, 0, 0, 0, 0)];
    assert_eq!(total(&rows), None);
    assert_eq!(total(&vec![]), Some(counts(0, 0, 0, 0, 0)));
}
