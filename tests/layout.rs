use wc_engine::counter::Counts;
use wc_engine::locale::multibyte_locale;
use wc_engine::options::{select, Switch};
use wc_engine::report::{column_width, digit_count, row_fields};

fn sample() -> Counts {
    Counts { bytes: 12, characters: 11, words: 2, lines: 1, longest_line: 10 }
}

#[test]
fn default_row_is_lines_words_bytes() {
    assert_eq!(row_fields(&sample(), &select(&vec![])), vec![1, 2, 12]);
}

#[test]
fn row_with_every_switch() {
    let sel = select(&vec![Switch::Longest, Switch::Words, Switch::Lines, Switch::Characters]);
    assert_eq!(row_fields(&sample(), &sel), vec![1, 2, 11, 10]);
    let sel = select(&vec![Switch::Characters, Switch::Bytes, Switch::Longest]);
    assert_eq!(row_fields(&sample(), &sel), vec![12, 10]);
}

#[test]
fn words_only_row() {
    assert_eq!(row_fields(&sample(), &select(&vec![Switch::Words, Switch::Words])), vec![2]);
}

#[test]
fn locale_first_non_empty_wins() {
    let v = |s: &str| s.as_bytes().to_vec();
    assert!(multibyte_locale(&vec![v(""), v("en_US.UTF-8"), v("C")]));
    assert!(!multibyte_locale(&vec![v("C"), v("en_US.UTF-8"), v("en_US.utf8")]));
    assert!(multibyte_locale(&vec![v(""), v(""), v("de_DE.utf8")]));
    assert!(!multibyte_locale(&vec![v(""), v(""), v("")]));
    assert!(!multibyte_locale(&vec![v("POSIX"), v(""), v("")]));
    assert!(!multibyte_locale(&vec![v("en_US.UTF-16"), v(""), v("")]));
    assert!(!multibyte_locale(&vec![]));
}

#[test]
fn digit_counts() {
    assert_eq!(digit_count(0), 1);
    assert_eq!(digit_count(9), 1);
    assert_eq!(digit_count(10), 2);
    assert_eq!(digit_count(12345), 5);
    assert_eq!(digit_count(u64::MAX), 20);
}

#[test]
fn column_widths_are_per_column() {
    let rows = vec![vec![1, 2, 12], vec![3, 100, 9]];
    assert_eq!(column_width(&rows, 0), 1);
    assert_eq!(column_width(&rows, 1), 3);
    assert_eq!(column_width(&rows, 2), 2);
    assert_eq!(column_width(&rows, 3), 1);
    assert_eq!(column_width(&vec![], 0), 1);
}
