use lira_analyzer::text::{chars_of, parse_unsigned_range, split_ranges, string_of_range, trim_bounds, word_ranges};

#[test]
fn test_trim_bounds() {
    let chars = chars_of("  ab c \t");
    let (a, b) = trim_bounds(&chars, 0, chars.len());
    assert_eq!(string_of_range(&chars, a, b), "ab c");
    let blank = chars_of("   ");
    let (a, b) = trim_bounds(&blank, 0, blank.len());
    assert_eq!(a, b);
}

#[test]
fn test_split_ranges() {
    let chars = chars_of("a/b//c/");
    let ranges = split_ranges(&chars, 0, chars.len(), &['/'], false);
    let pieces: Vec<String> = ranges.iter().map(|&(a, b)| string_of_range(&chars, a, b)).collect();
    assert_eq!(pieces, vec!["a", "b", "", "c", ""]);
}

#[test]
fn test_word_ranges() {
    let chars = chars_of("  10 \t 1  2 ");
    let words = word_ranges(&chars, 0, chars.len());
    let texts: Vec<String> = words.iter().map(|&(a, b)| string_of_range(&chars, a, b)).collect();
    assert_eq!(texts, vec!["10", "1", "2"]);
}

#[test]
fn test_parse_unsigned_range() {
    let chars = chars_of("+42 7x 18446744073709551616");
    assert_eq!(parse_unsigned_range(&chars, 0, 3, u64::MAX), Some(42));
    assert_eq!(parse_unsigned_range(&chars, 4, 6, u64::MAX), None);
    assert_eq!(parse_unsigned_range(&chars, 7, chars.len(), u64::MAX), None);
    assert_eq!(parse_unsigned_range(&chars, 0, 0, u64::MAX), None);
    assert_eq!(parse_unsigned_range(&chars, 0, 1, u64::MAX), None);
    assert_eq!(parse_unsigned_range(&chars, 1, 3, 41), None);
}
