use lspcore::fmt::{format_to_text_edits, Range, TextEdit};
use lspcore::pos::{count_text, Position};

/// Byte offset of a (line, column) position, column counted in UTF-8 code
/// units since the last line break.
fn pos_to_offset(s: &str, line: u32, column: u32) -> usize {
    let mut l: u32 = 0;
    let mut c: u32 = 0;
    for (i, b) in s.bytes().enumerate() {
        if l == line && c == column {
            return i;
        }
        if b == b'\n' {
            l += 1;
            c = 0;
        } else {
            c += 1;
        }
    }
    assert_eq!((l, c), (line, column));
    s.len()
}

/// Applies an edit list to `old` as one atomic multi-range replace in
/// original coordinates.
fn apply_edits(old: &str, edits: &[TextEdit]) -> String {
    let mut out = String::new();
    let mut from: usize = 0;
    for e in edits {
        let s = pos_to_offset(old, e.range.start.line, e.range.start.column);
        let t = pos_to_offset(old, e.range.end.line, e.range.end.column);
        assert!(from <= s && s <= t);
        out.push_str(&old[from..s]);
        out.push_str(&e.new_text);
        from = t;
    }
    out.push_str(&old[from..]);
    out
}

#[test]
fn text_edits_delete_line() {
    // "AAAApiAAA" is a single word under Unicode word segmentation, so the
    // word-granularity alignment replaces the whole run in one edit; the
    // atomic multi-range replace still reproduces the new text exactly.
    let res = format_to_text_edits("AAAApiAAA", "AAAAparAAA");
    assert_eq!(
        res,
        vec![TextEdit {
            new_text: "AAAAparAAA".to_owned(),
            range: Range {
                start: Position::new(0, 0),
                end: Position::new(0, 9),
            },
        }]
    );
    assert_eq!(apply_edits("AAAApiAAA", &res), "AAAAparAAA");
}

#[test]
fn insert_into_empty_text() {
    let res = format_to_text_edits("", "hello");
    assert_eq!(
        res,
        vec![TextEdit {
            new_text: "hello".to_owned(),
            range: Range {
                start: Position::new(0, 0),
                end: Position::new(0, 0),
            },
        }]
    )
}

#[test]
fn delete_whole_text() {
    let res = format_to_text_edits("hello", "");
    assert_eq!(
        res,
        vec![TextEdit {
            new_text: "".to_owned(),
            range: Range {
                start: Position::new(0, 0),
                end: Position::new(0, 5),
            },
        }]
    )
}

#[test]
fn identical_texts_give_no_edits() {
    assert_eq!(format_to_text_edits("", ""), vec![]);
    assert_eq!(format_to_text_edits("abc def\nghi", "abc def\nghi"), vec![]);
}

#[test]
fn round_trip_single_line() {
    let old = "AAAApiAAA";
    let new = "AAAAparAAA";
    assert_eq!(apply_edits(old, &format_to_text_edits(old, new)), new);
}

#[test]
fn round_trip_multiline() {
    let old = "def f( x ):\n    return  x+1\n";
    let new = "def f(x):\n    return x + 1\n";
    assert_eq!(apply_edits(old, &format_to_text_edits(old, new)), new);
}

#[test]
fn round_trip_disjoint_texts() {
    let old = "alpha beta\ngamma";
    let new = "one two three";
    assert_eq!(apply_edits(old, &format_to_text_edits(old, new)), new);
}

#[test]
fn round_trip_unicode_columns() {
    let old = "héllo wörld\nsecond line";
    let new = "héllo wurld\nsecond  line!";
    assert_eq!(apply_edits(old, &format_to_text_edits(old, new)), new);
}

#[test]
fn edits_are_ordered_and_disjoint() {
    let old = "a b c d e f g";
    let new = "a X c Y e f Z";
    let edits = format_to_text_edits(old, new);
    let mut last_end: usize = 0;
    for e in &edits {
        let s = pos_to_offset(old, e.range.start.line, e.range.start.column);
        let t = pos_to_offset(old, e.range.end.line, e.range.end.column);
        assert!(last_end <= s);
        assert!(s <= t);
        last_end = t;
    }
    assert_eq!(apply_edits(old, &edits), new);
}

#[test]
fn translation_is_deterministic() {
    let old = "def f( x ):\n    return  x+1\n";
    let new = "def f(x):\n    return x + 1\n";
    assert_eq!(format_to_text_edits(old, new), format_to_text_edits(old, new));
}

#[test]
fn count_text_tracks_lines_and_columns() {
    let mut line: u32 = 0;
    let mut column: u32 = 0;
    count_text(&mut line, &mut column, "ab\ncde");
    assert_eq!((line, column), (1, 3));
    count_text(&mut line, &mut column, "\n\n");
    assert_eq!((line, column), (3, 0));
}

#[test]
fn count_text_counts_utf8_code_units() {
    let mut line: u32 = 0;
    let mut column: u32 = 0;
    // 'é' is two code units, '€' three, '𝄞' four.
    count_text(&mut line, &mut column, "é€𝄞x");
    assert_eq!((line, column), (0, 10));
}
