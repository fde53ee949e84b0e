use lineindex::{Index, IndexedString, Range};

const FOUR_LINES: &str = "aa\nbbb\ncccc\ndd";

#[test]
fn four_lines_answer_every_query() {
    let indexed = IndexedString::from(FOUR_LINES);

    assert_eq!(indexed.lines(), 4);
    assert_eq!(indexed.line_for_byte(4), Some(1));
    assert_eq!(indexed.line_for_character(5), Some(1));
    assert_eq!(indexed.byte_range_for_line(1), Some(3..=6));
    assert_eq!(indexed.character_range_for_line(2), Some(7..=11));
    assert_eq!(indexed.line_str(0), Some("aa\n"));
}

#[test]
fn four_lines_have_these_spans() {
    let table = IndexedString::make_lines(FOUR_LINES);

    assert_eq!(
        table,
        vec![
            Range::new(Index::new(0, 0), Index::new(2, 2)),
            Range::new(Index::new(3, 3), Index::new(6, 6)),
            Range::new(Index::new(7, 7), Index::new(11, 11)),
            Range::new(Index::new(12, 12), Index::new(13, 13)),
        ]
    );
}

#[test]
fn empty_text_has_no_lines() {
    let indexed = IndexedString::from("");

    assert_eq!(indexed.lines(), 0);
    assert_eq!(indexed.line_str(0), None);
    assert!(IndexedString::make_lines("").is_empty());
}

#[test]
fn empty_text_answers_no_query() {
    let indexed = IndexedString::from("");

    for at in 0..4 {
        assert_eq!(indexed.line_for_byte(at), None);
        assert_eq!(indexed.line_for_character(at), None);
        assert_eq!(indexed.byte_range_for_line(at), None);
        assert_eq!(indexed.character_range_for_line(at), None);
        assert_eq!(indexed.line_str(at), None);
    }
    assert_eq!(indexed.line_for_byte(usize::MAX), None);
    assert_eq!(indexed.line_for_character(usize::MAX), None);
    assert_eq!(indexed.as_str(), "");
    assert!(indexed.as_bytes().is_empty());
}

#[test]
fn two_newlines_are_two_lines() {
    let indexed = IndexedString::from("\n\n");

    assert_eq!(indexed.lines(), 2);
    assert_eq!(indexed.byte_range_for_line(0), Some(0..=0));
    assert_eq!(indexed.byte_range_for_line(1), Some(1..=1));
    assert_eq!(indexed.line_str(0), Some("\n"));
    assert_eq!(indexed.line_str(1), Some("\n"));
    assert_eq!(indexed.line_str(2), None);
}

#[test]
fn text_without_final_newline_is_one_line() {
    let indexed = IndexedString::from("dd");

    assert_eq!(indexed.lines(), 1);
    assert_eq!(indexed.line_str(0), Some("dd"));
    assert_eq!(indexed.byte_range_for_line(0), Some(0..=1));
    assert_eq!(indexed.character_range_for_line(0), Some(0..=1));
    assert_eq!(indexed.line_str(1), None);
    assert_eq!(indexed.byte_range_for_line(1), None);
}

#[test]
fn final_newline_opens_no_line() {
    let indexed = IndexedString::from("ab\n");

    assert_eq!(indexed.lines(), 1);
    assert_eq!(indexed.line_str(0), Some("ab\n"));
    assert_eq!(indexed.character_range_for_line(0), Some(0..=2));
    assert_eq!(indexed.line_for_byte(2), Some(0));
    assert_eq!(indexed.line_for_byte(3), None);
}

#[test]
fn single_code_point_is_one_line() {
    for text in ["x", "\n"] {
        let indexed = IndexedString::from(text);

        assert_eq!(indexed.lines(), 1);
        assert_eq!(indexed.byte_range_for_line(0), Some(0..=0));
        assert_eq!(indexed.line_for_byte(0), Some(0));
        assert_eq!(indexed.line_for_byte(1), None);
        assert_eq!(indexed.line_str(0), Some(text));
    }
}

#[test]
fn one_past_the_end_is_on_no_line() {
    for text in ["a", "dd", "aa\nbbb\ncccc\ndd", "\n\n", "ab\n", "é\nü", "a𝄞"] {
        let indexed = IndexedString::from(text);

        assert_eq!(indexed.line_for_byte(text.len()), None);
        assert_eq!(indexed.line_for_byte(text.len() + 1), None);
        assert_eq!(indexed.line_for_character(text.chars().count()), None);
        assert_eq!(indexed.line_for_byte(usize::MAX), None);
        assert_eq!(indexed.line_for_character(usize::MAX), None);
    }
}

#[test]
fn line_number_past_the_last_is_not_found() {
    let indexed = IndexedString::from(FOUR_LINES);

    assert_eq!(indexed.byte_range_for_line(4), None);
    assert_eq!(indexed.character_range_for_line(4), None);
    assert_eq!(indexed.line_str(4), None);
    assert_eq!(indexed.line_str(usize::MAX), None);
}

#[test]
fn every_character_is_on_its_line() {
    let indexed = IndexedString::from(FOUR_LINES);
    let expected = [0, 0, 0, 1, 1, 1, 1, 2, 2, 2, 2, 2, 3, 3];

    for (at, line) in expected.into_iter().enumerate() {
        assert_eq!(indexed.line_for_character(at), Some(line));
    }
    assert_eq!(indexed.line_for_character(14), None);
}

#[test]
fn offsets_differ_where_code_points_are_wide() {
    // é and ü take two bytes each: bytes 0-1, newline at byte 2, bytes 3-4.
    let text = "é\nü";
    let indexed = IndexedString::from(text);

    assert_eq!(indexed.lines(), 2);
    assert_eq!(
        IndexedString::make_lines(text),
        vec![
            Range::new(Index::new(0, 0), Index::new(2, 1)),
            Range::new(Index::new(3, 2), Index::new(3, 2)),
        ]
    );
    assert_eq!(indexed.byte_range_for_line(0), Some(0..=2));
    assert_eq!(indexed.character_range_for_line(0), Some(0..=1));
    assert_eq!(indexed.byte_range_for_line(1), Some(3..=3));
    assert_eq!(indexed.character_range_for_line(1), Some(2..=2));
    assert_eq!(indexed.line_for_byte(0), Some(0));
    assert_eq!(indexed.line_for_byte(1), Some(0));
    assert_eq!(indexed.line_for_byte(2), Some(0));
    assert_eq!(indexed.line_for_byte(3), Some(1));
    assert_eq!(indexed.line_for_character(1), Some(0));
    assert_eq!(indexed.line_for_character(2), Some(1));
    assert_eq!(indexed.line_for_character(3), None);
    assert_eq!(indexed.line_str(0), Some("é\n"));
    assert_eq!(indexed.line_str(1), Some("ü"));
}

#[test]
fn bytes_that_continue_the_last_code_point_are_on_no_line() {
    let indexed = IndexedString::from("é\nü");

    assert_eq!(indexed.line_for_byte(3), Some(1));
    assert_eq!(indexed.line_for_byte(4), None);
}

#[test]
fn code_points_of_every_width_are_stepped_over() {
    // One, two, three and four bytes, then a newline, then the same again.
    let text = "a¢€𝄞\na¢€𝄞";
    let indexed = IndexedString::from(text);

    assert_eq!(text.len(), 21);
    assert_eq!(indexed.lines(), 2);
    assert_eq!(indexed.byte_range_for_line(0), Some(0..=10));
    assert_eq!(indexed.character_range_for_line(0), Some(0..=4));
    assert_eq!(indexed.byte_range_for_line(1), Some(11..=17));
    assert_eq!(indexed.character_range_for_line(1), Some(5..=8));
    assert_eq!(indexed.line_str(0), Some("a¢€𝄞\n"));
    assert_eq!(indexed.line_str(1), Some("a¢€𝄞"));
    for at in 0..=10 {
        assert_eq!(indexed.line_for_byte(at), Some(0));
    }
    for at in 11..=17 {
        assert_eq!(indexed.line_for_byte(at), Some(1));
    }
    for at in 18..=22 {
        assert_eq!(indexed.line_for_byte(at), None);
    }
}

#[test]
fn lines_put_together_are_the_text() {
    for text in ["", "a", "\n", "\n\n", "dd", "ab\n", FOUR_LINES, "é\nü", "a¢€𝄞\n\n€", "\n\nx\n"] {
        let indexed = IndexedString::from(text);
        let mut whole = String::new();
        for line in 0..indexed.lines() {
            whole.push_str(indexed.line_str(line).unwrap());
        }

        assert_eq!(whole, text);
    }
}

#[test]
fn every_byte_before_the_last_code_point_is_on_the_line_that_spans_it() {
    for text in ["a", "\n\n", "dd", FOUR_LINES, "é\nü", "a¢€𝄞\n\n€", "\n\nx\n"] {
        let indexed = IndexedString::from(text);
        let last_start = text.char_indices().last().unwrap().0;

        for at in 0..text.len() {
            match indexed.line_for_byte(at) {
                Some(line) => {
                    assert!(at <= last_start);
                    assert!(indexed.byte_range_for_line(line).unwrap().contains(&at));
                }
                None => assert!(at > last_start),
            }
        }
    }
}

#[test]
fn no_byte_is_on_two_lines() {
    for text in [FOUR_LINES, "é\nü", "\n\n\n", "a¢€𝄞\n\n€"] {
        let indexed = IndexedString::from(text);

        for at in 0..text.len() {
            let holding = (0..indexed.lines())
                .filter(|line| indexed.byte_range_for_line(*line).unwrap().contains(&at))
                .count();
            assert!(holding <= 1);
        }
    }
}

#[test]
fn later_lines_start_after_earlier_lines_end() {
    for text in [FOUR_LINES, "é\nü", "\n\n\n", "a¢€𝄞\n\n€"] {
        let indexed = IndexedString::from(text);

        for early in 0..indexed.lines() {
            for late in early + 1..indexed.lines() {
                let before = indexed.byte_range_for_line(early).unwrap();
                let after = indexed.byte_range_for_line(late).unwrap();
                assert!(before.end() < after.start());
            }
        }
        for line in 1..indexed.lines() {
            let before = indexed.byte_range_for_line(line - 1).unwrap();
            let after = indexed.byte_range_for_line(line).unwrap();
            assert_eq!(*before.end() + 1, *after.start());
        }
    }
}

#[test]
fn bisection_finds_every_line_of_a_long_text() {
    let text = "x\n".repeat(1000);
    let indexed = IndexedString::from(text.as_str());

    assert_eq!(indexed.lines(), 1000);
    for line in 0..1000 {
        assert_eq!(indexed.line_for_byte(2 * line), Some(line));
        assert_eq!(indexed.line_for_byte(2 * line + 1), Some(line));
        assert_eq!(indexed.line_for_character(2 * line + 1), Some(line));
        assert_eq!(indexed.byte_range_for_line(line), Some(2 * line..=2 * line + 1));
    }
    assert_eq!(indexed.line_for_byte(2000), None);
}

#[test]
fn owned_text_is_indexed_like_borrowed_text() {
    let owned = IndexedString::from(String::from(FOUR_LINES));
    let borrowed = IndexedString::from(FOUR_LINES);

    assert_eq!(owned.lines(), borrowed.lines());
    assert_eq!(owned.as_str(), FOUR_LINES);
    assert_eq!(owned.as_bytes(), FOUR_LINES.as_bytes());
    assert_eq!(borrowed.as_bytes(), FOUR_LINES.as_bytes());
    for line in 0..4 {
        assert_eq!(owned.line_str(line), borrowed.line_str(line));
        assert_eq!(owned.byte_range_for_line(line), borrowed.byte_range_for_line(line));
    }
}

#[test]
fn source_is_kept_as_given() {
    let indexed = IndexedString::from("é\nü");
    let as_ref: &str = indexed.as_ref();

    assert_eq!(indexed.as_str(), "é\nü");
    assert_eq!(as_ref, "é\nü");
    assert_eq!(indexed.as_bytes(), [0xc3, 0xa9, 0x0a, 0xc3, 0xbc]);
}

#[test]
fn clone_answers_like_the_index_it_came_from() {
    let indexed = IndexedString::from(String::from("ab\ncd"));
    let copy = indexed.clone();
    drop(indexed);

    assert_eq!(copy.lines(), 2);
    assert_eq!(copy.as_str(), "ab\ncd");
    assert_eq!(copy.line_str(1), Some("cd"));
    assert_eq!(copy.line_for_character(3), Some(1));
}

#[test]
fn index_keeps_its_parts() {
    let index = Index::new(7, 5);

    assert_eq!(index.byte(), 7);
    assert_eq!(index.character(), 5);
    assert_eq!(Index::default(), Index::new(0, 0));
    assert_ne!(index, Index::new(5, 7));
    assert!(Index::new(1, 1) < Index::new(2, 0));
}

#[test]
fn range_keeps_its_ends() {
    let range = Range::new(Index::new(3, 2), Index::new(9, 6));

    assert_eq!(range.start(), Index::new(3, 2));
    assert_eq!(range.end(), Index::new(9, 6));
    assert_eq!(range.bytes(), 3..=9);
    assert_eq!(range.characters(), 2..=6);
    assert_eq!(range, range.clone());
}
