use quiz_parser::{parse_quiz_file, parse_with_diagnostics, ParseResult};

const HINT: &str =
    "No valid questions found. Format: Question? | Option A | Option B | Option C | Option D | 0-3";

fn parse(s: &str) -> ParseResult {
    parse_quiz_file(s.to_string())
}

fn options(r: &ParseResult, i: usize) -> Vec<&str> {
    r.questions[i].options.iter().map(|o| o.as_str()).collect()
}

#[test]
fn mixed_file_keeps_two_questions() {
    let input = "What is 2+2? | 3 | 4 | 5 | 6 | 1\n\
                 bad line no pipes\n\
                 Pick one | X | Y | 9\n\
                 Capital of France? | Paris | Lyon | Nice | Marseille | 0\n";
    let r = parse(input);
    assert_eq!(r.questions.len(), 2);
    assert_eq!(r.questions[0].question, "What is 2+2?");
    assert_eq!(options(&r, 0), vec!["3", "4", "5", "6"]);
    assert_eq!(r.questions[0].correct_answer, 1);
    assert_eq!(r.questions[1].question, "Capital of France?");
    assert_eq!(options(&r, 1), vec!["Paris", "Lyon", "Nice", "Marseille"]);
    assert_eq!(r.questions[1].correct_answer, 0);
    assert_eq!(r.error, None);
}

#[test]
fn single_field_gives_hint() {
    let r = parse("Only one field");
    assert!(r.questions.is_empty());
    assert_eq!(r.error.as_deref(), Some(HINT));
}

#[test]
fn index_out_of_range_is_skipped_and_reported() {
    let (r, skipped) = parse_with_diagnostics("Q|A|B|C|D|9");
    assert!(r.questions.is_empty());
    assert_eq!(r.error.as_deref(), Some(HINT));
    assert_eq!(skipped.len(), 1);
    assert_eq!(skipped[0].line, 1);
    assert_eq!(skipped[0].answer, "9");
}

#[test]
fn well_formed_line_gives_one_question() {
    for i in 0..4usize {
        let r = parse(&format!("Q|A|B|C|D|{}", i));
        assert_eq!(r.questions.len(), 1);
        assert_eq!(r.questions[0].question, "Q");
        assert_eq!(options(&r, 0), vec!["A", "B", "C", "D"]);
        assert_eq!(r.questions[0].correct_answer, i);
        assert_eq!(r.error, None);
    }
}

#[test]
fn short_lines_give_nothing_and_no_diagnostic() {
    let (r, skipped) = parse_with_diagnostics("a|b|c|d|0\nx\n|||\n");
    assert!(r.questions.is_empty());
    assert_eq!(r.error.as_deref(), Some(HINT));
    assert!(skipped.is_empty());
}

#[test]
fn bad_answer_line_leaves_the_others_alone() {
    let input = "One|a|b|c|d|0\nTwo|a|b|c|d|x\nThree|a|b|c|d|4\nFour|a|b|c|d|3";
    let (r, skipped) = parse_with_diagnostics(input);
    assert_eq!(r.questions.len(), 2);
    assert_eq!(r.questions[0].question, "One");
    assert_eq!(r.questions[0].correct_answer, 0);
    assert_eq!(r.questions[1].question, "Four");
    assert_eq!(r.questions[1].correct_answer, 3);
    assert_eq!(skipped.len(), 2);
    assert_eq!((skipped[0].line, skipped[0].answer.as_str()), (2, "x"));
    assert_eq!((skipped[1].line, skipped[1].answer.as_str()), (3, "4"));
}

#[test]
fn blank_lines_are_ignored() {
    let input = "\n   \n\tQ1|a|b|c|d|2\n \t \n\nQ2|e|f|g|h|1\n\n";
    let (r, skipped) = parse_with_diagnostics(input);
    assert_eq!(r.questions.len(), 2);
    assert_eq!(r.questions[0].question, "Q1");
    assert_eq!(r.questions[0].correct_answer, 2);
    assert_eq!(r.questions[1].question, "Q2");
    assert_eq!(options(&r, 1), vec!["e", "f", "g", "h"]);
    assert!(skipped.is_empty());
}

#[test]
fn empty_file_gives_hint() {
    let r = parse("");
    assert!(r.questions.is_empty());
    assert_eq!(r.error.as_deref(), Some(HINT));
}

#[test]
fn whitespace_only_file_gives_hint() {
    let r = parse(" \n\t\n  \r\n");
    assert!(r.questions.is_empty());
    assert_eq!(r.error.as_deref(), Some(HINT));
}

#[test]
fn every_line_invalid_gives_hint() {
    let r = parse("nothing here\nQ|A|B|C|D|-1\nQ|A|B|C|D|\nQ|A|B|C|D|4");
    assert!(r.questions.is_empty());
    assert_eq!(r.error.as_deref(), Some(HINT));
}

#[test]
fn reparse_gives_same_values_and_new_ids() {
    let input = "Q1|a|b|c|d|0\nQ2|a|b|c|d|1";
    let r1 = parse(input);
    let r2 = parse(input);
    assert_eq!(r1.questions.len(), 2);
    assert_eq!(r2.questions.len(), 2);
    for i in 0..2 {
        assert_eq!(r1.questions[i].question, r2.questions[i].question);
        assert_eq!(r1.questions[i].options, r2.questions[i].options);
        assert_eq!(r1.questions[i].correct_answer, r2.questions[i].correct_answer);
        assert!(!r1.questions[i].id.is_empty());
        assert_ne!(r1.questions[i].id, r2.questions[i].id);
    }
    assert_ne!(r1.questions[0].id, r1.questions[1].id);
}

#[test]
fn ids_are_hyphenated_uuids() {
    let r = parse("Q|A|B|C|D|0");
    let id = &r.questions[0].id;
    assert_eq!(id.chars().count(), 36);
    for (k, c) in id.chars().enumerate() {
        if k == 8 || k == 13 || k == 18 || k == 23 {
            assert_eq!(c, '-');
        } else {
            assert!(c.is_ascii_hexdigit());
        }
    }
}

#[test]
fn extra_fields_become_options() {
    let r = parse("Pick | a | b | c | d | e | f | 5");
    assert_eq!(r.questions.len(), 1);
    assert_eq!(options(&r, 0), vec!["a", "b", "c", "d", "e", "f"]);
    assert_eq!(r.questions[0].correct_answer, 5);
}

#[test]
fn index_equal_to_option_count_is_rejected() {
    let (r, skipped) = parse_with_diagnostics("Pick | a | b | c | d | e | 5");
    assert!(r.questions.is_empty());
    assert_eq!(skipped.len(), 1);
    assert_eq!(skipped[0].answer, "5");
}

#[test]
fn empty_fields_are_kept() {
    let r = parse("| | | | |0");
    assert_eq!(r.questions.len(), 1);
    assert_eq!(r.questions[0].question, "");
    assert_eq!(options(&r, 0), vec!["", "", "", ""]);
    assert_eq!(r.questions[0].correct_answer, 0);
}

#[test]
fn index_forms_follow_usize_parsing() {
    let r = parse("Q|a|b|c|d|+2\nQ|a|b|c|d|002\nQ|a|b|c|d|-0\nQ|a|b|c|d|+\nQ|a|b|c|d|1 1");
    assert_eq!(r.questions.len(), 2);
    assert_eq!(r.questions[0].correct_answer, 2);
    assert_eq!(r.questions[1].correct_answer, 2);
}

#[test]
fn huge_index_is_rejected() {
    let (r, skipped) = parse_with_diagnostics("Q|a|b|c|d|99999999999999999999999999999");
    assert!(r.questions.is_empty());
    assert_eq!(skipped.len(), 1);
}

#[test]
fn crlf_lines_and_unicode_whitespace() {
    let input = "Q1|a|b|c|d|1\r\n\u{3000}Q2\u{a0}|\u{2003}a|b|c|d|0\r\n";
    let r = parse(input);
    assert_eq!(r.questions.len(), 2);
    assert_eq!(r.questions[0].correct_answer, 1);
    assert_eq!(r.questions[1].question, "Q2");
    assert_eq!(options(&r, 1), vec!["a", "b", "c", "d"]);
}

#[test]
fn non_ascii_text_is_kept() {
    let r = parse("Quelle ville? | Paris é | Lyon | Nice | Zürich | 3");
    assert_eq!(r.questions[0].question, "Quelle ville?");
    assert_eq!(options(&r, 0), vec!["Paris é", "Lyon", "Nice", "Zürich"]);
    assert_eq!(r.questions[0].correct_answer, 3);
}
