//! Laws of the quiz parser that relate several lines, files or calls.

use vstd::prelude::*;

use crate::ids::is_question_id;
use crate::quiz::{
    fields_of, format_hint, has_question_shape, lines_of, question_of_line, questions_of,
    quiz_questions, ParseResult, QuestionView,
};
use crate::text::{
    digit_value, is_ws, lemma_split_concat, lemma_split_no_sep, numeral, numeral_value, split_on,
    trim, trim_end, trim_start,
};

verus! {

/// The line `q|a|b|c|d|i`.
pub open spec fn question_line(
    q: Seq<char>,
    a: Seq<char>,
    b: Seq<char>,
    c: Seq<char>,
    d: Seq<char>,
    i: char,
) -> Seq<char> {
    q.push('|') + (a.push('|') + (b.push('|') + (c.push('|') + (d.push('|') + seq![i]))))
}

proof fn lemma_trim_start_len(s: Seq<char>)
    ensures
        trim_start(s).len() <= s.len(),
    decreases s.len(),
{
    if s.len() > 0 && is_ws(s[0]) {
        lemma_trim_start_len(s.drop_first());
    }
}

proof fn lemma_trim_end_len(s: Seq<char>)
    ensures
        trim_end(s).len() <= s.len(),
    decreases s.len(),
{
    if s.len() > 0 && is_ws(s.last()) {
        lemma_trim_end_len(s.drop_last());
    }
}

/// A text that trimming leaves alone starts and ends with a non-blank.
proof fn lemma_trimmed_ends(s: Seq<char>)
    requires
        trim(s) == s,
        s.len() > 0,
    ensures
        !is_ws(s[0]),
        !is_ws(s.last()),
{
    lemma_trim_start_len(s);
    if is_ws(s[0]) {
        lemma_trim_start_len(s.drop_first());
        lemma_trim_end_len(trim_start(s));
    } else {
        lemma_trim_end_len(trim_start(s));
        if is_ws(s.last()) {
            lemma_trim_end_len(s.drop_last());
        }
    }
}

/// A text that starts and ends with a non-blank is its own trim.
proof fn lemma_trim_fixed(s: Seq<char>)
    requires
        s.len() == 0 || (!is_ws(s[0]) && !is_ws(s.last())),
    ensures
        trim(s) == s,
{
    assert(trim_start(s) == s);
    assert(trim_end(s) == s);
}

proof fn lemma_concat_lacks(x: Seq<char>, y: Seq<char>, c: char)
    requires
        !x.contains(c),
        !y.contains(c),
    ensures
        !(x + y).contains(c),
{
    if (x + y).contains(c) {
        let k = choose|k: int| 0 <= k < (x + y).len() && (x + y)[k] == c;
        if k < x.len() {
            assert(x[k] == c);
        } else {
            assert(y[k - x.len()] == c);
        }
    }
}

proof fn lemma_push_lacks(x: Seq<char>, sep: char, c: char)
    requires
        !x.contains(c),
        sep != c,
    ensures
        !x.push(sep).contains(c),
{
    assert(!seq![sep].contains(c)) by {
        if seq![sep].contains(c) {
            let k = choose|k: int| 0 <= k < 1 && seq![sep][k] == c;
        }
    }
    assert(x.push(sep) =~= x + seq![sep]);
    lemma_concat_lacks(x, seq![sep], c);
}

/// The questions of lines joined one after the other are those of each part.
proof fn lemma_questions_concat(a: Seq<Seq<char>>, b: Seq<Seq<char>>)
    ensures
        questions_of(a + b) == questions_of(a) + questions_of(b),
    decreases b.len(),
{
    if b.len() == 0 {
        assert(a + b =~= a);
        assert(questions_of(a) + questions_of(b) =~= questions_of(a));
    } else {
        lemma_questions_concat(a, b.drop_last());
        assert((a + b).drop_last() =~= a + b.drop_last());
        assert((a + b).last() == b.last());
        match question_of_line(b.last()) {
            Some(q) => {
                assert(questions_of(a) + questions_of(b) =~= (questions_of(a) + questions_of(
                    b.drop_last(),
                )).push(q));
            },
            None => {},
        }
    }
}

/// Lines never influence each other: the questions of two texts joined by
/// a newline are those of the first followed by those of the second.
pub proof fn lemma_lines_independent(x: Seq<char>, y: Seq<char>)
    ensures
        quiz_questions(x.push('\n') + y) == quiz_questions(x) + quiz_questions(y),
{
    lemma_split_concat(x, y, '\n');
    lemma_questions_concat(lines_of(x), lines_of(y));
}

/// A single line that gives no question drops out of any file it stands
/// in, and the lines around it give what they give alone.
proof fn lemma_dropped_line(before: Seq<char>, line: Seq<char>, after: Seq<char>)
    requires
        !line.contains('\n'),
        question_of_line(line) is None,
    ensures
        quiz_questions(line) == Seq::<QuestionView>::empty(),
        quiz_questions(before.push('\n') + line.push('\n') + after) == quiz_questions(before)
            + quiz_questions(after),
{
    lemma_split_no_sep(line, '\n');
    assert(seq![line].drop_last() =~= Seq::<Seq<char>>::empty());
    assert(seq![line].last() == line);
    assert(questions_of(Seq::<Seq<char>>::empty()) =~= Seq::<QuestionView>::empty());
    assert(quiz_questions(line) =~= Seq::<QuestionView>::empty());
    let rest = line.push('\n') + after;
    assert(before.push('\n') + line.push('\n') + after =~= before.push('\n') + rest);
    lemma_lines_independent(before, rest);
    lemma_lines_independent(line, after);
    assert(quiz_questions(before) + (Seq::<QuestionView>::empty() + quiz_questions(after))
        =~= quiz_questions(before) + quiz_questions(after));
}

/// A field that stands as it is in a line: trimmed, and free of `|` and
/// of newlines.
pub open spec fn plain_field(f: Seq<char>) -> bool {
    trim(f) == f && !f.contains('|') && !f.contains('\n')
}

/// A line `q|a|b|c|d|i` of trimmed fields free of `|` and newlines, whose
/// index `i` is one of `0` to `3`, gives exactly one question: `q`, with the
/// options `a`, `b`, `c`, `d` and the answer `i`.
pub proof fn lemma_well_formed_line(
    q: Seq<char>,
    a: Seq<char>,
    b: Seq<char>,
    c: Seq<char>,
    d: Seq<char>,
    i: char,
)
    requires
        plain_field(q),
        plain_field(a),
        plain_field(b),
        plain_field(c),
        plain_field(d),
        '0' <= i <= '3',
    ensures
        quiz_questions(question_line(q, a, b, c, d, i)) == seq![
            QuestionView {
                question: q,
                options: seq![a, b, c, d],
                correct_answer: digit_value(i),
            },
        ],
{
    let last = seq![i];
    assert(!last.contains('|') && !last.contains('\n')) by {
        if last.contains('|') || last.contains('\n') {
            let k = choose|k: int| 0 <= k < 1 && (last[k] == '|' || last[k] == '\n');
        }
    }
    let r4 = d.push('|') + last;
    let r3 = c.push('|') + r4;
    let r2 = b.push('|') + r3;
    let r1 = a.push('|') + r2;
    let line = q.push('|') + r1;
    assert(line == question_line(q, a, b, c, d, i));
    // the line holds no newline
    lemma_push_lacks(d, '|', '\n');
    lemma_concat_lacks(d.push('|'), last, '\n');
    lemma_push_lacks(c, '|', '\n');
    lemma_concat_lacks(c.push('|'), r4, '\n');
    lemma_push_lacks(b, '|', '\n');
    lemma_concat_lacks(b.push('|'), r3, '\n');
    lemma_push_lacks(a, '|', '\n');
    lemma_concat_lacks(a.push('|'), r2, '\n');
    lemma_push_lacks(q, '|', '\n');
    lemma_concat_lacks(q.push('|'), r1, '\n');
    lemma_split_no_sep(line, '\n');
    // the line is its own trim
    if q.len() > 0 {
        lemma_trimmed_ends(q);
        assert(line[0] == q[0]);
    } else {
        assert(line[0] == '|');
    }
    assert(line.last() == i);
    lemma_trim_fixed(line);
    // its fields
    lemma_split_no_sep(last, '|');
    lemma_split_concat(d, last, '|');
    lemma_split_concat(c, r4, '|');
    lemma_split_concat(b, r3, '|');
    lemma_split_concat(a, r2, '|');
    lemma_split_concat(q, r1, '|');
    lemma_split_no_sep(q, '|');
    lemma_split_no_sep(a, '|');
    lemma_split_no_sep(b, '|');
    lemma_split_no_sep(c, '|');
    lemma_split_no_sep(d, '|');
    assert(split_on(line, '|') =~= seq![q, a, b, c, d, last]);
    lemma_trim_fixed(last);
    let p = fields_of(line);
    assert(p =~= seq![q, a, b, c, d, last]);
    assert(has_question_shape(line));
    assert(last.drop_last() =~= Seq::<char>::empty());
    assert(numeral_value(last.drop_last()) == 0);
    assert(last.last() == i);
    assert(numeral_value(last) == digit_value(i));
    assert(numeral(last) == Some(digit_value(i)));
    assert(p.subrange(1, 5) =~= seq![a, b, c, d]);
    assert(seq![line].drop_last() =~= Seq::<Seq<char>>::empty());
    assert(seq![line].last() == line);
    assert(questions_of(Seq::<Seq<char>>::empty()) =~= Seq::<QuestionView>::empty());
    assert(quiz_questions(line) =~= seq![
        QuestionView { question: q, options: seq![a, b, c, d], correct_answer: digit_value(i) },
    ]);
}

/// A line with fewer than six fields gives no question, and the lines
/// around it give what they give alone.
pub proof fn lemma_short_line_skipped(before: Seq<char>, line: Seq<char>, after: Seq<char>)
    requires
        !line.contains('\n'),
        fields_of(line).len() < 6,
    ensures
        question_of_line(line) is None,
        quiz_questions(line) == Seq::<QuestionView>::empty(),
        quiz_questions(before.push('\n') + line.push('\n') + after) == quiz_questions(before)
            + quiz_questions(after),
{
    lemma_dropped_line(before, line, after);
}

/// A line of question shape whose last field is not a numeral, or names no
/// option, gives no question, and the lines around it give what they give
/// alone.
pub proof fn lemma_bad_answer_skipped(before: Seq<char>, line: Seq<char>, after: Seq<char>)
    requires
        !line.contains('\n'),
        has_question_shape(line),
        ({
            let p = fields_of(line);
            match numeral(p.last()) {
                Some(n) => n >= p.len() - 2,
                None => true,
            }
        }),
    ensures
        question_of_line(line) is None,
        quiz_questions(line) == Seq::<QuestionView>::empty(),
        quiz_questions(before.push('\n') + line.push('\n') + after) == quiz_questions(before)
            + quiz_questions(after),
{
    lemma_dropped_line(before, line, after);
}

/// A blank line gives no question, and the lines around it give what they
/// give alone.
pub proof fn lemma_blank_line_skipped(before: Seq<char>, line: Seq<char>, after: Seq<char>)
    requires
        !line.contains('\n'),
        forall|k: int| 0 <= k < line.len() ==> is_ws(#[trigger] line[k]),
    ensures
        question_of_line(line) is None,
        quiz_questions(line) == Seq::<QuestionView>::empty(),
        quiz_questions(before.push('\n') + line.push('\n') + after) == quiz_questions(before)
            + quiz_questions(after),
{
    lemma_blank_trims_empty(line);
    lemma_dropped_line(before, line, after);
}

proof fn lemma_blank_trims_empty(s: Seq<char>)
    requires
        forall|k: int| 0 <= k < s.len() ==> is_ws(#[trigger] s[k]),
    ensures
        trim(s).len() == 0,
    decreases s.len(),
{
    if s.len() > 0 {
        let t = s.drop_first();
        assert forall|k: int| 0 <= k < t.len() implies is_ws(#[trigger] t[k]) by {
            assert(t[k] == s[k + 1]);
        }
        lemma_blank_trims_empty(t);
        assert(trim_start(s) == trim_start(t));
    } else {
        assert(trim_start(s) == s);
        assert(trim_end(s) == s);
    }
}

proof fn lemma_no_question_lines(lines: Seq<Seq<char>>)
    requires
        forall|k: int| 0 <= k < lines.len() ==> (#[trigger] question_of_line(lines[k])) is None,
    ensures
        questions_of(lines) == Seq::<QuestionView>::empty(),
    decreases lines.len(),
{
    if lines.len() > 0 {
        let t = lines.drop_last();
        assert forall|k: int| 0 <= k < t.len() implies (#[trigger] question_of_line(t[k])) is None by {
            assert(t[k] == lines[k]);
        }
        lemma_no_question_lines(t);
        assert(question_of_line(lines[lines.len() - 1]) is None);
    }
}

/// When no line of a file gives a question, the result of parsing it has no
/// questions and carries the format hint as its error.
pub proof fn lemma_no_valid_line(content: Seq<char>, r: ParseResult)
    requires
        r.describes(content),
        forall|k: int|
            0 <= k < lines_of(content).len() ==> (#[trigger] question_of_line(
                lines_of(content)[k],
            )) is None,
    ensures
        r.questions@.len() == 0,
        r.error matches Some(e) && e@ == format_hint(),
{
    lemma_no_question_lines(lines_of(content));
    assert(r.question_views().len() == r.questions@.len());
}

/// Parsing an empty file gives no questions and the format hint as error.
pub proof fn lemma_empty_file(r: ParseResult)
    requires
        r.describes(Seq::empty()),
    ensures
        r.questions@.len() == 0,
        r.error matches Some(e) && e@ == format_hint(),
{
    let content = Seq::<char>::empty();
    assert(lines_of(content) =~= seq![content]);
    assert(trim_start(content) == content);
    assert(trim_end(content) == content);
    assert(question_of_line(content) is None);
    lemma_no_valid_line(content, r);
}

/// Two parses of the same text agree on everything but the ids: the same
/// questions, options and answers in the same order, and the same error.
/// Every id has the shape of a UUID, so none is empty.
pub proof fn lemma_reparse_agrees(content: Seq<char>, r1: ParseResult, r2: ParseResult)
    requires
        r1.describes(content),
        r2.describes(content),
    ensures
        r1.question_views() == r2.question_views(),
        r1.questions@.len() == r2.questions@.len(),
        r1.error is None <==> r2.error is None,
        (r1.error matches Some(e1) ==> (r2.error matches Some(e2) && e1@ == e2@)),
        forall|i: int| 0 <= i < r1.questions@.len() ==> (#[trigger] r1.questions@[i]).id@.len() > 0,
{
    assert(r1.question_views().len() == r1.questions@.len());
    assert(r2.question_views().len() == r2.questions@.len());
    assert forall|i: int| 0 <= i < r1.questions@.len() implies (#[trigger] r1.questions@[i]).id@.len()
        > 0 by {
        assert(is_question_id(r1.questions@[i].id@));
    }
}

} // verus!
