//! Quiz records and the parser that reads them from text.

use vstd::prelude::*;

use crate::ids::{fresh_id, is_question_id};
use crate::text::{
    chars_of, index_below, read_index, split_on, split_ranges, string_of, trim, trim_range,
};

verus! {

/// One multiple-choice question.
#[derive(Debug, Clone)]
pub struct Question {
    /// A fresh identifier, made when the question is parsed.
    pub id: String,
    pub question: String,
    pub options: Vec<String>,
    /// Index of the correct option, counted from zero.
    pub correct_answer: usize,
}

/// The texts of a sequence of strings.
pub open spec fn texts(v: Seq<String>) -> Seq<Seq<char>> {
    v.map_values(|o: String| o@)
}

/// What a question says, apart from its identifier.
pub struct QuestionView {
    pub question: Seq<char>,
    pub options: Seq<Seq<char>>,
    pub correct_answer: nat,
}

impl View for Question {
    type V = QuestionView;

    open spec fn view(&self) -> QuestionView {
        QuestionView {
            question: self.question@,
            options: texts(self.options@),
            correct_answer: self.correct_answer as nat,
        }
    }
}

/// The outcome of parsing a whole quiz file.
#[derive(Debug)]
pub struct ParseResult {
    pub questions: Vec<Question>,
    /// Set exactly when no question was found.
    pub error: Option<String>,
}

/// A line that had the shape of a question but whose last field is not an
/// index of one of its options.
#[derive(Debug, Clone)]
pub struct SkippedLine {
    /// Line number, counted from one.
    pub line: usize,
    /// The offending last field, trimmed.
    pub answer: String,
}

/// The message given when a file holds no valid question.
pub open spec fn format_hint() -> Seq<char> {
    "No valid questions found. Format: Question? | Option A | Option B | Option C | Option D | 0-3"@
}

/// The message given when a file holds no valid question, as a `String`.
pub fn no_questions_message() -> (r: String)
    ensures
        r@ == format_hint(),
{
    String::from_str(
        "No valid questions found. Format: Question? | Option A | Option B | Option C | Option D | 0-3",
    )
}

/// The lines of a file: the pieces between newlines.
pub open spec fn lines_of(content: Seq<char>) -> Seq<Seq<char>> {
    split_on(content, '\n')
}

/// The trimmed `|`-separated fields of a trimmed line.
pub open spec fn fields_of(line: Seq<char>) -> Seq<Seq<char>> {
    split_on(trim(line), '|').map_values(|f: Seq<char>| trim(f))
}

/// Whether a line has the shape of a question: not blank, and at least six
/// fields (the question, four or more options and the answer index).
pub open spec fn has_question_shape(line: Seq<char>) -> bool {
    trim(line).len() > 0 && fields_of(line).len() >= 6
}

/// The answer index of a line of question shape, if its last field names
/// one of the options.
pub open spec fn answer_of(line: Seq<char>) -> Option<nat> {
    let p = fields_of(line);
    index_below(p.last(), (p.len() - 2) as nat)
}

/// The question that a line holds, if any.
pub open spec fn question_of_line(line: Seq<char>) -> Option<QuestionView> {
    let p = fields_of(line);
    if has_question_shape(line) {
        match answer_of(line) {
            Some(n) => Some(
                QuestionView { question: p[0], options: p.subrange(1, p.len() - 1), correct_answer: n },
            ),
            None => None,
        }
    } else {
        None
    }
}

/// Whether a line is dropped with a diagnostic: it has the shape of a
/// question but no valid answer index.
pub open spec fn is_bad_answer_line(line: Seq<char>) -> bool {
    has_question_shape(line) && answer_of(line) is None
}

/// The questions of a sequence of lines, in order.
pub open spec fn questions_of(lines: Seq<Seq<char>>) -> Seq<QuestionView>
    decreases lines.len(),
{
    if lines.len() == 0 {
        Seq::empty()
    } else {
        let prev = questions_of(lines.drop_last());
        match question_of_line(lines.last()) {
            Some(q) => prev.push(q),
            None => prev,
        }
    }
}

/// The diagnostics of a sequence of lines: line number (from one) and last
/// field of each line dropped for its answer index.
pub open spec fn skipped_of(lines: Seq<Seq<char>>) -> Seq<(nat, Seq<char>)>
    decreases lines.len(),
{
    if lines.len() == 0 {
        Seq::empty()
    } else {
        let prev = skipped_of(lines.drop_last());
        if is_bad_answer_line(lines.last()) {
            prev.push((lines.len(), fields_of(lines.last()).last()))
        } else {
            prev
        }
    }
}

/// The questions of a quiz file, in line order.
pub open spec fn quiz_questions(content: Seq<char>) -> Seq<QuestionView> {
    questions_of(lines_of(content))
}

/// The diagnostics of a quiz file, in line order.
pub open spec fn quiz_skipped(content: Seq<char>) -> Seq<(nat, Seq<char>)> {
    skipped_of(lines_of(content))
}

/// The views of a sequence of questions.
pub open spec fn question_views_of(v: Seq<Question>) -> Seq<QuestionView> {
    v.map_values(|q: Question| q@)
}

/// The views of a sequence of diagnostics.
pub open spec fn skipped_views_of(v: Seq<SkippedLine>) -> Seq<(nat, Seq<char>)> {
    v.map_values(|d: SkippedLine| d.view())
}

impl ParseResult {
    /// The views of the questions, in order.
    pub open spec fn question_views(&self) -> Seq<QuestionView> {
        question_views_of(self.questions@)
    }

    /// Whether this is the result of parsing `content`: its questions are
    /// those of the file, each with an id, and the error is set, to the
    /// format hint, exactly when there are none.
    pub open spec fn describes(&self, content: Seq<char>) -> bool {
        &&& self.question_views() == quiz_questions(content)
        &&& forall|i: int|
            0 <= i < self.questions@.len() ==> is_question_id(#[trigger] self.questions@[i].id@)
        &&& (self.error is None <==> quiz_questions(content).len() > 0)
        &&& (self.error matches Some(e) ==> e@ == format_hint())
    }
}

impl SkippedLine {
    pub open spec fn view(&self) -> (nat, Seq<char>) {
        (self.line as nat, self.answer@)
    }
}

/// What one line gives.
enum LineOutcome {
    Blank,
    Short,
    BadAnswer(String),
    Parsed(Question),
}

/// Reads the line `text[lo..hi]`.
fn read_line(text: &Vec<char>, lo: usize, hi: usize) -> (r: LineOutcome)
    requires
        lo <= hi <= text@.len(),
    ensures
        ({
            let line = text@.subrange(lo as int, hi as int);
            match r {
                LineOutcome::Blank => trim(line).len() == 0,
                LineOutcome::Short => trim(line).len() > 0 && fields_of(line).len() < 6,
                LineOutcome::BadAnswer(f) => is_bad_answer_line(line) && f@
                    == fields_of(line).last(),
                LineOutcome::Parsed(q) => question_of_line(line) == Some(q@) && is_question_id(
                    q.id@,
                ),
            }
        }),
{
    let ghost line = text@.subrange(lo as int, hi as int);
    let (a, b) = trim_range(text, lo, hi);
    if a == b {
        return LineOutcome::Blank;
    }
    let pieces = split_ranges(text, a, b, '|');
    let ghost raw = split_on(text@.subrange(a as int, b as int), '|');
    let mut fields: Vec<(usize, usize)> = Vec::new();
    for j in 0..pieces.len()
        invariant
            lo <= a <= b <= hi <= text@.len(),
            raw == split_on(text@.subrange(a as int, b as int), '|'),
            pieces@.len() == raw.len(),
            forall|k: int|
                0 <= k < pieces@.len() ==> a <= (#[trigger] pieces@[k]).0 <= pieces@[k].1 <= b
                    && text@.subrange(pieces@[k].0 as int, pieces@[k].1 as int) == raw[k],
            fields@.len() == j,
            forall|k: int|
                0 <= k < j ==> lo <= (#[trigger] fields@[k]).0 <= fields@[k].1 <= hi
                    && text@.subrange(fields@[k].0 as int, fields@[k].1 as int) == trim(raw[k]),
    {
        let (p, q) = pieces[j];
        fields.push(trim_range(text, p, q));
    }
    let ghost p = fields_of(line);
    assert(p.len() == fields@.len());
    assert(forall|k: int|
        0 <= k < fields@.len() ==> text@.subrange(
            (#[trigger] fields@[k]).0 as int,
            fields@[k].1 as int,
        ) == p[k]);
    let n = fields.len();
    if n < 6 {
        return LineOutcome::Short;
    }
    let (ea, eb) = fields[n - 1];
    match read_index(text, ea, eb, n - 2) {
        None => {
            LineOutcome::BadAnswer(string_of(text, ea, eb))
        },
        Some(idx) => {
            let (qa, qb) = fields[0];
            let question = string_of(text, qa, qb);
            let mut options: Vec<String> = Vec::new();
            let mut k: usize = 1;
            while k < n - 1
                invariant
                    1 <= k <= n - 1,
                    n == fields@.len(),
                    n >= 6,
                    p == fields_of(line),
                    p.len() == n,
                    forall|m: int|
                        0 <= m < n ==> lo <= (#[trigger] fields@[m]).0 <= fields@[m].1 <= hi
                            && text@.subrange(fields@[m].0 as int, fields@[m].1 as int) == p[m],
                    hi <= text@.len(),
                    texts(options@) == p.subrange(1, k as int),
                decreases n - k,
            {
                let (oa, ob) = fields[k];
                let o = string_of(text, oa, ob);
                assert(o@ == p[k as int]) by {
                    assert(fields@[k as int] == (oa, ob));
                }
                let ghost before = options@;
                options.push(o);
                assert(texts(options@) =~= p.subrange(1, k + 1)) by {
                    assert(options@ == before.push(o));
                    assert(texts(before) == p.subrange(1, k as int));
                    assert(texts(before).len() == before.len());
                    assert(before.len() == k - 1);
                    assert(options@.len() == k);
                    assert(texts(options@).len() == k);
                    assert forall|m: int| 0 <= m < options@.len() implies #[trigger] texts(
                        options@,
                    )[m] == p.subrange(1, k + 1)[m] by {
                        if m < before.len() {
                            assert(texts(before)[m] == p.subrange(1, k as int)[m]);
                            assert(options@[m] == before[m]);
                        } else {
                            assert(options@[m] == o);
                        }
                    }
                }
                k = k + 1;
            }
            let q = Question { id: fresh_id(), question, options, correct_answer: idx };
            assert(q@.options =~= p.subrange(1, n - 1));
            LineOutcome::Parsed(q)
        },
    }
}

/// Parses a quiz file, and lists the lines dropped for a bad answer index.
pub fn parse_with_diagnostics(content: &str) -> (r: (ParseResult, Vec<SkippedLine>))
    ensures
        r.0.describes(content@),
        skipped_views_of(r.1@) == quiz_skipped(content@),
{
    let text = chars_of(content);
    let lines = split_ranges(&text, 0, text.len(), '\n');
    let ghost ls = lines_of(content@);
    assert(text@.subrange(0, text@.len() as int) =~= content@);
    let mut questions: Vec<Question> = Vec::new();
    let mut skipped: Vec<SkippedLine> = Vec::new();
    let mut k: usize = 0;
    assert(ls.take(0) =~= Seq::<Seq<char>>::empty());
    assert(question_views_of(questions@) =~= Seq::<QuestionView>::empty());
    assert(skipped_views_of(skipped@) =~= Seq::<(nat, Seq<char>)>::empty());
    while k < lines.len()
        invariant
            k <= lines@.len(),
            text@ == content@,
            ls == lines_of(content@),
            lines@.len() == ls.len(),
            forall|j: int|
                0 <= j < lines@.len() ==> 0 <= (#[trigger] lines@[j]).0 <= lines@[j].1
                    <= text@.len() && text@.subrange(lines@[j].0 as int, lines@[j].1 as int)
                    == ls[j],
            question_views_of(questions@) == questions_of(ls.take(k as int)),
            forall|i: int|
                0 <= i < questions@.len() ==> is_question_id(#[trigger] questions@[i].id@),
            skipped_views_of(skipped@) == skipped_of(ls.take(k as int)),
        decreases lines@.len() - k,
    {
        let (lo, hi) = lines[k];
        let ghost line = ls[k as int];
        let ghost upto = ls.take(k + 1);
        assert(upto.drop_last() =~= ls.take(k as int));
        assert(upto.last() == line);
        assert(upto.len() == k + 1);
        let ghost qs = questions@;
        let ghost ss = skipped@;
        match read_line(&text, lo, hi) {
            LineOutcome::Blank => {},
            LineOutcome::Short => {},
            LineOutcome::BadAnswer(f) => {
                skipped.push(SkippedLine { line: k + 1, answer: f });
                assert(skipped_views_of(skipped@) =~= skipped_views_of(ss).push(
                    ((k + 1) as nat, f@),
                ));
            },
            LineOutcome::Parsed(q) => {
                questions.push(q);
                assert(question_views_of(questions@) =~= question_views_of(qs).push(q@));
            },
        }
        k = k + 1;
    }
    assert(ls.take(k as int) =~= ls);
    if questions.len() == 0 {
        (ParseResult { questions, error: Some(no_questions_message()) }, skipped)
    } else {
        (ParseResult { questions, error: None }, skipped)
    }
}

/// Parses a quiz file into its questions; the error is set, to a hint on
/// the expected format, exactly when there are none.
pub fn parse_quiz_file(content: String) -> (r: ParseResult)
    ensures
        r.describes(content@),
{
    let (result, _skipped) = parse_with_diagnostics(content.as_str());
    result
}

} // verus!
