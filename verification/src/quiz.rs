//! The quiz data model and session state machine: questions parsed from
//! tabular rows, a cursor over them, recorded answers, and scored results.
use vstd::prelude::*;
use vstd::multiset::Multiset;

use crate::strings::{answers_match, check_answer, parse_u32, parse_u32_spec, trim_spec, trim_str};

verus! {

/// One question row of the source table.
#[derive(Debug, Clone)]
pub struct Question {
    /// The declared row ordinal; not required to be unique or sequential.
    pub number: u32,
    /// The prompt, trimmed of surrounding whitespace.
    pub text: String,
    /// The trimmed reference answer.
    pub correct_answer: String,
    /// Empty for a short-answer question; otherwise the correct answer
    /// followed by the remaining declared options, in file order.
    pub options: Vec<String>,
    /// Absent until the user answers; overwritten on resubmission.
    pub user_answer: Option<String>,
}

/// The overall mix of question kinds in a loaded set.
#[derive(Debug, Clone, Copy, PartialEq, Eq, Structural)]
pub enum QuestionType {
    ShortAnswer,
    MultipleChoice,
    Mixed,
}

/// Why a load failed. Row numbers are 1-based.
#[derive(Debug, Clone, PartialEq, Eq)]
pub enum LoadError {
    /// A row has fewer than 3 fields.
    MalformedRow { row_number: usize, field_count: usize },
    /// A row's first field is not a non-negative integer.
    InvalidQuestionNumber { row_number: usize },
    /// The file yielded zero question rows.
    EmptyQuizFile,
    /// The text is not a readable delimited table.
    IoOrFormatError { message: String },
}

/// The live quiz instance: the question sequence plus cursor and answers.
#[derive(Debug)]
pub struct Quiz {
    pub questions: Vec<Question>,
    pub question_type: QuestionType,
    pub current_index: usize,
    pub shuffled: bool,
}

impl Question {
    /// A question seen up to the order of its options, answers included.
    pub open spec fn full_key(self) -> (u32, Seq<char>, Seq<char>, Multiset<Seq<char>>, Option<
        Seq<char>,
    >) {
        (
            self.number,
            self.text@,
            self.correct_answer@,
            self.options.deep_view().to_multiset(),
            self.user_answer.deep_view(),
        )
    }

    /// A question seen up to the order of its options, the recorded answer
    /// left aside.
    pub open spec fn content_key(self) -> (u32, Seq<char>, Seq<char>, Multiset<Seq<char>>) {
        (
            self.number,
            self.text@,
            self.correct_answer@,
            self.options.deep_view().to_multiset(),
        )
    }

    /// The data-model invariant: options are empty (short answer) or hold
    /// the correct answer.
    pub open spec fn wf(self) -> bool {
        self.options@.len() == 0 || self.options.deep_view().to_multiset().count(
            self.correct_answer@,
        ) > 0
    }

    /// Whether the recorded answer agrees with the reference answer under
    /// the trimmed, case-insensitive comparison.
    pub open spec fn answered_correct(self) -> bool {
        self.user_answer matches Some(a) && answers_match(a@, self.correct_answer@)
    }

    /// Whether an answer was recorded and does not agree with the reference
    /// answer.
    pub open spec fn answered_wrong(self) -> bool {
        self.user_answer matches Some(a) && !answers_match(a@, self.correct_answer@)
    }
}

/// Each question of `qs` seen up to the order of its options.
pub open spec fn full_keys(qs: Seq<Question>) -> Seq<
    (u32, Seq<char>, Seq<char>, Multiset<Seq<char>>, Option<Seq<char>>),
> {
    qs.map_values(|q: Question| q.full_key())
}

/// Each question of `qs` seen up to the order of its options, recorded
/// answers left aside.
pub open spec fn content_keys(qs: Seq<Question>) -> Seq<
    (u32, Seq<char>, Seq<char>, Multiset<Seq<char>>),
> {
    qs.map_values(|q: Question| q.content_key())
}

/// Relies on rand's `SliceRandom::shuffle`: a Fisher-Yates shuffle that
/// reorders the slice in place by swaps, so the multiset of its elements is
/// unchanged, whatever the drawn order.
#[verifier::external_body]
fn shuffle_vec<T>(v: &mut Vec<T>)
    ensures
        final(v)@.to_multiset() == old(v)@.to_multiset(),
{
    let mut rng = rand::thread_rng();
    rand::seq::SliceRandom::shuffle(v.as_mut_slice(), &mut rng);
}

/// How many questions of `qs` hold a correct recorded answer. An unanswered
/// question counts toward neither tally.
pub open spec fn correct_count(qs: Seq<Question>) -> int
    decreases qs.len(),
{
    if qs.len() == 0 {
        0
    } else {
        correct_count(qs.drop_last()) + if qs.last().answered_correct() {
            1int
        } else {
            0int
        }
    }
}

/// The indices of the questions of `qs` that hold a wrong recorded answer,
/// in ascending order.
pub open spec fn incorrect_indices(qs: Seq<Question>) -> Seq<int>
    decreases qs.len(),
{
    if qs.len() == 0 {
        Seq::empty()
    } else if qs.last().answered_wrong() {
        incorrect_indices(qs.drop_last()).push(qs.len() - 1)
    } else {
        incorrect_indices(qs.drop_last())
    }
}

/// A row holds enough fields: number, prompt and reference answer.
pub open spec fn row_has_fields(row: Seq<Seq<char>>) -> bool {
    row.len() >= 3
}

/// A row's first field, trimmed, reads as a non-negative integer.
pub open spec fn row_number_ok(row: Seq<Seq<char>>) -> bool {
    parse_u32_spec(trim_spec(row[0])) is Some
}

pub open spec fn row_ok(row: Seq<Seq<char>>) -> bool {
    row_has_fields(row) && row_number_ok(row)
}

pub open spec fn rows_ok_upto(rows: Seq<Seq<Seq<char>>>, n: int) -> bool {
    forall|j: int| 0 <= j < n ==> row_ok(#[trigger] rows[j])
}

/// The fields of `row` from `from` up to `to`, each trimmed.
pub open spec fn trimmed_fields(row: Seq<Seq<char>>, from: int, to: int) -> Seq<Seq<char>> {
    row.subrange(from, to).map_values(|f: Seq<char>| trim_spec(f))
}

/// The options a row declares: none for a 3-field row; otherwise the
/// trimmed reference answer followed by the remaining fields, trimmed, in
/// file order.
pub open spec fn spec_options_of_row(row: Seq<Seq<char>>) -> Seq<Seq<char>> {
    if row.len() <= 3 {
        Seq::empty()
    } else {
        seq![trim_spec(row[2])] + trimmed_fields(row, 3, row.len() as int)
    }
}

/// The question a valid row yields.
pub open spec fn question_matches_row(q: Question, row: Seq<Seq<char>>) -> bool {
    &&& Some(q.number) == parse_u32_spec(trim_spec(row[0]))
    &&& q.text@ == trim_spec(row[1])
    &&& q.correct_answer@ == trim_spec(row[2])
    &&& q.options.deep_view() == spec_options_of_row(row)
    &&& q.user_answer is None
}

/// Law: a question built from a 3-field row has no options, and one built
/// from a longer row leads its options with the correct answer, one option
/// per declared field.
pub proof fn lemma_row_options_shape(q: Question, row: Seq<Seq<char>>)
    requires
        question_matches_row(q, row),
        row_has_fields(row),
    ensures
        row.len() == 3 ==> q.options@.len() == 0,
        row.len() > 3 ==> q.options.deep_view().len() == row.len() - 2
            && q.options.deep_view()[0] == q.correct_answer@,
{
}

/// The classification of a whole row set: `ShortAnswer` when every row
/// yields empty options, `MultipleChoice` when every row yields some,
/// `Mixed` otherwise.
pub open spec fn spec_classify(rows: Seq<Seq<Seq<char>>>) -> QuestionType {
    let has_short = exists|i: int| 0 <= i < rows.len() && (#[trigger] rows[i]).len() <= 3;
    let has_mc = exists|i: int| 0 <= i < rows.len() && (#[trigger] rows[i]).len() > 3;
    if has_short && !has_mc {
        QuestionType::ShortAnswer
    } else if has_mc && !has_short {
        QuestionType::MultipleChoice
    } else {
        QuestionType::Mixed
    }
}

/// What building a quiz from a row set returns: a full session on an
/// all-valid, non-empty set, and otherwise the error of the first failing
/// row, or of the empty set. Building itself never reports
/// `IoOrFormatError`; that error belongs to the reader.
pub open spec fn load_outcome_ok(rows: Seq<Seq<Seq<char>>>, r: Result<Quiz, LoadError>) -> bool {
    match r {
        Ok(quiz) => {
            &&& rows.len() > 0
            &&& rows_ok_upto(rows, rows.len() as int)
            &&& quiz.questions@.len() == rows.len()
            &&& forall|i: int|
                0 <= i < rows.len() ==> question_matches_row(
                    #[trigger] quiz.questions@[i],
                    rows[i],
                )
            &&& quiz.current_index == 0
            &&& quiz.shuffled == false
            &&& quiz.question_type == spec_classify(rows)
        },
        Err(e) => match e {
            LoadError::MalformedRow { row_number, field_count } => {
                &&& 1 <= row_number <= rows.len()
                &&& rows_ok_upto(rows, row_number - 1)
                &&& !row_has_fields(rows[row_number - 1])
                &&& field_count == rows[row_number - 1].len()
            },
            LoadError::InvalidQuestionNumber { row_number } => {
                &&& 1 <= row_number <= rows.len()
                &&& rows_ok_upto(rows, row_number - 1)
                &&& row_has_fields(rows[row_number - 1])
                &&& !row_number_ok(rows[row_number - 1])
            },
            LoadError::EmptyQuizFile => rows.len() == 0,
            LoadError::IoOrFormatError { .. } => false,
        },
    }
}

/// What the csv reader yields on `data` — records of trimmed fields — or
/// nothing where it reports the text unreadable; a function of the text
/// alone.
pub uninterp spec fn csv_table(data: Seq<char>) -> Option<Seq<Seq<Seq<char>>>>;

/// Relies on csv's `Reader` over in-memory text, configured with flexible
/// column counts, no header row, and every field trimmed of surrounding
/// whitespace: the records it yields, or its refusal, depend on the text
/// alone.
#[verifier::external_body]
fn parse_csv_records(data: &str) -> (r: Result<Vec<Vec<String>>, String>)
    ensures
        match r {
            Ok(rows) => csv_table(data@) == Some(rows.deep_view()),
            Err(_) => csv_table(data@) is None,
        },
{
    let mut reader = csv::ReaderBuilder::new()
        .has_headers(false)
        .flexible(true)
        .trim(csv::Trim::All)
        .from_reader(data.as_bytes());
    let mut rows: Vec<Vec<String>> = Vec::new();
    for record in reader.records() {
        match record {
            Ok(r) => rows.push(r.iter().map(|f| f.to_string()).collect()),
            Err(e) => return Err(e.to_string()),
        }
    }
    Ok(rows)
}

/// Law: wherever the question multiset is preserved up to option order and
/// recorded answers — as it is by shuffling and restarting — the multiset
/// of declared question numbers is preserved too.
pub proof fn lemma_question_numbers_preserved(qs1: Seq<Question>, qs2: Seq<Question>)
    requires
        content_keys(qs1).to_multiset() == content_keys(qs2).to_multiset(),
    ensures
        qs1.map_values(|q: Question| q.number).to_multiset() == qs2.map_values(
            |q: Question| q.number,
        ).to_multiset(),
{
    let pick = |k: (u32, Seq<char>, Seq<char>, Multiset<Seq<char>>)| k.0;
    crate::perm::lemma_map_values_to_multiset(content_keys(qs1), content_keys(qs2), pick);
    assert(content_keys(qs1).map_values(pick) =~= qs1.map_values(|q: Question| q.number));
    assert(content_keys(qs2).map_values(pick) =~= qs2.map_values(|q: Question| q.number));
}

/// How many questions of `qs` hold any recorded answer.
pub open spec fn answered_count(qs: Seq<Question>) -> int
    decreases qs.len(),
{
    if qs.len() == 0 {
        0
    } else {
        answered_count(qs.drop_last()) + if qs.last().user_answer is Some {
            1int
        } else {
            0int
        }
    }
}

/// Law: scoring partitions the answered questions and only them. The
/// correct tally and the wrong indices together cover exactly the questions
/// with a recorded answer — an unanswered question counts toward neither —
/// and the wrong indices are exactly the positions whose recorded answer
/// disagrees with the reference answer, listed in strictly ascending order.
pub proof fn lemma_results_characterize(qs: Seq<Question>)
    ensures
        0 <= correct_count(qs) <= qs.len(),
        correct_count(qs) + incorrect_indices(qs).len() == answered_count(qs),
        answered_count(qs) <= qs.len(),
        forall|k: int|
            0 <= k < incorrect_indices(qs).len() ==> 0 <= #[trigger] incorrect_indices(qs)[k]
                < qs.len() && qs[incorrect_indices(qs)[k]].answered_wrong(),
        forall|i: int|
            0 <= i < qs.len() && (#[trigger] qs[i]).answered_wrong() ==> incorrect_indices(
                qs,
            ).contains(i),
        forall|i: int|
            0 <= i < qs.len() && !(#[trigger] qs[i]).answered_wrong() ==> !incorrect_indices(
                qs,
            ).contains(i),
        forall|k: int|
            0 <= k < incorrect_indices(qs).len() - 1 ==> #[trigger] incorrect_indices(qs)[k]
                < incorrect_indices(qs)[k + 1],
    decreases qs.len(),
{
    if qs.len() > 0 {
        let prev = qs.drop_last();
        let last = qs.len() - 1;
        lemma_results_characterize(prev);
        assert(forall|i: int| 0 <= i < prev.len() ==> prev[i] == #[trigger] qs[i]);
        let pi = incorrect_indices(prev);
        let ci = incorrect_indices(qs);
        if qs.last().answered_wrong() {
            assert(ci == pi.push(last));
            assert(ci[ci.len() - 1] == last);
            assert forall|i: int|
                0 <= i < qs.len() && (#[trigger] qs[i]).answered_wrong() implies ci.contains(
                i,
            ) by {
                if i < last {
                    let k = choose|k: int| 0 <= k < pi.len() && pi[k] == i;
                    assert(ci[k] == i);
                } else {
                    assert(ci[ci.len() - 1] == i);
                }
            }
            assert forall|i: int|
                0 <= i < qs.len() && !(#[trigger] qs[i]).answered_wrong() implies !ci.contains(
                i,
            ) by {
                if ci.contains(i) {
                    let k = choose|k: int| 0 <= k < ci.len() && ci[k] == i;
                    if k < pi.len() {
                        assert(pi[k] == i);
                        assert(pi.contains(i));
                    }
                }
            }
        } else {
            assert(ci == pi);
            assert forall|i: int|
                0 <= i < qs.len() && (#[trigger] qs[i]).answered_wrong() implies ci.contains(
                i,
            ) by {
                assert(i < last);
                let k = choose|k: int| 0 <= k < pi.len() && pi[k] == i;
                assert(ci[k] == i);
            }
            assert forall|i: int|
                0 <= i < qs.len() && !(#[trigger] qs[i]).answered_wrong() implies !ci.contains(
                i,
            ) by {
                if ci.contains(i) {
                    let k = choose|k: int| 0 <= k < ci.len() && ci[k] == i;
                    assert(pi[k] == i);
                    assert(pi.contains(i));
                }
            }
        }
    }
}

impl Quiz {
    /// Every question satisfies the data-model invariant.
    pub open spec fn questions_wf(self) -> bool {
        forall|i: int|
            0 <= i < self.questions@.len() ==> (#[trigger] self.questions@[i]).wf()
    }

    /// Builds a session from parsed rows: parsing stops at the first
    /// malformed row, a set with no rows is refused, and on success the
    /// cursor starts on the first question with no shuffle applied.
    pub fn from_rows(rows: &Vec<Vec<String>>) -> (r: Result<Quiz, LoadError>)
        ensures
            load_outcome_ok(rows.deep_view(), r),
            r matches Ok(quiz) ==> quiz.questions_wf(),
    {
        let ghost rowsd = rows.deep_view();
        let n = rows.len();
        let mut questions: Vec<Question> = Vec::new();
        let mut has_short = false;
        let mut has_mc = false;
        let mut i: usize = 0;
        while i < n
            invariant
                0 <= i <= n,
                n == rows@.len(),
                rowsd == rows.deep_view(),
                rowsd.len() == n,
                rows_ok_upto(rowsd, i as int),
                questions@.len() == i,
                forall|k: int|
                    0 <= k < i ==> question_matches_row(#[trigger] questions@[k], rowsd[k]),
                forall|k: int| 0 <= k < i ==> (#[trigger] questions@[k]).wf(),
                has_short == exists|k: int|
                    0 <= k < i && (#[trigger] rowsd[k]).len() <= 3,
                has_mc == exists|k: int| 0 <= k < i && (#[trigger] rowsd[k]).len() > 3,
            decreases n - i,
        {
            let row = &rows[i];
            proof {
                assert(rowsd[i as int] == row.deep_view());
            }
            let fields = row.len();
            proof {
                assert(rowsd[i as int].len() == fields);
            }
            if fields < 3 {
                return Err(
                    LoadError::MalformedRow { row_number: i + 1, field_count: fields },
                );
            }
            proof {
                assert(row.deep_view()[0] == row@[0]@);
                assert(row.deep_view()[1] == row@[1]@);
                assert(row.deep_view()[2] == row@[2]@);
            }
            let number_text = trim_str(row[0].as_str());
            let number_opt = parse_u32(number_text.as_str());
            let number = match number_opt {
                Some(nb) => nb,
                None => {
                    return Err(LoadError::InvalidQuestionNumber { row_number: i + 1 });
                },
            };
            let text = trim_str(row[1].as_str());
            let correct_answer = trim_str(row[2].as_str());
            let mut options: Vec<String> = Vec::new();
            if fields > 3 {
                options.push(correct_answer.clone());
                let mut j: usize = 3;
                while j < fields
                    invariant
                        3 <= j <= fields,
                        fields == row@.len(),
                        rowsd[i as int] == row.deep_view(),
                        0 <= i < rowsd.len(),
                        correct_answer@ == trim_spec(row.deep_view()[2]),
                        options.deep_view() == seq![correct_answer@] + trimmed_fields(
                            row.deep_view(),
                            3,
                            j as int,
                        ),
                    decreases fields - j,
                {
                    proof {
                        assert(row.deep_view()[j as int] == row@[j as int]@);
                    }
                    let ghost pre = options@;
                    let ghost dv0 = options.deep_view();
                    let trimmed = trim_str(row[j].as_str());
                    options.push(trimmed);
                    proof {
                        let rd = row.deep_view();
                        assert(rd.len() == row@.len());
                        assert(dv0 == seq![correct_answer@] + trimmed_fields(rd, 3, j as int));
                        assert(rd.subrange(3, j as int).len() == j - 3);
                        assert(dv0.len() == j - 2);
                        assert(pre.len() == j - 2);
                        assert(options@ == pre.push(trimmed));
                        assert forall|k: int|
                            0 <= k < options.deep_view().len() implies options.deep_view()[k]
                            == (seq![correct_answer@] + trimmed_fields(rd, 3, j + 1))[k] by {
                            assert(options.deep_view()[k] == options@[k]@);
                            if k < pre.len() {
                                assert(options@[k] == pre[k]);
                                assert(dv0[k] == pre[k]@);
                                assert(dv0[k] == (seq![correct_answer@] + trimmed_fields(
                                    rd,
                                    3,
                                    j as int,
                                ))[k]);
                                if 1 <= k {
                                    assert(rd.subrange(3, j as int)[k - 1] == rd[k + 2]);
                                    assert(rd.subrange(3, j + 1)[k - 1] == rd[k + 2]);
                                }
                            } else {
                                assert(k == pre.len());
                                assert(options@[k] == trimmed);
                                assert(trimmed@ == trim_spec(rd[j as int]));
                                assert(rd.subrange(3, j + 1)[j - 3] == rd[j as int]);
                            }
                        }
                        assert(options.deep_view() =~= seq![correct_answer@] + trimmed_fields(
                            rd,
                            3,
                            j + 1,
                        ));
                    }
                    j = j + 1;
                }
                has_mc = true;
            } else {
                has_short = true;
                proof {
                    assert(options.deep_view() =~= Seq::<Seq<char>>::empty());
                }
            }
            let question = Question {
                number,
                text,
                correct_answer,
                options,
                user_answer: None,
            };
            proof {
                broadcast use vstd::seq_lib::group_to_multiset_ensures;

                assert(question_matches_row(question, rowsd[i as int]));
                if question.options@.len() > 0 {
                    assert(question.options.deep_view()[0] == question.correct_answer@);
                    assert(question.options.deep_view().contains(question.correct_answer@));
                }
                assert(question.wf());
            }
            questions.push(question);
            i = i + 1;
        }
        if questions.len() == 0 {
            return Err(LoadError::EmptyQuizFile);
        }
        let question_type = if has_short && !has_mc {
            QuestionType::ShortAnswer
        } else if has_mc && !has_short {
            QuestionType::MultipleChoice
        } else {
            QuestionType::Mixed
        };
        Ok(Quiz { questions, question_type, current_index: 0, shuffled: false })
    }

    /// Parses delimited text into a ready session. Reader refusals come
    /// back as `IoOrFormatError`; everything else follows the row rules of
    /// [`Quiz::from_rows`].
    pub fn load_from_csv(data: &str) -> (r: Result<Quiz, LoadError>)
        ensures
            match csv_table(data@) {
                Some(rows) => load_outcome_ok(rows, r),
                None => r matches Err(LoadError::IoOrFormatError { .. }),
            },
            r matches Ok(quiz) ==> quiz.questions_wf(),
    {
        match parse_csv_records(data) {
            Ok(rows) => Self::from_rows(&rows),
            Err(message) => Err(LoadError::IoOrFormatError { message }),
        }
    }

    /// The question under the cursor, or nothing when the list is empty.
    pub fn current_question(&self) -> (r: Option<&Question>)
        ensures
            match r {
                Some(q) => self.current_index < self.questions@.len() && *q
                    == self.questions@[self.current_index as int],
                None => self.current_index >= self.questions@.len(),
            },
    {
        if self.current_index < self.questions.len() {
            Some(&self.questions[self.current_index])
        } else {
            None
        }
    }

    /// Advances the cursor by one unless it is already on the last
    /// question; reports whether it moved. Does not wrap.
    pub fn next_question(&mut self) -> (moved: bool)
        ensures
            final(self).questions == old(self).questions,
            final(self).question_type == old(self).question_type,
            final(self).shuffled == old(self).shuffled,
            moved == (old(self).current_index + 1 < old(self).questions@.len()),
            final(self).current_index == if moved {
                old(self).current_index + 1
            } else {
                old(self).current_index as int
            },
            old(self).current_index < old(self).questions@.len() ==> final(self).current_index
                < final(self).questions@.len(),
    {
        let len = self.questions.len();
        if len > 0 && self.current_index < len - 1 {
            self.current_index = self.current_index + 1;
            true
        } else {
            false
        }
    }

    /// Moves the cursor back by one unless it is already on the first
    /// question; reports whether it moved. Does not wrap.
    pub fn previous_question(&mut self) -> (moved: bool)
        ensures
            final(self).questions == old(self).questions,
            final(self).question_type == old(self).question_type,
            final(self).shuffled == old(self).shuffled,
            moved == (old(self).current_index > 0),
            final(self).current_index == if moved {
                old(self).current_index - 1
            } else {
                old(self).current_index as int
            },
            old(self).current_index < old(self).questions@.len() ==> final(self).current_index
                < final(self).questions@.len(),
    {
        if self.current_index > 0 {
            self.current_index = self.current_index - 1;
            true
        } else {
            false
        }
    }

    /// Records `answer` for the question under the cursor, overwriting any
    /// prior answer; silently does nothing when the cursor is out of range,
    /// which only happens on an empty question list.
    pub fn submit_answer(&mut self, answer: String)
        ensures
            final(self).question_type == old(self).question_type,
            final(self).current_index == old(self).current_index,
            final(self).shuffled == old(self).shuffled,
            old(self).current_index < old(self).questions@.len() ==> final(self).questions@
                == old(self).questions@.update(
                old(self).current_index as int,
                (Question {
                    user_answer: Some(answer),
                    ..old(self).questions@[old(self).current_index as int]
                }),
            ),
            old(self).current_index >= old(self).questions@.len() ==> final(self).questions
                == old(self).questions,
    {
        if self.current_index < self.questions.len() {
            self.questions[self.current_index].user_answer = Some(answer);
        }
    }

    /// Randomly permutes the question order, and independently the options
    /// inside each question that has any, so the correct answer's position
    /// is rerandomized per question. The cursor and the recorded answers
    /// stay put; the multiset of questions — each seen up to option order —
    /// is unchanged, and the correct answer stays among the options.
    pub fn shuffle(&mut self)
        requires
            old(self).questions_wf(),
        ensures
            final(self).questions_wf(),
            final(self).questions@.len() == old(self).questions@.len(),
            final(self).current_index == old(self).current_index,
            final(self).question_type == old(self).question_type,
            final(self).shuffled,
            full_keys(final(self).questions@).to_multiset() == full_keys(
                old(self).questions@,
            ).to_multiset(),
            content_keys(final(self).questions@).to_multiset() == content_keys(
                old(self).questions@,
            ).to_multiset(),
    {
        let ghost qs0 = self.questions@;
        shuffle_vec(&mut self.questions);
        let ghost qs1 = self.questions@;
        proof {
            vstd::seq_lib::to_multiset_len(qs0);
            vstd::seq_lib::to_multiset_len(qs1);
            assert forall|i: int| 0 <= i < qs1.len() implies (#[trigger] qs1[i]).wf() by {
                crate::perm::lemma_multiset_eq_element_source(qs0, qs1, i);
            }
        }
        let n = self.questions.len();
        let mut i: usize = 0;
        while i < n
            invariant
                0 <= i <= n,
                n == self.questions@.len(),
                qs1.len() == n,
                self.current_index == old(self).current_index,
                self.question_type == old(self).question_type,
                self.shuffled == old(self).shuffled,
                forall|k: int| i <= k < n ==> self.questions@[k] == qs1[k],
                forall|k: int|
                    0 <= k < i ==> (#[trigger] self.questions@[k]).full_key() == qs1[k].full_key()
                        && self.questions@[k].content_key() == qs1[k].content_key()
                        && self.questions@[k].wf(),
                forall|k: int| 0 <= k < n ==> (#[trigger] qs1[k]).wf(),
            decreases n - i,
        {
            if self.questions[i].options.len() > 0 {
                let ghost qbefore = self.questions@[i as int];
                shuffle_vec(&mut self.questions[i].options);
                proof {
                    broadcast use vstd::seq_lib::group_to_multiset_ensures;

                    let qafter = self.questions@[i as int];
                    assert(qafter.options.deep_view() =~= qafter.options@.map_values(
                        |s: String| s@,
                    ));
                    assert(qbefore.options.deep_view() =~= qbefore.options@.map_values(
                        |s: String| s@,
                    ));
                    crate::perm::lemma_map_values_to_multiset(
                        qafter.options@,
                        qbefore.options@,
                        |s: String| s@,
                    );
                    assert(qafter.full_key() == qbefore.full_key());
                    assert(qafter.content_key() == qbefore.content_key());
                }
            }
            i = i + 1;
        }
        self.shuffled = true;
        proof {
            let f = |q: Question| q.full_key();
            let g = |q: Question| q.content_key();
            crate::perm::lemma_map_values_to_multiset(qs1, qs0, f);
            crate::perm::lemma_map_values_to_multiset(qs1, qs0, g);
            assert(full_keys(self.questions@) =~= qs1.map_values(f));
            assert(content_keys(self.questions@) =~= qs1.map_values(g));
            assert(full_keys(qs0) =~= qs0.map_values(f));
            assert(content_keys(qs0) =~= qs0.map_values(g));
        }
    }

    /// Restarts the session for a fresh attempt: optionally shuffles, puts
    /// the cursor back on the first question, and clears every recorded
    /// answer — never leaving a stale answer behind, shuffled or not.
    pub fn restart(&mut self, shuffle: bool)
        requires
            old(self).questions_wf(),
        ensures
            final(self).questions_wf(),
            final(self).current_index == 0,
            final(self).question_type == old(self).question_type,
            final(self).questions@.len() == old(self).questions@.len(),
            forall|i: int|
                0 <= i < final(self).questions@.len()
                    ==> (#[trigger] final(self).questions@[i]).user_answer is None,
            content_keys(final(self).questions@).to_multiset() == content_keys(
                old(self).questions@,
            ).to_multiset(),
            !shuffle ==> final(self).shuffled == old(self).shuffled && forall|i: int|
                0 <= i < old(self).questions@.len() ==> #[trigger] final(self).questions@[i]
                    == (Question { user_answer: None, ..old(self).questions@[i] }),
            shuffle ==> final(self).shuffled,
    {
        if shuffle {
            self.shuffle();
        }
        self.current_index = 0;
        let ghost qs1 = self.questions@;
        let n = self.questions.len();
        let mut i: usize = 0;
        while i < n
            invariant
                0 <= i <= n,
                n == self.questions@.len(),
                qs1.len() == n,
                self.current_index == 0,
                self.question_type == old(self).question_type,
                self.shuffled == (shuffle || old(self).shuffled),
                forall|k: int|
                    0 <= k < i ==> #[trigger] self.questions@[k] == (Question {
                        user_answer: None,
                        ..qs1[k]
                    }),
                forall|k: int| i <= k < n ==> self.questions@[k] == qs1[k],
            decreases n - i,
        {
            self.questions[i].user_answer = None;
            i = i + 1;
        }
        proof {
            let g = |q: Question| q.content_key();
            assert forall|k: int|
                0 <= k < n implies (#[trigger] self.questions@[k]).content_key()
                == qs1[k].content_key() && self.questions@[k].wf() == qs1[k].wf() by {
                assert(self.questions@[k] == (Question { user_answer: None, ..qs1[k] }));
            }
            assert(content_keys(self.questions@) =~= qs1.map_values(g));
            assert(content_keys(qs1) =~= qs1.map_values(g));
            if !shuffle {
                assert(content_keys(old(self).questions@) =~= qs1.map_values(g));
            }
        }
    }

    /// Scores the session: the question total, how many recorded answers
    /// agree with their reference answer under the trimmed, case-insensitive
    /// comparison, and the indices of the wrong ones in ascending order.
    /// An unanswered question counts toward neither tally.
    pub fn get_results(&self) -> (r: (usize, usize, Vec<usize>))
        ensures
            r.0 == self.questions@.len(),
            r.1 == correct_count(self.questions@),
            r.2@.map_values(|x: usize| x as int) == incorrect_indices(self.questions@),
    {
        let total = self.questions.len();
        let mut correct: usize = 0;
        let mut incorrect: Vec<usize> = Vec::new();
        let mut i: usize = 0;
        while i < total
            invariant
                0 <= i <= total,
                total == self.questions@.len(),
                correct <= i,
                correct == correct_count(self.questions@.take(i as int)),
                incorrect@.map_values(|x: usize| x as int) == incorrect_indices(
                    self.questions@.take(i as int),
                ),
            decreases total - i,
        {
            let ghost prefix = self.questions@.take(i as int);
            let ghost next_prefix = self.questions@.take(i + 1);
            proof {
                assert(next_prefix.drop_last() =~= prefix);
                assert(next_prefix.last() == self.questions@[i as int]);
            }
            let q = &self.questions[i];
            match &q.user_answer {
                Some(user_answer) => {
                    if check_answer(user_answer.as_str(), q.correct_answer.as_str()) {
                        correct = correct + 1;
                    } else {
                        incorrect.push(i);
                        proof {
                            assert(incorrect@.map_values(|x: usize| x as int)
                                =~= incorrect_indices(next_prefix));
                        }
                    }
                },
                None => {},
            }
            i = i + 1;
        }
        proof {
            assert(self.questions@.take(total as int) =~= self.questions@);
        }
        (total, correct, incorrect)
    }
}

} // verus!
