use knowit::quiz::{QuestionType, Quiz};

fn sample_quiz() -> Quiz {
    let data = "1,2+2?,4\n2,Capital of France?,Paris,London,Paris,Berlin\n3,Largest ocean?,Pacific\n";
    Quiz::load_from_csv(data).unwrap()
}

#[test]
fn current_question_follows_the_cursor() {
    let mut quiz = sample_quiz();
    assert_eq!(quiz.current_question().unwrap().number, 1);
    assert!(quiz.next_question());
    assert_eq!(quiz.current_question().unwrap().number, 2);
}

#[test]
fn current_question_is_none_on_an_empty_list() {
    let quiz = Quiz {
        questions: Vec::new(),
        question_type: QuestionType::ShortAnswer,
        current_index: 0,
        shuffled: false,
    };
    assert!(quiz.current_question().is_none());
}

#[test]
fn navigation_never_leaves_the_valid_range() {
    let mut quiz = sample_quiz();
    assert!(!quiz.previous_question());
    assert_eq!(quiz.current_index, 0);
    assert!(quiz.next_question());
    assert!(quiz.next_question());
    assert_eq!(quiz.current_index, 2);
    assert!(!quiz.next_question());
    assert_eq!(quiz.current_index, 2);
    assert!(quiz.previous_question());
    assert_eq!(quiz.current_index, 1);
}

#[test]
fn submit_records_and_overwrites_the_answer() {
    let mut quiz = sample_quiz();
    quiz.submit_answer("3".to_string());
    assert_eq!(quiz.questions[0].user_answer.as_deref(), Some("3"));
    quiz.submit_answer("4".to_string());
    assert_eq!(quiz.questions[0].user_answer.as_deref(), Some("4"));
    assert!(quiz.questions[1].user_answer.is_none());
}

#[test]
fn submit_on_an_empty_list_is_a_no_op() {
    let mut quiz = Quiz {
        questions: Vec::new(),
        question_type: QuestionType::ShortAnswer,
        current_index: 0,
        shuffled: false,
    };
    quiz.submit_answer("anything".to_string());
    assert!(quiz.questions.is_empty());
}

#[test]
fn loose_case_and_whitespace_count_as_correct() {
    let mut quiz = sample_quiz();
    quiz.next_question();
    quiz.submit_answer(" paris ".to_string());
    let (total, correct, incorrect) = quiz.get_results();
    assert_eq!(total, 3);
    assert_eq!(correct, 1);
    assert!(incorrect.is_empty());
}

#[test]
fn a_wrong_answer_lands_in_the_incorrect_list() {
    let mut quiz = sample_quiz();
    quiz.submit_answer("5".to_string());
    quiz.next_question();
    quiz.submit_answer("London".to_string());
    let (total, correct, incorrect) = quiz.get_results();
    assert_eq!(total, 3);
    assert_eq!(correct, 0);
    assert_eq!(incorrect, vec![0, 1]);
}

#[test]
fn unanswered_questions_count_toward_neither_tally() {
    let mut quiz = sample_quiz();
    quiz.submit_answer("4".to_string());
    let (total, correct, incorrect) = quiz.get_results();
    assert_eq!(total, 3);
    assert_eq!(correct, 1);
    assert!(incorrect.is_empty());
}

#[test]
fn results_mix_correct_wrong_and_unanswered() {
    let mut quiz = sample_quiz();
    quiz.submit_answer(" 4".to_string());
    quiz.next_question();
    quiz.submit_answer("BERLIN".to_string());
    let (total, correct, incorrect) = quiz.get_results();
    assert_eq!(total, 3);
    assert_eq!(correct, 1);
    assert_eq!(incorrect, vec![1]);
}
