use knowit::quiz::Quiz;

fn big_quiz() -> Quiz {
    let mut data = String::new();
    for i in 1..=12 {
        data.push_str(&format!("{i},Question {i}?,answer {i},foil {i}a,foil {i}b\n"));
    }
    Quiz::load_from_csv(&data).unwrap()
}

fn numbers_sorted(quiz: &Quiz) -> Vec<u32> {
    let mut ns: Vec<u32> = quiz.questions.iter().map(|q| q.number).collect();
    ns.sort();
    ns
}

fn options_sorted_by_number(quiz: &Quiz) -> Vec<(u32, Vec<String>)> {
    let mut all: Vec<(u32, Vec<String>)> = quiz
        .questions
        .iter()
        .map(|q| {
            let mut opts = q.options.clone();
            opts.sort();
            (q.number, opts)
        })
        .collect();
    all.sort();
    all
}

#[test]
fn shuffle_is_a_permutation_of_the_questions() {
    let mut quiz = big_quiz();
    let before = numbers_sorted(&quiz);
    quiz.shuffle();
    assert!(quiz.shuffled);
    assert_eq!(numbers_sorted(&quiz), before);
    assert_eq!(quiz.questions.len(), 12);
}

#[test]
fn shuffle_keeps_each_questions_option_multiset() {
    let mut quiz = big_quiz();
    let before = options_sorted_by_number(&quiz);
    quiz.shuffle();
    assert_eq!(options_sorted_by_number(&quiz), before);
}

#[test]
fn shuffle_keeps_the_correct_answer_among_the_options() {
    let mut quiz = big_quiz();
    quiz.shuffle();
    for q in &quiz.questions {
        assert!(q.options.contains(&q.correct_answer));
    }
}

#[test]
fn shuffle_keeps_cursor_and_recorded_answers() {
    let mut quiz = big_quiz();
    quiz.submit_answer("answer 1".to_string());
    quiz.next_question();
    quiz.shuffle();
    assert_eq!(quiz.current_index, 1);
    let answered: Vec<u32> = quiz
        .questions
        .iter()
        .filter(|q| q.user_answer.is_some())
        .map(|q| q.number)
        .collect();
    assert_eq!(answered, vec![1]);
}

#[test]
fn restart_clears_every_answer_and_resets_the_cursor() {
    let mut quiz = big_quiz();
    quiz.submit_answer("a".to_string());
    quiz.next_question();
    quiz.submit_answer("b".to_string());
    quiz.restart(false);
    assert_eq!(quiz.current_index, 0);
    assert!(quiz.questions.iter().all(|q| q.user_answer.is_none()));
    assert!(!quiz.shuffled);
    let fresh = big_quiz();
    for (q, f) in quiz.questions.iter().zip(fresh.questions.iter()) {
        assert_eq!(q.number, f.number);
        assert_eq!(q.text, f.text);
        assert_eq!(q.options, f.options);
    }
}

#[test]
fn restart_with_shuffle_never_leaves_a_stale_answer() {
    let mut quiz = big_quiz();
    for _ in 0..quiz.questions.len() {
        quiz.submit_answer("something".to_string());
        quiz.next_question();
    }
    quiz.restart(true);
    assert_eq!(quiz.current_index, 0);
    assert!(quiz.shuffled);
    assert!(quiz.questions.iter().all(|q| q.user_answer.is_none()));
    assert_eq!(numbers_sorted(&quiz), (1..=12).collect::<Vec<u32>>());
}
