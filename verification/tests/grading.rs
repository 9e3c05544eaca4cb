use wordle_bot::wordle::{Field, Verdict, Wordle, DEFAULT_SIZE, GUESSES};

fn row(w: &Wordle, i: usize) -> &Vec<Field> {
    &w.fields[i]
}

#[test]
fn constants_match_rules() {
    assert_eq!(DEFAULT_SIZE, 5);
    assert_eq!(GUESSES, 6);
}

#[test]
fn field_new_keeps_letter_and_verdict() {
    let f = Field::new('A', Verdict::Yellow);
    assert_eq!(f.letter, 'A');
    assert_eq!(f.square, Verdict::Yellow);
}

#[test]
fn new_wordle_is_fresh() {
    let w = Wordle::new(String::from("CRANE"));
    assert_eq!(w.word, "CRANE");
    assert_eq!(w.guesses, 0);
    assert!(w.fields.is_empty());
    assert!(w.last_message_id.is_none());
}

#[test]
fn grading_react_against_crane() {
    // Position by position: R and E occur elsewhere in CRANE, A matches its
    // own position, C occurs elsewhere, T does not occur at all.
    let mut w = Wordle::new(String::from("CRANE"));
    w.add_fields(String::from("REACT"));
    let r = row(&w, 0);
    let letters: Vec<char> = r.iter().map(|f| f.letter).collect();
    assert_eq!(letters, vec!['R', 'E', 'A', 'C', 'T']);
    let squares: Vec<Verdict> = r.iter().map(|f| f.square).collect();
    assert_eq!(
        squares,
        vec![Verdict::Yellow, Verdict::Yellow, Verdict::Green, Verdict::Yellow, Verdict::Red]
    );
}

#[test]
fn grading_exact_match_is_all_green() {
    let mut w = Wordle::new(String::from("CRANE"));
    w.add_fields(String::from("CRANE"));
    assert!(row(&w, 0).iter().all(|f| f.square == Verdict::Green));
}

#[test]
fn grading_no_common_letters_is_all_red() {
    let mut w = Wordle::new(String::from("CRANE"));
    w.add_fields(String::from("MOIST"));
    assert!(row(&w, 0).iter().all(|f| f.square == Verdict::Red));
}

#[test]
fn grading_repeated_letters_are_not_limited() {
    // The simplified rule grades every occurrence independently: both E's of
    // EERIE that miss their position still count as present, however many
    // E's CRANE holds.
    let mut w = Wordle::new(String::from("CRANE"));
    w.add_fields(String::from("EERIE"));
    let squares: Vec<Verdict> = row(&w, 0).iter().map(|f| f.square).collect();
    assert_eq!(
        squares,
        vec![Verdict::Yellow, Verdict::Yellow, Verdict::Yellow, Verdict::Red, Verdict::Green]
    );
}

#[test]
fn add_fields_appends_history_in_order() {
    let mut w = Wordle::new(String::from("CRANE"));
    w.add_fields(String::from("MOIST"));
    w.add_fields(String::from("REACT"));
    assert_eq!(w.fields.len(), 2);
    assert_eq!(row(&w, 0)[0].letter, 'M');
    assert_eq!(row(&w, 1)[0].letter, 'R');
    // The count is the registry's business, not the grader's.
    assert_eq!(w.guesses, 0);
}

#[test]
fn render_state_shows_the_history() {
    let mut w = Wordle::new(String::from("CRANE"));
    w.add_fields(String::from("REACT"));
    let view = w.render_state();
    assert_eq!(view.len(), 1);
    assert_eq!(view[0].len(), 5);
    assert_eq!(view[0][2].letter, 'A');
    assert_eq!(view[0][2].square, Verdict::Green);
}

#[test]
fn is_won_compares_whole_word() {
    let w = Wordle::new(String::from("CRANE"));
    assert!(w.is_won(&String::from("CRANE")));
    assert!(!w.is_won(&String::from("CRANK")));
}

#[test]
fn is_exhausted_only_at_the_budget() {
    let mut w = Wordle::new(String::from("CRANE"));
    assert!(!w.is_exhausted());
    w.guesses = GUESSES;
    assert!(w.is_exhausted());
}
