use coremark::state::State;

#[test]
fn test_state_transition_int() {
    let input = b"1234";
    let (state, path) = State::transition(input);
    assert_eq!(state, State::Int);
    assert_eq!(
        path,
        vec![State::Start, State::Int, State::Int, State::Int, State::Int]
    );
}

#[test]
fn test_state_transition_float() {
    let input = b"12.34";
    let (state, path) = State::transition(input);
    assert_eq!(state, State::Float);
    assert_eq!(
        path,
        vec![
            State::Start,
            State::Int,
            State::Int,
            State::Float,
            State::Float,
            State::Float
        ]
    );
}

#[test]
fn test_state_transition_scientific() {
    let input = b"1.23e10";
    let (state, path) = State::transition(input);
    assert_eq!(state, State::Scientific);
    assert_eq!(
        path,
        vec![
            State::Start,
            State::Int,
            State::Float,
            State::Float,
            State::Float,
            State::S2,
            State::Exponent,
            State::Scientific
        ]
    );
}

#[test]
fn test_state_transition_invalid() {
    let input = b"abc";
    let (state, path) = State::transition(input);
    assert_eq!(state, State::Invalid);
    assert_eq!(path, vec![State::Start, State::Invalid]);
}

#[test]
fn state_test_state_transition_int() {
    let input = b"1234";
    let (state, path) = State::transition(input);
    assert_eq!(state, State::Int);
    assert_eq!(
        path,
        vec![State::Start, State::Int, State::Int, State::Int, State::Int]
    );
}

#[test]
fn state_test_state_transition_float() {
    let input = b"12.34";
    let (state, path) = State::transition(input);
    assert_eq!(state, State::Float);
    assert_eq!(
        path,
        vec![
            State::Start,
            State::Int,
            State::Int,
            State::Float,
            State::Float,
            State::Float
        ]
    );
}

#[test]
fn state_test_state_transition_scientific() {
    let input = b"1.23e10";
    let (state, path) = State::transition(input);
    assert_eq!(state, State::Scientific);
    assert_eq!(
        path,
        vec![
            State::Start,
            State::Int,
            State::Float,
            State::Float,
            State::Float,
            State::S2,
            State::Exponent,
            State::Scientific
        ]
    );
}

#[test]
fn state_test_state_transition_invalid() {
    let input = b"abc";
    let (state, path) = State::transition(input);
    assert_eq!(state, State::Invalid);
    assert_eq!(path, vec![State::Start, State::Invalid]);
}

#[test]
fn test_transition_multiple() {
    let input = "1.23,456,-7.89e2,invalid";
    let results = State::transition_multiple(input, ',');

    assert_eq!(results.len(), 4);
    assert_eq!(
        results[0],
        (
            "1.23".to_string(),
            State::Float,
            vec![
                State::Start,
                State::Int,
                State::Float,
                State::Float,
                State::Float
            ]
        )
    );
    assert_eq!(
        results[1],
        (
            "456".to_string(),
            State::Int,
            vec![State::Start, State::Int, State::Int, State::Int]
        )
    );
    assert_eq!(
        results[2],
        (
            "-7.89e2".to_string(),
            State::Scientific,
            vec![
                State::Start,
                State::S1,
                State::Int,
                State::Float,
                State::Float,
                State::Float,
                State::S2,
                State::Exponent,
                State::Scientific
            ]
        )
    );
    assert_eq!(results[3].1, State::Invalid);
}

#[test]
fn test_transition_empty_input() {
    // an empty token ends in an intermediate state, which the classifier
    // reports by appending one trailing Scientific step
    let (state, path) = State::transition(b"");
    assert_eq!(state, State::Scientific);
    assert_eq!(path, vec![State::Start, State::Scientific]);
}

#[test]
fn test_transition_multiple_empty_tokens() {
    let results = State::transition_multiple(",a,", ',');
    assert_eq!(results.len(), 3);
    assert_eq!(results[0].0, "".to_string());
    assert_eq!(results[1].1, State::Invalid);
    assert_eq!(results[2].0, "".to_string());
}

#[test]
fn test_transition_exponent_needs_two_digits() {
    // "42e2" stops in the Exponent state, so one Scientific step is appended
    let (state, path) = State::transition(b"42e2");
    assert_eq!(state, State::Scientific);
    assert_eq!(
        path,
        vec![
            State::Start,
            State::Int,
            State::Int,
            State::S2,
            State::Exponent,
            State::Scientific
        ]
    );
}

#[test]
fn test_is_valid_final_state() {
    assert!(State::is_valid_final_state(State::Int));
    assert!(State::is_valid_final_state(State::Float));
    assert!(State::is_valid_final_state(State::Scientific));
    assert!(!State::is_valid_final_state(State::Start));
    assert!(!State::is_valid_final_state(State::S1));
    assert!(!State::is_valid_final_state(State::S2));
    assert!(!State::is_valid_final_state(State::ExponentSign));
    assert!(!State::is_valid_final_state(State::Exponent));
    assert!(!State::is_valid_final_state(State::Invalid));
}

#[test]
fn test_transition_multiple_unicode() {
    // a non-ASCII character is no part of any numeric token
    let results = State::transition_multiple("3µ4;42", ';');
    assert_eq!(results.len(), 2);
    assert_eq!(results[0].0, "3µ4".to_string());
    assert_eq!(results[0].1, State::Invalid);
    assert_eq!(
        results[1],
        (
            "42".to_string(),
            State::Int,
            vec![State::Start, State::Int, State::Int]
        )
    );
}
