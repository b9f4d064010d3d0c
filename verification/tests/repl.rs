use dbc::lexer::Quote;
use dbc::number::Num;
use dbc::repl::{
    find_next_token_boundary, find_prev_token_boundary, get_char_type, CharType, Key, KeyPress,
    ReplAction, ReplState,
};

fn press(key: Key) -> KeyPress {
    KeyPress { key, ctrl: false, alt: false, released: false }
}

fn ctrl(c: char) -> KeyPress {
    KeyPress { key: Key::Char(c), ctrl: true, alt: false, released: false }
}

fn alt(c: char) -> KeyPress {
    KeyPress { key: Key::Char(c), ctrl: false, alt: true, released: false }
}

fn type_line(state: &mut ReplState, text: &str) {
    for c in text.chars() {
        assert!(matches!(state.handle_key(press(Key::Char(c))), ReplAction::Redraw));
    }
}

fn history(state: &ReplState) -> Vec<String> {
    state.history().clone()
}

#[test]
fn char_types() {
    assert_eq!(get_char_type('7'), CharType::Number);
    assert_eq!(get_char_type('$'), CharType::Number);
    assert_eq!(get_char_type('%'), CharType::Number);
    assert_eq!(get_char_type('*'), CharType::Operator);
    assert_eq!(get_char_type(')'), CharType::Paren);
    assert_eq!(get_char_type(' '), CharType::Whitespace);
    assert_eq!(get_char_type('x'), CharType::Other);
}

#[test]
fn token_boundaries() {
    let line: Vec<char> = "$1,000 + sqrt(4)".chars().collect();
    assert_eq!(find_prev_token_boundary(&line, 0), 0);
    assert_eq!(find_prev_token_boundary(&line, 6), 0);
    assert_eq!(find_prev_token_boundary(&line, 9), 7);
    assert_eq!(find_prev_token_boundary(&line, 13), 9);
    assert_eq!(find_next_token_boundary(&line, 0), 6);
    assert_eq!(find_next_token_boundary(&line, 6), 8);
    assert_eq!(find_next_token_boundary(&line, 8), 13);
    assert_eq!(find_next_token_boundary(&line, 16), 16);
    assert_eq!(find_next_token_boundary(&line, 40), 16);
}

#[test]
fn entering_expressions() {
    let mut state = ReplState::new();
    type_line(&mut state, "1+2");
    assert_eq!(state.buffer_string(), "1+2");
    assert_eq!(state.cursor(), 3);
    match state.handle_key(press(Key::Enter)) {
        ReplAction::SubmitResult(r) => assert_eq!(r, "3"),
        other => panic!("{:?}", other),
    }
    assert_eq!(history(&state), vec!["1+2", "3"]);
    assert_eq!(state.buffer_string(), "");
    type_line(&mut state, "2 * 3 # six");
    match state.handle_key(press(Key::Enter)) {
        ReplAction::SubmitResult(r) => assert_eq!(r, "6"),
        other => panic!("{:?}", other),
    }
    type_line(&mut state, "1 / 0");
    match state.handle_key(press(Key::Enter)) {
        ReplAction::SubmitError(e) => assert_eq!(e, "Division by zero"),
        other => panic!("{:?}", other),
    }
    assert_eq!(history(&state), vec!["1+2", "3", "2 * 3", "6", "1 / 0"]);
}

#[test]
fn commands_and_comments() {
    let mut state = ReplState::new();
    type_line(&mut state, " /help ");
    assert!(matches!(state.handle_key(press(Key::Enter)), ReplAction::SubmitHelp));
    type_line(&mut state, "/clear");
    assert!(matches!(state.handle_key(press(Key::Enter)), ReplAction::SubmitClear));
    type_line(&mut state, "# just a note");
    assert!(matches!(state.handle_key(press(Key::Enter)), ReplAction::SubmitNothing));
    assert!(matches!(state.handle_key(press(Key::Enter)), ReplAction::SubmitNothing));
    assert!(history(&state).is_empty());
    type_line(&mut state, "/exit");
    assert!(matches!(state.handle_key(press(Key::Enter)), ReplAction::SubmitQuit));
    let mut state = ReplState::new();
    type_line(&mut state, "quit");
    assert!(matches!(state.handle_key(press(Key::Enter)), ReplAction::SubmitQuit));
    assert_eq!(state.buffer_string(), "quit");
}

#[test]
fn control_keys() {
    let mut state = ReplState::new();
    assert!(matches!(state.handle_key(ctrl('d')), ReplAction::Quit));
    type_line(&mut state, "12 + 34");
    assert!(matches!(state.handle_key(ctrl('l')), ReplAction::ClearScreen));
    assert!(matches!(state.handle_key(ctrl('w')), ReplAction::Redraw));
    assert_eq!(state.buffer_string(), "12 + ");
    state.handle_key(ctrl('a'));
    assert_eq!(state.cursor(), 0);
    state.handle_key(ctrl('d'));
    assert_eq!(state.buffer_string(), "2 + ");
    state.handle_key(ctrl('e'));
    assert_eq!(state.cursor(), 4);
    state.handle_key(press(Key::Left));
    state.handle_key(press(Key::Left));
    state.handle_key(ctrl('k'));
    assert_eq!(state.buffer_string(), "2 ");
    state.handle_key(ctrl('u'));
    assert_eq!(state.buffer_string(), "");
    assert_eq!(state.cursor(), 0);
    assert!(matches!(state.handle_key(ctrl('c')), ReplAction::Quit));
    // other control keys type their letter
    state.handle_key(ctrl('z'));
    assert_eq!(state.buffer_string(), "z");
    // releases change nothing
    let released = KeyPress { key: Key::Char('q'), ctrl: false, alt: false, released: true };
    assert!(matches!(state.handle_key(released), ReplAction::Redraw));
    assert_eq!(state.buffer_string(), "z");
}

#[test]
fn token_moves() {
    let mut state = ReplState::new();
    type_line(&mut state, "10 + 20");
    state.handle_key(alt('b'));
    assert_eq!(state.cursor(), 5);
    state.handle_key(alt('b'));
    assert_eq!(state.cursor(), 3);
    state.handle_key(alt('f'));
    assert_eq!(state.cursor(), 4);
    state.handle_key(alt('d'));
    assert_eq!(state.buffer_string(), "10 +");
    state.handle_key(press(Key::Backspace));
    state.handle_key(press(Key::Delete));
    assert_eq!(state.buffer_string(), "10 ");
}

#[test]
fn history_navigation() {
    let mut state = ReplState::new();
    type_line(&mut state, "1+1");
    state.handle_key(press(Key::Enter));
    type_line(&mut state, "5");
    state.handle_key(press(Key::Up));
    assert_eq!(state.buffer_string(), "2");
    state.handle_key(press(Key::Up));
    assert_eq!(state.buffer_string(), "1+1");
    assert_eq!(state.cursor(), 3);
    // above the oldest entry the line being typed comes back
    state.handle_key(press(Key::Up));
    assert_eq!(state.buffer_string(), "5");
    state.handle_key(press(Key::Down));
    assert_eq!(state.buffer_string(), "1+1");
    state.handle_key(press(Key::Down));
    state.handle_key(press(Key::Down));
    assert_eq!(state.buffer_string(), "5");
    state.handle_key(press(Key::Down));
    assert_eq!(state.buffer_string(), "1+1");
}

#[test]
fn editing_laws_on_values() {
    // typing then Backspace gives the line back
    let mut state = ReplState::new();
    type_line(&mut state, "12");
    state.handle_key(press(Key::Left));
    state.handle_key(press(Key::Char('x')));
    assert_eq!(state.buffer_string(), "1x2");
    state.handle_key(press(Key::Backspace));
    assert_eq!(state.buffer_string(), "12");
    assert_eq!(state.cursor(), 1);
    // left then right gives the cursor back
    state.handle_key(press(Key::Left));
    state.handle_key(press(Key::Right));
    assert_eq!(state.cursor(), 1);
    // up then down from the line being typed brings it back
    let mut state = ReplState::new();
    type_line(&mut state, "3*3");
    state.handle_key(press(Key::Enter));
    type_line(&mut state, "ab");
    state.handle_key(press(Key::Left));
    state.handle_key(press(Key::Up));
    state.handle_key(press(Key::Down));
    assert_eq!(state.buffer_string(), "ab");
    assert_eq!(state.cursor(), 2);
    // ctrl-k then ctrl-u empties the line
    state.handle_key(press(Key::Left));
    state.handle_key(ctrl('k'));
    state.handle_key(ctrl('u'));
    assert_eq!(state.buffer_string(), "");
}

#[test]
fn token_forward_then_back() {
    let line: Vec<char> = "$1,000 + sqrt(4) *-2".chars().collect();
    // every place where a token starts
    for start in [0usize, 7, 9, 13, 14, 15, 17, 19] {
        let end = find_next_token_boundary(&line, start);
        assert!(end > start);
        assert_eq!(find_prev_token_boundary(&line, end), start, "from {}", start);
    }
}

#[test]
fn entering_with_prices() {
    let quotes = vec![Quote { symbol: "AAPL".to_string(), price: Num::from_units(false, 200_000_000_000) }];
    let mut state = ReplState::new();
    type_line(&mut state, "$AAPL / 4");
    match state.handle_key_with_prices(press(Key::Enter), &quotes) {
        ReplAction::SubmitResult(r) => assert_eq!(r, "$50.00"),
        other => panic!("{:?}", other),
    }
    type_line(&mut state, "$AAPL / 4");
    match state.handle_key(press(Key::Enter)) {
        ReplAction::SubmitError(e) => assert_eq!(e, "Price data unavailable for 'AAPL'"),
        other => panic!("{:?}", other),
    }
    assert_eq!(history(&state), vec!["$AAPL / 4", "$50.00", "$AAPL / 4"]);
}
