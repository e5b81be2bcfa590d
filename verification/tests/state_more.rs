use tweaker::state::Action;
use tweaker::state::HintOp;
use tweaker::state::Mode;
use tweaker::state::Outcome;
use tweaker::state::State;
use tweaker::tokens;

fn state(cmd: &str) -> State {
    State::new(tokens::split(cmd).unwrap())
}

#[test]
fn status_messages() {
    let mut s = state("ls -la /tmp");
    assert_eq!(s.status, None);
    s.apply(Action::Hint('9'));
    assert_eq!(s.status.as_deref(), Some("no token at [9]"));
    s.apply(Action::Prefix(HintOp::Delete));
    s.apply(Action::Hint('2'));
    assert_eq!(s.status.as_deref(), Some("deleted token 2"));
    s.apply(Action::Hint('1'));
    s.apply(Action::Commit);
    assert_eq!(s.status.as_deref(), Some("edited token 1"));
    s.apply(Action::Prefix(HintOp::InsertBefore));
    s.apply(Action::Cancel);
    assert_eq!(s.status.as_deref(), Some("cancelled"));
    s.apply(Action::Prefix(HintOp::InsertBefore));
    s.apply(Action::Hint('1'));
    s.apply(Action::Commit);
    assert_eq!(s.status.as_deref(), Some("insert cancelled"));
    assert_eq!(tokens::render(&s.tokens), "ls /tmp");
}

#[test]
fn committing_an_empty_edit_keeps_an_empty_token() {
    let mut s = state("echo hi");
    s.apply(Action::Hint('2'));
    s.apply(Action::ClearLine);
    s.apply(Action::Commit);
    assert_eq!(s.tokens[1].text, "");
    assert_eq!(s.tokens[1].original, "''");
    assert_eq!(tokens::render(&s.tokens), "echo ''");
}

#[test]
fn edit_session_cursor_bounds() {
    let mut s = state("x ab");
    s.apply(Action::Hint('2'));
    assert_eq!(s.mode, Mode::Editing { idx: 1, buf: vec!['a', 'b'], cursor: 2, inserted: false });
    s.apply(Action::Right);
    s.apply(Action::Delete);
    assert_eq!(s.mode, Mode::Editing { idx: 1, buf: vec!['a', 'b'], cursor: 2, inserted: false });
    s.apply(Action::Home);
    s.apply(Action::Left);
    s.apply(Action::Backspace);
    assert_eq!(s.mode, Mode::Editing { idx: 1, buf: vec!['a', 'b'], cursor: 0, inserted: false });
    s.apply(Action::End);
    s.apply(Action::Hint('1'));
    s.apply(Action::Prefix(HintOp::Delete));
    assert_eq!(s.mode, Mode::Editing { idx: 1, buf: vec!['a', 'b'], cursor: 2, inserted: false });
}

#[test]
fn awaiting_a_label_ignores_other_keys() {
    let mut s = state("a b");
    s.apply(Action::Prefix(HintOp::InsertAfter));
    assert_eq!(s.apply(Action::Commit), Outcome::Continue);
    assert_eq!(s.apply(Action::Char('x')), Outcome::Continue);
    assert_eq!(s.mode, Mode::AwaitHint(HintOp::InsertAfter));
    s.apply(Action::Hint('2'));
    assert_eq!(s.mode, Mode::Editing { idx: 2, buf: vec![], cursor: 0, inserted: true });
    assert_eq!(s.tokens.len(), 3);
}

#[test]
fn only_normal_mode_ends_the_screen() {
    let mut s = state("a");
    s.apply(Action::Hint('1'));
    assert_eq!(s.apply(Action::Cancel), Outcome::Continue);
    assert_eq!(s.apply(Action::Commit), Outcome::Accept);
    assert_eq!(s.apply(Action::Cancel), Outcome::Quit);
}

#[test]
fn rendered_state_splits_back_after_edits() {
    let mut s = state("git commit -m msg");
    s.apply(Action::Prefix(HintOp::InsertAfter));
    s.apply(Action::Hint('4'));
    for c in "it's \"done\"".chars() {
        s.apply(Action::Char(c));
    }
    s.apply(Action::Commit);
    s.apply(Action::Prefix(HintOp::Delete));
    s.apply(Action::Hint('4'));
    let back = tokens::split(&tokens::render(&s.tokens)).unwrap();
    assert_eq!(back, s.tokens);
    assert_eq!(back[3].text, "it's \"done\"");
}

#[test]
fn cursor_keys_on_a_stray_session_are_harmless() {
    // A session whose token and cursor lie out of range, built by hand.
    let mut s = state("ls");
    s.mode = Mode::Editing { idx: 7, buf: vec!['a'], cursor: 5, inserted: false };
    assert_eq!(s.apply(Action::Left), Outcome::Continue);
    assert!(matches!(s.mode, Mode::Editing { cursor: 4, .. }));
    s.apply(Action::Right);
    s.apply(Action::Delete);
    s.apply(Action::End);
    assert!(matches!(s.mode, Mode::Editing { cursor: 1, .. }));
    s.apply(Action::Cancel);
    assert_eq!(s.mode, Mode::Normal);
    assert_eq!(tokens::render(&s.tokens), "ls");
}

#[test]
fn can_apply_guards_out_of_range_sessions() {
    let mut s = state("ls");
    assert!(s.can_apply(&Action::Commit));
    s.mode = Mode::Editing { idx: 3, buf: vec!['a'], cursor: 2, inserted: true };
    assert!(!s.can_apply(&Action::Commit));
    assert!(!s.can_apply(&Action::Cancel));
    assert!(!s.can_apply(&Action::Char('x')));
    assert!(!s.can_apply(&Action::Backspace));
    assert!(s.can_apply(&Action::Left));
    s.mode = Mode::Editing { idx: 0, buf: vec!['a'], cursor: 1, inserted: false };
    assert!(s.can_apply(&Action::Commit));
    assert!(s.can_apply(&Action::Char('x')));
}
