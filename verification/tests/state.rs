use tweaker::state::Action;
use tweaker::state::HintOp;
use tweaker::state::Mode;
use tweaker::state::Outcome;
use tweaker::state::State;
use tweaker::tokens;

fn state(cmd: &str) -> State {
    State::new(tokens::split(cmd).unwrap())
}

fn run(s: &mut State, actions: impl IntoIterator<Item = Action>) -> Outcome {
    let mut last = Outcome::Continue;
    for a in actions {
        last = s.apply(a);
        if !matches!(last, Outcome::Continue) {
            return last;
        }
    }
    last
}

fn rendered(s: &State) -> String {
    tokens::render(&s.tokens)
}

#[test]
fn enter_in_normal_accepts() {
    let mut s = state("ls -la");
    assert_eq!(s.apply(Action::Commit), Outcome::Accept);
}

#[test]
fn esc_in_normal_quits() {
    let mut s = state("ls -la");
    assert_eq!(s.apply(Action::Cancel), Outcome::Quit);
}

#[test]
fn edit_token_by_hint() {
    let mut s = state("git commit -m hi");
    s.apply(Action::Hint('4'));
    assert!(matches!(s.mode, Mode::Editing { idx: 3, .. }));
    s.apply(Action::ClearLine);
    run(&mut s, "bye".chars().map(Action::Char));
    s.apply(Action::Commit);
    assert_eq!(s.mode, Mode::Normal);
    assert_eq!(rendered(&s), "git commit -m bye");
}

#[test]
fn delete_removes_token() {
    let mut s = state("ls -la /tmp");
    s.apply(Action::Prefix(HintOp::Delete));
    assert!(matches!(s.mode, Mode::AwaitHint(HintOp::Delete)));
    s.apply(Action::Hint('2'));
    assert_eq!(rendered(&s), "ls /tmp");
}

#[test]
fn insert_after_adds_token() {
    let mut s = state("ls /tmp");
    s.apply(Action::Prefix(HintOp::InsertAfter));
    s.apply(Action::Hint('1'));
    run(&mut s, "-la".chars().map(Action::Char));
    s.apply(Action::Commit);
    assert_eq!(rendered(&s), "ls -la /tmp");
}

#[test]
fn insert_before_adds_token() {
    let mut s = state("ls /tmp");
    s.apply(Action::Prefix(HintOp::InsertBefore));
    s.apply(Action::Hint('2'));
    run(&mut s, "/home".chars().map(Action::Char));
    s.apply(Action::Commit);
    assert_eq!(rendered(&s), "ls /home /tmp");
}

#[test]
fn empty_insert_commit_removes_placeholder() {
    let mut s = state("ls /tmp");
    s.apply(Action::Prefix(HintOp::InsertAfter));
    s.apply(Action::Hint('1'));
    s.apply(Action::Commit);
    assert_eq!(rendered(&s), "ls /tmp");
}

#[test]
fn cancel_edit_preserves_original_text() {
    let mut s = state("echo hi");
    s.apply(Action::Hint('2'));
    s.apply(Action::ClearLine);
    run(&mut s, "bye".chars().map(Action::Char));
    s.apply(Action::Cancel);
    assert_eq!(rendered(&s), "echo hi");
    assert_eq!(s.mode, Mode::Normal);
}

#[test]
fn cancel_inserted_token_removes_it() {
    let mut s = state("ls");
    s.apply(Action::Prefix(HintOp::InsertAfter));
    s.apply(Action::Hint('1'));
    run(&mut s, "zz".chars().map(Action::Char));
    s.apply(Action::Cancel);
    assert_eq!(rendered(&s), "ls");
}

#[test]
fn cursor_movement_and_home_insert() {
    let mut s = state("echo world");
    s.apply(Action::Hint('2'));
    s.apply(Action::Home);
    run(&mut s, "hi-".chars().map(Action::Char));
    s.apply(Action::Commit);
    assert_eq!(rendered(&s), "echo hi-world");
}

#[test]
fn backspace_and_delete_in_edit() {
    let mut s = state("echo abcd");
    s.apply(Action::Hint('2'));
    s.apply(Action::Backspace); // abc
    s.apply(Action::Left);
    s.apply(Action::Left);
    s.apply(Action::Delete); // ac
    s.apply(Action::Commit);
    assert_eq!(rendered(&s), "echo ac");
}

#[test]
fn unknown_hint_in_await_returns_to_normal() {
    let mut s = state("ls");
    s.apply(Action::Prefix(HintOp::Delete));
    s.apply(Action::Hint('9'));
    assert_eq!(s.mode, Mode::Normal);
    assert_eq!(rendered(&s), "ls");
}

#[test]
fn cancel_in_await_returns_to_normal() {
    let mut s = state("ls");
    s.apply(Action::Prefix(HintOp::Delete));
    s.apply(Action::Cancel);
    assert_eq!(s.mode, Mode::Normal);
    assert_eq!(rendered(&s), "ls");
}

#[test]
fn edited_token_with_space_gets_requoted() {
    let mut s = state("echo hi");
    s.apply(Action::Hint('2'));
    s.apply(Action::ClearLine);
    run(&mut s, "hi there".chars().map(Action::Char));
    s.apply(Action::Commit);
    // Whatever quoting shell_words picks, the rendered string must re-parse
    // into the same logical tokens.
    let reparsed = tokens::split(&tokens::render(&s.tokens)).unwrap();
    assert_eq!(reparsed[1].text, "hi there");
}
