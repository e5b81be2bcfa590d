use tweaker::state::Action;
use tweaker::state::HintOp;
use tweaker::state::Mode;
use tweaker::tui::key_action;
use tweaker::tui::pick_step;
use tweaker::tui::picker_window;
use tweaker::tui::truncate;
use tweaker::tui::Key;
use tweaker::tui::PickKey;
use tweaker::tui::PickStep;

#[test]
fn truncate_marks_the_cut() {
    assert_eq!(truncate("hello", 5), "hello");
    assert_eq!(truncate("hello", 3), "he…");
    assert_eq!(truncate("héllo", 2), "h…");
    assert_eq!(truncate("hi", 0), "…");
}

#[test]
fn picker_window_follows_selection() {
    assert_eq!(picker_window(10, 0, 100), (0, 8));
    assert_eq!(picker_window(10, 50, 100), (43, 8));
    assert_eq!(picker_window(10, 99, 100), (92, 8));
    assert_eq!(picker_window(10, 2, 3), (0, 8));
    assert_eq!(picker_window(1, 5, 10), (5, 1));
}

#[test]
fn picker_keys() {
    assert_eq!(pick_step(0, 3, PickKey::Up), PickStep::Move(0));
    assert_eq!(pick_step(1, 3, PickKey::Up), PickStep::Move(0));
    assert_eq!(pick_step(1, 3, PickKey::Down), PickStep::Move(2));
    assert_eq!(pick_step(2, 3, PickKey::Down), PickStep::Move(2));
    assert_eq!(pick_step(2, 3, PickKey::Select), PickStep::Chosen(2));
    assert_eq!(pick_step(2, 3, PickKey::Quit), PickStep::Quit);
    assert_eq!(pick_step(2, 3, PickKey::Other), PickStep::Move(2));
}

#[test]
fn keys_map_to_actions() {
    let editing = Mode::Editing { idx: 0, buf: vec![], cursor: 0, inserted: false };
    assert_eq!(key_action(&editing, Key::Char('d')), Some(Action::Char('d')));
    assert_eq!(key_action(&editing, Key::Ctrl('u')), Some(Action::ClearLine));
    assert_eq!(key_action(&editing, Key::Esc), Some(Action::Cancel));
    assert_eq!(key_action(&editing, Key::Other), None);
    assert_eq!(key_action(&Mode::Normal, Key::Char('d')), Some(Action::Prefix(HintOp::Delete)));
    assert_eq!(key_action(&Mode::Normal, Key::Char('i')), Some(Action::Prefix(HintOp::InsertBefore)));
    assert_eq!(key_action(&Mode::Normal, Key::Char('a')), Some(Action::Prefix(HintOp::InsertAfter)));
    assert_eq!(key_action(&Mode::Normal, Key::Char('3')), Some(Action::Hint('3')));
    assert_eq!(key_action(&Mode::Normal, Key::Enter), Some(Action::Commit));
    assert_eq!(key_action(&Mode::Normal, Key::Left), None);
    assert_eq!(key_action(&Mode::AwaitHint(HintOp::Delete), Key::Ctrl('c')), Some(Action::Cancel));
}

#[test]
fn picker_moves_on_an_empty_list() {
    assert_eq!(pick_step(0, 0, PickKey::Down), PickStep::Move(0));
    assert_eq!(pick_step(0, 0, PickKey::Up), PickStep::Move(0));
    assert_eq!(pick_step(0, 0, PickKey::Quit), PickStep::Quit);
}

#[test]
fn control_characters_edit_or_label() {
    let editing = Mode::Editing { idx: 0, buf: vec![], cursor: 0, inserted: false };
    assert_eq!(key_action(&editing, Key::Ctrl('x')), Some(Action::Char('x')));
    assert_eq!(key_action(&editing, Key::Ctrl('c')), Some(Action::Cancel));
    assert_eq!(key_action(&Mode::Normal, Key::Ctrl('B')), Some(Action::Hint('B')));
    assert_eq!(key_action(&Mode::Normal, Key::Ctrl('c')), Some(Action::Cancel));
}
