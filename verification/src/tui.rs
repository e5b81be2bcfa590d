//! The decisions of the terminal screens: which history entries are shown,
//! how the selection moves, how long lines are cut, and which action a key
//! press stands for. The terminal itself is driven by the program around
//! the library.

use vstd::prelude::*;
use crate::text::chars_of;
use crate::text::push_char;
use crate::text::string_of_range;
use crate::state::Action;
use crate::state::HintOp;
use crate::state::Mode;
use crate::state::ModeView;
use crate::state::StateView;
use crate::state::Outcome;
use crate::state::step;
use crate::state_laws::editing_at;
use crate::state_laws::law_cursor_keys;

verus! {

broadcast use vstd::string::group_string_axioms;

/// `s` cut to at most `max` characters, the last one replaced by `…` when cut.
pub open spec fn truncate_spec(s: Seq<char>, max: nat) -> Seq<char> {
    if s.len() <= max {
        s
    } else {
        s.take(if max > 0 {
            max - 1
        } else {
            0
        }).push('…')
    }
}

/// Shorten `s` to at most `max` characters (an ellipsis marks the cut).
pub fn truncate(s: &str, max: usize) -> (r: String)
    ensures
        r@ == truncate_spec(s@, max as nat),
{
    let v = chars_of(s);
    if v.len() <= max {
        let r = string_of_range(&v, 0, v.len());
        assert(v@.subrange(0, v@.len() as int) == v@);
        r
    } else {
        let keep = if max > 0 {
            max - 1
        } else {
            0
        };
        let mut t = string_of_range(&v, 0, keep);
        assert(v@.subrange(0, keep as int) == v@.take(keep as int));
        push_char(&mut t, '…');
        t
    }
}

/// The number of entries the picker shows with `rows` terminal rows: two rows
/// go to the header and the status, and at least one entry is shown.
pub open spec fn visible_rows(rows: nat) -> nat {
    if rows >= 3 {
        (rows - 2) as nat
    } else {
        1
    }
}

/// The first entry shown: the selection is kept on screen, and the window
/// does not run past the last of the `n` entries.
pub open spec fn window_start(rows: nat, sel: nat, n: nat) -> nat {
    let visible = visible_rows(rows);
    let a: nat = if sel >= visible - 1 {
        (sel - (visible - 1)) as nat
    } else {
        0
    };
    let b: nat = if n >= visible {
        (n - visible) as nat
    } else {
        0
    };
    if a < b {
        a
    } else {
        b
    }
}

/// The window of history entries the picker shows: `(start, visible)`.
pub fn picker_window(rows: u16, sel: usize, n: usize) -> (r: (usize, usize))
    ensures
        r.1 == visible_rows(rows as nat),
        r.0 == window_start(rows as nat, sel as nat, n as nat),
{
    let r = rows as usize;
    let visible = if r >= 3 {
        r - 2
    } else {
        1
    };
    let a = if sel >= visible - 1 {
        sel - (visible - 1)
    } else {
        0
    };
    let b = if n >= visible {
        n - visible
    } else {
        0
    };
    let start = if a < b {
        a
    } else {
        b
    };
    (start, visible)
}

/// The keys of the picker.
#[derive(Debug, Clone, Copy, PartialEq, Eq)]
pub enum PickKey {
    Up,
    Down,
    Select,
    Quit,
    Other,
}

/// What a key does in the picker.
#[derive(Debug, Clone, Copy, PartialEq, Eq)]
pub enum PickStep {
    /// Keep picking, with this entry selected.
    Move(usize),
    /// This entry was chosen.
    Chosen(usize),
    /// The picker was left without a choice.
    Quit,
}

/// The picker's response to `key` with entry `sel` of `n` selected.
pub open spec fn pick_step_spec(sel: nat, n: nat, key: PickKey) -> PickStep {
    match key {
        PickKey::Up => PickStep::Move(
            if sel > 0 {
                (sel - 1) as usize
            } else {
                0
            },
        ),
        PickKey::Down => PickStep::Move(
            if sel + 1 < n {
                (sel + 1) as usize
            } else {
                sel as usize
            },
        ),
        PickKey::Select => PickStep::Chosen(sel as usize),
        PickKey::Quit => PickStep::Quit,
        PickKey::Other => PickStep::Move(sel as usize),
    }
}

/// Move the selection, choose, or leave the picker. Choosing needs an entry
/// to be selected; moving keeps a selection among the entries there.
pub fn pick_step(sel: usize, n: usize, key: PickKey) -> (r: PickStep)
    requires
        key == PickKey::Select ==> sel < n,
    ensures
        r == pick_step_spec(sel as nat, n as nat, key),
        sel < n ==> match r {
            PickStep::Move(i) => i < n,
            PickStep::Chosen(i) => i < n,
            PickStep::Quit => true,
        },
{
    match key {
        PickKey::Up => PickStep::Move(
            if sel > 0 {
                sel - 1
            } else {
                0
            },
        ),
        PickKey::Down => PickStep::Move(
            if n > 0 && sel < n - 1 {
                sel + 1
            } else {
                sel
            },
        ),
        PickKey::Select => PickStep::Chosen(sel),
        PickKey::Quit => PickStep::Quit,
        PickKey::Other => PickStep::Move(sel),
    }
}

/// The keys of the tweak screen.
#[derive(Debug, Clone, Copy, PartialEq, Eq)]
pub enum Key {
    /// A printable character.
    Char(char),
    /// A character with Control held.
    Ctrl(char),
    Esc,
    Enter,
    Backspace,
    Delete,
    Left,
    Right,
    Home,
    End,
    Other,
}

/// The action a key stands for on the tweak screen. In an edit session keys
/// edit the buffer (Ctrl-U clears it, Esc and Ctrl-C cancel, Enter commits,
/// a character typed with Control held is inserted as it is); otherwise `d`,
/// `i` and `a` start deleting, inserting before and inserting after a token,
/// other characters (with or without Control) are labels, Enter accepts and
/// Esc or Ctrl-C leave.
pub open spec fn key_action_spec(editing: bool, key: Key) -> Option<Action> {
    if editing {
        match key {
            Key::Char(c) => Some(Action::Char(c)),
            Key::Ctrl(c) => if c == 'u' {
                Some(Action::ClearLine)
            } else if c == 'c' {
                Some(Action::Cancel)
            } else {
                Some(Action::Char(c))
            },
            Key::Esc => Some(Action::Cancel),
            Key::Enter => Some(Action::Commit),
            Key::Backspace => Some(Action::Backspace),
            Key::Delete => Some(Action::Delete),
            Key::Left => Some(Action::Left),
            Key::Right => Some(Action::Right),
            Key::Home => Some(Action::Home),
            Key::End => Some(Action::End),
            Key::Other => None,
        }
    } else {
        match key {
            Key::Char(c) => if c == 'd' {
                Some(Action::Prefix(HintOp::Delete))
            } else if c == 'i' {
                Some(Action::Prefix(HintOp::InsertBefore))
            } else if c == 'a' {
                Some(Action::Prefix(HintOp::InsertAfter))
            } else {
                Some(Action::Hint(c))
            },
            Key::Ctrl(c) => if c == 'c' {
                Some(Action::Cancel)
            } else {
                Some(Action::Hint(c))
            },
            Key::Esc => Some(Action::Cancel),
            Key::Enter => Some(Action::Commit),
            _ => None,
        }
    }
}

/// The action that `key` stands for in `mode`, if any.
pub fn key_action(mode: &Mode, key: Key) -> (r: Option<Action>)
    ensures
        r == key_action_spec(mode is Editing, key),
{
    let editing = match mode {
        Mode::Editing { .. } => true,
        _ => false,
    };
    if editing {
        match key {
            Key::Char(c) => Some(Action::Char(c)),
            Key::Ctrl(c) => if c == 'u' {
                Some(Action::ClearLine)
            } else if c == 'c' {
                Some(Action::Cancel)
            } else {
                Some(Action::Char(c))
            },
            Key::Esc => Some(Action::Cancel),
            Key::Enter => Some(Action::Commit),
            Key::Backspace => Some(Action::Backspace),
            Key::Delete => Some(Action::Delete),
            Key::Left => Some(Action::Left),
            Key::Right => Some(Action::Right),
            Key::Home => Some(Action::Home),
            Key::End => Some(Action::End),
            Key::Other => None,
        }
    } else {
        match key {
            Key::Char(c) => if c == 'd' {
                Some(Action::Prefix(HintOp::Delete))
            } else if c == 'i' {
                Some(Action::Prefix(HintOp::InsertBefore))
            } else if c == 'a' {
                Some(Action::Prefix(HintOp::InsertAfter))
            } else {
                Some(Action::Hint(c))
            },
            Key::Ctrl(c) => if c == 'c' {
                Some(Action::Cancel)
            } else {
                Some(Action::Hint(c))
            },
            Key::Esc => Some(Action::Cancel),
            Key::Enter => Some(Action::Commit),
            _ => None,
        }
    }
}

/// Each key stands for the action it is named after: in an edit session the
/// arrow keys, Home, End, Backspace and Delete act on the buffer, a typed
/// character is typed, Enter commits and Esc cancels; outside one, Enter
/// accepts the command and Esc leaves.
pub proof fn law_keys_name_their_actions(c: char)
    ensures
        key_action_spec(true, Key::Left) == Some(Action::Left),
        key_action_spec(true, Key::Right) == Some(Action::Right),
        key_action_spec(true, Key::Home) == Some(Action::Home),
        key_action_spec(true, Key::End) == Some(Action::End),
        key_action_spec(true, Key::Backspace) == Some(Action::Backspace),
        key_action_spec(true, Key::Delete) == Some(Action::Delete),
        key_action_spec(true, Key::Char(c)) == Some(Action::Char(c)),
        key_action_spec(true, Key::Enter) == Some(Action::Commit),
        key_action_spec(true, Key::Esc) == Some(Action::Cancel),
        key_action_spec(false, Key::Enter) == Some(Action::Commit),
        key_action_spec(false, Key::Esc) == Some(Action::Cancel),
{
}

/// In an edit session, the left arrow moves the cursor one place left, the
/// right arrow one place right, Home to the start and End to the end of the
/// buffer (as far as there is room), and Enter and Esc end the session.
pub proof fn law_arrow_keys_move_the_cursor(
    s: StateView,
    idx: usize,
    buf: Seq<char>,
    cursor: usize,
    inserted: bool,
)
    requires
        s.mode == (ModeView::Editing { idx, buf, cursor, inserted }),
        0 < cursor < buf.len(),
        buf.len() <= usize::MAX,
    ensures
        step(s, key_action_spec(true, Key::Left)->Some_0).0 == editing_at(
            s,
            idx,
            buf,
            (cursor - 1) as usize,
            inserted,
        ),
        step(s, key_action_spec(true, Key::Right)->Some_0).0 == editing_at(
            s,
            idx,
            buf,
            (cursor + 1) as usize,
            inserted,
        ),
        step(s, key_action_spec(true, Key::Home)->Some_0).0 == editing_at(s, idx, buf, 0, inserted),
        step(s, key_action_spec(true, Key::End)->Some_0).0 == editing_at(
            s,
            idx,
            buf,
            buf.len() as usize,
            inserted,
        ),
        step(s, key_action_spec(true, Key::Enter)->Some_0).0.mode == ModeView::Normal,
        step(s, key_action_spec(true, Key::Esc)->Some_0).0.mode == ModeView::Normal,
        step(s, key_action_spec(true, Key::Esc)->Some_0).1 == Outcome::Continue,
{
    law_keys_name_their_actions(' ');
    law_cursor_keys(s, idx, buf, cursor, inserted);
}

/// The picker always shows the selected entry: with entry `sel` of `n`
/// selected, the window starts at or before it and reaches past it, and it
/// never starts beyond what fills the screen from the last entry.
pub proof fn law_picker_shows_selection(rows: nat, sel: nat, n: nat)
    requires
        sel < n,
    ensures
        window_start(rows, sel, n) <= sel < window_start(rows, sel, n) + visible_rows(rows),
        visible_rows(rows) >= 1,
        n >= visible_rows(rows) ==> window_start(rows, sel, n) + visible_rows(rows) <= n,
        n < visible_rows(rows) ==> window_start(rows, sel, n) == 0,
{
}

/// A truncated line is never longer than `max` characters (one, the
/// ellipsis, when `max` is zero), begins with the start of the line, and is
/// the line itself when it fits.
pub proof fn law_truncate_fits(s: Seq<char>, max: nat)
    ensures
        truncate_spec(s, max).len() <= if max > 0 {
            max
        } else {
            1
        },
        s.len() <= max ==> truncate_spec(s, max) == s,
        s.len() > max ==> truncate_spec(s, max).last() == '…' && truncate_spec(s, max).drop_last()
            == s.take(truncate_spec(s, max).len() - 1),
{
}

} // verus!
