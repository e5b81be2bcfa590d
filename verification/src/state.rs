//! Pure state machine for the tweak screen. No IO, no terminal — the TUI
//! layer maps key events into `Action`s and renders from `State`.

use vstd::prelude::*;
use vstd::string::StringExecFns;
use crate::text::chars_of;
use crate::text::string_of;
use crate::text::push_char;
use crate::text::decimal;
use crate::text::decimal_string;
use crate::tokens::Token;
use crate::tokens::TokenView;
use crate::tokens::token_views;
use crate::tokens::index_for;
use crate::tokens::index_for_spec;
use crate::tokens::quote_for_render;
use crate::tokens::shell_quote_spec;

verus! {

broadcast use vstd::string::group_string_axioms;

#[derive(Debug, Clone, Copy, PartialEq, Eq)]
pub enum HintOp {
    Delete,
    InsertBefore,
    InsertAfter,
}

#[derive(Debug, Clone, PartialEq, Eq)]
pub enum Mode {
    Normal,
    AwaitHint(HintOp),
    Editing {
        idx: usize,
        buf: Vec<char>,
        cursor: usize,
        /// True if the token was freshly inserted for this edit session;
        /// on cancel or empty-commit we remove it instead of keeping empty text.
        inserted: bool,
    },
}

/// The mathematical value of a mode.
pub enum ModeView {
    Normal,
    AwaitHint(HintOp),
    Editing { idx: usize, buf: Seq<char>, cursor: usize, inserted: bool },
}

impl View for Mode {
    type V = ModeView;

    open spec fn view(&self) -> ModeView {
        match self {
            Mode::Normal => ModeView::Normal,
            Mode::AwaitHint(op) => ModeView::AwaitHint(*op),
            Mode::Editing { idx, buf, cursor, inserted } => ModeView::Editing {
                idx: *idx,
                buf: buf@,
                cursor: *cursor,
                inserted: *inserted,
            },
        }
    }
}

#[derive(Debug, Clone, PartialEq, Eq)]
pub enum Action {
    /// Label keystroke (1-9, A-Z). In Normal mode this starts an edit; in
    /// AwaitHint it picks the target token.
    Hint(char),
    Prefix(HintOp),
    Char(char),
    Backspace,
    Delete,
    Left,
    Right,
    Home,
    End,
    ClearLine,
    Commit,
    Cancel,
}

#[derive(Debug, Clone, PartialEq, Eq)]
pub enum Outcome {
    Continue,
    Accept,
    Quit,
}

#[derive(Debug, Clone)]
pub struct State {
    pub tokens: Vec<Token>,
    pub mode: Mode,
    pub status: Option<String>,
}

/// The mathematical value of a state.
pub struct StateView {
    pub tokens: Seq<TokenView>,
    pub mode: ModeView,
    pub status: Option<Seq<char>>,
}

/// The view of a status line.
pub open spec fn status_view(s: Option<String>) -> Option<Seq<char>> {
    match s {
        Some(m) => Some(m@),
        None => None,
    }
}

impl View for State {
    type V = StateView;

    open spec fn view(&self) -> StateView {
        StateView {
            tokens: token_views(self.tokens@),
            mode: self.mode@,
            status: status_view(self.status),
        }
    }
}

// ───────────────────────────── the transition function ─────────────────────────────

/// A state is well formed when an edit session points at an existing token
/// and its cursor lies within the buffer.
pub open spec fn state_wf(s: StateView) -> bool {
    match s.mode {
        ModeView::Editing { idx, buf, cursor, .. } => idx < s.tokens.len() && cursor <= buf.len(),
        _ => true,
    }
}

/// Whether `action` can be applied to `s` without indexing past a token or
/// past the edit buffer: a cancelled insertion and a commit need the token of
/// the session, and typing or deleting backwards needs the cursor within the
/// buffer. Every well-formed state can take every action.
pub open spec fn apply_ok(s: StateView, action: Action) -> bool {
    match s.mode {
        ModeView::Editing { idx, buf, cursor, inserted } => match action {
            Action::Cancel => inserted ==> idx < s.tokens.len(),
            Action::Commit => idx < s.tokens.len(),
            Action::Char(_) | Action::Backspace => cursor <= buf.len(),
            _ => true,
        },
        _ => true,
    }
}

/// The token a label key picks among `n` tokens.
pub open spec fn hint_target(ch: char, n: nat) -> Option<nat> {
    match index_for_spec(ch) {
        Some(i) => if i < n {
            Some(i)
        } else {
            None
        },
        None => None,
    }
}

pub open spec fn msg_no_token(ch: char) -> Seq<char> {
    "no token at ["@ + seq![ch] + "]"@
}

pub open spec fn msg_deleted(idx: nat) -> Seq<char> {
    "deleted token "@ + decimal(idx + 1)
}

pub open spec fn msg_edited(idx: nat) -> Seq<char> {
    "edited token "@ + decimal(idx + 1)
}

pub open spec fn msg_cancelled() -> Seq<char> {
    "cancelled"@
}

pub open spec fn msg_insert_cancelled() -> Seq<char> {
    "insert cancelled"@
}

/// The empty token an insertion starts from.
pub open spec fn empty_token() -> TokenView {
    TokenView { text: seq![], original: seq![] }
}

/// `s` in `mode`.
pub open spec fn in_mode(s: StateView, mode: ModeView) -> StateView {
    StateView { mode: mode, ..s }
}

/// `s` in normal mode with the status line `msg`.
pub open spec fn normal_with(s: StateView, msg: Seq<char>) -> StateView {
    StateView { mode: ModeView::Normal, status: Some(msg), ..s }
}

/// A normal-mode step.
pub open spec fn step_normal(s: StateView, action: Action) -> (StateView, Outcome) {
    match action {
        Action::Cancel => (in_mode(s, ModeView::Normal), Outcome::Quit),
        Action::Commit => (in_mode(s, ModeView::Normal), Outcome::Accept),
        Action::Prefix(op) => (in_mode(s, ModeView::AwaitHint(op)), Outcome::Continue),
        Action::Hint(ch) => match hint_target(ch, s.tokens.len()) {
            Some(idx) => (
                in_mode(
                    s,
                    ModeView::Editing {
                        idx: idx as usize,
                        buf: s.tokens[idx as int].text,
                        cursor: s.tokens[idx as int].text.len() as usize,
                        inserted: false,
                    },
                ),
                Outcome::Continue,
            ),
            None => (normal_with(s, msg_no_token(ch)), Outcome::Continue),
        },
        _ => (in_mode(s, ModeView::Normal), Outcome::Continue),
    }
}

/// A step while waiting for the label that a prefix command applies to.
pub open spec fn step_await(s: StateView, op: HintOp, action: Action) -> (StateView, Outcome) {
    match action {
        Action::Cancel => (normal_with(s, msg_cancelled()), Outcome::Continue),
        Action::Hint(ch) => match hint_target(ch, s.tokens.len()) {
            Some(idx) => match op {
                HintOp::Delete => (
                    normal_with(
                        StateView { tokens: s.tokens.remove(idx as int), ..s },
                        msg_deleted(idx),
                    ),
                    Outcome::Continue,
                ),
                _ => {
                    let new_idx = if op == HintOp::InsertBefore {
                        idx
                    } else {
                        idx + 1
                    };
                    (
                        StateView {
                            tokens: s.tokens.insert(new_idx as int, empty_token()),
                            mode: ModeView::Editing {
                                idx: new_idx as usize,
                                buf: seq![],
                                cursor: 0,
                                inserted: true,
                            },
                            ..s
                        },
                        Outcome::Continue,
                    )
                },
            },
            None => (normal_with(s, msg_no_token(ch)), Outcome::Continue),
        },
        // Unrelated keys while awaiting a hint are ignored.
        _ => (in_mode(s, ModeView::AwaitHint(op)), Outcome::Continue),
    }
}

/// A step inside an edit session on token `idx`.
pub open spec fn step_editing(
    s: StateView,
    idx: usize,
    buf: Seq<char>,
    cursor: usize,
    inserted: bool,
    action: Action,
) -> (StateView, Outcome) {
    let keep = |b: Seq<char>, c: usize|
        in_mode(s, ModeView::Editing { idx: idx, buf: b, cursor: c, inserted: inserted });
    match action {
        Action::Cancel => (
            normal_with(
                StateView {
                    tokens: if inserted {
                        s.tokens.remove(idx as int)
                    } else {
                        s.tokens
                    },
                    ..s
                },
                msg_cancelled(),
            ),
            Outcome::Continue,
        ),
        Action::Commit => if inserted && buf.len() == 0 {
            (
                normal_with(
                    StateView { tokens: s.tokens.remove(idx as int), ..s },
                    msg_insert_cancelled(),
                ),
                Outcome::Continue,
            )
        } else {
            (
                normal_with(
                    StateView {
                        tokens: s.tokens.update(
                            idx as int,
                            TokenView { text: buf, original: shell_quote_spec(buf) },
                        ),
                        ..s
                    },
                    msg_edited(idx as nat),
                ),
                Outcome::Continue,
            )
        },
        Action::Char(c) => (keep(buf.insert(cursor as int, c), (cursor + 1) as usize), Outcome::Continue),
        Action::Backspace => if cursor > 0 {
            (keep(buf.remove(cursor - 1), (cursor - 1) as usize), Outcome::Continue)
        } else {
            (keep(buf, cursor), Outcome::Continue)
        },
        Action::Delete => if cursor < buf.len() {
            (keep(buf.remove(cursor as int), cursor), Outcome::Continue)
        } else {
            (keep(buf, cursor), Outcome::Continue)
        },
        Action::Left => if cursor > 0 {
            (keep(buf, (cursor - 1) as usize), Outcome::Continue)
        } else {
            (keep(buf, cursor), Outcome::Continue)
        },
        Action::Right => if cursor < buf.len() {
            (keep(buf, (cursor + 1) as usize), Outcome::Continue)
        } else {
            (keep(buf, cursor), Outcome::Continue)
        },
        Action::Home => (keep(buf, 0), Outcome::Continue),
        Action::End => (keep(buf, buf.len() as usize), Outcome::Continue),
        Action::ClearLine => (keep(seq![], 0), Outcome::Continue),
        Action::Hint(_) | Action::Prefix(_) => (keep(buf, cursor), Outcome::Continue),
    }
}

/// What `State::apply` does: the next state and the outcome.
pub open spec fn step(s: StateView, action: Action) -> (StateView, Outcome) {
    match s.mode {
        ModeView::Normal => step_normal(s, action),
        ModeView::AwaitHint(op) => step_await(s, op, action),
        ModeView::Editing { idx, buf, cursor, inserted } => step_editing(
            s,
            idx,
            buf,
            cursor,
            inserted,
            action,
        ),
    }
}

// ───────────────────────────── the executable machine ─────────────────────────────

fn resolve_hint(ch: char, n: usize) -> (r: Option<usize>)
    ensures
        match r {
            Some(i) => hint_target(ch, n as nat) == Some(i as nat),
            None => hint_target(ch, n as nat) is None,
        },
{
    match index_for(ch) {
        Some(i) => if i < n {
            Some(i)
        } else {
            None
        },
        None => None,
    }
}

fn no_token_message(ch: char) -> (r: String)
    ensures
        r@ == msg_no_token(ch),
{
    let mut m = String::from_str("no token at [");
    push_char(&mut m, ch);
    m.append("]");
    m
}

fn numbered_message(prefix: &str, idx: usize) -> (r: String)
    requires
        idx < usize::MAX,
    ensures
        r@ == prefix@ + decimal((idx + 1) as nat),
{
    let mut m = String::from_str(prefix);
    let n = decimal_string(idx + 1);
    m.append(n.as_str());
    m
}

proof fn lemma_views_remove(v: Seq<Token>, i: int)
    requires
        0 <= i < v.len(),
    ensures
        token_views(v.remove(i)) == token_views(v).remove(i),
{
    assert(token_views(v.remove(i)) =~= token_views(v).remove(i));
}

proof fn lemma_views_insert(v: Seq<Token>, i: int, t: Token)
    requires
        0 <= i <= v.len(),
    ensures
        token_views(v.insert(i, t)) == token_views(v).insert(i, t@),
{
    assert(token_views(v.insert(i, t)) =~= token_views(v).insert(i, t@));
}

proof fn lemma_views_update(v: Seq<Token>, i: int, t: Token)
    requires
        0 <= i < v.len(),
    ensures
        token_views(v.update(i, t)) == token_views(v).update(i, t@),
{
    assert(token_views(v.update(i, t)) =~= token_views(v).update(i, t@));
}

impl State {
    pub fn new(tokens: Vec<Token>) -> (r: Self)
        ensures
            r@ == (StateView { tokens: token_views(tokens@), mode: ModeView::Normal, status: None }),
    {
        Self { tokens, mode: Mode::Normal, status: None }
    }

    pub fn apply(&mut self, action: Action) -> (r: Outcome)
        requires
            apply_ok(old(self)@, action),
        ensures
            state_wf(old(self)@) ==> state_wf(final(self)@),
            (final(self)@, r) == step(old(self)@, action),
    {
        let mut mode = Mode::Normal;
        core::mem::swap(&mut mode, &mut self.mode);
        let (new_mode, outcome) = match mode {
            Mode::Normal => self.from_normal(action),
            Mode::AwaitHint(op) => self.from_await(op, action),
            Mode::Editing { idx, buf, cursor, inserted } => self.from_editing(
                idx,
                buf,
                cursor,
                inserted,
                action,
            ),
        };
        self.mode = new_mode;
        proof {
            if state_wf(old(self)@) {
                lemma_step_wf(old(self)@, action);
            }
        }
        outcome
    }

    /// Whether `action` can be applied to this state (see `apply_ok`).
    pub fn can_apply(&self, action: &Action) -> (r: bool)
        ensures
            r == apply_ok(self@, *action),
    {
        match &self.mode {
            Mode::Editing { idx, buf, cursor, inserted } => match action {
                Action::Cancel => !*inserted || *idx < self.tokens.len(),
                Action::Commit => *idx < self.tokens.len(),
                Action::Char(_) | Action::Backspace => *cursor <= buf.len(),
                _ => true,
            },
            _ => true,
        }
    }

    fn from_normal(&mut self, action: Action) -> (r: (Mode, Outcome))
        ensures
            step(in_mode(old(self)@, ModeView::Normal), action) == (
                in_mode(final(self)@, r.0@),
                r.1,
            ),
    {
        match action {
            Action::Cancel => (Mode::Normal, Outcome::Quit),
            Action::Commit => (Mode::Normal, Outcome::Accept),
            Action::Prefix(op) => (Mode::AwaitHint(op), Outcome::Continue),
            Action::Hint(ch) => match resolve_hint(ch, self.tokens.len()) {
                Some(idx) => {
                    let buf: Vec<char> = chars_of(self.tokens[idx].text.as_str());
                    let cursor = buf.len();
                    (Mode::Editing { idx, buf, cursor, inserted: false }, Outcome::Continue)
                },
                None => {
                    self.status = Some(no_token_message(ch));
                    (Mode::Normal, Outcome::Continue)
                },
            },
            _ => (Mode::Normal, Outcome::Continue),
        }
    }

    fn from_await(&mut self, op: HintOp, action: Action) -> (r: (Mode, Outcome))
        ensures
            step(in_mode(old(self)@, ModeView::AwaitHint(op)), action) == (
                in_mode(final(self)@, r.0@),
                r.1,
            ),
    {
        match action {
            Action::Cancel => {
                self.status = Some(String::from_str("cancelled"));
                (Mode::Normal, Outcome::Continue)
            },
            Action::Hint(ch) => match resolve_hint(ch, self.tokens.len()) {
                Some(idx) => match op {
                    HintOp::Delete => {
                        proof {
                            lemma_views_remove(self.tokens@, idx as int);
                        }
                        self.tokens.remove(idx);
                        self.status = Some(numbered_message("deleted token ", idx));
                        (Mode::Normal, Outcome::Continue)
                    },
                    HintOp::InsertBefore | HintOp::InsertAfter => {
                        let new_idx = match op {
                            HintOp::InsertBefore => idx,
                            _ => idx + 1,
                        };
                        let t = Token { text: String::new(), original: String::new() };
                        proof {
                            lemma_views_insert(self.tokens@, new_idx as int, t);
                        }
                        self.tokens.insert(new_idx, t);
                        (
                            Mode::Editing { idx: new_idx, buf: Vec::new(), cursor: 0, inserted: true },
                            Outcome::Continue,
                        )
                    },
                },
                None => {
                    self.status = Some(no_token_message(ch));
                    (Mode::Normal, Outcome::Continue)
                },
            },
            // Unrelated keys while awaiting a hint are ignored.
            _ => (Mode::AwaitHint(op), Outcome::Continue),
        }
    }

    fn from_editing(
        &mut self,
        idx: usize,
        buf: Vec<char>,
        cursor: usize,
        inserted: bool,
        action: Action,
    ) -> (r: (Mode, Outcome))
        requires
            apply_ok(
                in_mode(old(self)@, ModeView::Editing { idx, buf: buf@, cursor, inserted }),
                action,
            ),
        ensures
            step(
                in_mode(
                    old(self)@,
                    ModeView::Editing { idx, buf: buf@, cursor, inserted },
                ),
                action,
            ) == (in_mode(final(self)@, r.0@), r.1),
    {
        let mut buf = buf;
        let mut cursor = cursor;
        match action {
            Action::Cancel => {
                if inserted {
                    proof {
                        lemma_views_remove(self.tokens@, idx as int);
                    }
                    self.tokens.remove(idx);
                }
                self.status = Some(String::from_str("cancelled"));
                (Mode::Normal, Outcome::Continue)
            },
            Action::Commit => {
                if inserted && buf.len() == 0 {
                    proof {
                        lemma_views_remove(self.tokens@, idx as int);
                    }
                    self.tokens.remove(idx);
                    self.status = Some(String::from_str("insert cancelled"));
                } else {
                    let text = string_of(&buf);
                    let original = quote_for_render(text.as_str());
                    let t = Token { text, original };
                    proof {
                        lemma_views_update(self.tokens@, idx as int, t);
                    }
                    self.tokens.set(idx, t);
                    assert(idx < self.tokens.len());
                    self.status = Some(numbered_message("edited token ", idx));
                }
                (Mode::Normal, Outcome::Continue)
            },
            Action::Char(c) => {
                buf.insert(cursor, c);
                assert(cursor < buf.len());
                cursor = cursor + 1;
                (Mode::Editing { idx, buf, cursor, inserted }, Outcome::Continue)
            },
            Action::Backspace => {
                if cursor > 0 {
                    cursor = cursor - 1;
                    buf.remove(cursor);
                }
                (Mode::Editing { idx, buf, cursor, inserted }, Outcome::Continue)
            },
            Action::Delete => {
                if cursor < buf.len() {
                    buf.remove(cursor);
                }
                (Mode::Editing { idx, buf, cursor, inserted }, Outcome::Continue)
            },
            Action::Left => {
                if cursor > 0 {
                    cursor = cursor - 1;
                }
                (Mode::Editing { idx, buf, cursor, inserted }, Outcome::Continue)
            },
            Action::Right => {
                if cursor < buf.len() {
                    cursor = cursor + 1;
                }
                (Mode::Editing { idx, buf, cursor, inserted }, Outcome::Continue)
            },
            Action::Home => (Mode::Editing { idx, buf, cursor: 0, inserted }, Outcome::Continue),
            Action::End => {
                let c = buf.len();
                (Mode::Editing { idx, buf, cursor: c, inserted }, Outcome::Continue)
            },
            Action::ClearLine => (
                Mode::Editing { idx, buf: Vec::new(), cursor: 0, inserted },
                Outcome::Continue,
            ),
            Action::Hint(_) | Action::Prefix(_) => (
                Mode::Editing { idx, buf, cursor, inserted },
                Outcome::Continue,
            ),
        }
    }
}

/// Every step keeps a state well formed.
pub proof fn lemma_step_wf(s: StateView, action: Action)
    requires
        state_wf(s),
    ensures
        state_wf(step(s, action).0),
{
}

} // verus!
