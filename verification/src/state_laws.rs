//! What the tweak screen promises over whole sessions of key presses.

use vstd::prelude::*;
use crate::tokens::TokenView;
use crate::tokens::shell_quote_spec;
use crate::tokens::split_spec;
use crate::tokens::render_spec;
use crate::roundtrip::is_stable;
use crate::roundtrip::renders_back;
use crate::roundtrip::quote_leaves_whitespace;
use crate::roundtrip::law_render_then_split;
use crate::roundtrip::law_quote_for_render_splits_back;
use crate::roundtrip::has_line_continuation;
use crate::roundtrip::ends_in_escape;
use crate::roundtrip::law_split_tokens_stable;
use crate::state::Action;
use crate::state::HintOp;
use crate::state::ModeView;
use crate::state::Outcome;
use crate::state::StateView;
use crate::state::empty_token;
use crate::state::hint_target;
use crate::state::state_wf;
use crate::state::step;

verus! {

/// The state after applying `actions` in turn (outcomes other than
/// `Continue` do not stop the run).
pub open spec fn run(s: StateView, actions: Seq<Action>) -> StateView
    decreases actions.len(),
{
    if actions.len() == 0 {
        s
    } else {
        step(run(s, actions.drop_last()), actions.last()).0
    }
}

/// The keys that only edit the buffer of an edit session.
pub open spec fn is_edit_key(a: Action) -> bool {
    match a {
        Action::Char(_) | Action::Backspace | Action::Delete | Action::Left | Action::Right
        | Action::Home | Action::End | Action::ClearLine => true,
        _ => false,
    }
}

/// Whether every action of `keys` types a character.
pub open spec fn all_typing(keys: Seq<Action>) -> bool {
    forall|k: int| 0 <= k < keys.len() ==> #[trigger] keys[k] is Char
}

/// The characters that the actions of `keys` type.
pub open spec fn typed_text(keys: Seq<Action>) -> Seq<char> {
    Seq::new(
        keys.len(),
        |i: int|
            match keys[i] {
                Action::Char(c) => c,
                _ => ' ',
            },
    )
}

/// Whether `a` and `b` are modes of the same kind on the same token.
pub open spec fn same_session(a: ModeView, b: ModeView) -> bool {
    match (a, b) {
        (ModeView::Normal, ModeView::Normal) => true,
        (ModeView::AwaitHint(x), ModeView::AwaitHint(y)) => x == y,
        (
            ModeView::Editing { idx: i, inserted: p, .. },
            ModeView::Editing { idx: j, inserted: q, .. },
        ) => i == j && p == q,
        _ => false,
    }
}

proof fn lemma_run_append(s: StateView, a: Seq<Action>, b: Seq<Action>)
    ensures
        run(s, a + b) == run(run(s, a), b),
    decreases b.len(),
{
    if b.len() == 0 {
        assert(a + b == a);
    } else {
        assert((a + b).drop_last() == a + b.drop_last());
        assert((a + b).last() == b.last());
        lemma_run_append(s, a, b.drop_last());
    }
}

proof fn lemma_run_one(s: StateView, a: Action)
    ensures
        run(s, seq![a]) == step(s, a).0,
{
    assert(seq![a].drop_last() == Seq::<Action>::empty());
    assert(run(s, Seq::<Action>::empty()) == s);
}

proof fn lemma_run_wf(s: StateView, actions: Seq<Action>)
    requires
        state_wf(s),
    ensures
        state_wf(run(s, actions)),
    decreases actions.len(),
{
    if actions.len() > 0 {
        lemma_run_wf(s, actions.drop_last());
        crate::state::lemma_step_wf(run(s, actions.drop_last()), actions.last());
    }
}

/// Edit keys never change the tokens, nor the kind of mode and the token an
/// edit session is on.
pub proof fn law_edit_keys_keep_tokens(s: StateView, edits: Seq<Action>)
    requires
        state_wf(s),
        forall|k: int| 0 <= k < edits.len() ==> is_edit_key(#[trigger] edits[k]),
    ensures
        run(s, edits).tokens == s.tokens,
        run(s, edits).status == s.status,
        same_session(run(s, edits).mode, s.mode),
    decreases edits.len(),
{
    if edits.len() > 0 {
        let p = edits.drop_last();
        assert forall|k: int| 0 <= k < p.len() implies is_edit_key(#[trigger] p[k]) by {
            assert(p[k] == edits[k]);
        }
        law_edit_keys_keep_tokens(s, p);
        assert(is_edit_key(edits[edits.len() - 1]));
    }
}

/// Starting an edit with a label, pressing edit keys and cancelling leaves
/// the tokens as they were, and the screen in normal mode.
pub proof fn law_cancelled_edit_keeps_tokens(s: StateView, ch: char, edits: Seq<Action>)
    requires
        state_wf(s),
        s.mode == ModeView::Normal,
        forall|k: int| 0 <= k < edits.len() ==> is_edit_key(#[trigger] edits[k]),
    ensures
        run(s, seq![Action::Hint(ch)] + edits + seq![Action::Cancel]).tokens == s.tokens,
        run(s, seq![Action::Hint(ch)] + edits + seq![Action::Cancel]).mode == ModeView::Normal,
{
    let s1 = step(s, Action::Hint(ch)).0;
    lemma_run_one(s, Action::Hint(ch));
    crate::state::lemma_step_wf(s, Action::Hint(ch));
    law_edit_keys_keep_tokens(s1, edits);
    lemma_run_append(s, seq![Action::Hint(ch)], edits);
    lemma_run_append(s, seq![Action::Hint(ch)] + edits, seq![Action::Cancel]);
    lemma_run_one(run(s1, edits), Action::Cancel);
}

/// Inserting a token with a prefix command and a label, pressing edit keys
/// and cancelling leaves the tokens as they were, and the screen in normal mode.
/// Where an insertion with a prefix command and a label lands.
pub open spec fn insert_at(op: HintOp, i: nat) -> nat {
    if op == HintOp::InsertBefore {
        i
    } else {
        i + 1
    }
}

proof fn lemma_insert_start(s: StateView, op: HintOp, ch: char)
    requires
        state_wf(s),
        s.mode == ModeView::Normal,
        op != HintOp::Delete,
    ensures
        state_wf(run(s, seq![Action::Prefix(op), Action::Hint(ch)])),
        run(s, seq![Action::Prefix(op), Action::Hint(ch)]) == match hint_target(ch, s.tokens.len()) {
            Some(i) => StateView {
                tokens: s.tokens.insert(insert_at(op, i) as int, empty_token()),
                mode: ModeView::Editing {
                    idx: insert_at(op, i) as usize,
                    buf: seq![],
                    cursor: 0,
                    inserted: true,
                },
                status: s.status,
            },
            None => StateView {
                mode: ModeView::Normal,
                status: Some(crate::state::msg_no_token(ch)),
                ..s
            },
        },
{
    let start = seq![Action::Prefix(op), Action::Hint(ch)];
    let s1 = step(s, Action::Prefix(op)).0;
    lemma_run_one(s, Action::Prefix(op));
    lemma_run_append(s, seq![Action::Prefix(op)], seq![Action::Hint(ch)]);
    assert(seq![Action::Prefix(op)] + seq![Action::Hint(ch)] == start);
    lemma_run_one(s1, Action::Hint(ch));
    crate::state::lemma_step_wf(s, Action::Prefix(op));
    crate::state::lemma_step_wf(s1, Action::Hint(ch));
}

/// Starting an insertion before or after a labelled token, pressing edit keys
/// and cancelling leaves the tokens as they were (the placeholder goes again),
/// and the screen in normal mode.
#[verifier::rlimit(100)]
pub proof fn law_cancelled_insert_keeps_tokens(
    s: StateView,
    op: HintOp,
    ch: char,
    edits: Seq<Action>,
)
    requires
        state_wf(s),
        s.mode == ModeView::Normal,
        op != HintOp::Delete,
        forall|k: int| 0 <= k < edits.len() ==> is_edit_key(#[trigger] edits[k]),
    ensures
        run(s, seq![Action::Prefix(op), Action::Hint(ch)] + edits + seq![Action::Cancel]).tokens
            == s.tokens,
        run(s, seq![Action::Prefix(op), Action::Hint(ch)] + edits + seq![Action::Cancel]).mode
            == ModeView::Normal,
{
    let start = seq![Action::Prefix(op), Action::Hint(ch)];
    lemma_insert_start(s, op, ch);
    let s2 = run(s, start);
    law_edit_keys_keep_tokens(s2, edits);
    lemma_run_append(s, start, edits);
    lemma_run_append(s, start + edits, seq![Action::Cancel]);
    let s3 = run(s2, edits);
    lemma_run_one(s3, Action::Cancel);
    match hint_target(ch, s.tokens.len()) {
        Some(i) => {
            let at = insert_at(op, i);
            assert(s3.mode matches ModeView::Editing { idx, inserted, .. } && idx == at && inserted);
            assert(s.tokens.insert(at as int, empty_token()).remove(at as int) =~= s.tokens);
        },
        None => {
            assert(s3.mode == ModeView::Normal);
        },
    }
}

/// A delete prefix followed by a label removes exactly that token; a label
/// that names no token leaves the tokens as they were.
pub proof fn law_delete_removes_token(s: StateView, ch: char)
    requires
        s.mode == ModeView::Normal,
    ensures
        run(s, seq![Action::Prefix(HintOp::Delete), Action::Hint(ch)]).tokens == match hint_target(
            ch,
            s.tokens.len(),
        ) {
            Some(i) => s.tokens.remove(i as int),
            None => s.tokens,
        },
        run(s, seq![Action::Prefix(HintOp::Delete), Action::Hint(ch)]).mode == ModeView::Normal,
{
    let s1 = step(s, Action::Prefix(HintOp::Delete)).0;
    lemma_run_one(s, Action::Prefix(HintOp::Delete));
    lemma_run_append(s, seq![Action::Prefix(HintOp::Delete)], seq![Action::Hint(ch)]);
    assert(seq![Action::Prefix(HintOp::Delete)] + seq![Action::Hint(ch)] == seq![
        Action::Prefix(HintOp::Delete),
        Action::Hint(ch),
    ]);
    lemma_run_one(s1, Action::Hint(ch));
}

proof fn lemma_typing(s: StateView, keys: Seq<Action>)
    requires
        state_wf(s),
        all_typing(keys),
        s.mode matches ModeView::Editing { buf, cursor, .. } && cursor == buf.len() && buf.len()
            + keys.len() <= usize::MAX,
    ensures
        run(s, keys).tokens == s.tokens,
        run(s, keys).status == s.status,
        run(s, keys).mode matches ModeView::Editing { idx, buf, cursor, inserted } && {
            &&& s.mode matches ModeView::Editing { idx: i0, buf: b0, inserted: n0, .. } && idx
                == i0 && inserted == n0 && buf == b0 + typed_text(keys)
            &&& cursor == buf.len()
        },
    decreases keys.len(),
{
    if keys.len() == 0 {
        if let ModeView::Editing { buf, .. } = s.mode {
            assert(buf + typed_text(keys) == buf);
        }
    } else {
        let p = keys.drop_last();
        assert forall|k: int| 0 <= k < p.len() implies #[trigger] p[k] is Char by {
            assert(p[k] == keys[k]);
        }
        lemma_typing(s, p);
        assert(keys[keys.len() - 1] is Char);
        assert(typed_text(p).len() == p.len());
        let c = keys.last()->Char_0;
        assert(typed_text(keys) == typed_text(p).push(c));
        if let ModeView::Editing { buf, .. } = run(s, p).mode {
            assert(buf.insert(buf.len() as int, c) == buf.push(c));
            if let ModeView::Editing { buf: b0, .. } = s.mode {
                assert(b0 + typed_text(keys) == (b0 + typed_text(p)).push(c));
            }
        }
    }
}

/// Picking a token by its label, clearing it, typing `keys` and committing
/// replaces that token with one holding the typed text, quoted by
/// `shell_words::quote`.
pub proof fn law_retyped_token(s: StateView, ch: char, keys: Seq<Action>)
    requires
        state_wf(s),
        s.mode == ModeView::Normal,
        hint_target(ch, s.tokens.len()) is Some,
        all_typing(keys),
        keys.len() <= usize::MAX,
    ensures
        run(s, seq![Action::Hint(ch), Action::ClearLine] + keys + seq![Action::Commit]).tokens
            == s.tokens.update(
            hint_target(ch, s.tokens.len())->Some_0 as int,
            TokenView { text: typed_text(keys), original: shell_quote_spec(typed_text(keys)) },
        ),
{
    let w = typed_text(keys);
    let start = seq![Action::Hint(ch), Action::ClearLine];
    let s1 = step(s, Action::Hint(ch)).0;
    let s2 = step(s1, Action::ClearLine).0;
    lemma_run_one(s, Action::Hint(ch));
    lemma_run_append(s, seq![Action::Hint(ch)], seq![Action::ClearLine]);
    assert(seq![Action::Hint(ch)] + seq![Action::ClearLine] == start);
    lemma_run_one(s1, Action::ClearLine);
    crate::state::lemma_step_wf(s, Action::Hint(ch));
    crate::state::lemma_step_wf(s1, Action::ClearLine);
    lemma_typing(s2, keys);
    lemma_run_append(s, start, keys);
    lemma_run_append(s, start + keys, seq![Action::Commit]);
    lemma_run_one(run(s2, keys), Action::Commit);
    assert(Seq::<char>::empty() + w == w);
}

/// Inserting a token with a prefix command and a label, typing `keys` and
/// committing puts a token holding the typed text (quoted by
/// `shell_words::quote`) before or after the labelled token; with nothing
/// typed, nothing changes.
#[verifier::spinoff_prover]
#[verifier::rlimit(50)]
pub proof fn law_inserted_token(s: StateView, op: HintOp, ch: char, keys: Seq<Action>)
    requires
        state_wf(s),
        s.mode == ModeView::Normal,
        op != HintOp::Delete,
        hint_target(ch, s.tokens.len()) is Some,
        all_typing(keys),
        keys.len() <= usize::MAX,
    ensures
        ({
            let w = typed_text(keys);
            let at = insert_at(op, hint_target(ch, s.tokens.len())->Some_0);
            run(
                s,
                seq![Action::Prefix(op), Action::Hint(ch)] + keys + seq![Action::Commit],
            ).tokens == if w.len() > 0 {
                s.tokens.insert(at as int, TokenView { text: w, original: shell_quote_spec(w) })
            } else {
                s.tokens
            }
        }),
{
    let w = typed_text(keys);
    let start = seq![Action::Prefix(op), Action::Hint(ch)];
    lemma_insert_start(s, op, ch);
    let s2 = run(s, start);
    lemma_typing(s2, keys);
    lemma_run_append(s, start, keys);
    lemma_run_append(s, start + keys, seq![Action::Commit]);
    lemma_run_one(run(s2, keys), Action::Commit);
    assert(Seq::<char>::empty() + w == w);
    let i = hint_target(ch, s.tokens.len())->Some_0;
    let at = insert_at(op, i);
    let tok = TokenView { text: w, original: shell_quote_spec(w) };
    assert(s.tokens.insert(at as int, empty_token()).remove(at as int) =~= s.tokens);
    assert(s.tokens.insert(at as int, empty_token()).update(at as int, tok) =~= s.tokens.insert(
        at as int,
        tok,
    ));
}

/// Only normal mode ends the screen: Enter accepts and Esc quits there, with
/// the tokens as they are; every other step continues.
pub proof fn law_outcome(s: StateView, a: Action)
    ensures
        step(s, a).1 == Outcome::Accept <==> (s.mode == ModeView::Normal && a == Action::Commit),
        step(s, a).1 == Outcome::Quit <==> (s.mode == ModeView::Normal && a == Action::Cancel),
        step(s, a).1 != Outcome::Continue ==> step(s, a).0.tokens == s.tokens,
{
}

// ───────────────────────────── the rendered command ─────────────────────────────

/// Every token renders back, except the empty token of an insertion that is
/// being typed.
pub open spec fn tokens_stable(s: StateView) -> bool {
    forall|k: int|
        0 <= k < s.tokens.len() ==> is_stable(#[trigger] s.tokens[k]) || (
        s.mode matches ModeView::Editing { idx, inserted, .. } && inserted && k == idx)
}

/// Whether committing in `s` would leave the new text bare with whitespace in
/// it (see `quote_leaves_whitespace`).
pub open spec fn commit_leaves_whitespace(s: StateView, a: Action) -> bool {
    &&& a == Action::Commit
    &&& s.mode matches ModeView::Editing { buf, .. } && quote_leaves_whitespace(buf)
}

/// Every step keeps the tokens renderable, unless it commits a text that the
/// quote leaves bare with whitespace in it.
pub proof fn law_step_keeps_tokens_stable(s: StateView, a: Action)
    requires
        state_wf(s),
        tokens_stable(s),
        !commit_leaves_whitespace(s, a),
    ensures
        tokens_stable(step(s, a).0),
{
    let t = step(s, a).0;
    match s.mode {
        ModeView::Normal => {},
        ModeView::AwaitHint(op) => {
            if let Action::Hint(ch) = a {
                if let Some(i) = hint_target(ch, s.tokens.len()) {
                    if op == HintOp::Delete {
                        assert forall|k: int| 0 <= k < t.tokens.len() implies is_stable(
                            #[trigger] t.tokens[k],
                        ) by {
                            if k < i {
                                assert(t.tokens[k] == s.tokens[k]);
                            } else {
                                assert(t.tokens[k] == s.tokens[k + 1]);
                            }
                        }
                    } else {
                        let at = if op == HintOp::InsertBefore {
                            i
                        } else {
                            i + 1
                        };
                        assert forall|k: int| 0 <= k < t.tokens.len() && k != at implies is_stable(
                            #[trigger] t.tokens[k],
                        ) by {
                            if k < at {
                                assert(t.tokens[k] == s.tokens[k]);
                            } else {
                                assert(t.tokens[k] == s.tokens[k - 1]);
                            }
                        }
                    }
                }
            }
        },
        ModeView::Editing { idx, buf, cursor, inserted } => {
            match a {
                Action::Cancel => {
                    if inserted {
                        assert forall|k: int| 0 <= k < t.tokens.len() implies is_stable(
                            #[trigger] t.tokens[k],
                        ) by {
                            if k < idx {
                                assert(t.tokens[k] == s.tokens[k]);
                            } else {
                                assert(t.tokens[k] == s.tokens[k + 1]);
                            }
                        }
                    }
                },
                Action::Commit => {
                    if inserted && buf.len() == 0 {
                        assert forall|k: int| 0 <= k < t.tokens.len() implies is_stable(
                            #[trigger] t.tokens[k],
                        ) by {
                            if k < idx {
                                assert(t.tokens[k] == s.tokens[k]);
                            } else {
                                assert(t.tokens[k] == s.tokens[k + 1]);
                            }
                        }
                    } else {
                        law_quote_for_render_splits_back(buf);
                        assert forall|k: int| 0 <= k < t.tokens.len() implies is_stable(
                            #[trigger] t.tokens[k],
                        ) by {
                            if k != idx {
                                assert(t.tokens[k] == s.tokens[k]);
                            }
                        }
                    }
                },
                _ => {},
            }
        },
    }
}

/// In normal mode, stable tokens render to a command line that splits back
/// into exactly those tokens.
pub proof fn law_normal_state_renders_back(s: StateView)
    requires
        s.mode == ModeView::Normal,
        tokens_stable(s),
    ensures
        split_spec(render_spec(s.tokens)) == Ok::<Seq<TokenView>, crate::tokens::SplitError>(
            s.tokens,
        ),
{
    if s.tokens.len() > 0 {
        assert(is_stable(s.tokens[s.tokens.len() - 1]));
    }
    assert(renders_back(s.tokens));
    law_render_then_split(s.tokens);
}

/// A screen started on the tokens of a command line without line
/// continuations, and not ending in a lone backslash, has stable tokens.
pub proof fn law_split_command_starts_stable(cmd: Seq<char>)
    requires
        split_spec(cmd) is Ok,
        !has_line_continuation(cmd),
        !ends_in_escape(cmd),
    ensures
        tokens_stable(
            StateView { tokens: split_spec(cmd)->Ok_0, mode: ModeView::Normal, status: None },
        ),
{
    law_split_tokens_stable(cmd);
}

// ───────────────────────────── the line editor ─────────────────────────────

/// `s` in an edit session on token `idx` with buffer `buf` and the cursor at `cursor`.
pub open spec fn editing_at(
    s: StateView,
    idx: usize,
    buf: Seq<char>,
    cursor: usize,
    inserted: bool,
) -> StateView {
    StateView {
        mode: ModeView::Editing { idx: idx, buf: buf, cursor: cursor, inserted: inserted },
        ..s
    }
}

/// In an edit session the cursor keys move the cursor and nothing else:
/// Right one place right unless it is at the end of the buffer, Left one
/// place left unless it is at the start, Home to the start and End to the
/// end; the buffer, the tokens and the session stay as they are.
pub proof fn law_cursor_keys(s: StateView, idx: usize, buf: Seq<char>, cursor: usize, inserted: bool)
    requires
        s.mode == (ModeView::Editing { idx, buf, cursor, inserted }),
        cursor <= buf.len(),
        buf.len() <= usize::MAX,
    ensures
        cursor < buf.len() ==> step(s, Action::Right).0 == editing_at(
            s,
            idx,
            buf,
            (cursor + 1) as usize,
            inserted,
        ),
        cursor == buf.len() ==> step(s, Action::Right).0 == s,
        cursor > 0 ==> step(s, Action::Left).0 == editing_at(
            s,
            idx,
            buf,
            (cursor - 1) as usize,
            inserted,
        ),
        cursor == 0 ==> step(s, Action::Left).0 == s,
        step(s, Action::Home).0 == editing_at(s, idx, buf, 0, inserted),
        step(s, Action::End).0.mode matches ModeView::Editing { idx: i, buf: b, cursor: c, inserted: n }
            && i == idx && b == buf && c == buf.len() && n == inserted,
        step(s, Action::End).0.tokens == s.tokens,
{
}

/// In an edit session, typing a character puts it at the cursor and moves
/// the cursor past it; Backspace removes the character before the cursor
/// and Delete the one at it, each doing nothing where there is none.
pub proof fn law_typing_keys(
    s: StateView,
    idx: usize,
    buf: Seq<char>,
    cursor: usize,
    inserted: bool,
    c: char,
)
    requires
        s.mode == (ModeView::Editing { idx, buf, cursor, inserted }),
        cursor <= buf.len(),
    ensures
        step(s, Action::Char(c)).0 == editing_at(
            s,
            idx,
            buf.take(cursor as int) + seq![c] + buf.skip(cursor as int),
            (cursor + 1) as usize,
            inserted,
        ),
        cursor > 0 ==> step(s, Action::Backspace).0 == editing_at(
            s,
            idx,
            buf.take(cursor - 1) + buf.skip(cursor as int),
            (cursor - 1) as usize,
            inserted,
        ),
        cursor == 0 ==> step(s, Action::Backspace).0 == s,
        cursor < buf.len() ==> step(s, Action::Delete).0 == editing_at(
            s,
            idx,
            buf.take(cursor as int) + buf.skip(cursor + 1),
            cursor,
            inserted,
        ),
        cursor == buf.len() ==> step(s, Action::Delete).0 == s,
{
    assert(buf.insert(cursor as int, c) =~= buf.take(cursor as int) + seq![c] + buf.skip(
        cursor as int,
    ));
    if cursor > 0 {
        assert(buf.remove(cursor - 1) =~= buf.take(cursor - 1) + buf.skip(cursor as int));
    }
    if cursor < buf.len() {
        assert(buf.remove(cursor as int) =~= buf.take(cursor as int) + buf.skip(cursor + 1));
    }
}

/// `a` repeated `k` times.
pub open spec fn repeated(a: Action, k: nat) -> Seq<Action> {
    Seq::new(k, |_i: int| a)
}

/// From Home, pressing Right `k` times puts the cursor at position `k`, or at
/// the end of the buffer when `k` is past it; nothing else changes.
pub proof fn law_right_walk(
    s: StateView,
    idx: usize,
    buf: Seq<char>,
    cursor: usize,
    inserted: bool,
    k: nat,
)
    requires
        s.mode == (ModeView::Editing { idx, buf, cursor, inserted }),
        buf.len() <= usize::MAX,
    ensures
        run(s, seq![Action::Home] + repeated(Action::Right, k)) == editing_at(
            s,
            idx,
            buf,
            (if k < buf.len() {
                k
            } else {
                buf.len()
            }) as usize,
            inserted,
        ),
    decreases k,
{
    if k == 0 {
        assert(seq![Action::Home] + repeated(Action::Right, 0) == seq![Action::Home]);
        lemma_run_one(s, Action::Home);
    } else {
        let prev = seq![Action::Home] + repeated(Action::Right, (k - 1) as nat);
        let all = seq![Action::Home] + repeated(Action::Right, k);
        assert(all.drop_last() =~= prev);
        assert(all.last() == Action::Right);
        law_right_walk(s, idx, buf, cursor, inserted, (k - 1) as nat);
    }
}

/// Pressing a token's label opens an edit session on that token holding its
/// text, with the cursor at the end; committing straight away keeps the text
/// and writes it again as `shell_words::quote` quotes it.
pub proof fn law_label_opens_token_text(s: StateView, ch: char)
    requires
        s.mode == ModeView::Normal,
        hint_target(ch, s.tokens.len()) is Some,
        s.tokens[hint_target(ch, s.tokens.len())->Some_0 as int].text.len() <= usize::MAX,
    ensures
        ({
            let i = hint_target(ch, s.tokens.len())->Some_0;
            let text = s.tokens[i as int].text;
            &&& step(s, Action::Hint(ch)).0 == editing_at(
                s,
                i as usize,
                text,
                text.len() as usize,
                false,
            )
            &&& step(s, Action::Hint(ch)).1 == Outcome::Continue
            &&& run(s, seq![Action::Hint(ch), Action::Commit]).tokens == s.tokens.update(
                i as int,
                TokenView { text: text, original: shell_quote_spec(text) },
            )
            &&& run(s, seq![Action::Hint(ch), Action::Commit]).mode == ModeView::Normal
        }),
{
    let a = seq![Action::Hint(ch), Action::Commit];
    assert(a.drop_last() == seq![Action::Hint(ch)]);
    lemma_run_one(s, Action::Hint(ch));
}

/// While waiting for a label, keys other than a label and Esc change nothing.
pub proof fn law_await_ignores_other_keys(s: StateView, op: HintOp, a: Action)
    requires
        s.mode == ModeView::AwaitHint(op),
        !(a is Hint),
        a != Action::Cancel,
    ensures
        step(s, a) == (s, Outcome::Continue),
{
}

} // verus!
