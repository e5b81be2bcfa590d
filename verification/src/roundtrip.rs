//! What splitting and rendering promise together: a split command renders
//! back to a command line that splits into the same tokens, each token's
//! source form splits back into that token alone, and a quoted text splits
//! back into that text.

use vstd::prelude::*;
use crate::text::is_ws;
use crate::tokens::TokenView;
use crate::tokens::ScanMode;
use crate::tokens::Scan;
use crate::tokens::scan_start;
use crate::tokens::scan_step;
use crate::tokens::scan;
use crate::tokens::in_word;
use crate::tokens::split_spec;
use crate::tokens::render_spec;
use crate::tokens::quote_escape;
use crate::tokens::single_quoted;
use crate::tokens::double_escape;
use crate::tokens::double_quoted;
use crate::tokens::is_shell_special;
use crate::tokens::is_bare_word;
use crate::tokens::shell_quote_spec;
use crate::tokens::style_apply;
use crate::tokens::QuoteStyle;

verus! {

/// Reading `t.original` on its own leaves the scanner inside one token, in
/// `mode`, holding exactly `t`'s text and source form.
pub open spec fn rescans_to(t: TokenView, mode: ScanMode) -> bool {
    scan(scan_start(), t.original) == Scan {
        tokens: seq![],
        text: t.text,
        original: t.original,
        mode: mode,
    }
}

/// A token whose source form, followed by whitespace, reads back as that token.
pub open spec fn is_stable(t: TokenView) -> bool {
    rescans_to(t, ScanMode::Word)
}

/// A token whose source form, at the end of a command line, reads back as
/// that token (it may end in a lone backslash).
pub open spec fn is_closing(t: TokenView) -> bool {
    rescans_to(t, ScanMode::Word) || rescans_to(t, ScanMode::Escape)
}

/// Tokens that render to a command line splitting back into them: all stable,
/// except that the last may end in a lone backslash.
pub open spec fn renders_back(ts: Seq<TokenView>) -> bool {
    &&& forall|k: int| 0 <= k < ts.len() - 1 ==> is_stable(#[trigger] ts[k])
    &&& ts.len() > 0 ==> is_closing(ts.last())
}

/// Whether `s` holds a backslash-newline outside quotes (a line continuation,
/// which the scanner drops from the token's source form).
pub open spec fn has_line_continuation(s: Seq<char>) -> bool {
    exists|i: int|
        0 <= i < s.len() && #[trigger] scan(scan_start(), s.take(i)).mode == ScanMode::Escape
            && s[i] == '\n'
}

/// `st` with `xs` put before its finished tokens.
pub open spec fn with_tokens(st: Scan, xs: Seq<TokenView>) -> Scan {
    Scan { tokens: xs + st.tokens, ..st }
}

// ───────────────────────────── scanner facts ─────────────────────────────

proof fn lemma_scan_push(st: Scan, s: Seq<char>, c: char)
    ensures
        scan(st, s.push(c)) == scan_step(scan(st, s), c),
{
    assert(s.push(c).drop_last() == s);
}

proof fn lemma_scan_append(st: Scan, a: Seq<char>, b: Seq<char>)
    ensures
        scan(st, a + b) == scan(scan(st, a), b),
    decreases b.len(),
{
    if b.len() == 0 {
        assert(a + b == a);
    } else {
        assert((a + b).drop_last() == a + b.drop_last());
        assert((a + b).last() == b.last());
        lemma_scan_append(st, a, b.drop_last());
    }
}

proof fn lemma_step_tokens(st: Scan, xs: Seq<TokenView>, c: char)
    ensures
        scan_step(with_tokens(st, xs), c) == with_tokens(scan_step(st, c), xs),
{
    let t = TokenView { text: st.text, original: st.original };
    assert((xs + st.tokens).push(t) == xs + st.tokens.push(t));
}

proof fn lemma_scan_tokens(st: Scan, xs: Seq<TokenView>, s: Seq<char>)
    ensures
        scan(with_tokens(st, xs), s) == with_tokens(scan(st, s), xs),
    decreases s.len(),
{
    if s.len() > 0 {
        lemma_scan_tokens(st, xs, s.drop_last());
        lemma_step_tokens(scan(st, s.drop_last()), xs, s.last());
    }
}

proof fn lemma_start_with_tokens(xs: Seq<TokenView>)
    ensures
        with_tokens(scan_start(), xs) == (Scan {
            tokens: xs,
            text: seq![],
            original: seq![],
            mode: ScanMode::Gap,
        }),
{
    assert(xs + Seq::<TokenView>::empty() == xs);
}

// ───────────────────────────── render, then split ─────────────────────────────

proof fn lemma_render_scan(ts: Seq<TokenView>, mode: ScanMode)
    requires
        ts.len() > 0,
        forall|k: int| 0 <= k < ts.len() - 1 ==> is_stable(#[trigger] ts[k]),
        rescans_to(ts.last(), mode),
    ensures
        scan(scan_start(), render_spec(ts)) == (Scan {
            tokens: ts.drop_last(),
            text: ts.last().text,
            original: ts.last().original,
            mode: mode,
        }),
    decreases ts.len(),
{
    if ts.len() == 1 {
        assert(ts.drop_last() =~= Seq::<TokenView>::empty());
    } else {
        let init = ts.drop_last();
        assert forall|k: int| 0 <= k < init.len() - 1 implies is_stable(#[trigger] init[k]) by {
            assert(init[k] == ts[k]);
        }
        assert(is_stable(ts[ts.len() - 2]));
        lemma_render_scan(init, ScanMode::Word);
        let r = render_spec(init);
        let o = ts.last().original;
        lemma_scan_append(scan_start(), r + seq![' '], o);
        lemma_scan_append(scan_start(), r, seq![' ']);
        lemma_scan_push(scan(scan_start(), r), seq![], ' ');
        assert(seq![] + seq![' '] == seq![' ']);
        let gap = scan(scan(scan_start(), r), seq![' ']);
        assert(init.drop_last().push(init.last()) == init);
        lemma_start_with_tokens(init);
        assert(gap == with_tokens(scan_start(), init));
        lemma_scan_tokens(scan_start(), init, o);
    }
}

/// Tokens that are stable, the last possibly ending in a lone backslash,
/// render to a command line that splits back into exactly those tokens.
pub proof fn law_render_then_split(ts: Seq<TokenView>)
    requires
        renders_back(ts),
    ensures
        split_spec(render_spec(ts)) == Ok::<Seq<TokenView>, crate::tokens::SplitError>(ts),
{
    if ts.len() > 0 {
        if rescans_to(ts.last(), ScanMode::Word) {
            lemma_render_scan(ts, ScanMode::Word);
        } else {
            lemma_render_scan(ts, ScanMode::Escape);
        }
        assert(ts.drop_last().push(ts.last()) == ts);
    } else {
        assert(ts == Seq::<TokenView>::empty());
        assert(render_spec(ts) == Seq::<char>::empty());
        assert(scan(scan_start(), Seq::<char>::empty()) == scan_start());
    }
}

// ───────────────────────────── split, then render ─────────────────────────────

/// The scanner's invariant while it reads a command line without line
/// continuations: the finished tokens are stable and the token being read
/// rescans to the current state.
spec fn scan_inv(st: Scan) -> bool {
    &&& forall|k: int| 0 <= k < st.tokens.len() ==> is_stable(#[trigger] st.tokens[k])
    &&& st.mode != ScanMode::Gap ==> rescans_to(
        TokenView { text: st.text, original: st.original },
        st.mode,
    )
}

proof fn lemma_scan_inv_step(st: Scan, c: char)
    requires
        scan_inv(st),
        !(st.mode == ScanMode::Escape && c == '\n'),
    ensures
        scan_inv(scan_step(st, c)),
{
    let next = scan_step(st, c);
    let z = Scan { tokens: seq![], text: st.text, original: st.original, mode: st.mode };
    assert(st.tokens + Seq::<TokenView>::empty() == st.tokens);
    assert(with_tokens(z, st.tokens) == st);
    lemma_step_tokens(z, st.tokens, c);
    if st.mode == ScanMode::Gap {
        if !is_ws(c) {
            lemma_scan_push(scan_start(), seq![], c);
            assert(seq![].push(c) == seq![c]);
            let w = Scan { text: seq![], original: seq![], mode: ScanMode::Word, ..st };
            let w0 = Scan {
                tokens: seq![],
                text: seq![],
                original: seq![],
                mode: ScanMode::Word,
            };
            assert(in_word(w, c).original == seq![c]);
            assert(scan_step(scan_start(), c) == in_word(w0, c));
        }
    } else if st.mode == ScanMode::Word && is_ws(c) {
        assert forall|k: int| 0 <= k < next.tokens.len() implies is_stable(
            #[trigger] next.tokens[k],
        ) by {
            if k < st.tokens.len() {
                assert(next.tokens[k] == st.tokens[k]);
            }
        }
    } else {
        assert(scan_step(z, c).original == st.original.push(c));
        assert(scan_step(z, c).tokens == Seq::<TokenView>::empty());
        lemma_scan_push(scan_start(), st.original, c);
        assert(next.tokens == st.tokens);
    }
}

proof fn lemma_scan_inv(s: Seq<char>)
    requires
        !has_line_continuation(s),
    ensures
        scan_inv(scan(scan_start(), s)),
    decreases s.len(),
{
    if s.len() > 0 {
        let p = s.drop_last();
        assert(!has_line_continuation(p)) by {
            if has_line_continuation(p) {
                let i = choose|i: int|
                    0 <= i < p.len() && #[trigger] scan(scan_start(), p.take(i)).mode
                        == ScanMode::Escape && p[i] == '\n';
                assert(p.take(i) == s.take(i));
                assert(scan(scan_start(), s.take(i)).mode == ScanMode::Escape && s[i] == '\n');
            }
        }
        lemma_scan_inv(p);
        assert(s.take(s.len() - 1) == p);
        assert(!(scan(scan_start(), s.take(s.len() - 1)).mode == ScanMode::Escape && s[s.len()
            - 1] == '\n'));
        lemma_scan_inv_step(scan(scan_start(), p), s.last());
    } else {
        assert(scan_inv(scan_start()));
    }
}

/// The tokens of a command line without line continuations render back.
pub proof fn law_split_tokens_render_back(s: Seq<char>)
    requires
        split_spec(s) is Ok,
        !has_line_continuation(s),
    ensures
        renders_back(split_spec(s)->Ok_0),
{
    lemma_scan_inv(s);
    let st = scan(scan_start(), s);
    let ts = split_spec(s)->Ok_0;
    if st.mode == ScanMode::Gap {
        assert(ts == st.tokens);
        if ts.len() > 0 {
            assert(is_stable(ts[ts.len() - 1]));
        }
    } else {
        assert(ts == st.tokens.push(TokenView { text: st.text, original: st.original }));
        assert forall|k: int| 0 <= k < ts.len() - 1 implies is_stable(#[trigger] ts[k]) by {
            assert(ts[k] == st.tokens[k]);
        }
    }
}

/// Splitting a command line without line continuations, rendering the tokens
/// and splitting again gives the same tokens.
pub proof fn law_split_render_split(s: Seq<char>)
    requires
        split_spec(s) is Ok,
        !has_line_continuation(s),
    ensures
        split_spec(render_spec(split_spec(s)->Ok_0)) == split_spec(s),
{
    law_split_tokens_render_back(s);
    law_render_then_split(split_spec(s)->Ok_0);
}

// ───────────────────────────── split, then render, as text ─────────────────────────────

/// `s` with its separating whitespace normalised: the whitespace that the
/// scanner reads between tokens (outside quotes, not after a backslash) is
/// dropped at both ends, and each run of it between two tokens becomes one
/// space; everything else, quotes and escapes included, stays as written.
pub open spec fn canonical_form(s: Seq<char>) -> Seq<char>
    decreases s.len(),
{
    if s.len() == 0 {
        seq![]
    } else {
        let prev = canonical_form(s.drop_last());
        let st = scan(scan_start(), s.drop_last());
        let c = s.last();
        match st.mode {
            ScanMode::Gap => if is_ws(c) {
                prev
            } else if st.tokens.len() > 0 {
                prev + seq![' ', c]
            } else {
                prev.push(c)
            },
            ScanMode::Word => if is_ws(c) {
                prev
            } else {
                prev.push(c)
            },
            _ => prev.push(c),
        }
    }
}

/// The rendering of what the scanner has read so far: the finished tokens,
/// and the token being read when there is one.
spec fn rendered_so_far(st: Scan) -> Seq<char> {
    if st.mode == ScanMode::Gap {
        render_spec(st.tokens)
    } else {
        render_spec(st.tokens.push(TokenView { text: st.text, original: st.original }))
    }
}

proof fn lemma_render_push(ts: Seq<TokenView>, t: TokenView)
    ensures
        render_spec(ts.push(t)) == if ts.len() == 0 {
            t.original
        } else {
            render_spec(ts) + seq![' '] + t.original
        },
{
    assert(ts.push(t).drop_last() == ts);
    assert(ts.push(t).last() == t);
    if ts.len() == 0 {
        assert(ts.push(t).len() == 1);
        assert(ts.push(t)[0] == t);
    }
}

proof fn lemma_rendered_step(st: Scan, c: char)
    requires
        !(st.mode == ScanMode::Escape && c == '\n'),
    ensures
        rendered_so_far(scan_step(st, c)) == match st.mode {
            ScanMode::Gap => if is_ws(c) {
                rendered_so_far(st)
            } else if st.tokens.len() > 0 {
                rendered_so_far(st) + seq![' ', c]
            } else {
                rendered_so_far(st).push(c)
            },
            ScanMode::Word => if is_ws(c) {
                rendered_so_far(st)
            } else {
                rendered_so_far(st).push(c)
            },
            _ => rendered_so_far(st).push(c),
        },
{
    let next = scan_step(st, c);
    let cur = TokenView { text: st.text, original: st.original };
    if st.mode == ScanMode::Gap {
        if !is_ws(c) {
            let w = Scan { text: seq![], original: seq![], mode: ScanMode::Word, ..st };
            assert(next == in_word(w, c));
            assert(next.original == seq![c]);
            assert(next.tokens == st.tokens);
            assert(next.mode != ScanMode::Gap);
            lemma_render_push(st.tokens, TokenView { text: next.text, original: next.original });
            assert(seq![c] == seq![].push(c));
            assert(render_spec(st.tokens) + seq![' '] + seq![c] == render_spec(st.tokens) + seq![
                ' ',
                c,
            ]);
        }
    } else if st.mode == ScanMode::Word && is_ws(c) {
        assert(next.tokens == st.tokens.push(cur));
        assert(next.mode == ScanMode::Gap);
    } else {
        assert(next.original == st.original.push(c));
        assert(next.tokens == st.tokens);
        assert(next.mode != ScanMode::Gap);
        lemma_render_push(st.tokens, cur);
        lemma_render_push(st.tokens, TokenView { text: next.text, original: next.original });
        if st.tokens.len() > 0 {
            assert(render_spec(st.tokens) + seq![' '] + st.original.push(c) == (render_spec(
                st.tokens,
            ) + seq![' '] + st.original).push(c));
        }
    }
}

proof fn lemma_canonical_form(s: Seq<char>)
    requires
        !has_line_continuation(s),
    ensures
        canonical_form(s) == rendered_so_far(scan(scan_start(), s)),
    decreases s.len(),
{
    if s.len() > 0 {
        let p = s.drop_last();
        assert(!has_line_continuation(p)) by {
            if has_line_continuation(p) {
                let i = choose|i: int|
                    0 <= i < p.len() && #[trigger] scan(scan_start(), p.take(i)).mode
                        == ScanMode::Escape && p[i] == '\n';
                assert(p.take(i) == s.take(i));
                assert(scan(scan_start(), s.take(i)).mode == ScanMode::Escape && s[i] == '\n');
            }
        }
        lemma_canonical_form(p);
        assert(s.take(s.len() - 1) == p);
        assert(!(scan(scan_start(), s.take(s.len() - 1)).mode == ScanMode::Escape && s[s.len()
            - 1] == '\n'));
        lemma_rendered_step(scan(scan_start(), p), s.last());
    } else {
        assert(rendered_so_far(scan_start()) == render_spec(Seq::<TokenView>::empty()));
    }
}

/// Rendering the tokens of a command line without line continuations gives
/// the command line back with its separating whitespace normalised: dropped
/// at both ends and each run between tokens written as one space, while
/// quotes and escapes stay exactly as written.
pub proof fn law_split_then_render(s: Seq<char>)
    requires
        split_spec(s) is Ok,
        !has_line_continuation(s),
    ensures
        render_spec(split_spec(s)->Ok_0) == canonical_form(s),
{
    lemma_canonical_form(s);
}

/// A command line already in that form (tokens separated by single spaces,
/// nothing around them) is rendered back character for character.
pub proof fn law_canonical_command_renders_back(s: Seq<char>)
    requires
        split_spec(s) is Ok,
        !has_line_continuation(s),
        canonical_form(s) == s,
    ensures
        render_spec(split_spec(s)->Ok_0) == s,
{
    law_split_then_render(s);
}

// ───────────────────────────── escapes outside quotes ─────────────────────────────

/// Reading a word of plain characters (no whitespace, quote or backslash)
/// leaves the scanner inside one token holding that word as text and source.
proof fn lemma_scan_plain_word(p: Seq<char>)
    requires
        p.len() > 0,
        forall|i: int|
            0 <= i < p.len() ==> !is_ws(#[trigger] p[i]) && p[i] != '\'' && p[i] != '"' && p[i]
                != '\\',
    ensures
        scan(scan_start(), p) == (Scan {
            tokens: seq![],
            text: p,
            original: p,
            mode: ScanMode::Word,
        }),
    decreases p.len(),
{
    let q = p.drop_last();
    if q.len() > 0 {
        lemma_scan_plain_word(q);
    } else {
        assert(scan(scan_start(), q) == scan_start());
    }
    assert(p.last() == p[p.len() - 1]);
    assert(q.push(p.last()) == p);
    if q.len() == 0 {
        assert(seq![].push(p.last()) == p);
    }
}

/// Outside quotes a backslash escapes the character after it (a newline
/// aside): after a word of plain characters, a backslash and any other
/// character `c` give one token whose text is the word followed by `c`
/// alone, and whose source form keeps the backslash.
pub proof fn law_backslash_escapes_next_char(p: Seq<char>, c: char)
    requires
        c != '\n',
        forall|i: int|
            0 <= i < p.len() ==> !is_ws(#[trigger] p[i]) && p[i] != '\'' && p[i] != '"' && p[i]
                != '\\',
    ensures
        split_spec(p + seq!['\\', c]) == Ok::<Seq<TokenView>, crate::tokens::SplitError>(
            seq![TokenView { text: p.push(c), original: p + seq!['\\', c] }],
        ),
{
    let s = p + seq!['\\', c];
    let a = p.push('\\');
    assert(s == a.push(c));
    lemma_scan_push(scan_start(), p, '\\');
    lemma_scan_push(scan_start(), a, c);
    let st = scan(scan_start(), a);
    if p.len() > 0 {
        lemma_scan_plain_word(p);
    } else {
        assert(p == Seq::<char>::empty());
        assert(scan(scan_start(), p) == scan_start());
        assert(seq![].push('\\') == seq!['\\']);
    }
    assert(st == Scan {
        tokens: seq![],
        text: p,
        original: a,
        mode: ScanMode::Escape,
    });
    assert(a.push(c) == p + seq!['\\', c]);
}

// ───────────────────────────── how the scanner reads words ─────────────────────────────

/// Whether `p` is made of plain characters: no whitespace, quote or backslash.
pub open spec fn is_plain(p: Seq<char>) -> bool {
    forall|i: int|
        0 <= i < p.len() ==> !is_ws(#[trigger] p[i]) && p[i] != '\'' && p[i] != '"' && p[i]
            != '\\'
}

/// Between tokens, whitespace is skipped.
proof fn lemma_scan_gap_ws(st: Scan, w: Seq<char>)
    requires
        st.mode == ScanMode::Gap,
        forall|i: int| 0 <= i < w.len() ==> is_ws(#[trigger] w[i]),
    ensures
        scan(st, w) == st,
    decreases w.len(),
{
    if w.len() > 0 {
        lemma_scan_gap_ws(st, w.drop_last());
        assert(is_ws(w[w.len() - 1]));
    }
}

/// Whitespace separates tokens: two words of plain characters with any
/// nonempty run of whitespace between them split into exactly those two words.
pub proof fn law_whitespace_separates_words(p: Seq<char>, w: Seq<char>, q: Seq<char>)
    requires
        p.len() > 0,
        q.len() > 0,
        is_plain(p),
        is_plain(q),
        w.len() > 0,
        forall|i: int| 0 <= i < w.len() ==> is_ws(#[trigger] w[i]),
    ensures
        split_spec(p + w + q) == Ok::<Seq<TokenView>, crate::tokens::SplitError>(
            seq![TokenView { text: p, original: p }, TokenView { text: q, original: q }],
        ),
{
    lemma_scan_plain_word(p);
    let tp = TokenView { text: p, original: p };
    // The first whitespace ends the first word.
    lemma_scan_append(scan_start(), p, w);
    let w0 = seq![w[0]];
    assert(w == w0 + w.skip(1));
    lemma_scan_append(scan(scan_start(), p), w0, w.skip(1));
    lemma_scan_push(scan(scan_start(), p), seq![], w[0]);
    assert(seq![].push(w[0]) == w0);
    let gap = Scan { tokens: seq![tp], text: seq![], original: seq![], mode: ScanMode::Gap };
    assert(scan(scan(scan_start(), p), w0) == gap);
    assert forall|i: int| 0 <= i < w.skip(1).len() implies is_ws(#[trigger] w.skip(1)[i]) by {
        assert(w.skip(1)[i] == w[i + 1]);
    }
    lemma_scan_gap_ws(gap, w.skip(1));
    // The second word is read after it.
    lemma_scan_append(scan_start(), p + w, q);
    lemma_start_with_tokens(seq![tp]);
    lemma_scan_tokens(scan_start(), seq![tp], q);
    lemma_scan_plain_word(q);
    assert(seq![tp] + Seq::<TokenView>::empty() == seq![tp]);
    assert(seq![tp].push(TokenView { text: q, original: q }) == seq![
        tp,
        TokenView { text: q, original: q },
    ]);
}

/// Inside single quotes every character but a single quote is taken as it is.
proof fn lemma_scan_single(st: Scan, q: Seq<char>)
    requires
        st.mode == ScanMode::Single,
        forall|i: int| 0 <= i < q.len() ==> #[trigger] q[i] != '\'',
    ensures
        scan(st, q) == (Scan { text: st.text + q, original: st.original + q, ..st }),
    decreases q.len(),
{
    if q.len() == 0 {
        assert(st.text + q == st.text);
        assert(st.original + q == st.original);
    } else {
        lemma_scan_single(st, q.drop_last());
        assert(q[q.len() - 1] != '\'');
        assert((st.text + q.drop_last()).push(q.last()) == st.text + q);
        assert((st.original + q.drop_last()).push(q.last()) == st.original + q);
    }
}

/// Inside double quotes every character but a double quote or a backslash is
/// taken as it is.
proof fn lemma_scan_double(st: Scan, q: Seq<char>)
    requires
        st.mode == ScanMode::Double,
        forall|i: int| 0 <= i < q.len() ==> #[trigger] q[i] != '"' && q[i] != '\\',
    ensures
        scan(st, q) == (Scan { text: st.text + q, original: st.original + q, ..st }),
    decreases q.len(),
{
    if q.len() == 0 {
        assert(st.text + q == st.text);
        assert(st.original + q == st.original);
    } else {
        lemma_scan_double(st, q.drop_last());
        assert(q[q.len() - 1] != '"' && q[q.len() - 1] != '\\');
        assert((st.text + q.drop_last()).push(q.last()) == st.text + q);
        assert((st.original + q.drop_last()).push(q.last()) == st.original + q);
    }
}

/// Quotes keep their content literally: `'q'` for any `q` without a single
/// quote, and `"q"` for any `q` without a double quote or backslash, is one
/// token whose text is `q` and whose source form keeps the quotes; a single
/// or double quote that is never closed is an error.
pub proof fn law_quotes_keep_text_literally(q: Seq<char>)
    ensures
        (forall|i: int| 0 <= i < q.len() ==> #[trigger] q[i] != '\'') ==> {
            &&& split_spec(seq!['\''] + q + seq!['\'']) == Ok::<
                Seq<TokenView>,
                crate::tokens::SplitError,
            >(seq![TokenView { text: q, original: seq!['\''] + q + seq!['\''] }])
            &&& split_spec(seq!['\''] + q) == Err::<Seq<TokenView>, crate::tokens::SplitError>(
                crate::tokens::SplitError::UnterminatedSingleQuote,
            )
        },
        (forall|i: int| 0 <= i < q.len() ==> #[trigger] q[i] != '"' && q[i] != '\\') ==> {
            &&& split_spec(seq!['"'] + q + seq!['"']) == Ok::<
                Seq<TokenView>,
                crate::tokens::SplitError,
            >(seq![TokenView { text: q, original: seq!['"'] + q + seq!['"'] }])
            &&& split_spec(seq!['"'] + q) == Err::<Seq<TokenView>, crate::tokens::SplitError>(
                crate::tokens::SplitError::UnterminatedDoubleQuote,
            )
        },
{
    let sq = seq!['\''];
    let dq = seq!['"'];
    lemma_scan_push(scan_start(), seq![], '\'');
    lemma_scan_push(scan_start(), seq![], '"');
    assert(seq![].push('\'') == sq);
    assert(seq![].push('"') == dq);
    let s1 = scan(scan_start(), sq);
    let d1 = scan(scan_start(), dq);
    assert(s1 == Scan { tokens: seq![], text: seq![], original: sq, mode: ScanMode::Single });
    assert(d1 == Scan { tokens: seq![], text: seq![], original: dq, mode: ScanMode::Double });
    if forall|i: int| 0 <= i < q.len() ==> #[trigger] q[i] != '\'' {
        lemma_scan_append(scan_start(), sq, q);
        lemma_scan_single(s1, q);
        assert(Seq::<char>::empty() + q == q);
        lemma_scan_push(scan_start(), sq + q, '\'');
        assert((sq + q).push('\'') == sq + q + sq);
        assert((sq + q).push('\'') == sq + q + seq!['\'']);
    }
    if forall|i: int| 0 <= i < q.len() ==> #[trigger] q[i] != '"' && q[i] != '\\' {
        lemma_scan_append(scan_start(), dq, q);
        lemma_scan_double(d1, q);
        assert(Seq::<char>::empty() + q == q);
        lemma_scan_push(scan_start(), dq + q, '"');
        assert((dq + q).push('"') == dq + q + seq!['"']);
    }
}

/// Inside double quotes a backslash escapes only a double quote, a
/// backslash, `$`, a backquote and a newline, which are kept without it;
/// before any other character the backslash is kept in the text too.
pub proof fn law_double_quote_escapes(x: char)
    ensures
        split_spec(seq!['"', '\\', x, '"']) == Ok::<Seq<TokenView>, crate::tokens::SplitError>(
            seq![
                TokenView {
                    text: if x == '"' || x == '\\' || x == '$' || x == '`' || x == '\n' {
                        seq![x]
                    } else {
                        seq!['\\', x]
                    },
                    original: seq!['"', '\\', x, '"'],
                },
            ],
        ),
{
    let s1 = seq!['"'];
    let s2 = seq!['"', '\\'];
    let s3 = seq!['"', '\\', x];
    let s4 = seq!['"', '\\', x, '"'];
    assert(seq![].push('"') == s1);
    assert(s1.push('\\') == s2);
    assert(s2.push(x) == s3);
    assert(s3.push('"') == s4);
    lemma_scan_push(scan_start(), seq![], '"');
    lemma_scan_push(scan_start(), s1, '\\');
    lemma_scan_push(scan_start(), s2, x);
    lemma_scan_push(scan_start(), s3, '"');
    assert(scan(scan_start(), Seq::<char>::empty()) == scan_start());
    let st1 = scan(scan_start(), s1);
    assert(st1 == Scan { tokens: seq![], text: seq![], original: s1, mode: ScanMode::Double });
    let st2 = scan(scan_start(), s2);
    assert(st2 == Scan { tokens: seq![], text: seq![], original: s2, mode: ScanMode::DoubleEscape });
    let t = if x == '"' || x == '\\' || x == '$' || x == '`' || x == '\n' {
        seq![x]
    } else {
        seq!['\\', x]
    };
    assert(seq![].push(x) == seq![x]);
    assert(seq![].push('\\').push(x) == seq!['\\', x]);
    let st3 = scan(scan_start(), s3);
    assert(st3 == Scan { tokens: seq![], text: t, original: s3, mode: ScanMode::Double });
    let st4 = scan(scan_start(), s4);
    assert(st4 == Scan { tokens: seq![], text: t, original: s4, mode: ScanMode::Word });
}

/// The source form of a token that reads back at the end of a line splits
/// into that token alone.
pub proof fn law_closing_token_splits_alone(t: TokenView)
    requires
        is_closing(t),
    ensures
        split_spec(t.original) == Ok::<Seq<TokenView>, crate::tokens::SplitError>(seq![t]),
{
    assert(Seq::<TokenView>::empty().push(t) == seq![t]);
}

/// Each token of a command line without line continuations splits, from its
/// source form alone, into itself.
pub proof fn law_split_token_splits_alone(s: Seq<char>, k: int)
    requires
        split_spec(s) is Ok,
        !has_line_continuation(s),
        0 <= k < split_spec(s)->Ok_0.len(),
    ensures
        split_spec(split_spec(s)->Ok_0[k].original) == Ok::<
            Seq<TokenView>,
            crate::tokens::SplitError,
        >(seq![split_spec(s)->Ok_0[k]]),
{
    law_split_tokens_render_back(s);
    let ts = split_spec(s)->Ok_0;
    if k < ts.len() - 1 {
        assert(is_stable(ts[k]));
    }
    law_closing_token_splits_alone(ts[k]);
}

/// Whether `s` ends in a lone backslash outside quotes.
pub open spec fn ends_in_escape(s: Seq<char>) -> bool {
    scan(scan_start(), s).mode == ScanMode::Escape
}

/// Every token of a command line without line continuations, and not ending
/// in a lone backslash, is stable.
pub proof fn law_split_tokens_stable(s: Seq<char>)
    requires
        split_spec(s) is Ok,
        !has_line_continuation(s),
        !ends_in_escape(s),
    ensures
        forall|k: int|
            0 <= k < split_spec(s)->Ok_0.len() ==> is_stable(#[trigger] split_spec(s)->Ok_0[k]),
{
    lemma_scan_inv(s);
    let st = scan(scan_start(), s);
    let ts = split_spec(s)->Ok_0;
    if st.mode != ScanMode::Gap {
        assert(ts == st.tokens.push(TokenView { text: st.text, original: st.original }));
        assert forall|k: int| 0 <= k < ts.len() implies is_stable(#[trigger] ts[k]) by {
            if k < st.tokens.len() {
                assert(ts[k] == st.tokens[k]);
            }
        }
    }
}

// ───────────────────────────── quoting, then split ─────────────────────────────

proof fn lemma_scan_quote_escape(st: Scan, u: Seq<char>)
    requires
        st.mode == ScanMode::Single,
    ensures
        scan(st, quote_escape(u)) == (Scan {
            text: st.text + u,
            original: st.original + quote_escape(u),
            ..st
        }),
    decreases u.len(),
{
    if u.len() == 0 {
        assert(st.text + u == st.text);
        assert(quote_escape(u) == Seq::<char>::empty());
        assert(st.original + quote_escape(u) == st.original);
        assert(scan(st, Seq::<char>::empty()) == st);
    } else {
        assert(quote_escape(u) == quote_escape(u.drop_last()) + if u.last() == '\'' {
            seq!['\'', '\\', '\'', '\'']
        } else {
            seq![u.last()]
        });
        let p = u.drop_last();
        let c = u.last();
        lemma_scan_quote_escape(st, p);
        let mid = scan(st, quote_escape(p));
        if c == '\'' {
            let piece = seq!['\'', '\\', '\'', '\''];
            lemma_scan_append(st, quote_escape(p), piece);
            assert(piece == seq![].push('\'').push('\\').push('\'').push('\''));
            lemma_scan_push(mid, seq![], '\'');
            lemma_scan_push(mid, seq!['\''], '\\');
            lemma_scan_push(mid, seq!['\'', '\\'], '\'');
            lemma_scan_push(mid, seq!['\'', '\\', '\''], '\'');
            assert(seq![].push('\'') == seq!['\'']);
            assert(seq!['\''].push('\\') == seq!['\'', '\\']);
            assert(seq!['\'', '\\'].push('\'') == seq!['\'', '\\', '\'']);
            assert(seq!['\'', '\\', '\''].push('\'') == piece);
            let m1 = scan_step(mid, '\'');
            assert(m1.mode == ScanMode::Word);
            let m2 = scan_step(m1, '\\');
            assert(!is_ws('\\'));
            assert(m2.mode == ScanMode::Escape);
            let m3 = scan_step(m2, '\'');
            assert(m3.mode == ScanMode::Word);
            assert(!is_ws('\''));
            let m4 = scan_step(m3, '\'');
            assert(m4.mode == ScanMode::Single);
            assert(st.text + u == (st.text + p).push('\''));
            assert(m4.original =~= st.original + quote_escape(p) + piece);
            assert(m4.text =~= st.text + u);
            assert(scan(st, quote_escape(u)) == m4);
            assert(st.original + quote_escape(u) == st.original + quote_escape(p) + piece);
        } else {
            let piece = seq![c];
            lemma_scan_append(st, quote_escape(p), piece);
            lemma_scan_push(mid, seq![], c);
            assert(seq![].push(c) == piece);
            assert(st.text + u == (st.text + p).push(c));
            assert(st.original + quote_escape(u) == (st.original + quote_escape(p)).push(c));
        }
    }
}

proof fn lemma_scan_double_escape(st: Scan, u: Seq<char>)
    requires
        st.mode == ScanMode::Double,
    ensures
        scan(st, double_escape(u)) == (Scan {
            text: st.text + u,
            original: st.original + double_escape(u),
            ..st
        }),
    decreases u.len(),
{
    if u.len() == 0 {
        assert(st.text + u == st.text);
        assert(double_escape(u) == Seq::<char>::empty());
        assert(st.original + double_escape(u) == st.original);
        assert(scan(st, Seq::<char>::empty()) == st);
    } else {
        assert(double_escape(u) == double_escape(u.drop_last()) + if u.last() == '\\'
            || u.last() == '"' || u.last() == '$' || u.last() == '`' {
            seq!['\\', u.last()]
        } else {
            seq![u.last()]
        });
        let p = u.drop_last();
        let c = u.last();
        lemma_scan_double_escape(st, p);
        let mid = scan(st, double_escape(p));
        if c == '\\' || c == '"' || c == '$' || c == '`' {
            let piece = seq!['\\', c];
            lemma_scan_append(st, double_escape(p), piece);
            lemma_scan_push(mid, seq![], '\\');
            lemma_scan_push(mid, seq!['\\'], c);
            assert(seq![].push('\\') == seq!['\\']);
            assert(seq!['\\'].push(c) == piece);
            let m1 = scan_step(mid, '\\');
            let m2 = scan_step(m1, c);
            assert(m2.original =~= st.original + double_escape(p) + piece);
            assert(m2.text =~= st.text + u);
            assert(scan(st, double_escape(u)) == m2);
            assert(st.text + u == (st.text + p).push(c));
            assert(st.original + double_escape(u) == st.original + double_escape(p) + piece);
        } else {
            let piece = seq![c];
            lemma_scan_append(st, double_escape(p), piece);
            lemma_scan_push(mid, seq![], c);
            assert(seq![].push(c) == piece);
            assert(st.text + u == (st.text + p).push(c));
            assert(st.original + double_escape(u) == (st.original + double_escape(p)).push(c));
        }
    }
}

proof fn lemma_single_quoted_stable(t: Seq<char>)
    ensures
        is_stable(TokenView { text: t, original: single_quoted(t) }),
{
    let q = seq!['\''];
    lemma_scan_push(scan_start(), seq![], '\'');
    assert(seq![].push('\'') == q);
    let st = scan(scan_start(), q);
    assert(st == Scan { tokens: seq![], text: seq![], original: q, mode: ScanMode::Single });
    lemma_scan_quote_escape(st, t);
    lemma_scan_append(scan_start(), q, quote_escape(t));
    assert(Seq::<char>::empty() + t == t);
    lemma_scan_push(scan_start(), q + quote_escape(t), '\'');
    assert((q + quote_escape(t)).push('\'') == single_quoted(t));
}

proof fn lemma_double_quoted_stable(t: Seq<char>)
    ensures
        is_stable(TokenView { text: t, original: double_quoted(t) }),
{
    let q = seq!['"'];
    lemma_scan_push(scan_start(), seq![], '"');
    assert(seq![].push('"') == q);
    let st = scan(scan_start(), q);
    assert(st == Scan { tokens: seq![], text: seq![], original: q, mode: ScanMode::Double });
    lemma_scan_double_escape(st, t);
    lemma_scan_append(scan_start(), q, double_escape(t));
    assert(Seq::<char>::empty() + t == t);
    lemma_scan_push(scan_start(), q + double_escape(t), '"');
    assert((q + double_escape(t)).push('"') == double_quoted(t));
}

proof fn lemma_bare_word_stable(t: Seq<char>)
    requires
        t.len() > 0,
        forall|i: int| 0 <= i < t.len() ==> !is_shell_special(#[trigger] t[i]) && !is_ws(t[i]),
    ensures
        is_stable(TokenView { text: t, original: t }),
    decreases t.len(),
{
    let p = t.drop_last();
    let c = t.last();
    lemma_scan_push(scan_start(), p, c);
    assert(p.push(c) == t);
    assert(!is_shell_special(t[t.len() - 1]) && !is_ws(t[t.len() - 1]));
    if p.len() > 0 {
        assert forall|i: int| 0 <= i < p.len() implies !is_shell_special(#[trigger] p[i])
            && !is_ws(p[i]) by {
            assert(p[i] == t[i]);
        }
        lemma_bare_word_stable(p);
    } else {
        assert(p == Seq::<char>::empty());
        assert(seq![c] == t);
    }
}

/// Whether `shell_words::quote` leaves `t` bare although it holds whitespace
/// that is not a space, tab or newline (such as a carriage return); the bare
/// text then splits into more than one token.
pub open spec fn quote_leaves_whitespace(t: Seq<char>) -> bool {
    is_bare_word(t) && exists|i: int| 0 <= i < t.len() && is_ws(#[trigger] t[i])
}

/// A text quoted in the single or double quote style splits back into one
/// token holding that text; so does a text quoted by `shell_words::quote`,
/// unless the quote leaves it bare with whitespace in it.
pub proof fn law_quoted_text_splits_back(style: QuoteStyle, t: Seq<char>)
    requires
        style == QuoteStyle::Unquoted ==> !quote_leaves_whitespace(t),
    ensures
        is_stable(TokenView { text: t, original: style_apply(style, t) }),
        split_spec(style_apply(style, t)) == Ok::<Seq<TokenView>, crate::tokens::SplitError>(
            seq![TokenView { text: t, original: style_apply(style, t) }],
        ),
{
    match style {
        QuoteStyle::Single => lemma_single_quoted_stable(t),
        QuoteStyle::Double => lemma_double_quoted_stable(t),
        QuoteStyle::Unquoted => {
            if is_bare_word(t) {
                assert forall|i: int| 0 <= i < t.len() implies !is_shell_special(#[trigger] t[i])
                    && !is_ws(t[i]) by {}
                lemma_bare_word_stable(t);
            } else {
                lemma_single_quoted_stable(t);
            }
        },
    }
    law_closing_token_splits_alone(TokenView { text: t, original: style_apply(style, t) });
}

/// What `quote_for_render` gives splits back into one token holding the text,
/// unless the quote leaves the text bare with whitespace in it.
pub proof fn law_quote_for_render_splits_back(t: Seq<char>)
    requires
        !quote_leaves_whitespace(t),
    ensures
        is_stable(TokenView { text: t, original: shell_quote_spec(t) }),
        split_spec(shell_quote_spec(t)) == Ok::<Seq<TokenView>, crate::tokens::SplitError>(
            seq![TokenView { text: t, original: shell_quote_spec(t) }],
        ),
{
    law_quoted_text_splits_back(QuoteStyle::Unquoted, t);
}

} // verus!
