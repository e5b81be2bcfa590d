//! Splitting a command line into tokens that keep their source form, and
//! rendering tokens back into a command line.

use vstd::prelude::*;
use vstd::string::StringExecFns;
use vstd::string::StrSliceExecFns;
use crate::text::is_ws;
use crate::text::is_whitespace;
use crate::text::chars_of;
use crate::text::push_char;

verus! {

broadcast use vstd::string::group_string_axioms;

/// One word of a command line.
#[derive(Debug, Clone, PartialEq, Eq)]
pub struct Token {
    /// Logical (unquoted) value: what the shell sees.
    pub text: String,
    /// Exact form as it appeared in the original command (e.g. `'^g'`).
    /// Used verbatim on render so quoting style is never lost.
    /// After an edit it is recomputed with `quote_for_render`.
    pub original: String,
}

/// The mathematical value of a token.
pub struct TokenView {
    pub text: Seq<char>,
    pub original: Seq<char>,
}

impl View for Token {
    type V = TokenView;

    open spec fn view(&self) -> TokenView {
        TokenView { text: self.text@, original: self.original@ }
    }
}

/// The views of a sequence of tokens.
pub open spec fn token_views(ts: Seq<Token>) -> Seq<TokenView> {
    ts.map_values(|t: Token| t@)
}

/// Why a command line could not be split.
#[derive(Debug, Clone, Copy, PartialEq, Eq)]
pub enum SplitError {
    UnterminatedSingleQuote,
    UnterminatedDoubleQuote,
    TrailingBackslash,
}

impl SplitError {
    /// The short description of the error.
    pub fn description(&self) -> (r: &'static str)
        ensures
            r@ == self.description_spec(),
    {
        match self {
            SplitError::UnterminatedSingleQuote => "unterminated single quote",
            SplitError::UnterminatedDoubleQuote => "unterminated double quote",
            SplitError::TrailingBackslash => "trailing backslash",
        }
    }

    pub open spec fn description_spec(&self) -> Seq<char> {
        match self {
            SplitError::UnterminatedSingleQuote => "unterminated single quote"@,
            SplitError::UnterminatedDoubleQuote => "unterminated double quote"@,
            SplitError::TrailingBackslash => "trailing backslash"@,
        }
    }

    /// The error message for splitting `cmd`, e.g. `unterminated single quote in: echo 'x`.
    pub fn message(&self, cmd: &str) -> (r: String)
        ensures
            r@ == self.description_spec() + " in: "@ + cmd@,
    {
        let mut r = String::from_str(self.description());
        r.append(" in: ");
        r.append(cmd);
        r
    }
}

// ───────────────────────────── the scanner ─────────────────────────────

/// Where the scanner stands between two characters.
#[derive(Debug, Clone, Copy, PartialEq, Eq)]
pub enum ScanMode {
    /// Between tokens.
    Gap,
    /// Inside a token, outside quotes.
    Word,
    /// Inside `'...'`.
    Single,
    /// Inside `"..."`.
    Double,
    /// Just after a backslash inside `"..."`.
    DoubleEscape,
    /// Just after a backslash outside quotes.
    Escape,
}

/// The scanner's state: the finished tokens, the text and source form of the
/// token being read, and the mode.
pub struct Scan {
    pub tokens: Seq<TokenView>,
    pub text: Seq<char>,
    pub original: Seq<char>,
    pub mode: ScanMode,
}

/// The state before the first character.
pub open spec fn scan_start() -> Scan {
    Scan { tokens: seq![], text: seq![], original: seq![], mode: ScanMode::Gap }
}

/// The characters that a backslash escapes inside double quotes.
pub open spec fn escaped_in_double(c: char) -> bool {
    c == '"' || c == '\\' || c == '$' || c == '`' || c == '\n'
}

/// Reading the non-whitespace character `c` inside a token, outside quotes.
pub open spec fn in_word(st: Scan, c: char) -> Scan {
    if c == '\'' {
        Scan { original: st.original.push(c), mode: ScanMode::Single, ..st }
    } else if c == '"' {
        Scan { original: st.original.push(c), mode: ScanMode::Double, ..st }
    } else if c == '\\' {
        Scan { original: st.original.push(c), mode: ScanMode::Escape, ..st }
    } else {
        Scan { text: st.text.push(c), original: st.original.push(c), ..st }
    }
}

/// The token being read is finished.
pub open spec fn emit(st: Scan) -> Scan {
    Scan {
        tokens: st.tokens.push(TokenView { text: st.text, original: st.original }),
        text: seq![],
        original: seq![],
        mode: ScanMode::Gap,
    }
}

/// Reading one character.
pub open spec fn scan_step(st: Scan, c: char) -> Scan {
    match st.mode {
        ScanMode::Gap => if is_ws(c) {
            st
        } else {
            in_word(Scan { text: seq![], original: seq![], mode: ScanMode::Word, ..st }, c)
        },
        ScanMode::Word => if is_ws(c) {
            emit(st)
        } else {
            in_word(st, c)
        },
        ScanMode::Single => if c == '\'' {
            Scan { original: st.original.push(c), mode: ScanMode::Word, ..st }
        } else {
            Scan { text: st.text.push(c), original: st.original.push(c), ..st }
        },
        ScanMode::Double => if c == '"' {
            Scan { original: st.original.push(c), mode: ScanMode::Word, ..st }
        } else if c == '\\' {
            Scan { original: st.original.push(c), mode: ScanMode::DoubleEscape, ..st }
        } else {
            Scan { text: st.text.push(c), original: st.original.push(c), ..st }
        },
        ScanMode::DoubleEscape => Scan {
            text: if escaped_in_double(c) {
                st.text.push(c)
            } else {
                st.text.push('\\').push(c)
            },
            original: st.original.push(c),
            mode: ScanMode::Double,
            ..st
        },
        ScanMode::Escape => if c == '\n' {
            // A backslash before a newline continues the line: the newline is
            // dropped from both forms, the backslash stays in the source form.
            Scan { mode: ScanMode::Word, ..st }
        } else {
            Scan { text: st.text.push(c), original: st.original.push(c), mode: ScanMode::Word, ..st }
        },
    }
}

/// Reading all of `s`, starting from `st`.
pub open spec fn scan(st: Scan, s: Seq<char>) -> Scan
    decreases s.len(),
{
    if s.len() == 0 {
        st
    } else {
        scan_step(scan(st, s.drop_last()), s.last())
    }
}

/// The outcome at the end of the input.
pub open spec fn finish(st: Scan) -> Result<Seq<TokenView>, SplitError> {
    match st.mode {
        ScanMode::Gap => Ok(st.tokens),
        ScanMode::Word | ScanMode::Escape => Ok(
            st.tokens.push(TokenView { text: st.text, original: st.original }),
        ),
        ScanMode::Single => Err(SplitError::UnterminatedSingleQuote),
        ScanMode::Double => Err(SplitError::UnterminatedDoubleQuote),
        ScanMode::DoubleEscape => Err(SplitError::TrailingBackslash),
    }
}

/// The tokens of the command line `s`.
pub open spec fn split_spec(s: Seq<char>) -> Result<Seq<TokenView>, SplitError> {
    finish(scan(scan_start(), s))
}

/// The view of a result of `split`.
pub open spec fn split_view(r: Result<Vec<Token>, SplitError>) -> Result<
    Seq<TokenView>,
    SplitError,
> {
    match r {
        Ok(ts) => Ok(token_views(ts@)),
        Err(e) => Err(e),
    }
}

struct Scanner {
    tokens: Vec<Token>,
    text: String,
    original: String,
    mode: ScanMode,
}

impl View for Scanner {
    type V = Scan;

    closed spec fn view(&self) -> Scan {
        Scan {
            tokens: token_views(self.tokens@),
            text: self.text@,
            original: self.original@,
            mode: self.mode,
        }
    }
}

impl Scanner {
    fn in_word(&mut self, c: char)
        ensures
            final(self)@ == in_word(old(self)@, c),
    {
        if c == '\'' {
            push_char(&mut self.original, c);
            self.mode = ScanMode::Single;
        } else if c == '"' {
            push_char(&mut self.original, c);
            self.mode = ScanMode::Double;
        } else if c == '\\' {
            push_char(&mut self.original, c);
            self.mode = ScanMode::Escape;
        } else {
            push_char(&mut self.text, c);
            push_char(&mut self.original, c);
        }
    }

    fn emit(&mut self)
        ensures
            final(self)@ == emit(old(self)@),
    {
        let t = Token { text: self.text.clone(), original: self.original.clone() };
        let ghost before = self.tokens@;
        self.tokens.push(t);
        assert(token_views(self.tokens@) == token_views(before).push(t@));
        self.text = String::new();
        self.original = String::new();
        self.mode = ScanMode::Gap;
    }

    fn step(&mut self, c: char)
        ensures
            final(self)@ == scan_step(old(self)@, c),
    {
        match self.mode {
            ScanMode::Gap => {
                if !is_whitespace(c) {
                    self.text = String::new();
                    self.original = String::new();
                    self.mode = ScanMode::Word;
                    self.in_word(c);
                }
            },
            ScanMode::Word => {
                if is_whitespace(c) {
                    self.emit();
                } else {
                    self.in_word(c);
                }
            },
            ScanMode::Single => {
                if c == '\'' {
                    push_char(&mut self.original, c);
                    self.mode = ScanMode::Word;
                } else {
                    push_char(&mut self.text, c);
                    push_char(&mut self.original, c);
                }
            },
            ScanMode::Double => {
                if c == '"' {
                    push_char(&mut self.original, c);
                    self.mode = ScanMode::Word;
                } else if c == '\\' {
                    push_char(&mut self.original, c);
                    self.mode = ScanMode::DoubleEscape;
                } else {
                    push_char(&mut self.text, c);
                    push_char(&mut self.original, c);
                }
            },
            ScanMode::DoubleEscape => {
                // Inside double quotes a backslash only escapes a few characters.
                if !(c == '"' || c == '\\' || c == '$' || c == '`' || c == '\n') {
                    push_char(&mut self.text, '\\');
                }
                push_char(&mut self.text, c);
                push_char(&mut self.original, c);
                self.mode = ScanMode::Double;
            },
            ScanMode::Escape => {
                if c != '\n' {
                    push_char(&mut self.text, c);
                    push_char(&mut self.original, c);
                }
                self.mode = ScanMode::Word;
            },
        }
    }
}

/// Split `cmd` into tokens, preserving each token's original quoting.
/// Unlike `shell_words::split`, this keeps `text` (logical) and `original`
/// (source form including quotes) so that `render` can reconstruct exactly.
pub fn split(cmd: &str) -> (r: Result<Vec<Token>, SplitError>)
    ensures
        split_view(r) == split_spec(cmd@),
{
    let chars = chars_of(cmd);
    let mut sc = Scanner {
        tokens: Vec::new(),
        text: String::new(),
        original: String::new(),
        mode: ScanMode::Gap,
    };
    assert(token_views(sc.tokens@) == Seq::<TokenView>::empty());
    let mut i: usize = 0;
    while i < chars.len()
        invariant
            i <= chars@.len(),
            chars@ == cmd@,
            sc@ == scan(scan_start(), chars@.take(i as int)),
        decreases chars@.len() - i,
    {
        proof {
            assert(chars@.take(i + 1).drop_last() == chars@.take(i as int));
        }
        sc.step(chars[i]);
        i = i + 1;
    }
    assert(chars@.take(chars@.len() as int) == chars@);
    match sc.mode {
        ScanMode::Gap => Ok(sc.tokens),
        ScanMode::Word | ScanMode::Escape => {
            let Scanner { mut tokens, text, original, mode: _ } = sc;
            let ghost before = tokens@;
            let t = Token { text, original };
            tokens.push(t);
            assert(token_views(tokens@) == token_views(before).push(t@));
            Ok(tokens)
        },
        ScanMode::Single => Err(SplitError::UnterminatedSingleQuote),
        ScanMode::Double => Err(SplitError::UnterminatedDoubleQuote),
        ScanMode::DoubleEscape => Err(SplitError::TrailingBackslash),
    }
}

// ───────────────────────────── rendering ─────────────────────────────

/// The command line that `ts` renders to: the source forms joined with one space.
pub open spec fn render_spec(ts: Seq<TokenView>) -> Seq<char>
    decreases ts.len(),
{
    if ts.len() == 0 {
        seq![]
    } else if ts.len() == 1 {
        ts[0].original
    } else {
        render_spec(ts.drop_last()) + seq![' '] + ts.last().original
    }
}

/// The column at which token `k` starts in `render_spec(ts)`.
pub open spec fn span_start(ts: Seq<TokenView>, k: int) -> int {
    if k == 0 {
        0
    } else {
        render_spec(ts.take(k)).len() + 1int
    }
}

proof fn lemma_render_take_step(ts: Seq<TokenView>, i: int)
    requires
        0 <= i < ts.len(),
    ensures
        render_spec(ts.take(i + 1)) == if i == 0 {
            ts[0].original
        } else {
            render_spec(ts.take(i)) + seq![' '] + ts[i].original
        },
{
    assert(ts.take(i + 1).drop_last() == ts.take(i));
    assert(ts.take(i + 1).last() == ts[i]);
    if i == 0 {
        assert(ts.take(1)[0] == ts[0]);
    }
}

/// Rendering a prefix of `ts` gives a prefix of rendering `ts`.
pub proof fn lemma_render_prefix(ts: Seq<TokenView>, j: int)
    requires
        0 <= j <= ts.len(),
    ensures
        render_spec(ts.take(j)).len() <= render_spec(ts).len(),
        render_spec(ts).take(render_spec(ts.take(j)).len() as int) == render_spec(ts.take(j)),
    decreases ts.len() - j,
{
    if j == ts.len() {
        assert(ts.take(j) == ts);
        assert(render_spec(ts).take(render_spec(ts).len() as int) == render_spec(ts));
    } else {
        lemma_render_prefix(ts, j + 1);
        lemma_render_take_step(ts, j);
        let a = render_spec(ts.take(j));
        let b = render_spec(ts.take(j + 1));
        let r = render_spec(ts);
        assert(b.take(a.len() as int) == a);
        assert(r.take(a.len() as int) == r.take(b.len() as int).take(a.len() as int));
    }
}

/// Render the tokens as one command line.
pub fn render(tokens: &[Token]) -> (r: String)
    ensures
        r@ == render_spec(token_views(tokens@)),
{
    render_with_spans(tokens).0
}

/// Render joined command and return the char-column span (start, len) per token.
/// Uses each token's `original` field verbatim, so quoting is preserved exactly.
pub fn render_with_spans(tokens: &[Token]) -> (r: (String, Vec<(usize, usize)>))
    ensures
        r.0@ == render_spec(token_views(tokens@)),
        r.1@.len() == tokens@.len(),
        forall|k: int|
            0 <= k < tokens@.len() ==> {
                &&& (#[trigger] r.1@[k]).0 == span_start(token_views(tokens@), k)
                &&& r.1@[k].1 == tokens@[k].original@.len()
                &&& r.0@.subrange(r.1@[k].0 as int, r.1@[k].0 + r.1@[k].1)
                    == tokens@[k].original@
            },
{
    let ghost tv = token_views(tokens@);
    let mut out = String::new();
    let mut spans: Vec<(usize, usize)> = Vec::new();
    let mut i: usize = 0;
    while i < tokens.len()
        invariant
            i <= tokens@.len(),
            tv == token_views(tokens@),
            out@ == render_spec(tv.take(i as int)),
            spans@.len() == i,
            forall|k: int|
                0 <= k < i ==> {
                    &&& (#[trigger] spans@[k]).0 == span_start(tv, k)
                    &&& spans@[k].1 == tv[k].original.len()
                },
        decreases tokens@.len() - i,
    {
        proof {
            lemma_render_take_step(tv, i as int);
        }
        let t = &tokens[i];
        if i > 0 {
            push_char(&mut out, ' ');
        }
        let start = out.as_str().unicode_len();
        let len = t.original.as_str().unicode_len();
        out.append(t.original.as_str());
        spans.push((start, len));
        i = i + 1;
    }
    assert(tv.take(tokens@.len() as int) == tv);
    assert forall|k: int| 0 <= k < tokens@.len() implies out@.subrange(
        spans@[k].0 as int,
        spans@[k].0 + spans@[k].1,
    ) == tokens@[k].original@ by {
        assert(spans@[k].0 == span_start(tv, k));
        lemma_render_take_step(tv, k);
        lemma_render_prefix(tv, k + 1);
        let p = render_spec(tv.take(k + 1));
        assert(out@.take(p.len() as int) == p);
        assert(out@.subrange(spans@[k].0 as int, spans@[k].0 + spans@[k].1) == p.subrange(
            spans@[k].0 as int,
            spans@[k].0 + spans@[k].1,
        ));
    }
    (out, spans)
}

// ───────────────────────────── quoting ─────────────────────────────

/// The characters after which `shell_words::quote` does not leave a string bare.
pub open spec fn is_shell_special(c: char) -> bool {
    ||| c == '\n'
    ||| c == '\''
    ||| c == '|'
    ||| c == '&'
    ||| c == ';'
    ||| c == '<'
    ||| c == '>'
    ||| c == '('
    ||| c == ')'
    ||| c == '$'
    ||| c == '`'
    ||| c == '\\'
    ||| c == '"'
    ||| c == ' '
    ||| c == '\t'
    ||| c == '*'
    ||| c == '?'
    ||| c == '['
    ||| c == '#'
    ||| c == '~'
    ||| c == '='
    ||| c == '%'
}

/// Whether `s` is left as it is by `shell_words::quote`: not empty and
/// without a special character.
pub open spec fn is_bare_word(s: Seq<char>) -> bool {
    s.len() > 0 && forall|i: int| 0 <= i < s.len() ==> !is_shell_special(#[trigger] s[i])
}

/// `s` with every single quote replaced by `'\''`.
pub open spec fn quote_escape(s: Seq<char>) -> Seq<char>
    decreases s.len(),
{
    if s.len() == 0 {
        seq![]
    } else {
        quote_escape(s.drop_last()) + if s.last() == '\'' {
            seq!['\'', '\\', '\'', '\'']
        } else {
            seq![s.last()]
        }
    }
}

/// `s` in single quotes, each inner single quote written `'\''`.
pub open spec fn single_quoted(s: Seq<char>) -> Seq<char> {
    seq!['\''] + quote_escape(s) + seq!['\'']
}

/// What `shell_words::quote(s)` returns.
pub open spec fn shell_quote_spec(s: Seq<char>) -> Seq<char> {
    if is_bare_word(s) {
        s
    } else {
        single_quoted(s)
    }
}

/// Calls `shell_words::quote`. Its source returns `s` unchanged when `s` is
/// not empty and holds none of the characters of `is_shell_special`; otherwise
/// it returns `s` in single quotes with each `'` inside written as `'\''`
/// (its `SingleQuoted` and `Mixed` styles give the same text when `s` has no
/// `'`). The contract states exactly that.
#[verifier::external_body]
fn shell_words_quote(s: &str) -> (r: String)
    ensures
        r@ == shell_quote_spec(s@),
{
    shell_words::quote(s).into_owned()
}

/// Quote `text` for re-insertion as a new token (e.g. after an edit).
/// Uses shell_words::quote, which is correct for POSIX shells.
pub fn quote_for_render(text: &str) -> (r: String)
    ensures
        r@ == shell_quote_spec(text@),
{
    shell_words_quote(text)
}

/// `s` with a backslash before each `\`, `"`, `$` and backquote.
pub open spec fn double_escape(s: Seq<char>) -> Seq<char>
    decreases s.len(),
{
    if s.len() == 0 {
        seq![]
    } else {
        double_escape(s.drop_last()) + if s.last() == '\\' || s.last() == '"' || s.last() == '$'
            || s.last() == '`' {
            seq!['\\', s.last()]
        } else {
            seq![s.last()]
        }
    }
}

/// `s` in double quotes, with `\`, `"`, `$` and backquote escaped.
pub open spec fn double_quoted(s: Seq<char>) -> Seq<char> {
    seq!['"'] + double_escape(s) + seq!['"']
}

#[derive(Debug, Clone, Copy, PartialEq, Eq)]
pub enum QuoteStyle {
    /// No quotes (the token is left bare when it can be).
    Unquoted,
    Single,
    Double,
}

/// The style `QuoteStyle::from_original` detects.
pub open spec fn style_of(original: Seq<char>) -> QuoteStyle {
    if original.len() > 0 && original[0] == '\'' {
        QuoteStyle::Single
    } else if original.len() > 0 && original[0] == '"' {
        QuoteStyle::Double
    } else {
        QuoteStyle::Unquoted
    }
}

/// The shell form of `text` under `style`.
pub open spec fn style_apply(style: QuoteStyle, text: Seq<char>) -> Seq<char> {
    match style {
        QuoteStyle::Unquoted => shell_quote_spec(text),
        QuoteStyle::Single => single_quoted(text),
        QuoteStyle::Double => double_quoted(text),
    }
}

/// The style after `style` when cycling: none, single, double, none, ...
pub open spec fn next_style(style: QuoteStyle) -> QuoteStyle {
    match style {
        QuoteStyle::Unquoted => QuoteStyle::Single,
        QuoteStyle::Single => QuoteStyle::Double,
        QuoteStyle::Double => QuoteStyle::Unquoted,
    }
}

/// Cycling three times returns to the style one started from, passing
/// through the other two.
pub proof fn law_cycle_has_period_three(style: QuoteStyle)
    ensures
        next_style(next_style(next_style(style))) == style,
        next_style(style) != style,
        next_style(next_style(style)) != style,
{
}

/// The style detected in a text quoted in a style is that style, except
/// that `shell_words::quote` (the unquoted style) leaves a bare word bare and
/// otherwise uses single quotes.
pub proof fn law_detects_applied_style(style: QuoteStyle, text: Seq<char>)
    ensures
        style_of(style_apply(style, text)) == match style {
            QuoteStyle::Unquoted => if is_bare_word(text) {
                QuoteStyle::Unquoted
            } else {
                QuoteStyle::Single
            },
            _ => style,
        },
{
    if style == QuoteStyle::Unquoted && is_bare_word(text) {
        assert(!is_shell_special(text[0]));
    }
}

impl QuoteStyle {
    /// Detect the quoting style from a token's original form.
    /// Mixed forms (e.g. `foo'bar'`) are treated as unquoted.
    pub fn from_original(original: &str) -> (r: Self)
        ensures
            r == style_of(original@),
    {
        if original.unicode_len() > 0 {
            let c = original.get_char(0);
            if c == '\'' {
                return QuoteStyle::Single;
            } else if c == '"' {
                return QuoteStyle::Double;
            }
        }
        QuoteStyle::Unquoted
    }

    pub fn cycle(self) -> (r: Self)
        ensures
            r == next_style(self),
    {
        match self {
            QuoteStyle::Unquoted => QuoteStyle::Single,
            QuoteStyle::Single => QuoteStyle::Double,
            QuoteStyle::Double => QuoteStyle::Unquoted,
        }
    }

    /// Produce the shell form for `text` under this quoting style.
    pub fn apply(self, text: &str) -> (r: String)
        ensures
            r@ == style_apply(self, text@),
    {
        match self {
            QuoteStyle::Unquoted => shell_words_quote(text),
            QuoteStyle::Single => {
                // ' can't appear inside '...'; escape via closing-quote trick.
                let v = chars_of(text);
                let mut r = String::new();
                push_char(&mut r, '\'');
                let mut i: usize = 0;
                while i < v.len()
                    invariant
                        i <= v@.len(),
                        v@ == text@,
                        r@ == seq!['\''] + quote_escape(v@.take(i as int)),
                    decreases v@.len() - i,
                {
                    assert(v@.take(i + 1).drop_last() == v@.take(i as int));
                    if v[i] == '\'' {
                        push_char(&mut r, '\'');
                        push_char(&mut r, '\\');
                        push_char(&mut r, '\'');
                        push_char(&mut r, '\'');
                    } else {
                        push_char(&mut r, v[i]);
                    }
                    i = i + 1;
                }
                assert(v@.take(v@.len() as int) == v@);
                push_char(&mut r, '\'');
                r
            },
            QuoteStyle::Double => {
                let v = chars_of(text);
                let mut r = String::new();
                push_char(&mut r, '"');
                let mut i: usize = 0;
                while i < v.len()
                    invariant
                        i <= v@.len(),
                        v@ == text@,
                        r@ == seq!['"'] + double_escape(v@.take(i as int)),
                    decreases v@.len() - i,
                {
                    assert(v@.take(i + 1).drop_last() == v@.take(i as int));
                    let c = v[i];
                    if c == '\\' || c == '"' || c == '$' || c == '`' {
                        push_char(&mut r, '\\');
                    }
                    push_char(&mut r, c);
                    i = i + 1;
                }
                assert(v@.take(v@.len() as int) == v@);
                push_char(&mut r, '"');
                r
            },
        }
    }

    /// Number of leading quote characters (for cursor offset in edit display).
    pub fn prefix_len(self) -> (r: usize)
        ensures
            r == match self {
                QuoteStyle::Unquoted => 0usize,
                _ => 1usize,
            },
    {
        match self {
            QuoteStyle::Unquoted => 0,
            QuoteStyle::Single | QuoteStyle::Double => 1,
        }
    }

    pub fn label(self) -> (r: &'static str)
        ensures
            r@ == match self {
                QuoteStyle::Unquoted => "no quote"@,
                QuoteStyle::Single => "single '"@,
                QuoteStyle::Double => "double \""@,
            },
    {
        match self {
            QuoteStyle::Unquoted => "no quote",
            QuoteStyle::Single => "single '",
            QuoteStyle::Double => "double \"",
        }
    }
}

// ───────────────────────────── labels ─────────────────────────────

/// The selector label of token `i`: `1`..`9`, then `A`..`Z`.
pub open spec fn label_spec(i: nat) -> Option<char> {
    if i <= 8 {
        Some(((i + 49) as u8) as char)
    } else if i <= 34 {
        Some(((i + 56) as u8) as char)
    } else {
        None
    }
}

/// The token index a key selects: `1`..`9` select 0..8, `A`..`Z` select 9..34.
pub open spec fn index_for_spec(key: char) -> Option<nat> {
    if '1' <= key && key <= '9' {
        Some((key as u32 - 49) as nat)
    } else if 'A' <= key && key <= 'Z' {
        Some((key as u32 - 56) as nat)
    } else {
        None
    }
}

/// Selector label for each token: 1..9, then A..Z. Uppercase is deliberate —
/// lowercase letters are reserved as command prefixes (d, a, …).
pub fn label(i: usize) -> (r: Option<char>)
    ensures
        r == label_spec(i as nat),
{
    if i <= 8 {
        let b: u8 = 49 + i as u8;
        Some(b as char)
    } else if i <= 34 {
        let b: u8 = 56 + i as u8;
        Some(b as char)
    } else {
        None
    }
}

pub fn index_for(key: char) -> (r: Option<usize>)
    ensures
        match r {
            Some(i) => index_for_spec(key) == Some(i as nat),
            None => index_for_spec(key) is None,
        },
{
    if '1' <= key && key <= '9' {
        return Some((key as u32 - 49) as usize);
    }
    if 'A' <= key && key <= 'Z' {
        return Some((key as u32 - 56) as usize);
    }
    None
}

/// Every token index below 35 has a label, and the label selects that index again.
pub proof fn law_label_then_index(i: nat)
    requires
        i < 35,
    ensures
        label_spec(i) is Some,
        index_for_spec(label_spec(i).unwrap()) == Some(i),
{
}

/// Every key that selects an index is the label of that index.
pub proof fn law_index_then_label(key: char)
    requires
        index_for_spec(key) is Some,
    ensures
        index_for_spec(key).unwrap() < 35,
        label_spec(index_for_spec(key).unwrap()) == Some(key),
{
}

/// Labels are the digits `1` to `9` for the first nine tokens, then the
/// capitals `A` to `Z`, in order: never a lowercase letter (those are the
/// commands), never `0`, and later tokens get later characters.
pub proof fn law_labels_are_digits_then_capitals(i: nat, j: nat)
    requires
        i < j < 35,
    ensures
        label_spec(0) == Some('1'),
        label_spec(8) == Some('9'),
        label_spec(9) == Some('A'),
        label_spec(34) == Some('Z'),
        label_spec(35) is None,
        i < 9 ==> '1' <= label_spec(i)->Some_0 <= '9',
        i >= 9 ==> 'A' <= label_spec(i)->Some_0 <= 'Z',
        (label_spec(i)->Some_0 as u32) < (label_spec(j)->Some_0 as u32),
{
}

} // verus!
