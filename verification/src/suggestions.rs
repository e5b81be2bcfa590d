//! Suggestions for a command: examples from a tldr page, or flags from the
//! OPTIONS section of a man page.

use vstd::prelude::*;
use vstd::string::StrSliceExecFns;
use crate::text::lines;
use crate::text::lines_of;
use crate::text::seqs_of;
use crate::text::chars_of;
use crate::text::string_of;
use crate::text::string_of_range;
use crate::text::trim;
use crate::text::is_ws;
use crate::text::trim_end;
use crate::text::trim_start;
use crate::text::trim_bounds;
use crate::text::trim_start_bound;
use crate::text::trim_end_char;
use crate::text::trim_end_char_bound;
use crate::text::words;
use crate::text::words_in;
use crate::text::join_spaced;
use crate::text::join_from;
use crate::text::utf8_len_of;
use crate::text::utf8_len_capped;
use crate::text::lemma_utf8_len_append;

verus! {

#[derive(Debug, Clone, PartialEq, Eq)]
pub enum SuggestionKind {
    /// Full command replacement loaded from a tldr page.
    Example,
    /// Single flag/option extracted from a man page — appended as a new token.
    Flag,
}

#[derive(Debug, Clone)]
pub struct Suggestion {
    pub description: String,
    pub example: String,
    pub kind: SuggestionKind,
}

/// The mathematical value of a suggestion.
pub struct SuggestionView {
    pub description: Seq<char>,
    pub example: Seq<char>,
    pub kind: SuggestionKind,
}

impl View for Suggestion {
    type V = SuggestionView;

    open spec fn view(&self) -> SuggestionView {
        SuggestionView {
            description: self.description@,
            example: self.example@,
            kind: self.kind,
        }
    }
}

/// The views of a sequence of suggestions.
pub open spec fn suggestion_views(v: Seq<Suggestion>) -> Seq<SuggestionView> {
    v.map_values(|s: Suggestion| s@)
}

proof fn lemma_views_push(v: Seq<Suggestion>, s: Suggestion)
    ensures
        suggestion_views(v.push(s)) == suggestion_views(v).push(s@),
{
    assert(suggestion_views(v.push(s)) =~= suggestion_views(v).push(s@));
}

// ───────────────────────────── tldr ─────────────────────────────

/// The state of reading a tldr page: the examples so far and the pending description.
pub struct TldrFold {
    pub out: Seq<SuggestionView>,
    pub desc: Option<Seq<char>>,
}

/// Whether the trimmed line `t` is an example: at least one character between
/// two backquotes. (`str::len` counts bytes; with a backquote at each end,
/// more than two bytes means more than two characters.)
pub open spec fn is_example_line(t: Seq<char>) -> bool {
    t.len() > 2 && t[0] == '`' && t.last() == '`'
}

/// Reading one line of a tldr page.
pub open spec fn tldr_step(st: TldrFold, line: Seq<char>) -> TldrFold {
    let t = trim(line);
    if t.len() >= 2 && t[0] == '-' && t[1] == ' ' {
        TldrFold { desc: Some(trim_end_char(t.skip(2), ':')), ..st }
    } else if is_example_line(t) {
        TldrFold {
            out: st.out.push(
                SuggestionView {
                    description: match st.desc {
                        Some(d) => d,
                        None => seq![],
                    },
                    example: t.subrange(1, t.len() - 1),
                    kind: SuggestionKind::Example,
                },
            ),
            desc: None,
        }
    } else {
        st
    }
}

/// Reading the lines `ls` of a tldr page.
pub open spec fn tldr_fold(ls: Seq<Seq<char>>) -> TldrFold
    decreases ls.len(),
{
    if ls.len() == 0 {
        TldrFold { out: seq![], desc: None }
    } else {
        tldr_step(tldr_fold(ls.drop_last()), ls.last())
    }
}

/// A summary line (`> ...`) never gives an example nor a description.
pub proof fn law_tldr_summary_lines_ignored(st: TldrFold, line: Seq<char>)
    requires
        trim(line).len() > 0,
        trim(line)[0] == '>',
    ensures
        tldr_step(st, line) == st,
{
}

/// The examples of the tldr page `content`: each line `- text:` gives the
/// description of the next example line `` `command` ``.
pub open spec fn parse_tldr_spec(content: Seq<char>) -> Seq<SuggestionView> {
    tldr_fold(lines(content)).out
}

/// The examples of a tldr page.
pub fn parse_tldr(content: &str) -> (r: Vec<Suggestion>)
    ensures
        suggestion_views(r@) == parse_tldr_spec(content@),
{
    let ls = lines_of(content);
    let mut out: Vec<Suggestion> = Vec::new();
    let mut desc: Option<String> = None;
    let mut i: usize = 0;
    assert(seqs_of(ls@).take(0) == Seq::<Seq<char>>::empty());
    assert(suggestion_views(out@) == Seq::<SuggestionView>::empty());
    while i < ls.len()
        invariant
            i <= ls@.len(),
            seqs_of(ls@) == lines(content@),
            tldr_fold(seqs_of(ls@).take(i as int)) == (TldrFold {
                out: suggestion_views(out@),
                desc: match desc {
                    Some(d) => Some(d@),
                    None => None,
                },
            }),
        decreases ls@.len() - i,
    {
        let v = &ls[i];
        proof {
            assert(seqs_of(ls@).take(i + 1).drop_last() == seqs_of(ls@).take(i as int));
            assert(seqs_of(ls@).take(i + 1).last() == v@);
        }
        let (a, b) = trim_bounds(v, 0, v.len());
        assert(v@.subrange(0, v@.len() as int) == v@);
        let ghost t = v@.subrange(a as int, b as int);
        if b - a >= 2 && v[a] == '-' && v[a + 1] == ' ' {
            let e = trim_end_char_bound(v, a + 2, b, ':');
            assert(t.skip(2) == v@.subrange(a + 2, b as int));
            desc = Some(string_of_range(v, a + 2, e));
        } else if b - a > 2 && v[a] == '`' && v[b - 1] == '`' {
            let d = match desc {
                Some(d) => d,
                None => String::new(),
            };
            desc = None;
            let ex = string_of_range(v, a + 1, b - 1);
            assert(t.subrange(1, t.len() - 1) == v@.subrange(a + 1, b - 1));
            let s = Suggestion { description: d, example: ex, kind: SuggestionKind::Example };
            proof {
                lemma_views_push(out@, s);
            }
            out.push(s);
        }
        i = i + 1;
    }
    assert(seqs_of(ls@).take(ls@.len() as int) == seqs_of(ls@));
    out
}

/// The examples of the first of `pages` that has any.
pub open spec fn first_tldr_spec(pages: Seq<Seq<char>>) -> Option<Seq<SuggestionView>>
    decreases pages.len(),
{
    if pages.len() == 0 {
        None
    } else if parse_tldr_spec(pages[0]).len() > 0 {
        Some(parse_tldr_spec(pages[0]))
    } else {
        first_tldr_spec(pages.drop_first())
    }
}

/// The views of a sequence of strings.
pub open spec fn pages_of(v: Seq<String>) -> Seq<Seq<char>> {
    v.map_values(|s: String| s@)
}

proof fn lemma_first_tldr_skip(p: Seq<Seq<char>>, i: int)
    requires
        0 <= i <= p.len(),
        forall|j: int| 0 <= j < i ==> parse_tldr_spec(#[trigger] p[j]).len() == 0,
    ensures
        first_tldr_spec(p) == first_tldr_spec(p.skip(i)),
    decreases i,
{
    if i > 0 {
        assert(p.drop_first().skip(i - 1) == p.skip(i));
        assert forall|j: int| 0 <= j < i - 1 implies parse_tldr_spec(
            #[trigger] p.drop_first()[j],
        ).len() == 0 by {
            assert(p.drop_first()[j] == p[j + 1]);
        }
        assert(parse_tldr_spec(p[0]).len() == 0);
        lemma_first_tldr_skip(p.drop_first(), i - 1);
    } else {
        assert(p.skip(0) == p);
    }
}

/// The examples of the first tldr page (in the order the pages are searched)
/// that yields any; `None` when none does.
pub fn from_tldr_pages(pages: &Vec<String>) -> (r: Option<Vec<Suggestion>>)
    ensures
        match r {
            Some(v) => first_tldr_spec(pages_of(pages@)) == Some(suggestion_views(v@)),
            None => first_tldr_spec(pages_of(pages@)) is None,
        },
{
    let ghost p = pages_of(pages@);
    let mut i: usize = 0;
    while i < pages.len()
        invariant
            i <= pages@.len(),
            p == pages_of(pages@),
            forall|j: int| 0 <= j < i ==> parse_tldr_spec(#[trigger] p[j]).len() == 0,
        decreases pages@.len() - i,
    {
        let s = parse_tldr(pages[i].as_str());
        if s.len() > 0 {
            proof {
                lemma_first_tldr_skip(p, i as int);
                assert(p.skip(i as int)[0] == p[i as int]);
            }
            return Some(s);
        }
        i = i + 1;
    }
    proof {
        lemma_first_tldr_skip(p, i as int);
    }
    None
}

// ───────────────────────────── man pages ─────────────────────────────

/// `s` with overstrike sequences removed: each backspace deletes the
/// character before it.
pub open spec fn strip_backspace_spec(s: Seq<char>) -> Seq<char>
    decreases s.len(),
{
    if s.len() == 0 {
        seq![]
    } else {
        let p = strip_backspace_spec(s.drop_last());
        if s.last() == '\x08' {
            if p.len() > 0 {
                p.drop_last()
            } else {
                p
            }
        } else {
            p.push(s.last())
        }
    }
}

/// Remove overstrike formatting sequences (`char \x08 char` bold, `_ \x08 char` underline).
pub fn strip_backspace(s: &str) -> (r: String)
    ensures
        r@ == strip_backspace_spec(s@),
{
    let v = chars_of(s);
    let mut out: Vec<char> = Vec::new();
    let mut i: usize = 0;
    while i < v.len()
        invariant
            i <= v@.len(),
            v@ == s@,
            out@ == strip_backspace_spec(v@.take(i as int)),
        decreases v@.len() - i,
    {
        proof {
            assert(v@.take(i + 1).drop_last() == v@.take(i as int));
        }
        if v[i] == '\x08' {
            if out.len() > 0 {
                out.pop();
            }
        } else {
            out.push(v[i]);
        }
        i = i + 1;
    }
    assert(v@.take(v@.len() as int) == v@);
    string_of(&out)
}

/// Whether the word is an alternate form of a flag (it starts with `-`).
pub open spec fn is_alternate_flag(w: Seq<char>) -> bool {
    (w.len() > 0 && w[0] == '-') || (trim_end_char(w, ',').len() > 0 && trim_end_char(w, ',')[0]
        == '-')
}

/// The number of leading alternate flag forms among `ws`.
pub open spec fn leading_alternates(ws: Seq<Seq<char>>) -> nat
    decreases ws.len(),
{
    if ws.len() > 0 && is_alternate_flag(ws[0]) {
        1 + leading_alternates(ws.drop_first())
    } else {
        0
    }
}

/// A flag line split into the flag (its first word without trailing commas)
/// and the description (the words after the alternate flag forms, joined
/// with single spaces).
pub open spec fn split_flag_line_spec(line: Seq<char>) -> (Seq<char>, Seq<char>) {
    let ws = words(line);
    if ws.len() == 0 {
        (seq![], seq![])
    } else {
        let rest = ws.drop_first();
        (trim_end_char(ws[0], ','), join_spaced(rest.skip(leading_alternates(rest) as int)))
    }
}

proof fn lemma_leading_alternates_skip(ws: Seq<Seq<char>>, i: int)
    requires
        0 <= i <= ws.len(),
        forall|j: int| 0 <= j < i ==> is_alternate_flag(#[trigger] ws[j]),
    ensures
        leading_alternates(ws) == i + leading_alternates(ws.skip(i)),
    decreases i,
{
    if i > 0 {
        assert(ws.drop_first().skip(i - 1) == ws.skip(i));
        assert forall|j: int| 0 <= j < i - 1 implies is_alternate_flag(
            #[trigger] ws.drop_first()[j],
        ) by {
            assert(ws.drop_first()[j] == ws[j + 1]);
        }
        assert(is_alternate_flag(ws[0]));
        lemma_leading_alternates_skip(ws.drop_first(), i - 1);
    } else {
        assert(ws.skip(0) == ws);
    }
}

fn is_alternate(w: &Vec<char>) -> (r: bool)
    ensures
        r == is_alternate_flag(w@),
{
    if w.len() > 0 && w[0] == '-' {
        return true;
    }
    let e = trim_end_char_bound(w, 0, w.len(), ',');
    assert(w@.subrange(0, w@.len() as int) == w@);
    e > 0 && w[0] == '-'
}

/// Splits the flag line `v[from..to]`.
fn split_flag_range(v: &Vec<char>, from: usize, to: usize) -> (r: (String, String))
    requires
        from <= to <= v@.len(),
    ensures
        (r.0@, r.1@) == split_flag_line_spec(v@.subrange(from as int, to as int)),
{
    let ws = words_in(v, from, to);
    let ghost wv = seqs_of(ws@);
    if ws.len() == 0 {
        return (String::new(), String::new());
    }
    let first = &ws[0];
    let e = trim_end_char_bound(first, 0, first.len(), ',');
    assert(first@.subrange(0, first@.len() as int) == first@);
    let flag = string_of_range(first, 0, e);
    let mut k: usize = 1;
    while k < ws.len() && is_alternate(&ws[k])
        invariant
            1 <= k <= ws@.len(),
            wv == seqs_of(ws@),
            forall|j: int| 0 <= j < k - 1 ==> is_alternate_flag(#[trigger] wv.drop_first()[j]),
        decreases ws@.len() - k,
    {
        assert(wv.drop_first()[k - 1] == ws@[k as int]@);
        k = k + 1;
    }
    proof {
        let rest = wv.drop_first();
        lemma_leading_alternates_skip(rest, k - 1);
        if k < ws.len() {
            assert(rest.skip(k - 1)[0] == ws@[k as int]@);
        }
        assert(rest.skip(k - 1) == wv.skip(k as int));
        assert(leading_alternates(rest.skip(k - 1)) == 0);
    }
    let desc = join_from(&ws, k);
    (flag, desc)
}

/// Split a flag line like `-a, --all  do not ignore entries` into
/// `("-a", "do not ignore entries")`. Skips alternate flag forms.
pub fn split_flag_line(line: &str) -> (r: (String, String))
    ensures
        (r.0@, r.1@) == split_flag_line_spec(line@),
{
    let v = chars_of(line);
    assert(v@.subrange(0, v@.len() as int) == v@);
    split_flag_range(&v, 0, v.len())
}

/// `c` in ASCII upper case.
pub open spec fn ascii_upper(c: char) -> char {
    if 'a' <= c && c <= 'z' {
        ((c as u32 - 32) as u32) as char
    } else {
        c
    }
}

/// Whether `w` occurs at `i` in `s` when `s` is put in ASCII upper case.
pub open spec fn upper_matches_at(s: Seq<char>, w: Seq<char>, i: int) -> bool {
    0 <= i && i + w.len() <= s.len() && forall|j: int|
        0 <= j < w.len() ==> ascii_upper(#[trigger] s[i + j]) == w[j]
}

/// Whether the word `w` occurs in `s` when `s` is put in ASCII upper case.
pub open spec fn contains_upper(s: Seq<char>, w: Seq<char>) -> bool {
    exists|i: int| #[trigger] upper_matches_at(s, w, i)
}

pub open spec fn word_option() -> Seq<char> {
    seq!['O', 'P', 'T', 'I', 'O', 'N']
}

pub open spec fn word_flag() -> Seq<char> {
    seq!['F', 'L', 'A', 'G']
}

/// Whether a line starts with a space or a tab.
pub open spec fn is_indented(line: Seq<char>) -> bool {
    line.len() > 0 && (line[0] == ' ' || line[0] == '\t')
}

/// The bytes of leading whitespace of a line.
pub open spec fn indent_of(line: Seq<char>) -> int {
    utf8_len_of(line) - utf8_len_of(trim_start(line))
}

/// Whether an indented line of the options section introduces a flag: 2 to
/// 12 bytes of leading whitespace, then `-` and a `-` or an ASCII letter.
pub open spec fn looks_like_flag(line: Seq<char>) -> bool {
    let t = trim(line);
    &&& 2 <= indent_of(line) <= 12
    &&& t.len() >= 2
    &&& t[0] == '-'
    &&& (t[1] == '-' || ('a' <= t[1] && t[1] <= 'z') || ('A' <= t[1] && t[1] <= 'Z'))
}

/// The state of reading a man page.
pub struct ManFold {
    pub out: Seq<SuggestionView>,
    pub in_section: bool,
    pub pending: Option<Seq<char>>,
    pub stopped: bool,
}

/// Reading one line of a man page.
pub open spec fn man_step(st: ManFold, line: Seq<char>) -> ManFold {
    let t = trim(line);
    if st.stopped {
        st
    } else if !is_indented(line) {
        // Top-level section headers have no leading whitespace.
        if t.len() == 0 {
            st
        } else if contains_upper(t, word_option()) || contains_upper(t, word_flag()) {
            ManFold { in_section: true, pending: None, ..st }
        } else if st.in_section {
            ManFold { stopped: true, ..st }
        } else {
            st
        }
    } else if !st.in_section || t.len() == 0 {
        st
    } else if looks_like_flag(line) {
        let (flag, desc) = split_flag_line_spec(t);
        if flag.len() == 0 {
            st
        } else if desc.len() == 0 {
            ManFold { pending: Some(flag), ..st }
        } else {
            ManFold {
                out: st.out.push(
                    SuggestionView { description: desc, example: flag, kind: SuggestionKind::Flag },
                ),
                ..st
            }
        }
    } else {
        match st.pending {
            Some(flag) => ManFold {
                out: st.out.push(
                    SuggestionView { description: t, example: flag, kind: SuggestionKind::Flag },
                ),
                pending: None,
                ..st
            },
            None => st,
        }
    }
}

/// Reading the lines `ls` of a man page.
pub open spec fn man_fold(ls: Seq<Seq<char>>) -> ManFold
    decreases ls.len(),
{
    if ls.len() == 0 {
        ManFold { out: seq![], in_section: false, pending: None, stopped: false }
    } else {
        man_step(man_fold(ls.drop_last()), ls.last())
    }
}

/// The flags of the options section of the man page `text`.
pub open spec fn parse_man_options_spec(text: Seq<char>) -> Seq<SuggestionView> {
    man_fold(lines(text)).out
}

/// Whether `w` occurs in `v[from..to]` in ASCII upper case.
fn contains_upper_in(v: &Vec<char>, from: usize, to: usize, w: &Vec<char>) -> (r: bool)
    requires
        from <= to <= v@.len(),
    ensures
        r == contains_upper(v@.subrange(from as int, to as int), w@),
{
    let ghost s = v@.subrange(from as int, to as int);
    if w.len() > to - from {
        return false;
    }
    let mut i: usize = from;
    while i <= to - w.len()
        invariant
            from <= i,
            w@.len() <= to - from,
            to <= v@.len(),
            s == v@.subrange(from as int, to as int),
            forall|p: int| 0 <= p < i - from ==> !#[trigger] upper_matches_at(s, w@, p),
        decreases to - i,
    {
        let mut j: usize = 0;
        let mut ok = true;
        while j < w.len()
            invariant
                j <= w@.len(),
                from <= i,
                i + w@.len() <= to <= v@.len(),
                s == v@.subrange(from as int, to as int),
                ok == forall|q: int| 0 <= q < j ==> ascii_upper(#[trigger] s[i - from + q]) == w@[q],
            decreases w@.len() - j,
        {
            let c = v[i + j];
            let u = if 'a' <= c && c <= 'z' {
                ((c as u32 - 32) as u8) as char
            } else {
                c
            };
            assert(s[i - from + j] == c);
            if u != w[j] {
                ok = false;
            }
            j = j + 1;
        }
        if ok {
            assert(upper_matches_at(s, w@, i - from));
            return true;
        }
        i = i + 1;
    }
    assert forall|p: int| !#[trigger] upper_matches_at(s, w@, p) by {
        if 0 <= p && p + w@.len() <= s.len() {
            assert(p < i - from);
        }
    }
    false
}

/// Extract the flags of the options section of a man page rendered as text.
pub fn parse_man_options(text: &str) -> (r: Vec<Suggestion>)
    ensures
        suggestion_views(r@) == parse_man_options_spec(text@),
{
    let ls = lines_of(text);
    let option_word: Vec<char> = vec!['O', 'P', 'T', 'I', 'O', 'N'];
    let flag_word: Vec<char> = vec!['F', 'L', 'A', 'G'];
    let mut out: Vec<Suggestion> = Vec::new();
    let mut in_section = false;
    let mut pending: Option<String> = None;
    let mut i: usize = 0;
    assert(seqs_of(ls@).take(0) == Seq::<Seq<char>>::empty());
    assert(suggestion_views(out@) == Seq::<SuggestionView>::empty());
    while i < ls.len()
        invariant
            i <= ls@.len(),
            seqs_of(ls@) == lines(text@),
            option_word@ == word_option(),
            flag_word@ == word_flag(),
            man_fold(seqs_of(ls@).take(i as int)) == (ManFold {
                out: suggestion_views(out@),
                in_section: in_section,
                pending: match pending {
                    Some(p) => Some(p@),
                    None => None,
                },
                stopped: false,
            }),
        decreases ls@.len() - i,
    {
        let line = &ls[i];
        proof {
            assert(seqs_of(ls@).take(i + 1).drop_last() == seqs_of(ls@).take(i as int));
            assert(seqs_of(ls@).take(i + 1).last() == line@);
        }
        let n = line.len();
        let (a, b) = trim_bounds(line, 0, n);
        assert(line@.subrange(0, n as int) == line@);
        let ghost t = line@.subrange(a as int, b as int);
        let indented = n > 0 && (line[0] == ' ' || line[0] == '\t');
        if !indented {
            if a < b {
                if contains_upper_in(line, a, b, &option_word) || contains_upper_in(
                    line,
                    a,
                    b,
                    &flag_word,
                ) {
                    in_section = true;
                    pending = None;
                } else if in_section {
                    // Left the options section: the rest of the page is ignored.
                    proof {
                        law_man_section_end_stops(seqs_of(ls@), i as int + 1);
                        assert(seqs_of(ls@).take(ls@.len() as int) == seqs_of(ls@));
                    }
                    return out;
                }
            }
        } else if in_section && a < b {
            let lead = trim_start_bound(line, 0, n);
            let indent = utf8_len_capped(line, 0, lead, 13);
            proof {
                lemma_indent(line@, lead as int);
            }
            let looks = 2 <= indent && indent <= 12 && b - a >= 2 && line[a] == '-' && (line[a
                + 1] == '-' || ('a' <= line[a + 1] && line[a + 1] <= 'z') || ('A' <= line[a + 1]
                && line[a + 1] <= 'Z'));
            if looks {
                let (flag, desc) = split_flag_range(line, a, b);
                let flag_len = flag.as_str().unicode_len();
                let desc_len = desc.as_str().unicode_len();
                if flag_len > 0 {
                    if desc_len == 0 {
                        pending = Some(flag);
                    } else {
                        let s = Suggestion {
                            description: desc,
                            example: flag,
                            kind: SuggestionKind::Flag,
                        };
                        proof {
                            lemma_views_push(out@, s);
                        }
                        out.push(s);
                    }
                }
            } else {
                match pending {
                    Some(flag) => {
                        // Description is on the line following the flag.
                        let s = Suggestion {
                            description: string_of_range(line, a, b),
                            example: flag,
                            kind: SuggestionKind::Flag,
                        };
                        proof {
                            lemma_views_push(out@, s);
                        }
                        out.push(s);
                        pending = None;
                    },
                    None => {},
                }
            }
        }
        i = i + 1;
    }
    assert(seqs_of(ls@).take(ls@.len() as int) == seqs_of(ls@));
    out
}

proof fn lemma_indent(line: Seq<char>, a: int)
    requires
        0 <= a <= line.len(),
        line.subrange(a, line.len() as int) == trim_start(line),
    ensures
        indent_of(line) == utf8_len_of(line.subrange(0, a)),
{
    lemma_utf8_len_append(line.subrange(0, a), line.subrange(a, line.len() as int));
    assert(line.subrange(0, a) + line.subrange(a, line.len() as int) == line);
}

/// Once the options section has ended, the rest of the page adds no flag.
pub proof fn law_man_section_end_stops(ls: Seq<Seq<char>>, i: int)
    requires
        0 < i <= ls.len(),
        man_fold(ls.take(i)).stopped,
    ensures
        man_fold(ls) == man_fold(ls.take(i)),
    decreases ls.len() - i,
{
    if i < ls.len() {
        assert(ls.take(i + 1).drop_last() == ls.take(i));
        law_man_section_end_stops(ls, i + 1);
    } else {
        assert(ls.take(i) == ls);
    }
}

/// The flags of a man page as `man` prints it: overstrike formatting removed,
/// then the options section read.
pub fn from_man_output(raw: &str) -> (r: Vec<Suggestion>)
    ensures
        suggestion_views(r@) == parse_man_options_spec(strip_backspace_spec(raw@)),
{
    let text = strip_backspace(raw);
    parse_man_options(text.as_str())
}


/// The operating system the program was built for, as far as the choice of
/// tldr page directories depends on it.
#[derive(Debug, Clone, Copy, PartialEq, Eq)]
pub enum Platform {
    MacOs,
    Linux,
    Other,
}

/// The tldr page directories searched on `p`, in order.
pub open spec fn platform_subdirs_spec(p: Platform) -> Seq<Seq<char>> {
    match p {
        Platform::MacOs => seq!["common"@, "osx"@],
        Platform::Linux => seq!["common"@, "linux"@],
        Platform::Other => seq!["common"@],
    }
}

/// The tldr page directories to search on `platform`: the shared pages, then
/// those of the platform where tldr has any.
pub fn platform_subdirs(platform: Platform) -> (r: Vec<&'static str>)
    ensures
        r@.map_values(|d: &str| d@) == platform_subdirs_spec(platform),
{
    let mut r: Vec<&'static str> = Vec::new();
    r.push("common");
    match platform {
        Platform::MacOs => r.push("osx"),
        Platform::Linux => r.push("linux"),
        Platform::Other => {},
    }
    proof {
        assert(r@.map_values(|d: &str| d@) =~= platform_subdirs_spec(platform));
    }
    r
}

/// What `load` gives: the examples of the first tldr page that has any, else
/// the flags of the man page when `man` printed one, else nothing.
pub open spec fn load_spec(pages: Seq<Seq<char>>, man_page: Option<Seq<char>>) -> Seq<
    SuggestionView,
> {
    match first_tldr_spec(pages) {
        Some(s) => s,
        None => match man_page {
            Some(m) => parse_man_options_spec(strip_backspace_spec(m)),
            None => Seq::empty(),
        },
    }
}

/// Suggestions for a command from what was read for it: `tldr_pages` are the
/// contents of its tldr pages in the order they are searched, and `man_page`
/// what `man` printed for it, if it ran and succeeded. The tldr examples win;
/// the man page is the fallback; with neither, the result is empty.
pub fn load(tldr_pages: &Vec<String>, man_page: Option<&str>) -> (r: Vec<Suggestion>)
    ensures
        suggestion_views(r@) == load_spec(
            pages_of(tldr_pages@),
            match man_page {
                Some(m) => Some(m@),
                None => None,
            },
        ),
{
    match from_tldr_pages(tldr_pages) {
        Some(v) => v,
        None => match man_page {
            Some(m) => from_man_output(m),
            None => Vec::new(),
        },
    }
}

/// An unindented header that names options or flags (`OPTION` or `FLAG`,
/// in any case) opens the options section: the flags under it are read, and
/// no flag waits for a description yet.
pub proof fn law_option_and_flag_headers_open_section(st: ManFold, line: Seq<char>)
    requires
        !st.stopped,
        line.len() > 0,
        line[0] != ' ',
        line[0] != '\t',
        contains_upper(trim(line), seq!['O', 'P', 'T', 'I', 'O', 'N']) || contains_upper(
            trim(line),
            seq!['F', 'L', 'A', 'G'],
        ),
    ensures
        man_step(st, line).in_section,
        man_step(st, line).pending is None,
        !man_step(st, line).stopped,
        man_step(st, line).out == st.out,
{
    let t = trim(line);
    if t.len() == 0 {
        let w = if contains_upper(t, seq!['O', 'P', 'T', 'I', 'O', 'N']) {
            seq!['O', 'P', 'T', 'I', 'O', 'N']
        } else {
            seq!['F', 'L', 'A', 'G']
        };
        let k = choose|k: int| #[trigger] upper_matches_at(t, w, k);
        assert(upper_matches_at(t, w, k));
    }
    assert(word_option() == seq!['O', 'P', 'T', 'I', 'O', 'N']);
    assert(word_flag() == seq!['F', 'L', 'A', 'G']);
}

/// Whether `t` holds the word `flag` at `i`, each letter in either case.
pub open spec fn flag_word_at(t: Seq<char>, i: int) -> bool {
    &&& 0 <= i && i + 4 <= t.len()
    &&& (t[i] == 'F' || t[i] == 'f')
    &&& (t[i + 1] == 'L' || t[i + 1] == 'l')
    &&& (t[i + 2] == 'A' || t[i + 2] == 'a')
    &&& (t[i + 3] == 'G' || t[i + 3] == 'g')
}

/// Whether `t` holds the word `option` at `i`, each letter in either case.
pub open spec fn option_word_at(t: Seq<char>, i: int) -> bool {
    &&& 0 <= i && i + 6 <= t.len()
    &&& (t[i] == 'O' || t[i] == 'o')
    &&& (t[i + 1] == 'P' || t[i + 1] == 'p')
    &&& (t[i + 2] == 'T' || t[i + 2] == 't')
    &&& (t[i + 3] == 'I' || t[i + 3] == 'i')
    &&& (t[i + 4] == 'O' || t[i + 4] == 'o')
    &&& (t[i + 5] == 'N' || t[i + 5] == 'n')
}

/// The section header is found in any case: an unindented line holding
/// `flag` or `option` in any mix of upper and lower case opens the options
/// section.
pub proof fn law_section_header_any_case(st: ManFold, line: Seq<char>, i: int)
    requires
        !st.stopped,
        line.len() > 0,
        line[0] != ' ',
        line[0] != '\t',
        flag_word_at(trim(line), i) || option_word_at(trim(line), i),
    ensures
        man_step(st, line).in_section,
        man_step(st, line).pending is None,
        man_step(st, line).out == st.out,
{
    let t = trim(line);
    if flag_word_at(t, i) {
        let w = seq!['F', 'L', 'A', 'G'];
        assert forall|j: int| 0 <= j < w.len() implies ascii_upper(#[trigger] t[i + j]) == w[j] by {
            assert(j == 0 || j == 1 || j == 2 || j == 3);
        }
        assert(upper_matches_at(t, w, i));
    } else {
        let w = seq!['O', 'P', 'T', 'I', 'O', 'N'];
        assert forall|j: int| 0 <= j < w.len() implies ascii_upper(#[trigger] t[i + j]) == w[j] by {
            assert(j == 0 || j == 1 || j == 2 || j == 3 || j == 4 || j == 5);
        }
        assert(upper_matches_at(t, w, i));
    }
    law_option_and_flag_headers_open_section(st, line);
}

proof fn lemma_trim_fixed_line(s: Seq<char>)
    requires
        s.len() > 0,
        !is_ws(s[0]),
        !is_ws(s.last()),
    ensures
        trim(s) == s,
{
    assert(trim_start(s) == s);
    assert(trim_end(s) == s);
}

/// In a tldr page a line `- <text>:` describes the next example line
/// `` `<command>` ``: together they give one example whose description is
/// the text without its colon and whose command is what stands between the
/// backquotes; the description is then used up, so an example line with no
/// description line before it gets an empty description.
pub proof fn law_tldr_description_then_example(st: TldrFold, d: Seq<char>, e: Seq<char>)
    requires
        d.len() > 0,
        !is_ws(d[0]),
        !is_ws(d.last()),
        d.last() != ':',
        e.len() > 0,
    ensures
        ({
            let desc_line = seq!['-', ' '] + d + seq![':'];
            let example_line = seq!['`'] + e + seq!['`'];
            let after = tldr_step(tldr_step(st, desc_line), example_line);
            &&& after.out == st.out.push(
                SuggestionView { description: d, example: e, kind: SuggestionKind::Example },
            )
            &&& after.desc is None
            &&& tldr_step(after, example_line).out == after.out.push(
                SuggestionView { description: seq![], example: e, kind: SuggestionKind::Example },
            )
        }),
{
    let desc_line = seq!['-', ' '] + d + seq![':'];
    let example_line = seq!['`'] + e + seq!['`'];
    lemma_trim_fixed_line(desc_line);
    lemma_trim_fixed_line(example_line);
    assert(desc_line.skip(2) == d + seq![':']);
    assert((d + seq![':']).drop_last() == d);
    assert(trim_end_char(d, ':') == d);
    assert(example_line.subrange(1, example_line.len() - 1) == e);
}

/// Overstrike formatting is removed: text without a backspace is left as it
/// is, and a character, a backspace and a character (bold `x\x08x` or
/// underline `_\x08x`, neither character a backspace) leave only the last
/// character.
pub proof fn law_overstrike_removed(s: Seq<char>, x: char, y: char)
    requires
        x != '\x08',
        y != '\x08',
    ensures
        (forall|i: int| 0 <= i < s.len() ==> #[trigger] s[i] != '\x08') ==> strip_backspace_spec(s)
            == s,
        strip_backspace_spec(s + seq![x, '\x08', y]) == strip_backspace_spec(s) + seq![y],
    decreases s.len(),
{
    if forall|i: int| 0 <= i < s.len() ==> #[trigger] s[i] != '\x08' {
        if s.len() > 0 {
            assert forall|i: int| 0 <= i < s.drop_last().len() implies #[trigger] s.drop_last()[i]
                != '\x08' by {
                assert(s.drop_last()[i] == s[i]);
            }
            law_overstrike_removed(s.drop_last(), x, y);
            assert(s[s.len() - 1] != '\x08');
            assert(s.drop_last().push(s.last()) == s);
        }
    }
    let a = s + seq![x];
    let b = a + seq!['\x08'];
    let c = b + seq![y];
    assert(c == s + seq![x, '\x08', y]);
    assert(c.drop_last() == b);
    assert(b.drop_last() == a);
    assert(a.drop_last() == s);
    assert(a.last() == x && b.last() == '\x08' && c.last() == y);
    assert(strip_backspace_spec(a) == strip_backspace_spec(s).push(x));
    assert(strip_backspace_spec(b) == strip_backspace_spec(s));
    assert(strip_backspace_spec(s).push(y) == strip_backspace_spec(s) + seq![y]);
}

/// `k` spaces.
pub open spec fn spaces(k: nat) -> Seq<char> {
    Seq::new(k, |_i: int| ' ')
}

proof fn lemma_spaces(k: nat, rest: Seq<char>)
    ensures
        utf8_len_of(spaces(k)) == k,
        rest.len() > 0 && !is_ws(rest[0]) ==> trim_start(spaces(k) + rest) == rest,
    decreases k,
{
    if k > 0 {
        lemma_spaces((k - 1) as nat, rest);
        assert(spaces(k).drop_last() == spaces((k - 1) as nat));
        assert(spaces(k).last() == ' ');
        assert((spaces(k) + rest).drop_first() == spaces((k - 1) as nat) + rest);
        assert((spaces(k) + rest)[0] == ' ');
    } else {
        assert(spaces(0) + rest == rest);
    }
}

proof fn lemma_trailing_spaces(f: Seq<char>, m: nat)
    requires
        f.len() > 0,
        !is_ws(f.last()),
    ensures
        trim_end(f + spaces(m)) == f,
    decreases m,
{
    if m > 0 {
        assert((f + spaces(m)).drop_last() == f + spaces((m - 1) as nat));
        assert((f + spaces(m)).last() == ' ');
        lemma_trailing_spaces(f, (m - 1) as nat);
    } else {
        assert(f + spaces(0) == f);
    }
}

/// A man-page line that is a flag (`-` then `-` or a letter) counts as a
/// flag line exactly when it is indented by 2 to 12 spaces, however many
/// spaces follow it.
pub proof fn law_flag_line_indent(k: nat, f: Seq<char>, m: nat)
    requires
        f.len() >= 2,
        f[0] == '-',
        f[1] == '-' || ('a' <= f[1] <= 'z') || ('A' <= f[1] <= 'Z'),
        !is_ws(f.last()),
    ensures
        looks_like_flag(spaces(k) + f + spaces(m)) <==> 2 <= k <= 12,
{
    let line = spaces(k) + f + spaces(m);
    let fr = f + spaces(m);
    assert(line == spaces(k) + fr);
    assert(fr[0] == '-');
    lemma_spaces(k, fr);
    lemma_utf8_len_append(spaces(k), fr);
    lemma_trailing_spaces(f, m);
    assert(trim(line) == f);
}

} // verus!
