//! Character-level helpers shared by the tokenizer and the line parsers:
//! whitespace, trimming, line and word splitting, and string building.

use vstd::prelude::*;

verus! {

broadcast use vstd::string::group_string_axioms;

// ───────────────────────────── whitespace ─────────────────────────────

/// The characters with the Unicode `White_Space` property, which is the set
/// that `char::is_whitespace`, `str::trim` and `str::split_whitespace` use.
pub open spec fn is_ws(c: char) -> bool {
    ||| ('\t' <= c && c <= '\r')
    ||| c == ' '
    ||| c == '\u{85}'
    ||| c == '\u{a0}'
    ||| c == '\u{1680}'
    ||| ('\u{2000}' <= c && c <= '\u{200a}')
    ||| c == '\u{2028}'
    ||| c == '\u{2029}'
    ||| c == '\u{202f}'
    ||| c == '\u{205f}'
    ||| c == '\u{3000}'
}

/// Whether `c` is Unicode whitespace.
pub fn is_whitespace(c: char) -> (r: bool)
    ensures
        r == is_ws(c),
{
    ('\t' <= c && c <= '\r') || c == ' ' || c == '\u{85}' || c == '\u{a0}' || c == '\u{1680}'
        || ('\u{2000}' <= c && c <= '\u{200a}') || c == '\u{2028}' || c == '\u{2029}' || c
        == '\u{202f}' || c == '\u{205f}' || c == '\u{3000}'
}

// ───────────────────────────── strings ─────────────────────────────

/// Copies the characters of `s` into a vector.
pub fn chars_of(s: &str) -> (v: Vec<char>)
    ensures
        v@ == s@,
{
    let mut v: Vec<char> = Vec::new();
    for c in it: s.chars()
        invariant
            v@ == it.seq().take(it.index() as int),
    {
        v.push(c);
    }
    v
}

/// Calls `String::push`, which appends one character at the end of the string.
#[verifier::external_body]
pub(crate) fn push_char(s: &mut String, c: char)
    ensures
        final(s)@ == old(s)@.push(c),
{
    s.push(c);
}

/// Builds a string from the characters `v[from..to]`.
pub fn string_of_range(v: &Vec<char>, from: usize, to: usize) -> (s: String)
    requires
        from <= to <= v@.len(),
    ensures
        s@ == v@.subrange(from as int, to as int),
{
    let mut s = String::new();
    let mut i: usize = from;
    while i < to
        invariant
            from <= i <= to <= v@.len(),
            s@ == v@.subrange(from as int, i as int),
        decreases to - i,
    {
        push_char(&mut s, v[i]);
        i = i + 1;
        assert(v@.subrange(from as int, i as int) == v@.subrange(from as int, i - 1).push(
            v@[i - 1],
        ));
    }
    s
}

/// Builds a string holding exactly the characters of `v`.
pub fn string_of(v: &Vec<char>) -> (s: String)
    ensures
        s@ == v@,
{
    let s = string_of_range(v, 0, v.len());
    assert(v@.subrange(0, v@.len() as int) == v@);
    s
}

// ───────────────────────────── trimming ─────────────────────────────

/// `s` without its leading whitespace.
pub open spec fn trim_start(s: Seq<char>) -> Seq<char>
    decreases s.len(),
{
    if s.len() > 0 && is_ws(s[0]) {
        trim_start(s.drop_first())
    } else {
        s
    }
}

/// `s` without its trailing whitespace.
pub open spec fn trim_end(s: Seq<char>) -> Seq<char>
    decreases s.len(),
{
    if s.len() > 0 && is_ws(s.last()) {
        trim_end(s.drop_last())
    } else {
        s
    }
}

/// `s` without leading and trailing whitespace, as `str::trim` gives it.
pub open spec fn trim(s: Seq<char>) -> Seq<char> {
    trim_end(trim_start(s))
}

/// `s` without all trailing copies of `c`, as `str::trim_end_matches(c)` gives it.
pub open spec fn trim_end_char(s: Seq<char>, c: char) -> Seq<char>
    decreases s.len(),
{
    if s.len() > 0 && s.last() == c {
        trim_end_char(s.drop_last(), c)
    } else {
        s
    }
}

/// The bounds `(a, b)` such that `v[a..b]` is `v[from..to]` trimmed of whitespace.
pub fn trim_bounds(v: &Vec<char>, from: usize, to: usize) -> (r: (usize, usize))
    requires
        from <= to <= v@.len(),
    ensures
        from <= r.0 <= r.1 <= to,
        v@.subrange(r.0 as int, r.1 as int) == trim(v@.subrange(from as int, to as int)),
{
    let ghost s = v@.subrange(from as int, to as int);
    let mut a: usize = from;
    while a < to && is_whitespace(v[a])
        invariant
            from <= a <= to <= v@.len(),
            s == v@.subrange(from as int, to as int),
            trim_start(s) == trim_start(v@.subrange(a as int, to as int)),
        decreases to - a,
    {
        proof {
            let t = v@.subrange(a as int, to as int);
            assert(t.drop_first() == v@.subrange(a + 1, to as int));
        }
        a = a + 1;
    }
    let ghost t = v@.subrange(a as int, to as int);
    assert(trim_start(t) == t);
    let mut b: usize = to;
    while b > a && is_whitespace(v[b - 1])
        invariant
            a <= b <= to <= v@.len(),
            t == v@.subrange(a as int, to as int),
            trim_end(t) == trim_end(v@.subrange(a as int, b as int)),
        decreases b,
    {
        proof {
            let u = v@.subrange(a as int, b as int);
            assert(u.drop_last() == v@.subrange(a as int, b - 1));
        }
        b = b - 1;
    }
    (a, b)
}

/// The start `a` such that `v[a..to]` is `v[from..to]` without leading whitespace.
pub fn trim_start_bound(v: &Vec<char>, from: usize, to: usize) -> (a: usize)
    requires
        from <= to <= v@.len(),
    ensures
        from <= a <= to,
        v@.subrange(a as int, to as int) == trim_start(v@.subrange(from as int, to as int)),
{
    let ghost s = v@.subrange(from as int, to as int);
    let mut a: usize = from;
    while a < to && is_whitespace(v[a])
        invariant
            from <= a <= to <= v@.len(),
            s == v@.subrange(from as int, to as int),
            trim_start(s) == trim_start(v@.subrange(a as int, to as int)),
        decreases to - a,
    {
        proof {
            let t = v@.subrange(a as int, to as int);
            assert(t.drop_first() == v@.subrange(a + 1, to as int));
        }
        a = a + 1;
    }
    a
}

/// The end `b` such that `v[from..b]` is `v[from..to]` without trailing copies of `c`.
pub fn trim_end_char_bound(v: &Vec<char>, from: usize, to: usize, c: char) -> (b: usize)
    requires
        from <= to <= v@.len(),
    ensures
        from <= b <= to,
        v@.subrange(from as int, b as int) == trim_end_char(
            v@.subrange(from as int, to as int),
            c,
        ),
{
    let ghost s = v@.subrange(from as int, to as int);
    let mut b: usize = to;
    while b > from && v[b - 1] == c
        invariant
            from <= b <= to <= v@.len(),
            s == v@.subrange(from as int, to as int),
            trim_end_char(s, c) == trim_end_char(v@.subrange(from as int, b as int), c),
        decreases b,
    {
        proof {
            let u = v@.subrange(from as int, b as int);
            assert(u.drop_last() == v@.subrange(from as int, b - 1));
        }
        b = b - 1;
    }
    b
}

// ───────────────────────────── lines ─────────────────────────────

/// `l` without one trailing carriage return.
pub open spec fn strip_cr(l: Seq<char>) -> Seq<char> {
    if l.len() > 0 && l.last() == '\r' {
        l.drop_last()
    } else {
        l
    }
}

/// The finished lines of `s` and the unfinished last line.
pub open spec fn lines_fold(s: Seq<char>) -> (Seq<Seq<char>>, Seq<char>)
    decreases s.len(),
{
    if s.len() == 0 {
        (seq![], seq![])
    } else {
        let (ls, cur) = lines_fold(s.drop_last());
        if s.last() == '\n' {
            (ls.push(strip_cr(cur)), seq![])
        } else {
            (ls, cur.push(s.last()))
        }
    }
}

/// The lines of `s` as `str::lines` yields them: split at `\n`, a `\r`
/// just before a `\n` dropped, and no empty line after a final `\n`.
pub open spec fn lines(s: Seq<char>) -> Seq<Seq<char>> {
    let (ls, cur) = lines_fold(s);
    if cur.len() > 0 {
        ls.push(cur)
    } else {
        ls
    }
}

/// The views of a vector of character vectors.
pub open spec fn seqs_of(v: Seq<Vec<char>>) -> Seq<Seq<char>> {
    v.map_values(|l: Vec<char>| l@)
}

/// Splits `s` into lines as `str::lines` does.
pub fn lines_of(s: &str) -> (r: Vec<Vec<char>>)
    ensures
        seqs_of(r@) == lines(s@),
{
    let v = chars_of(s);
    let mut out: Vec<Vec<char>> = Vec::new();
    let mut cur: Vec<char> = Vec::new();
    let mut i: usize = 0;
    while i < v.len()
        invariant
            i <= v@.len(),
            v@ == s@,
            (seqs_of(out@), cur@) == lines_fold(v@.take(i as int)),
        decreases v@.len() - i,
    {
        let c = v[i];
        proof {
            assert(v@.take(i + 1).drop_last() == v@.take(i as int));
        }
        if c == '\n' {
            let mut line = cur;
            let n = line.len();
            if n > 0 && line[n - 1] == '\r' {
                line.pop();
            }
            let ghost before = out@;
            let ghost lv = line@;
            out.push(line);
            cur = Vec::new();
            assert(seqs_of(out@) == seqs_of(before).push(lv));
        } else {
            cur.push(c);
        }
        i = i + 1;
    }
    assert(v@.take(v@.len() as int) == v@);
    if cur.len() > 0 {
        let ghost before = out@;
        let ghost cv = cur@;
        out.push(cur);
        assert(seqs_of(out@) == seqs_of(before).push(cv));
    }
    out
}


// ───────────────────────────── words ─────────────────────────────

/// The finished words of `s` and the unfinished last word.
pub open spec fn words_fold(s: Seq<char>) -> (Seq<Seq<char>>, Seq<char>)
    decreases s.len(),
{
    if s.len() == 0 {
        (seq![], seq![])
    } else {
        let (ws, cur) = words_fold(s.drop_last());
        if is_ws(s.last()) {
            if cur.len() > 0 {
                (ws.push(cur), seq![])
            } else {
                (ws, cur)
            }
        } else {
            (ws, cur.push(s.last()))
        }
    }
}

/// The maximal runs of non-whitespace characters of `s`, as
/// `str::split_whitespace` yields them.
pub open spec fn words(s: Seq<char>) -> Seq<Seq<char>> {
    let (ws, cur) = words_fold(s);
    if cur.len() > 0 {
        ws.push(cur)
    } else {
        ws
    }
}

/// Splits `v[from..to]` at whitespace as `str::split_whitespace` does.
pub fn words_in(v: &Vec<char>, from: usize, to: usize) -> (r: Vec<Vec<char>>)
    requires
        from <= to <= v@.len(),
    ensures
        seqs_of(r@) == words(v@.subrange(from as int, to as int)),
{
    let ghost s = v@.subrange(from as int, to as int);
    let mut out: Vec<Vec<char>> = Vec::new();
    let mut cur: Vec<char> = Vec::new();
    let mut i: usize = from;
    while i < to
        invariant
            from <= i <= to <= v@.len(),
            s == v@.subrange(from as int, to as int),
            (seqs_of(out@), cur@) == words_fold(s.take(i - from)),
        decreases to - i,
    {
        let c = v[i];
        proof {
            assert(s.take(i - from + 1).drop_last() == s.take(i - from));
            assert(s.take(i - from + 1).last() == c);
        }
        if is_whitespace(c) {
            if cur.len() > 0 {
                let ghost before = out@;
                let ghost cv = cur@;
                out.push(cur);
                cur = Vec::new();
                assert(seqs_of(out@) == seqs_of(before).push(cv));
            }
        } else {
            cur.push(c);
        }
        i = i + 1;
    }
    assert(s.take(to - from) == s);
    if cur.len() > 0 {
        let ghost before = out@;
        let ghost cv = cur@;
        out.push(cur);
        assert(seqs_of(out@) == seqs_of(before).push(cv));
    }
    out
}

/// The strings of `ws` joined with one space between neighbours.
pub open spec fn join_spaced(ws: Seq<Seq<char>>) -> Seq<char>
    decreases ws.len(),
{
    if ws.len() == 0 {
        seq![]
    } else if ws.len() == 1 {
        ws[0]
    } else {
        join_spaced(ws.drop_last()) + seq![' '] + ws.last()
    }
}

/// Joins `ws[from..]` with single spaces, as `[&str]::join(" ")` does.
pub fn join_from(ws: &Vec<Vec<char>>, from: usize) -> (s: String)
    requires
        from <= ws@.len(),
    ensures
        s@ == join_spaced(seqs_of(ws@).skip(from as int)),
{
    let mut s = String::new();
    let mut i: usize = from;
    while i < ws.len()
        invariant
            from <= i <= ws@.len(),
            s@ == join_spaced(seqs_of(ws@).subrange(from as int, i as int)),
        decreases ws@.len() - i,
    {
        let ghost prev = seqs_of(ws@).subrange(from as int, i as int);
        let ghost next = seqs_of(ws@).subrange(from as int, i + 1);
        assert(next.drop_last() == prev);
        assert(next.last() == ws@[i as int]@);
        if i > from {
            push_char(&mut s, ' ');
        }
        let w = &ws[i];
        let mut j: usize = 0;
        let ghost base = s@;
        while j < w.len()
            invariant
                j <= w@.len(),
                s@ == base + w@.take(j as int),
            decreases w@.len() - j,
        {
            push_char(&mut s, w[j]);
            j = j + 1;
            assert(w@.take(j as int) == w@.take(j - 1).push(w@[j - 1]));
        }
        assert(w@.take(w@.len() as int) == w@);
        i = i + 1;
    }
    assert(seqs_of(ws@).subrange(from as int, ws@.len() as int) == seqs_of(ws@).skip(from as int));
    s
}

// ───────────────────────────── numbers ─────────────────────────────

/// The decimal digit for `d < 10`.
pub open spec fn digit(d: nat) -> char {
    ((d + 48) as u32) as char
}

/// The decimal representation of `n`, without leading zeros.
pub open spec fn decimal(n: nat) -> Seq<char>
    decreases n,
{
    if n < 10 {
        seq![digit(n)]
    } else {
        decimal(n / 10).push(digit(n % 10))
    }
}

spec fn digit_step(ms: Seq<nat>, rev: Seq<char>, k: int) -> bool {
    ms[k] >= 10 && ms[k + 1] == ms[k] / 10 && rev[k] == digit(ms[k] % 10)
}

fn digit_char(d: usize) -> (c: char)
    requires
        d < 10,
    ensures
        c == digit(d as nat),
{
    let b: u8 = 48 + d as u8;
    b as char
}

/// Formats `n` in decimal, as `n.to_string()` does.
pub fn decimal_string(n: usize) -> (s: String)
    ensures
        s@ == decimal(n as nat),
{
    // Collect the digits least significant first, then reverse them.
    let mut rev: Vec<char> = Vec::new();
    let mut m: usize = n;
    let ghost mut ms: Seq<nat> = seq![n as nat];
    while m >= 10
        invariant
            rev@.len() + 1 == ms.len(),
            ms[0] == n,
            ms.last() == m,
            forall|k: int| 0 <= k < rev@.len() ==> #[trigger] digit_step(ms, rev@, k),
        decreases m,
    {
        let ghost old_ms = ms;
        let ghost old_rev = rev@;
        rev.push(digit_char(m % 10));
        proof {
            ms = ms.push((m / 10) as nat);
            assert forall|k: int| 0 <= k < rev@.len() implies #[trigger] digit_step(ms, rev@, k) by {
                if k < old_rev.len() {
                    assert(digit_step(old_ms, old_rev, k));
                    assert(rev@[k] == old_rev[k]);
                    assert(ms[k] == old_ms[k]);
                    assert(ms[k + 1] == old_ms[k + 1]);
                } else {
                    assert(k == old_rev.len());
                    assert(ms[k] == m);
                    assert(ms[k + 1] == m / 10);
                    assert(rev@[k] == digit((m % 10) as nat));
                }
            }
        }
        m = m / 10;
    }
    let mut out = String::new();
    push_char(&mut out, digit_char(m));
    let mut j: usize = rev.len();
    while j > 0
        invariant
            j <= rev@.len(),
            rev@.len() + 1 == ms.len(),
            ms[0] == n,
            ms.last() == m,
            m < 10,
            forall|k: int| 0 <= k < rev@.len() ==> #[trigger] digit_step(ms, rev@, k),
            out@ == decimal(ms[j as int]),
        decreases j,
    {
        j = j - 1;
        push_char(&mut out, rev[j]);
        assert(digit_step(ms, rev@, j as int));
        assert(decimal(ms[j as int]) == decimal(ms[j + 1]).push(digit(ms[j as int] % 10)));
    }
    out
}

// ───────────────────────────── UTF-8 lengths ─────────────────────────────

/// The number of bytes of `c` in UTF-8.
pub open spec fn utf8_len(c: char) -> nat {
    if (c as u32) < 0x80 {
        1
    } else if (c as u32) < 0x800 {
        2
    } else if (c as u32) < 0x10000 {
        3
    } else {
        4
    }
}

/// The number of bytes of `s` in UTF-8, as `str::len` counts them.
pub open spec fn utf8_len_of(s: Seq<char>) -> nat
    decreases s.len(),
{
    if s.len() == 0 {
        0
    } else {
        utf8_len_of(s.drop_last()) + utf8_len(s.last())
    }
}

pub proof fn lemma_utf8_len_append(a: Seq<char>, b: Seq<char>)
    ensures
        utf8_len_of(a + b) == utf8_len_of(a) + utf8_len_of(b),
    decreases b.len(),
{
    if b.len() == 0 {
        assert(a + b == a);
    } else {
        assert((a + b).drop_last() == a + b.drop_last());
        assert((a + b).last() == b.last());
        lemma_utf8_len_append(a, b.drop_last());
    }
}

/// The UTF-8 length of `v[from..to]`, or `cap` if that is larger.
pub fn utf8_len_capped(v: &Vec<char>, from: usize, to: usize, cap: usize) -> (n: usize)
    requires
        from <= to <= v@.len(),
    ensures
        n == if utf8_len_of(v@.subrange(from as int, to as int)) < cap {
            utf8_len_of(v@.subrange(from as int, to as int))
        } else {
            cap as nat
        },
{
    let mut n: usize = 0;
    let mut i: usize = from;
    while i < to
        invariant
            from <= i <= to <= v@.len(),
            n == if utf8_len_of(v@.subrange(from as int, i as int)) < cap {
                utf8_len_of(v@.subrange(from as int, i as int))
            } else {
                cap as nat
            },
        decreases to - i,
    {
        let c = v[i];
        let l: usize = if (c as u32) < 0x80 {
            1
        } else if (c as u32) < 0x800 {
            2
        } else if (c as u32) < 0x10000 {
            3
        } else {
            4
        };
        proof {
            assert(v@.subrange(from as int, i + 1).drop_last() == v@.subrange(from as int, i as int));
        }
        if n < cap {
            if cap - n > l {
                n = n + l;
            } else {
                n = cap;
            }
        }
        i = i + 1;
    }
    n
}

} // verus!
