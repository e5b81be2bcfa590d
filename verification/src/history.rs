//! Reading shell history: the commands of a history file, newest first.

use vstd::prelude::*;
use crate::text::lines;
use crate::text::lines_of;
use crate::text::seqs_of;
use crate::text::chars_of;
use crate::text::string_of_range;
use crate::text::trim;
use crate::text::is_ws;
use crate::text::trim_end;
use crate::text::trim_start;
use crate::text::trim_end_char;
use crate::text::trim_bounds;
use crate::text::trim_end_char_bound;

verus! {

/// The index of the first `c` in `s`, if any.
pub open spec fn find_char(s: Seq<char>, c: char) -> Option<nat>
    decreases s.len(),
{
    if s.len() == 0 {
        None
    } else if s[0] == c {
        Some(0)
    } else {
        match find_char(s.drop_first(), c) {
            Some(k) => Some(k + 1),
            None => None,
        }
    }
}

/// A history line with trailing backslashes and surrounding whitespace
/// removed, and without the zsh extended-history prefix `: 1234567890:0;`.
pub open spec fn parse_line_spec(line: Seq<char>) -> Seq<char> {
    let t = trim(trim_end_char(line, '\\'));
    if t.len() > 0 && t[0] == ':' {
        match find_char(t.drop_first(), ';') {
            Some(k) => trim(t.drop_first().skip(k + 1int)),
            None => t,
        }
    } else {
        t
    }
}

proof fn lemma_find_char_skip(s: Seq<char>, c: char, i: int)
    requires
        0 <= i <= s.len(),
        forall|j: int| 0 <= j < i ==> #[trigger] s[j] != c,
    ensures
        find_char(s, c) == match find_char(s.skip(i), c) {
            Some(k) => Some((k + i) as nat),
            None => None,
        },
    decreases i,
{
    if i > 0 {
        assert(s.drop_first().skip(i - 1) == s.skip(i));
        assert forall|j: int| 0 <= j < i - 1 implies #[trigger] s.drop_first()[j] != c by {
            assert(s.drop_first()[j] == s[j + 1]);
        }
        lemma_find_char_skip(s.drop_first(), c, i - 1);
        assert(s[0] != c);
    } else {
        assert(s.skip(0) == s);
    }
}

/// The first index in `v[from..to]` holding `c`, or `to`.
fn find_in(v: &Vec<char>, from: usize, to: usize, c: char) -> (k: usize)
    requires
        from <= to <= v@.len(),
    ensures
        from <= k <= to,
        find_char(v@.subrange(from as int, to as int), c) == if k < to {
            Some((k - from) as nat)
        } else {
            None::<nat>
        },
{
    let ghost s = v@.subrange(from as int, to as int);
    let mut k: usize = from;
    while k < to && v[k] != c
        invariant
            from <= k <= to <= v@.len(),
            s == v@.subrange(from as int, to as int),
            forall|j: int| 0 <= j < k - from ==> #[trigger] s[j] != c,
        decreases to - k,
    {
        k = k + 1;
    }
    proof {
        lemma_find_char_skip(s, c, k - from);
        assert(s.skip(k - from) == v@.subrange(k as int, to as int));
    }
    k
}

/// The bounds in `v` of the command that the history line `v` holds.
fn parse_line_bounds(v: &Vec<char>) -> (r: (usize, usize))
    ensures
        r.0 <= r.1 <= v@.len(),
        v@.subrange(r.0 as int, r.1 as int) == parse_line_spec(v@),
{
    let e = trim_end_char_bound(v, 0, v.len(), '\\');
    assert(v@.subrange(0, v@.len() as int) == v@);
    let (a, b) = trim_bounds(v, 0, e);
    let ghost t = v@.subrange(a as int, b as int);
    if a < b && v[a] == ':' {
        let k = find_in(v, a + 1, b, ';');
        assert(t.drop_first() == v@.subrange(a + 1, b as int));
        if k < b {
            let (c, d) = trim_bounds(v, k + 1, b);
            assert(t.drop_first().skip(k - a) == v@.subrange(k + 1, b as int));
            return (c, d);
        }
    }
    (a, b)
}

/// Strip the zsh extended-history prefix ": 1234567890:0;" if present.
pub fn parse_line(line: &str) -> (r: String)
    ensures
        r@ == parse_line_spec(line@),
{
    let v = chars_of(line);
    let (a, b) = parse_line_bounds(&v);
    string_of_range(&v, a, b)
}

/// The non-empty commands of `cmds` with consecutive duplicates collapsed.
pub open spec fn dedupe_nonempty(cmds: Seq<Seq<char>>) -> Seq<Seq<char>>
    decreases cmds.len(),
{
    if cmds.len() == 0 {
        seq![]
    } else {
        let prev = dedupe_nonempty(cmds.drop_last());
        let c = cmds.last();
        if c.len() == 0 || (prev.len() > 0 && prev.last() == c) {
            prev
        } else {
            prev.push(c)
        }
    }
}

/// `s` in reverse order.
pub open spec fn reversed<A>(s: Seq<A>) -> Seq<A> {
    Seq::new(s.len(), |i: int| s[s.len() - 1 - i])
}

/// The command of each line of `raw`.
pub open spec fn parsed_lines(raw: Seq<char>) -> Seq<Seq<char>> {
    lines(raw).map_values(|l: Seq<char>| parse_line_spec(l))
}

/// The commands of the history text `raw`, newest first, consecutive
/// duplicates collapsed, at most `limit` of them.
pub open spec fn history_entries(raw: Seq<char>, limit: nat) -> Seq<Seq<char>> {
    let d = reversed(dedupe_nonempty(parsed_lines(raw)));
    if limit < d.len() {
        d.take(limit as int)
    } else {
        d
    }
}

/// The views of a sequence of strings.
pub open spec fn strings_of(v: Seq<String>) -> Seq<Seq<char>> {
    v.map_values(|s: String| s@)
}

/// The commands of the history text `raw` (the contents of a history file),
/// newest first: zsh prefixes stripped, empty lines skipped, consecutive
/// duplicates collapsed, at most `limit` entries.
pub fn entries_from_text(raw: &str, limit: usize) -> (r: Vec<String>)
    ensures
        strings_of(r@) == history_entries(raw@, limit as nat),
{
    let ls = lines_of(raw);
    let ghost parsed = parsed_lines(raw@);
    let mut out: Vec<String> = Vec::new();
    let mut i: usize = 0;
    while i < ls.len()
        invariant
            i <= ls@.len(),
            seqs_of(ls@) == lines(raw@),
            parsed == parsed_lines(raw@),
            strings_of(out@) == dedupe_nonempty(parsed.take(i as int)),
        decreases ls@.len() - i,
    {
        let (a, b) = parse_line_bounds(&ls[i]);
        proof {
            assert(parsed.take(i + 1).drop_last() == parsed.take(i as int));
            assert(parsed.take(i + 1).last() == parsed[i as int]);
            assert(parsed[i as int] == parse_line_spec(ls@[i as int]@));
        }
        if a < b {
            let cmd = string_of_range(&ls[i], a, b);
            let n = out.len();
            let dup = n > 0 && out[n - 1] == cmd;
            if !dup {
                let ghost before = out@;
                let ghost cv = cmd@;
                out.push(cmd);
                assert(strings_of(out@) == strings_of(before).push(cv));
            }
        }
        i = i + 1;
    }
    assert(parsed.take(ls@.len() as int) == parsed);
    let ghost d = dedupe_nonempty(parsed);
    // Most recent last; take from the end so that the newest comes first.
    let mut res: Vec<String> = Vec::new();
    while res.len() < limit && out.len() > 0
        invariant
            strings_of(out@) == d.take(out@.len() as int),
            out@.len() <= d.len(),
            strings_of(res@) == reversed(d).take(d.len() - out@.len()),
            res@.len() == d.len() - out@.len(),
            res@.len() <= limit,
        decreases out@.len(),
    {
        let ghost before_out = out@;
        let ghost before_res = res@;
        let x = out.pop().unwrap();
        proof {
            assert(x@ == strings_of(before_out)[before_out.len() - 1]);
        }
        res.push(x);
        proof {
            assert(strings_of(out@) == strings_of(before_out).drop_last());
            assert(d.take(out@.len() as int) == d.take(before_out.len() as int).drop_last());
            assert(strings_of(res@) == strings_of(before_res).push(x@));
            assert(reversed(d).take(d.len() - out@.len()) == reversed(d).take(
                d.len() - before_out.len(),
            ).push(reversed(d)[d.len() - before_out.len()]));
        }
    }
    proof {
        if out@.len() == 0 {
            assert(reversed(d).take(d.len() as int) == reversed(d));
        }
    }
    res
}

/// The history entries hold no empty command and no two equal neighbours,
/// and there are at most `limit` of them.
pub proof fn law_history_entries_shape(raw: Seq<char>, limit: nat)
    ensures
        history_entries(raw, limit).len() <= limit,
        forall|i: int|
            0 <= i < history_entries(raw, limit).len() ==> (#[trigger] history_entries(
                raw,
                limit,
            )[i]).len() > 0,
        forall|i: int|
            0 <= i < history_entries(raw, limit).len() - 1 ==> #[trigger] history_entries(
                raw,
                limit,
            )[i] != history_entries(raw, limit)[i + 1],
{
    let parsed = parsed_lines(raw);
    lemma_dedupe_shape(parsed);
    let d = dedupe_nonempty(parsed);
    let e = history_entries(raw, limit);
    assert forall|i: int| 0 <= i < e.len() implies (#[trigger] e[i]).len() > 0 by {
        assert(e[i] == d[d.len() - 1 - i]);
    }
    assert forall|i: int| 0 <= i < e.len() - 1 implies #[trigger] e[i] != e[i + 1] by {
        assert(e[i] == d[d.len() - 1 - i]);
        assert(e[i + 1] == d[d.len() - 2 - i]);
    }
}

proof fn lemma_dedupe_shape(cmds: Seq<Seq<char>>)
    ensures
        forall|i: int|
            0 <= i < dedupe_nonempty(cmds).len() ==> (#[trigger] dedupe_nonempty(cmds)[i]).len()
                > 0,
        forall|i: int|
            0 <= i < dedupe_nonempty(cmds).len() - 1 ==> #[trigger] dedupe_nonempty(cmds)[i]
                != dedupe_nonempty(cmds)[i + 1],
    decreases cmds.len(),
{
    if cmds.len() > 0 {
        lemma_dedupe_shape(cmds.drop_last());
        let prev = dedupe_nonempty(cmds.drop_last());
        let r = dedupe_nonempty(cmds);
        assert forall|i: int| 0 <= i < r.len() implies (#[trigger] r[i]).len() > 0 by {
            if i < prev.len() {
                assert(r[i] == prev[i]);
            }
        }
        assert forall|i: int| 0 <= i < r.len() - 1 implies #[trigger] r[i] != r[i + 1] by {
            if i + 1 < prev.len() {
                assert(r[i] == prev[i]);
                assert(r[i + 1] == prev[i + 1]);
            } else {
                assert(r[i] == prev.last());
            }
        }
    }
}

/// A history line whose text (trailing backslashes and surrounding
/// whitespace removed) does not start with `:` carries no zsh prefix: that
/// text is the command, semicolons and all.
pub proof fn law_unprefixed_line_kept(line: Seq<char>)
    requires
        trim(trim_end_char(line, '\\')).len() == 0 || trim(trim_end_char(line, '\\'))[0] != ':',
    ensures
        parse_line_spec(line) == trim(trim_end_char(line, '\\')),
{
}

proof fn lemma_find_first(m: Seq<char>, r: Seq<char>, c: char)
    requires
        forall|i: int| 0 <= i < m.len() ==> #[trigger] m[i] != c,
    ensures
        find_char(m + seq![c] + r, c) == Some(m.len()),
    decreases m.len(),
{
    let s = m + seq![c] + r;
    if m.len() == 0 {
        assert(s[0] == c);
    } else {
        assert(s.drop_first() == m.drop_first() + seq![c] + r);
        assert forall|i: int| 0 <= i < m.drop_first().len() implies #[trigger] m.drop_first()[i]
            != c by {
            assert(m.drop_first()[i] == m[i + 1]);
        }
        lemma_find_first(m.drop_first(), r, c);
        assert(s[0] == m[0]);
    }
}

proof fn lemma_trim_fixed(s: Seq<char>)
    requires
        s.len() > 0,
        !is_ws(s[0]),
        !is_ws(s.last()),
    ensures
        trim(s) == s,
{
    assert(trim_start(s) == s);
    assert(trim_end(s) == s);
}

/// A zsh extended-history line `:<meta>;<command>` (the meta part holding no
/// `;`, the command with no surrounding whitespace and not ending in a
/// backslash) gives the command.
pub proof fn law_zsh_prefix_stripped(meta: Seq<char>, cmd: Seq<char>)
    requires
        forall|i: int| 0 <= i < meta.len() ==> #[trigger] meta[i] != ';',
        cmd.len() > 0,
        !is_ws(cmd[0]),
        !is_ws(cmd.last()),
        cmd.last() != '\\',
    ensures
        parse_line_spec(seq![':'] + meta + seq![';'] + cmd) == cmd,
{
    let l = seq![':'] + meta + seq![';'] + cmd;
    assert(l.last() == cmd.last());
    assert(trim_end_char(l, '\\') == l);
    assert(l[0] == ':');
    lemma_trim_fixed(l);
    assert(l.drop_first() == meta + seq![';'] + cmd);
    lemma_find_first(meta, cmd, ';');
    assert(l.drop_first().skip(meta.len() + 1int) == cmd);
    lemma_trim_fixed(cmd);
}

proof fn lemma_dedupe_last(cmds: Seq<Seq<char>>, k: int)
    requires
        0 <= k < cmds.len(),
        cmds[k].len() > 0,
        forall|j: int| k < j < cmds.len() ==> (#[trigger] cmds[j]).len() == 0,
    ensures
        dedupe_nonempty(cmds).len() > 0,
        dedupe_nonempty(cmds).last() == cmds[k],
    decreases cmds.len(),
{
    if k < cmds.len() - 1 {
        let q = cmds.drop_last();
        assert(cmds.last().len() == 0);
        assert forall|j: int| k < j < q.len() implies (#[trigger] q[j]).len() == 0 by {
            assert(q[j] == cmds[j]);
        }
        lemma_dedupe_last(q, k);
    }
}

/// The newest command comes first: when the history holds any command, the
/// first entry is the command of its last line that has one.
pub proof fn law_newest_entry_first(raw: Seq<char>, limit: nat, k: int)
    requires
        limit > 0,
        0 <= k < parsed_lines(raw).len(),
        parsed_lines(raw)[k].len() > 0,
        forall|j: int|
            k < j < parsed_lines(raw).len() ==> (#[trigger] parsed_lines(raw)[j]).len() == 0,
    ensures
        history_entries(raw, limit).len() > 0,
        history_entries(raw, limit)[0] == parsed_lines(raw)[k],
{
    let ps = parsed_lines(raw);
    lemma_dedupe_last(ps, k);
    let d = dedupe_nonempty(ps);
    assert(reversed(d)[0] == d.last());
}

} // verus!
