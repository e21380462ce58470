//! The text format that persists a cache snapshot.
//!
//! A snapshot is rendered as the capacity in decimal on the first line,
//! followed by one `key;value` line per entry, oldest first.  Parsing splits
//! the text into lines, accepting `\r\n` as a line ending too (the carriage
//! return is dropped only there; one not followed by `\n` stays part of the
//! line), reads the first line as the capacity — falling back to `0` when
//! it is absent or not a numeral — and
//! splits every further line at its first `;`; a line without `;` is
//! dropped.  The format cannot escape anything, so a key that contains `;`
//! or a line break, or a value that contains a line break, does not survive
//! a round trip; the round-trip law states exactly that constraint.

use vstd::prelude::*;
use vstd::string::{StrSliceExecFns, StringExecFns};

use crate::storage::decimal::{
    dec_rep, is_digit, lemma_parse_dec_rep, parse_usize, parse_usize_spec, usize_to_dec,
};

verus! {

/// The index of the first occurrence of `c` in `s`, or `s.len()` if there
/// is none.
pub open spec fn find_ch(s: Seq<char>, c: char) -> int
    decreases s.len(),
{
    if s.len() == 0 {
        0
    } else if s[0] == c {
        0
    } else {
        1 + find_ch(s.skip(1), c)
    }
}

/// What `find_ch` finds: the first occurrence of `c`, if any.
pub proof fn lemma_find_ch(s: Seq<char>, c: char)
    ensures
        0 <= find_ch(s, c) <= s.len(),
        forall|j: int| 0 <= j < find_ch(s, c) ==> s[j] != c,
        find_ch(s, c) < s.len() ==> s[find_ch(s, c)] == c,
    decreases s.len(),
{
    if s.len() > 0 && s[0] != c {
        lemma_find_ch(s.skip(1), c);
        assert forall|j: int| 0 <= j < find_ch(s, c) implies s[j] != c by {
            if j >= 1 {
                assert(s.skip(1)[j - 1] != c);
            }
        }
    }
}

/// Any index with the first-occurrence property is the one `find_ch` gives.
pub proof fn lemma_find_ch_unique(s: Seq<char>, c: char, i: int)
    requires
        0 <= i <= s.len(),
        forall|j: int| 0 <= j < i ==> s[j] != c,
        i < s.len() ==> s[i] == c,
    ensures
        find_ch(s, c) == i,
{
    lemma_find_ch(s, c);
    let f = find_ch(s, c);
    if f < i {
        assert(s[f] == c);
    } else if f > i {
        assert(s[i] != c);
    }
}

/// In `x + [c] + y` with no `c` in `x`, the first `c` is the middle one.
pub proof fn lemma_find_ch_boundary(x: Seq<char>, y: Seq<char>, c: char)
    requires
        !x.contains(c),
    ensures
        find_ch(x + seq![c] + y, c) == x.len(),
{
    let s = x + seq![c] + y;
    assert(s[x.len() as int] == c);
    assert forall|j: int| 0 <= j < x.len() implies s[j] != c by {
        assert(s[j] == x[j]);
        if s[j] == c {
            assert(x.contains(c));
        }
    }
    lemma_find_ch_unique(s, c, x.len() as int);
}

/// A newline-terminated piece as the line splitter delivers it: without a
/// trailing carriage return.
pub open spec fn strip_cr(line: Seq<char>) -> Seq<char> {
    if line.len() > 0 && line.last() == '\r' {
        line.drop_last()
    } else {
        line
    }
}

/// The lines of `s`: pieces between `\n` characters, each with a trailing
/// carriage return dropped (so `\r\n` also ends a line); a final piece
/// after the last `\n` only if it is not empty, kept whole — a `\r` not
/// followed by `\n` belongs to the line.
pub open spec fn spec_lines(s: Seq<char>) -> Seq<Seq<char>>
    decreases s.len(),
    via spec_lines_dec
{
    if s.len() == 0 {
        Seq::empty()
    } else {
        let i = find_ch(s, '\n');
        if i == s.len() {
            seq![s]
        } else {
            seq![strip_cr(s.take(i))] + spec_lines(s.skip(i + 1))
        }
    }
}

#[via_fn]
proof fn spec_lines_dec(s: Seq<char>) {
    lemma_find_ch(s, '\n');
}

/// What one line contributes when loading: the pieces before and after its
/// first `;`, or nothing for a line without `;`.
pub open spec fn spec_entry(line: Seq<char>) -> Option<(Seq<char>, Seq<char>)> {
    let i = find_ch(line, ';');
    if i == line.len() {
        None
    } else {
        Some((line.take(i), line.skip(i + 1)))
    }
}

/// The entries the lines contribute, in line order, lines without `;`
/// dropped.
pub open spec fn spec_entries(lines: Seq<Seq<char>>) -> Seq<(Seq<char>, Seq<char>)>
    decreases lines.len(),
{
    if lines.len() == 0 {
        Seq::empty()
    } else {
        match spec_entry(lines[0]) {
            Some(p) => seq![p] + spec_entries(lines.skip(1)),
            None => spec_entries(lines.skip(1)),
        }
    }
}

/// The capacity a file content denotes: its first line as a decimal
/// numeral, or `0` when there is no line or the line is no numeral.
pub open spec fn parse_capacity_spec(content: Seq<char>) -> nat {
    let lines = spec_lines(content);
    if lines.len() == 0 {
        0
    } else {
        match parse_usize_spec(lines[0]) {
            Some(v) => v,
            None => 0,
        }
    }
}

/// The entries a file content denotes: those of all lines after the first.
pub open spec fn parse_entries_spec(content: Seq<char>) -> Seq<(Seq<char>, Seq<char>)> {
    let lines = spec_lines(content);
    if lines.len() == 0 {
        Seq::empty()
    } else {
        spec_entries(lines.skip(1))
    }
}

/// The line an entry is rendered as.
pub open spec fn line_of(p: (Seq<char>, Seq<char>)) -> Seq<char> {
    p.0 + seq![';'] + p.1
}

/// The rendered lines of the entries, each terminated by `\n`.
pub open spec fn render_entries(entries: Seq<(Seq<char>, Seq<char>)>) -> Seq<char>
    decreases entries.len(),
{
    if entries.len() == 0 {
        Seq::empty()
    } else {
        line_of(entries[0]) + seq!['\n'] + render_entries(entries.skip(1))
    }
}

/// The rendered file content: the capacity line, then the entry lines.
pub open spec fn render_spec(cap: nat, entries: Seq<(Seq<char>, Seq<char>)>) -> Seq<char> {
    dec_rep(cap) + seq!['\n'] + render_entries(entries)
}

/// An entry the format can carry faithfully: no `;` or line break in the
/// key, no line break in the value, and no trailing carriage return that
/// the line splitter would drop.
pub open spec fn storable(p: (Seq<char>, Seq<char>)) -> bool {
    &&& !p.0.contains(';')
    &&& !p.0.contains('\n')
    &&& !p.1.contains('\n')
    &&& (p.1.len() > 0 ==> p.1.last() != '\r')
}

/// Splitting off a `\n`-terminated first line that contains no `\n` and no
/// trailing `\r` leaves exactly that line and the lines of the rest.
proof fn lemma_lines_head(head: Seq<char>, rest: Seq<char>)
    requires
        !head.contains('\n'),
        head.len() > 0 ==> head.last() != '\r',
    ensures
        spec_lines(head + seq!['\n'] + rest) == seq![head] + spec_lines(rest),
{
    let s = head + seq!['\n'] + rest;
    lemma_find_ch_boundary(head, rest, '\n');
    assert(find_ch(s, '\n') == head.len());
    assert(s.take(head.len() as int) =~= head);
    assert(s.skip(head.len() as int + 1) =~= rest);
    assert(strip_cr(head) == head);
    assert(spec_lines(s) =~= seq![head] + spec_lines(rest));
}

/// A storable entry's line holds no `\n` and no trailing `\r`.
proof fn lemma_line_of_storable(p: (Seq<char>, Seq<char>))
    requires
        storable(p),
    ensures
        !line_of(p).contains('\n'),
        line_of(p).len() > 0,
        line_of(p).last() != '\r',
{
    let l = line_of(p);
    assert forall|j: int| 0 <= j < l.len() implies l[j] != '\n' by {
        if j < p.0.len() {
            assert(l[j] == p.0[j]);
            if l[j] == '\n' {
                assert(p.0.contains('\n'));
            }
        } else if j == p.0.len() {
            assert(l[j] == ';');
        } else {
            assert(l[j] == p.1[j - p.0.len() - 1]);
            if l[j] == '\n' {
                assert(p.1.contains('\n'));
            }
        }
    }
    if l.contains('\n') {
        let w = choose|j: int| 0 <= j < l.len() && l[j] == '\n';
        assert(false);
    }
    if p.1.len() > 0 {
        assert(l.last() == p.1.last());
    } else {
        assert(l.last() == ';');
    }
}

/// The rendered entry lines split back into exactly those lines.
proof fn lemma_lines_of_render(entries: Seq<(Seq<char>, Seq<char>)>)
    requires
        forall|i: int| 0 <= i < entries.len() ==> storable(#[trigger] entries[i]),
    ensures
        spec_lines(render_entries(entries)) == entries.map_values(|p: (Seq<char>, Seq<char>)| line_of(p)),
    decreases entries.len(),
{
    let f = |p: (Seq<char>, Seq<char>)| line_of(p);
    if entries.len() == 0 {
        assert(spec_lines(render_entries(entries)) =~= entries.map_values(f));
    } else {
        let p = entries[0];
        lemma_line_of_storable(p);
        lemma_lines_head(line_of(p), render_entries(entries.skip(1)));
        lemma_lines_of_render(entries.skip(1));
        assert(entries.skip(1).map_values(f) =~= entries.map_values(f).skip(1));
        assert(spec_lines(render_entries(entries)) =~= entries.map_values(f));
    }
}

/// A storable entry's line parses back to the entry.
proof fn lemma_entry_of_line(p: (Seq<char>, Seq<char>))
    requires
        !p.0.contains(';'),
    ensures
        spec_entry(line_of(p)) == Some(p),
{
    let l = line_of(p);
    lemma_find_ch_boundary(p.0, p.1, ';');
    assert(l.take(p.0.len() as int) =~= p.0);
    assert(l.skip(p.0.len() as int + 1) =~= p.1);
}

/// The rendered entry lines parse back to exactly the entries.
proof fn lemma_entries_of_lines(entries: Seq<(Seq<char>, Seq<char>)>)
    requires
        forall|i: int| 0 <= i < entries.len() ==> !(#[trigger] entries[i]).0.contains(';'),
    ensures
        spec_entries(entries.map_values(|p: (Seq<char>, Seq<char>)| line_of(p))) == entries,
    decreases entries.len(),
{
    let f = |p: (Seq<char>, Seq<char>)| line_of(p);
    let lines = entries.map_values(f);
    if entries.len() == 0 {
        assert(spec_entries(lines) =~= entries);
    } else {
        lemma_entry_of_line(entries[0]);
        assert(lines[0] == line_of(entries[0]));
        lemma_entries_of_lines(entries.skip(1));
        assert(lines.skip(1) =~= entries.skip(1).map_values(f));
        assert(spec_entries(lines) =~= entries);
    }
}

/// Round trip: rendering a capacity and storable entries and parsing the
/// result yields the same capacity and exactly the same entries, in order.
pub proof fn lemma_render_parse_round_trip(cap: nat, entries: Seq<(Seq<char>, Seq<char>)>)
    requires
        cap <= usize::MAX,
        forall|i: int| 0 <= i < entries.len() ==> storable(#[trigger] entries[i]),
    ensures
        parse_capacity_spec(render_spec(cap, entries)) == cap,
        parse_entries_spec(render_spec(cap, entries)) == entries,
{
    let head = dec_rep(cap);
    crate::storage::decimal::lemma_dec_rep_value(cap);
    assert forall|j: int| 0 <= j < head.len() implies head[j] != '\n' && head[j] != '\r' by {
        assert(is_digit(head[j]));
    }
    if head.contains('\n') {
        let w = choose|j: int| 0 <= j < head.len() && head[j] == '\n';
        assert(false);
    }
    lemma_lines_head(head, render_entries(entries));
    lemma_lines_of_render(entries);
    let lines = spec_lines(render_spec(cap, entries));
    assert(lines[0] == head);
    lemma_parse_dec_rep(cap);
    assert(lines.skip(1) =~= entries.map_values(|p: (Seq<char>, Seq<char>)| line_of(p)));
    lemma_entries_of_lines(entries);
}

/// Appending one entry appends its rendered line.
proof fn lemma_render_entries_push(u: Seq<(Seq<char>, Seq<char>)>, p: (Seq<char>, Seq<char>))
    ensures
        render_entries(u.push(p)) == render_entries(u) + line_of(p) + seq!['\n'],
    decreases u.len(),
{
    if u.len() == 0 {
        reveal_with_fuel(render_entries, 2);
        assert(u.push(p).skip(1) =~= Seq::<(Seq<char>, Seq<char>)>::empty());
        assert(render_entries(u.push(p)) =~= render_entries(u) + line_of(p) + seq!['\n']);
    } else {
        assert(u.push(p).skip(1) =~= u.skip(1).push(p));
        lemma_render_entries_push(u.skip(1), p);
        assert(render_entries(u.push(p)) =~= render_entries(u) + line_of(p) + seq!['\n']);
    }
}

/// Appending one line appends what it contributes.
proof fn lemma_spec_entries_push(u: Seq<Seq<char>>, l: Seq<char>)
    ensures
        spec_entries(u.push(l)) == spec_entries(u) + (match spec_entry(l) {
            Some(p) => seq![p],
            None => Seq::<(Seq<char>, Seq<char>)>::empty(),
        }),
    decreases u.len(),
{
    let tail = (match spec_entry(l) {
        Some(p) => seq![p],
        None => Seq::<(Seq<char>, Seq<char>)>::empty(),
    });
    if u.len() == 0 {
        reveal_with_fuel(spec_entries, 2);
        assert(u.push(l).skip(1) =~= Seq::<Seq<char>>::empty());
        assert(spec_entries(u.push(l)) =~= spec_entries(u) + tail);
    } else {
        assert(u.push(l).skip(1) =~= u.skip(1).push(l));
        lemma_spec_entries_push(u.skip(1), l);
        assert(spec_entries(u.push(l)) =~= spec_entries(u) + tail);
    }
}

/// The index of the first occurrence of `c` in `s` at or after `from`, or
/// the length of `s` if there is none.
fn find_from(s: &str, from: usize, c: char) -> (j: usize)
    requires
        from <= s@.len(),
    ensures
        from <= j <= s@.len(),
        forall|t: int| from <= t < j ==> s@[t] != c,
        j < s@.len() ==> s@[j as int] == c,
{
    let n = s.unicode_len();
    let mut j = from;
    while j < n
        invariant
            from <= j <= n,
            n == s@.len(),
            forall|t: int| from <= t < j ==> s@[t] != c,
        decreases n - j,
    {
        if s.get_char(j) == c {
            return j;
        }
        j = j + 1;
    }
    j
}

/// The line separator.
fn newline_literal() -> (s: &'static str)
    ensures
        s@ == seq!['\n'],
{
    proof {
        reveal_strlit("\n");
    }
    "\n"
}

/// The key-value separator.
fn semicolon_literal() -> (s: &'static str)
    ensures
        s@ == seq![';'],
{
    proof {
        reveal_strlit(";");
    }
    ";"
}

/// The lines of `content`, as [`spec_lines`] describes them.
fn split_lines(content: &str) -> (lines: Vec<String>)
    ensures
        lines.deep_view() == spec_lines(content@),
{
    let n = content.unicode_len();
    let mut lines: Vec<String> = Vec::new();
    let mut pos: usize = 0;
    proof {
        assert(lines.deep_view() =~= Seq::<Seq<char>>::empty());
        assert(content@.skip(0) =~= content@);
        assert(Seq::<Seq<char>>::empty() + spec_lines(content@) =~= spec_lines(content@));
    }
    while pos < n
        invariant
            pos <= n,
            n == content@.len(),
            spec_lines(content@) == lines.deep_view() + spec_lines(content@.skip(pos as int)),
        decreases n - pos,
    {
        let ghost su = content@.skip(pos as int);
        let j = find_from(content, pos, '\n');
        proof {
            assert forall|t: int| 0 <= t < j - pos implies su[t] != '\n' by {
                assert(su[t] == content@[t + pos]);
            }
            if j < n {
                assert(su[j - pos] == content@[j as int]);
            }
            lemma_find_ch_unique(su, '\n', j - pos);
        }
        let end = if j < n && j > pos && content.get_char(j - 1) == '\r' {
            j - 1
        } else {
            j
        };
        let piece = content.substring_char(pos, end);
        let owned = String::from_str(piece);
        let ghost old_lines = lines.deep_view();
        lines.push(owned);
        proof {
            assert(lines.deep_view() =~= old_lines.push(piece@));
            if j == n {
                assert(su.len() > 0);
                assert(find_ch(su, '\n') == su.len());
                assert(su =~= content@.subrange(pos as int, end as int));
                assert(spec_lines(su) == seq![su]);
                assert(content@.skip(n as int) =~= Seq::<char>::empty());
                assert(old_lines.push(piece@) + spec_lines(content@.skip(n as int)) =~= old_lines
                    + spec_lines(content@.skip(pos as int)));
            } else {
                assert(find_ch(su, '\n') < su.len());
                assert(su.take(j - pos) =~= content@.subrange(pos as int, j as int));
                assert(strip_cr(su.take(j - pos)) =~= content@.subrange(pos as int, end as int));
                assert(su.skip(j - pos + 1) =~= content@.skip(j as int + 1));
                assert(spec_lines(su) == seq![strip_cr(su.take(j - pos))] + spec_lines(
                    content@.skip(j as int + 1),
                ));
                assert(old_lines.push(piece@) + spec_lines(content@.skip(j as int + 1))
                    =~= old_lines + spec_lines(content@.skip(pos as int)));
            }
        }
        pos = if j < n {
            j + 1
        } else {
            n
        };
    }
    proof {
        assert(content@.skip(n as int) =~= Seq::<char>::empty());
        assert(spec_lines(Seq::<char>::empty()) =~= Seq::<Seq<char>>::empty());
        assert(lines.deep_view() + Seq::<Seq<char>>::empty() =~= lines.deep_view());
    }
    lines
}

/// Renders and parses cache snapshots in the line-oriented text format.
/// Reading and writing the file itself is the embedding program's part;
/// this type computes the exact contents.
pub struct FileStorage;

impl FileStorage {
    /// Renders a snapshot: the capacity line, then one `key;value` line per
    /// pair of `data`, in order.
    pub fn render(capacity: usize, data: &Vec<(String, String)>) -> (s: String)
        ensures
            s@ == render_spec(capacity as nat, data.deep_view()),
    {
        let mut s = usize_to_dec(capacity);
        s.append(newline_literal());
        let n = data.len();
        let mut i: usize = 0;
        proof {
            assert(data.deep_view().take(0) =~= Seq::<(Seq<char>, Seq<char>)>::empty());
            assert(s@ =~= dec_rep(capacity as nat) + seq!['\n'] + render_entries(
                data.deep_view().take(0),
            ));
        }
        while i < n
            invariant
                i <= n,
                n == data@.len(),
                s@ == dec_rep(capacity as nat) + seq!['\n'] + render_entries(
                    data.deep_view().take(i as int),
                ),
            decreases n - i,
        {
            let ghost prefix = data.deep_view().take(i as int);
            let pair = &data[i];
            s.append(pair.0.as_str());
            s.append(semicolon_literal());
            s.append(pair.1.as_str());
            s.append(newline_literal());
            proof {
                let p = data.deep_view()[i as int];
                assert(p == (data@[i as int].0@, data@[i as int].1@));
                lemma_render_entries_push(prefix, p);
                assert(data.deep_view().take(i as int + 1) =~= prefix.push(p));
                assert(s@ =~= dec_rep(capacity as nat) + seq!['\n'] + render_entries(
                    data.deep_view().take(i as int + 1),
                ));
            }
            i = i + 1;
        }
        proof {
            assert(data.deep_view().take(n as int) =~= data.deep_view());
        }
        s
    }

    /// Parses file contents: the first line as the capacity, defaulting to
    /// `0` when it is absent or no numeral, and every further line split at
    /// its first `;`, lines without `;` dropped.
    pub fn parse(content: &str) -> (r: (usize, Vec<(String, String)>))
        ensures
            r.0 as nat == parse_capacity_spec(content@),
            r.1.deep_view() == parse_entries_spec(content@),
    {
        let lines = split_lines(content);
        let mut out: Vec<(String, String)> = Vec::new();
        if lines.len() == 0 {
            proof {
                assert(out.deep_view() =~= Seq::<(Seq<char>, Seq<char>)>::empty());
            }
            return (0, out);
        }
        let cap = match parse_usize(lines[0].as_str()) {
            Some(v) => v,
            None => 0,
        };
        let m = lines.len();
        let mut i: usize = 1;
        proof {
            assert(lines.deep_view().subrange(1, 1) =~= Seq::<Seq<char>>::empty());
            assert(out.deep_view() =~= spec_entries(lines.deep_view().subrange(1, 1)));
        }
        while i < m
            invariant
                1 <= i <= m,
                m == lines@.len(),
                out.deep_view() == spec_entries(lines.deep_view().subrange(1, i as int)),
            decreases m - i,
        {
            let ghost lv = lines.deep_view()[i as int];
            let ghost prefix = lines.deep_view().subrange(1, i as int);
            let line = &lines[i];
            proof {
                assert(lv == lines@[i as int]@);
            }
            let llen = line.as_str().unicode_len();
            let j = find_from(line.as_str(), 0, ';');
            proof {
                lemma_find_ch_unique(lv, ';', j as int);
            }
            if j < llen {
                let key = String::from_str(line.as_str().substring_char(0, j));
                let value = String::from_str(line.as_str().substring_char(j + 1, llen));
                let ghost old_out = out.deep_view();
                out.push((key, value));
                proof {
                    assert(key@ =~= lv.take(j as int));
                    assert(value@ =~= lv.skip(j as int + 1));
                    assert(spec_entry(lv) == Some((key@, value@)));
                    lemma_spec_entries_push(prefix, lv);
                    assert(lines.deep_view().subrange(1, i as int + 1) =~= prefix.push(lv));
                    assert(out.deep_view() =~= old_out.push((key@, value@)));
                    assert(out.deep_view() =~= spec_entries(
                        lines.deep_view().subrange(1, i as int + 1),
                    ));
                }
            } else {
                proof {
                    assert(spec_entry(lv) is None);
                    lemma_spec_entries_push(prefix, lv);
                    assert(lines.deep_view().subrange(1, i as int + 1) =~= prefix.push(lv));
                    assert(out.deep_view() =~= spec_entries(
                        lines.deep_view().subrange(1, i as int + 1),
                    ));
                }
            }
            i = i + 1;
        }
        proof {
            assert(lines.deep_view().subrange(1, m as int) =~= lines.deep_view().skip(1));
        }
        (cap, out)
    }
}

} // verus!
