use vstd::prelude::*;

use crate::chars::{
    append_range, chars_of, find_char, lemma_next_index_of, next_index_of, slice_chars,
};
use crate::dictionary::{entries_view, Entry, EntryView, PartOfSpeech};
use crate::text::string_of;

verus! {

// ---------------------------------------------------------------------------
// The definitions block of a line: clauses `TRANSLATION (TAG)` or
// `TRANSLATION (EXTRA, TAG)`, each optionally followed by `; `.
// ---------------------------------------------------------------------------

/// A part-of-speech tag: `n.` or `v.`.
pub open spec fn is_tag(s: Seq<char>) -> bool {
    s.len() == 2 && (s[0] == 'n' || s[0] == 'v') && s[1] == '.'
}

/// The part of speech a tag stands for.
pub open spec fn tag_pos(s: Seq<char>) -> PartOfSpeech {
    if s[0] == 'n' {
        PartOfSpeech::Noun
    } else {
        PartOfSpeech::Verb
    }
}

/// The index of the `)` that closes a group opened by ` (` at `t`.
pub open spec fn group_end(d: Seq<char>, t: int) -> int {
    next_index_of(d, ')', t + 2)
}

/// What stands between the ` (` at `t` and the following `)`.
pub open spec fn group_body(d: Seq<char>, t: int) -> Seq<char> {
    d.subrange(t + 2, group_end(d, t))
}

/// The last two characters of a group's body, where its tag stands.
pub open spec fn body_tag(b: Seq<char>) -> Seq<char> {
    b.subrange(b.len() - 2, b.len() as int)
}

/// A body of the form `EXTRA, TAG` with a non-empty `EXTRA`.
pub open spec fn has_extra(b: Seq<char>) -> bool {
    b.len() >= 5 && b[b.len() - 4] == ',' && b[b.len() - 3] == ' ' && is_tag(body_tag(b))
}

/// The `EXTRA` part of a body `EXTRA, TAG`.
pub open spec fn extra_of(b: Seq<char>) -> Seq<char> {
    b.subrange(0, b.len() - 4)
}

/// A ` (` at `t` opens a group `(TAG)` or `(EXTRA, TAG)` that is closed in `d`.
pub open spec fn is_group_at(d: Seq<char>, t: int) -> bool {
    &&& 0 <= t
    &&& t + 2 <= d.len()
    &&& d[t] == ' '
    &&& d[t + 1] == '('
    &&& group_end(d, t) < d.len()
    &&& (is_tag(group_body(d, t)) || has_extra(group_body(d, t)))
}

/// The first index at or after `i` where a group opens, or the length of `d`.
pub open spec fn first_group(d: Seq<char>, i: int) -> int
    decreases d.len() - i,
{
    if 0 <= i < d.len() {
        if is_group_at(d, i) {
            i
        } else {
            first_group(d, i + 1)
        }
    } else {
        d.len() as int
    }
}

/// Where the clause whose group opens at `t` ends, after an optional `; `.
pub open spec fn clause_end(d: Seq<char>, t: int) -> int {
    let e = group_end(d, t) + 1;
    if e + 2 <= d.len() && d[e] == ';' && d[e + 1] == ' ' {
        e + 2
    } else {
        e
    }
}

/// The translation of the clause that starts at `p` and whose group opens at `t`:
/// the text before the group, with ` (EXTRA)` added when the group holds one.
pub open spec fn clause_translation(d: Seq<char>, p: int, t: int) -> Seq<char> {
    let b = group_body(d, t);
    if has_extra(b) {
        d.subrange(p, t) + seq![' ', '('] + extra_of(b) + seq![')']
    } else {
        d.subrange(p, t)
    }
}

/// The entries that the clauses of `d` from `p` on give for `word`, left to
/// right. Each clause takes the shortest non-empty translation that a group
/// follows; text after the last clause gives nothing.
pub open spec fn clause_entries(word: Seq<char>, d: Seq<char>, p: int) -> Seq<EntryView>
    decreases d.len() - p,
{
    if 0 <= p < d.len() {
        let t = first_group(d, p + 1);
        if t < d.len() {
            proof {
                lemma_first_group(d, p + 1);
            }
            seq![
                EntryView {
                    word,
                    translation: clause_translation(d, p, t),
                    pos: tag_pos(body_tag(group_body(d, t))),
                },
            ] + clause_entries(word, d, clause_end(d, t))
        } else {
            seq![]
        }
    } else {
        seq![]
    }
}

/// The first group from `i` on lies between `i` and the end, is a group, and
/// its clause ends at least three characters later, within `d`.
pub proof fn lemma_first_group(d: Seq<char>, i: int)
    requires
        0 <= i <= d.len(),
    ensures
        i <= first_group(d, i) <= d.len(),
        first_group(d, i) < d.len() ==> is_group_at(d, first_group(d, i)),
        first_group(d, i) < d.len() ==> first_group(d, i) + 3 <= clause_end(d, first_group(d, i))
            <= d.len(),
    decreases d.len() - i,
{
    if i < d.len() {
        lemma_first_group(d, i + 1);
        if is_group_at(d, i) {
            lemma_next_index_of(d, ')', i + 2);
        }
    }
}

/// Whether a group opens at `t` in `d`, and if so where it closes.
fn group_at(d: &Vec<char>, t: usize) -> (r: Option<usize>)
    requires
        t < d@.len(),
    ensures
        r is Some <==> is_group_at(d@, t as int),
        r matches Some(g) ==> g == group_end(d@, t as int),
{
    let n = d.len();
    if n - t < 2 || d[t] != ' ' || d[t + 1] != '(' {
        return None;
    }
    let g = find_char(d, ')', t + 2);
    proof {
        lemma_next_index_of(d@, ')', t + 2);
    }
    if g >= n {
        return None;
    }
    let ghost b = group_body(d@, t as int);
    let len = g - (t + 2);
    let plain = len == 2 && (d[t + 2] == 'n' || d[t + 2] == 'v') && d[t + 3] == '.';
    let extra = len >= 5 && d[g - 4] == ',' && d[g - 3] == ' ' && (d[g - 2] == 'n' || d[g - 2]
        == 'v') && d[g - 1] == '.';
    assert(plain == is_tag(b));
    assert(len >= 5 ==> body_tag(b) =~= d@.subrange(g - 2, g as int));
    assert(extra == has_extra(b));
    if plain || extra {
        Some(g)
    } else {
        None
    }
}

/// The first index at or after `i` where a group opens, with where that group
/// closes; the length of `d` when no group opens there.
fn find_group(d: &Vec<char>, i: usize) -> (r: (usize, usize))
    requires
        i <= d@.len(),
    ensures
        r.0 == first_group(d@, i as int),
        r.0 < d@.len() ==> r.1 == group_end(d@, r.0 as int),
{
    let n = d.len();
    let mut t: usize = i;
    while t < n
        invariant
            n == d@.len(),
            i <= t <= n,
            first_group(d@, i as int) == first_group(d@, t as int),
        decreases n - t,
    {
        if let Some(g) = group_at(d, t) {
            return (t, g);
        }
        t = t + 1;
    }
    (n, n)
}

/// Appends to `out` the entries that the clauses of `d` give for `word`.
fn parse_definitions(word: &Vec<char>, d: &Vec<char>, out: &mut Vec<Entry>)
    ensures
        entries_view(final(out)@) == entries_view(old(out)@) + clause_entries(word@, d@, 0),
{
    let n = d.len();
    let mut p: usize = 0;
    while p < n
        invariant
            n == d@.len(),
            p <= n,
            entries_view(out@) + clause_entries(word@, d@, p as int) == entries_view(old(out)@)
                + clause_entries(word@, d@, 0),
        decreases n - p,
    {
        let ghost old_p = p;
        let (t, g) = find_group(d, p + 1);
        proof {
            lemma_first_group(d@, p + 1);
        }
        if t >= n {
            assert(entries_view(out@) =~= entries_view(out@) + clause_entries(word@, d@, p as int));
            return;
        }
        proof {
            lemma_next_index_of(d@, ')', t + 2);
        }
        let ghost b = group_body(d@, t as int);
        let mut translation = slice_chars(d, p, t);
        if g - (t + 2) >= 5 && d[g - 4] == ',' {
            assert(has_extra(b));
            translation.push(' ');
            translation.push('(');
            append_range(&mut translation, d, t + 2, g - 4);
            translation.push(')');
            assert(translation@ =~= clause_translation(d@, p as int, t as int));
        } else {
            assert(!has_extra(b));
        }
        let pos = if d[g - 2] == 'n' {
            PartOfSpeech::Noun
        } else {
            PartOfSpeech::Verb
        };
        assert(body_tag(b) =~= d@.subrange(g - 2, g as int));
        let entry = Entry::new(string_of(word), string_of(&translation), pos);
        let ghost before = out@;
        out.push(entry);
        assert(entries_view(out@) =~= entries_view(before).push(entry@));
        let e = g + 1;
        p = if n - e >= 2 && d[e] == ';' && d[e + 1] == ' ' {
            e + 2
        } else {
            e
        };
        assert(entries_view(out@) + clause_entries(word@, d@, p as int) =~= entries_view(before)
            + clause_entries(word@, d@, old_p as int));
    }
    assert(entries_view(out@) =~= entries_view(out@) + clause_entries(word@, d@, p as int));
}

// ---------------------------------------------------------------------------
// Lines: `WORD - DEFINITIONS`, split at the last ` - ` that leaves both sides
// non-empty.
// ---------------------------------------------------------------------------

/// A ` - ` stands at `k` with a non-empty word before it and a non-empty
/// definitions block after it.
pub open spec fn is_separator_at(l: Seq<char>, k: int) -> bool {
    1 <= k && k + 3 < l.len() && l[k] == ' ' && l[k + 1] == '-' && l[k + 2] == ' '
}

/// The largest index up to `k` where a separator stands, or 0 when there is none.
pub open spec fn last_separator(l: Seq<char>, k: int) -> int
    decreases k,
{
    if k <= 0 {
        0
    } else if is_separator_at(l, k) {
        k
    } else {
        last_separator(l, k - 1)
    }
}

/// Where the word of a line ends; 0 for a malformed line.
pub open spec fn separator_of(l: Seq<char>) -> int {
    last_separator(l, l.len() as int)
}

/// A line of the shape `WORD - DEFINITIONS`.
pub open spec fn is_well_formed_line(l: Seq<char>) -> bool {
    separator_of(l) >= 1
}

/// The last separator found is 0 or a separator.
pub proof fn lemma_last_separator(l: Seq<char>, k: int)
    ensures
        last_separator(l, k) == 0 || is_separator_at(l, last_separator(l, k)),
    decreases k,
{
    if k > 0 {
        lemma_last_separator(l, k - 1);
    }
}

/// A line in which ` - ` occurs nowhere is malformed.
pub proof fn lemma_no_separator_is_malformed(l: Seq<char>)
    requires
        forall|k: int|
            0 <= k && k + 3 <= l.len() ==> !(#[trigger] l[k] == ' ' && l[k + 1] == '-' && l[k + 2]
                == ' '),
    ensures
        !is_well_formed_line(l),
{
    lemma_last_separator(l, l.len() as int);
    let k = separator_of(l);
    if k >= 1 {
        assert(l[k] == ' ' && l[k + 1] == '-' && l[k + 2] == ' ');
    }
}

/// The entries of a well-formed line, in clause order.
pub open spec fn line_entries(l: Seq<char>) -> Seq<EntryView> {
    let k = separator_of(l);
    clause_entries(l.subrange(0, k), l.subrange(k + 3, l.len() as int), 0)
}

/// Finds where the word of a line ends, or 0 when the line has no separator.
fn find_separator(l: &Vec<char>) -> (r: usize)
    ensures
        r == separator_of(l@),
{
    let mut k: usize = l.len();
    while k > 0
        invariant
            k <= l@.len(),
            separator_of(l@) == last_separator(l@, k as int),
        decreases k,
    {
        if l.len() - k > 3 && l[k] == ' ' && l[k + 1] == '-' && l[k + 2] == ' ' {
            return k;
        }
        k = k - 1;
    }
    0
}

// ---------------------------------------------------------------------------
// The whole text.
// ---------------------------------------------------------------------------

/// A line without the `\r` of a `\r\n` ending.
pub open spec fn strip_cr(s: Seq<char>) -> Seq<char> {
    if s.len() > 0 && s.last() == '\r' {
        s.drop_last()
    } else {
        s
    }
}

/// The lines of `t` from index `i` on: split at each `\n`, a `\r` before it
/// dropped, and no empty line after a final `\n`.
pub open spec fn lines_from(t: Seq<char>, i: int) -> Seq<Seq<char>>
    decreases t.len() - i,
{
    if 0 <= i < t.len() {
        let j = next_index_of(t, '\n', i);
        proof {
            lemma_next_index_of(t, '\n', i);
        }
        if j < t.len() {
            seq![strip_cr(t.subrange(i, j))] + lines_from(t, j + 1)
        } else {
            seq![t.subrange(i, j)]
        }
    } else {
        seq![]
    }
}

/// The lines of a dictionary text.
pub open spec fn lines_of(t: Seq<char>) -> Seq<Seq<char>> {
    lines_from(t, 0)
}

/// The entries of a sequence of lines: line by line, each in clause order.
pub open spec fn entries_of_lines(ls: Seq<Seq<char>>) -> Seq<EntryView>
    decreases ls.len(),
{
    if ls.len() == 0 {
        seq![]
    } else {
        entries_of_lines(ls.drop_last()) + line_entries(ls.last())
    }
}

/// Every entry that the clauses of `d` give for a non-empty word has a
/// non-empty word and a non-empty translation.
pub proof fn lemma_clause_entries_non_empty(word: Seq<char>, d: Seq<char>, p: int)
    requires
        word.len() > 0,
    ensures
        forall|i: int|
            0 <= i < clause_entries(word, d, p).len() ==> {
                &&& (#[trigger] clause_entries(word, d, p)[i]).word.len() > 0
                &&& clause_entries(word, d, p)[i].translation.len() > 0
            },
    decreases d.len() - p,
{
    if 0 <= p < d.len() {
        lemma_first_group(d, p + 1);
        let t = first_group(d, p + 1);
        if t < d.len() {
            lemma_clause_entries_non_empty(word, d, clause_end(d, t));
            assert(d.subrange(p, t).len() > 0);
        }
    }
}

/// Every entry of a dictionary text that parses has a non-empty word and a
/// non-empty translation.
pub proof fn lemma_entries_non_empty(ls: Seq<Seq<char>>)
    requires
        forall|j: int| 0 <= j < ls.len() ==> #[trigger] is_well_formed_line(ls[j]),
    ensures
        forall|i: int|
            0 <= i < entries_of_lines(ls).len() ==> {
                &&& (#[trigger] entries_of_lines(ls)[i]).word.len() > 0
                &&& entries_of_lines(ls)[i].translation.len() > 0
            },
    decreases ls.len(),
{
    if ls.len() > 0 {
        let l = ls.last();
        assert(is_well_formed_line(ls[ls.len() - 1]));
        lemma_entries_non_empty(ls.drop_last());
        lemma_last_separator(l, l.len() as int);
        let k = separator_of(l);
        lemma_clause_entries_non_empty(l.subrange(0, k), l.subrange(k + 3, l.len() as int), 0);
    }
}

/// Why a dictionary text was refused.
#[derive(Clone, Debug)]
pub enum ParseError {
    /// The line at `index` (counted from 0) has no ` - ` between a word and its
    /// definitions.
    MalformedLine { index: usize, line: String },
}

/// Parses a dictionary text into its entries, in line order and within a line
/// in clause order. The first line that is not of the shape
/// `WORD - DEFINITIONS` makes the whole parse fail.
pub fn parse_dictionary(text: &str) -> (r: Result<Vec<Entry>, ParseError>)
    ensures
        match r {
            Ok(v) => {
                &&& forall|j: int|
                    0 <= j < lines_of(text@).len() ==> #[trigger] is_well_formed_line(
                        lines_of(text@)[j],
                    )
                &&& entries_view(v@) == entries_of_lines(lines_of(text@))
                &&& forall|i: int|
                    0 <= i < v@.len() ==> (#[trigger] v@[i]).word@.len() > 0
                        && v@[i].translation@.len() > 0
            },
            Err(ParseError::MalformedLine { index, line }) => {
                &&& index < lines_of(text@).len()
                &&& line@ == lines_of(text@)[index as int]
                &&& !is_well_formed_line(line@)
                &&& forall|j: int|
                    0 <= j < index ==> #[trigger] is_well_formed_line(lines_of(text@)[j])
            },
        },
{
    let t = chars_of(text);
    let len = t.len();
    let mut out: Vec<Entry> = Vec::new();
    let mut i: usize = 0;
    let mut index: usize = 0;
    let ghost mut done: Seq<Seq<char>> = seq![];
    while i < len
        invariant
            len == t@.len(),
            t@ == text@,
            i <= len,
            index == done.len(),
            index <= i,
            lines_of(t@) == done + lines_from(t@, i as int),
            forall|j: int| 0 <= j < done.len() ==> #[trigger] is_well_formed_line(done[j]),
            entries_view(out@) == entries_of_lines(done),
        decreases len - i,
    {
        let j = find_char(&t, '\n', i);
        proof {
            lemma_next_index_of(t@, '\n', i as int);
        }
        let end = if j < len && j > i && t[j - 1] == '\r' {
            j - 1
        } else {
            j
        };
        let line = slice_chars(&t, i, end);
        let ghost rest = if j < len {
            lines_from(t@, j + 1)
        } else {
            seq![]
        };
        assert(line@ =~= if j < len {
            strip_cr(t@.subrange(i as int, j as int))
        } else {
            t@.subrange(i as int, j as int)
        });
        assert(lines_from(t@, i as int) == seq![line@] + rest);
        let k = find_separator(&line);
        if k == 0 {
            assert((done + (seq![line@] + rest))[index as int] == line@);
            return Err(ParseError::MalformedLine { index, line: string_of(&line) });
        }
        proof {
            lemma_last_separator(line@, line@.len() as int);
        }
        let word = slice_chars(&line, 0, k);
        let definitions = slice_chars(&line, k + 3, line.len());
        parse_definitions(&word, &definitions, &mut out);
        proof {
            let done2 = done.push(line@);
            assert(done2.drop_last() =~= done);
            assert(done + (seq![line@] + rest) =~= done2 + rest);
            done = done2;
        }
        index = index + 1;
        i = if j < len {
            j + 1
        } else {
            len
        };
    }
    assert(done + lines_from(t@, i as int) =~= done);
    proof {
        lemma_entries_non_empty(done);
        assert forall|k: int| 0 <= k < out@.len() implies (#[trigger] out@[k]).word@.len() > 0
            && out@[k].translation@.len() > 0 by {
            assert(entries_view(out@)[k] == out@[k]@);
        }
    }
    Ok(out)
}

} // verus!
