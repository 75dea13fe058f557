//! Splitting text into lines and lines into fields.
//!
//! The mathematical model works on `Seq<char>`: `lines_of` cuts a text at
//! every line feed (removing a carriage return left at the end of a line by
//! a CRLF terminator), and `fields_of` cuts a line at every occurrence of a
//! delimiter character, keeping empty fields.

use vstd::prelude::*;

verus! {

/// Index of the first occurrence of `c` in `s`, or `s.len()` if `c` does not
/// occur.
pub open spec fn first_at(s: Seq<char>, c: char) -> nat
    decreases s.len(),
{
    if s.len() == 0 {
        0
    } else if s[0] == c {
        0
    } else {
        first_at(s.drop_first(), c) + 1
    }
}

pub proof fn lemma_first_at(s: Seq<char>, c: char)
    ensures
        first_at(s, c) <= s.len(),
        forall|j: int| 0 <= j < first_at(s, c) ==> s[j] != c,
        first_at(s, c) < s.len() ==> s[first_at(s, c) as int] == c,
    decreases s.len(),
{
    if s.len() == 0 || s[0] == c {
    } else {
        let t = s.drop_first();
        lemma_first_at(t, c);
        assert forall|j: int| 0 <= j < first_at(s, c) implies s[j] != c by {
            if j > 0 {
                assert(t[j - 1] == s[j]);
            }
        }
        if first_at(s, c) < s.len() {
            assert(t[first_at(s, c) - 1] == s[first_at(s, c) as int]);
        }
    }
}

/// `first_at` is pinned down by its defining properties: a position `m` whose
/// prefix is free of `c`, and which holds `c` unless it is the end, is it.
pub proof fn lemma_first_at_is(s: Seq<char>, c: char, m: int)
    requires
        0 <= m <= s.len(),
        forall|j: int| 0 <= j < m ==> s[j] != c,
        m < s.len() ==> s[m] == c,
    ensures
        first_at(s, c) == m,
{
    lemma_first_at(s, c);
    let f = first_at(s, c) as int;
    if f < m {
        assert(s[f] == c);
        assert(false);
    }
    if m < f {
        assert(s[m] != c);
        assert(false);
    }
}

/// The fields of `s` split at every occurrence of the delimiter `d`: the
/// delimiter itself is removed, and consecutive, leading, or trailing
/// delimiters contribute empty fields.
pub open spec fn fields_of(s: Seq<char>, d: char) -> Seq<Seq<char>>
    decreases s.len(),
{
    let i = first_at(s, d) as int;
    if i < s.len() {
        seq![s.subrange(0, i)] + fields_of(s.subrange(i + 1, s.len() as int), d)
    } else {
        seq![s]
    }
}

/// How many times `c` occurs in `s`.
pub open spec fn count_char(s: Seq<char>, c: char) -> nat
    decreases s.len(),
{
    if s.len() == 0 {
        0
    } else {
        count_char(s.drop_first(), c) + (if s[0] == c { 1nat } else { 0nat })
    }
}

proof fn lemma_count_char_absent(s: Seq<char>, c: char)
    requires
        forall|j: int| 0 <= j < s.len() ==> s[j] != c,
    ensures
        count_char(s, c) == 0,
    decreases s.len(),
{
    if s.len() > 0 {
        let t = s.drop_first();
        assert forall|j: int| 0 <= j < t.len() implies t[j] != c by {
            assert(t[j] == s[j + 1]);
        }
        lemma_count_char_absent(t, c);
    }
}

proof fn lemma_count_char_through(s: Seq<char>, c: char, i: int)
    requires
        0 <= i < s.len(),
        forall|j: int| 0 <= j < i ==> s[j] != c,
        s[i] == c,
    ensures
        count_char(s, c) == count_char(s.subrange(i + 1, s.len() as int), c) + 1,
    decreases i,
{
    let t = s.drop_first();
    if i == 0 {
        assert(t =~= s.subrange(1, s.len() as int));
        lemma_count_char_absent(Seq::<char>::empty(), c);
    } else {
        assert forall|j: int| 0 <= j < i - 1 implies t[j] != c by {
            assert(t[j] == s[j + 1]);
        }
        assert(t[i - 1] == s[i]);
        lemma_count_char_through(t, c, i - 1);
        assert(t.subrange(i, t.len() as int) =~= s.subrange(i + 1, s.len() as int));
    }
}

/// Splitting on a delimiter that occurs `k` times yields exactly `k + 1`
/// fields: no field is ever collapsed or dropped, however many delimiters
/// stand next to each other.
pub proof fn lemma_field_count(s: Seq<char>, d: char)
    ensures
        fields_of(s, d).len() == count_char(s, d) + 1,
    decreases s.len(),
{
    lemma_first_at(s, d);
    let i = first_at(s, d) as int;
    if i < s.len() {
        let tail = s.subrange(i + 1, s.len() as int);
        lemma_field_count(tail, d);
        lemma_count_char_through(s, d, i);
    } else {
        lemma_count_char_absent(s, d);
    }
}

/// The fields of `fs` joined back into one line, with `d` between each
/// neighbouring pair.
pub open spec fn join_fields(fs: Seq<Seq<char>>, d: char) -> Seq<char>
    decreases fs.len(),
{
    if fs.len() == 0 {
        Seq::empty()
    } else if fs.len() == 1 {
        fs[0]
    } else {
        fs[0] + seq![d] + join_fields(fs.drop_first(), d)
    }
}

/// Splitting loses nothing: joining the fields of `s` back with the
/// delimiter restores `s` exactly, so no field is trimmed, rewritten, or
/// dropped.
pub proof fn lemma_fields_join(s: Seq<char>, d: char)
    ensures
        join_fields(fields_of(s, d), d) == s,
    decreases s.len(),
{
    lemma_first_at(s, d);
    let i = first_at(s, d) as int;
    if i < s.len() {
        let head = s.subrange(0, i);
        let tail = s.subrange(i + 1, s.len() as int);
        lemma_fields_join(tail, d);
        lemma_field_count(tail, d);
        assert((seq![head] + fields_of(tail, d)).drop_first() =~= fields_of(tail, d));
        assert(head + seq![d] + tail =~= s);
    }
}

/// A line with a trailing carriage return removed; such a line arises from a
/// CRLF terminator, whose carriage return is not part of the line's text.
pub open spec fn chomp_cr(line: Seq<char>) -> Seq<char> {
    if line.len() > 0 && line[line.len() - 1] == '\r' {
        line.drop_last()
    } else {
        line
    }
}

/// The lines of `s`: the text cut at every line feed, the terminator itself
/// excluded, and a carriage return left by a CRLF terminator removed. Text
/// after the last line feed forms a final line only when it is non-empty, so
/// a trailing terminator adds no empty line.
pub open spec fn lines_of(s: Seq<char>) -> Seq<Seq<char>>
    decreases s.len(),
{
    if s.len() == 0 {
        Seq::empty()
    } else {
        let i = first_at(s, '\n') as int;
        if i < s.len() {
            seq![chomp_cr(s.subrange(0, i))] + lines_of(s.subrange(i + 1, s.len() as int))
        } else {
            seq![s]
        }
    }
}

/// Cuts `source` into its lines.
pub fn split_lines(source: &str) -> (lines: Vec<String>)
    ensures
        lines.deep_view() == lines_of(source@),
{
    let n: usize = source.unicode_len();
    let mut lines: Vec<String> = Vec::new();
    let mut start: usize = 0;
    let mut i: usize = 0;
    proof {
        assert(source@.subrange(0, n as int) =~= source@);
        assert(lines.deep_view() + lines_of(source@) =~= lines_of(source@));
    }
    while i < n
        invariant
            start <= i <= n,
            source@.len() == n,
            forall|k: int| start <= k < i ==> source@[k] != '\n',
            lines_of(source@) == lines.deep_view() + lines_of(
                source@.subrange(start as int, n as int),
            ),
        decreases n - i,
    {
        if source.get_char(i) == '\n' {
            let end: usize = if i > start && source.get_char(i - 1) == '\r' {
                i - 1
            } else {
                i
            };
            let line = source.substring_char(start, end).to_owned();
            let ghost pre = lines.deep_view();
            let ghost rem = source@.subrange(start as int, n as int);
            proof {
                assert forall|k: int| 0 <= k < i - start implies rem[k] != '\n' by {
                    assert(rem[k] == source@[start + k]);
                }
                assert(rem[i - start] == source@[i as int]);
                lemma_first_at_is(rem, '\n', i - start);
                let chunk = source@.subrange(start as int, i as int);
                assert(rem.subrange(0, i - start) =~= chunk);
                assert(rem.subrange(i - start + 1, rem.len() as int) =~= source@.subrange(
                    i + 1,
                    n as int,
                ));
                if i > start && source@[i - 1] == '\r' {
                    assert(chunk[chunk.len() - 1] == source@[i - 1]);
                    assert(chunk.drop_last() =~= source@.subrange(start as int, end as int));
                } else {
                    if chunk.len() > 0 {
                        assert(chunk[chunk.len() - 1] == source@[i - 1]);
                    }
                }
                assert(line@ == chomp_cr(chunk));
            }
            lines.push(line);
            proof {
                assert(lines.deep_view() =~= pre.push(line@));
                assert(pre + lines_of(rem) =~= lines.deep_view() + lines_of(
                    source@.subrange(i + 1, n as int),
                ));
            }
            start = i + 1;
        }
        i = i + 1;
    }
    if start < n {
        let line = source.substring_char(start, n).to_owned();
        let ghost pre = lines.deep_view();
        let ghost rem = source@.subrange(start as int, n as int);
        proof {
            assert forall|k: int| 0 <= k < rem.len() implies rem[k] != '\n' by {
                assert(rem[k] == source@[start + k]);
            }
            lemma_first_at_is(rem, '\n', rem.len() as int);
            assert(line@ == rem);
        }
        lines.push(line);
        proof {
            assert(lines.deep_view() =~= pre.push(line@));
            assert(pre + lines_of(rem) =~= lines.deep_view());
            assert(lines.deep_view() =~= lines_of(source@));
        }
    } else {
        proof {
            assert(source@.subrange(start as int, n as int) =~= Seq::<char>::empty());
            assert(lines.deep_view() + lines_of(Seq::<char>::empty()) =~= lines.deep_view());
        }
    }
    lines
}

/// Splits `line` at every occurrence of `delimiter`.
pub fn split_line(line: &str, delimiter: char) -> (fields: Vec<String>)
    ensures
        fields.deep_view() == fields_of(line@, delimiter),
{
    let n: usize = line.unicode_len();
    let mut fields: Vec<String> = Vec::new();
    let mut start: usize = 0;
    let mut i: usize = 0;
    proof {
        assert(line@.subrange(0, n as int) =~= line@);
        assert(fields.deep_view() + fields_of(line@, delimiter) =~= fields_of(line@, delimiter));
    }
    while i < n
        invariant
            start <= i <= n,
            line@.len() == n,
            forall|k: int| start <= k < i ==> line@[k] != delimiter,
            fields_of(line@, delimiter) == fields.deep_view() + fields_of(
                line@.subrange(start as int, n as int),
                delimiter,
            ),
        decreases n - i,
    {
        if line.get_char(i) == delimiter {
            let field = line.substring_char(start, i).to_owned();
            let ghost pre = fields.deep_view();
            let ghost rem = line@.subrange(start as int, n as int);
            proof {
                assert forall|k: int| 0 <= k < i - start implies rem[k] != delimiter by {
                    assert(rem[k] == line@[start + k]);
                }
                assert(rem[i - start] == line@[i as int]);
                lemma_first_at_is(rem, delimiter, i - start);
                assert(rem.subrange(0, i - start) =~= line@.subrange(start as int, i as int));
                assert(rem.subrange(i - start + 1, rem.len() as int) =~= line@.subrange(
                    i + 1,
                    n as int,
                ));
            }
            fields.push(field);
            proof {
                assert(fields.deep_view() =~= pre.push(field@));
                assert(pre + fields_of(rem, delimiter) =~= fields.deep_view() + fields_of(
                    line@.subrange(i + 1, n as int),
                    delimiter,
                ));
            }
            start = i + 1;
        }
        i = i + 1;
    }
    let field = line.substring_char(start, n).to_owned();
    let ghost pre = fields.deep_view();
    let ghost rem = line@.subrange(start as int, n as int);
    proof {
        assert forall|k: int| 0 <= k < rem.len() implies rem[k] != delimiter by {
            assert(rem[k] == line@[start + k]);
        }
        lemma_first_at_is(rem, delimiter, rem.len() as int);
        assert(field@ == rem);
    }
    fields.push(field);
    proof {
        assert(fields.deep_view() =~= pre.push(field@));
        assert(pre + fields_of(rem, delimiter) =~= fields.deep_view());
        assert(fields.deep_view() =~= fields_of(line@, delimiter));
    }
    fields
}

} // verus!
