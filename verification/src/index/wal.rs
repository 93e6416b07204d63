//! The framing of the write-ahead log: one record per line.
use vstd::prelude::*;
use crate::document::{collect_chars, is_white, is_whitespace, string_from_chars, trimmed};

verus! {

/// Where the line that ends before `end` starts.
pub open spec fn line_start(s: Seq<char>, end: int) -> int
    decreases end,
{
    if end <= 0 {
        0
    } else if s[end - 1] == '\n' {
        end
    } else {
        line_start(s, end - 1)
    }
}

/// The line without a carriage return at its end.
pub open spec fn without_cr(line: Seq<char>) -> Seq<char> {
    if line.len() > 0 && line.last() == '\r' {
        line.drop_last()
    } else {
        line
    }
}

/// The line holds nothing but whitespace.
pub open spec fn is_blank(line: Seq<char>) -> bool {
    forall|i: int| 0 <= i < line.len() ==> is_white(#[trigger] line[i])
}

/// The lines that a line feed before position `i` ends, each without the
/// carriage return before the line feed, blank lines left out.
pub open spec fn lines_before(s: Seq<char>, i: int) -> Seq<Seq<char>>
    decreases i,
{
    if i <= 0 {
        Seq::empty()
    } else {
        let earlier = lines_before(s, i - 1);
        let line = without_cr(s.subrange(line_start(s, i - 1), i - 1));
        if s[i - 1] == '\n' && !is_blank(line) {
            earlier.push(line)
        } else {
            earlier
        }
    }
}

/// The lines of a log that may hold records: every line that is not blank,
/// the last one also where no line feed ends it.
pub open spec fn record_lines_spec(s: Seq<char>) -> Seq<Seq<char>> {
    let n = s.len() as int;
    let rest = s.subrange(line_start(s, n), n);
    if rest.len() > 0 && !is_blank(rest) {
        lines_before(s, n).push(rest)
    } else {
        lines_before(s, n)
    }
}

/// Tells whether the characters from `from` up to `to` are all whitespace.
fn blank_between(chars: &Vec<char>, from: usize, to: usize) -> (r: bool)
    requires
        from <= to <= chars@.len(),
    ensures
        r == is_blank(chars@.subrange(from as int, to as int)),
{
    let ghost line = chars@.subrange(from as int, to as int);
    let mut i: usize = from;
    while i < to
        invariant
            from <= i <= to <= chars@.len(),
            line == chars@.subrange(from as int, to as int),
            forall|k: int| 0 <= k < i - from ==> is_white(#[trigger] line[k]),
        decreases to - i,
    {
        if !is_whitespace(chars[i]) {
            assert(line[i - from] == chars@[i as int]);
            return false;
        }
        i = i + 1;
    }
    true
}

/// Splits the contents of a log into the lines that may hold records:
/// blank lines are left out, and so is the carriage return before a line
/// feed.
pub fn record_lines(contents: &str) -> (lines: Vec<String>)
    ensures
        lines.deep_view() == record_lines_spec(contents@),
{
    let chars: Vec<char> = collect_chars(contents);
    let n: usize = chars.len();
    let mut lines: Vec<String> = Vec::new();
    let mut start: usize = 0;
    let mut i: usize = 0;
    assert(lines.deep_view() =~= lines_before(chars@, 0));
    while i < n
        invariant
            i <= n,
            n == chars@.len(),
            start == line_start(chars@, i as int),
            start <= i,
            lines.deep_view() == lines_before(chars@, i as int),
        decreases n - i,
    {
        if chars[i] == '\n' {
            let end: usize = if i > start && chars[i - 1] == '\r' {
                i - 1
            } else {
                i
            };
            let ghost whole = chars@.subrange(start as int, i as int);
            assert(chars@.subrange(start as int, end as int) =~= without_cr(whole)) by {
                if i > start {
                    assert(whole.last() == chars@[i - 1]);
                }
            }
            if !blank_between(&chars, start, end) {
                let ghost before = lines.deep_view();
                lines.push(string_from_chars(vstd::slice::slice_subrange(chars.as_slice(), start, end)));
                assert(lines.deep_view() =~= before.push(without_cr(whole)));
            }
            start = i + 1;
        }
        i = i + 1;
    }
    if start < n && !blank_between(&chars, start, n) {
        let ghost before = lines.deep_view();
        lines.push(string_from_chars(vstd::slice::slice_subrange(chars.as_slice(), start, n)));
        assert(lines.deep_view() =~= before.push(chars@.subrange(start as int, n as int)));
    }
    lines
}

/// A record as it stands in the log: its JSON text and a line feed.
pub fn frame_record(json: &str) -> (line: String)
    ensures
        line@ == json@.push('\n'),
{
    let mut chars: Vec<char> = collect_chars(json);
    chars.push('\n');
    string_from_chars(chars.as_slice())
}

/// The text of a log to which the records were appended in order.
pub open spec fn log_text(records: Seq<Seq<char>>) -> Seq<char>
    decreases records.len(),
{
    if records.len() == 0 {
        Seq::empty()
    } else {
        log_text(records.drop_last()) + records.last().push('\n')
    }
}

/// The record can stand on a line of its own: it holds no line feed, is
/// not blank, and does not end in a carriage return.
pub open spec fn fits_a_line(record: Seq<char>) -> bool {
    &&& forall|i: int| 0 <= i < record.len() ==> record[i] != '\n'
    &&& !is_blank(record)
    &&& record.len() > 0 ==> record.last() != '\r'
}

/// What stands before a position of a text does not depend on what comes
/// after it.
proof fn lemma_lines_prefix(s: Seq<char>, more: Seq<char>, i: int)
    requires
        0 <= i <= s.len(),
    ensures
        line_start(s + more, i) == line_start(s, i),
        0 <= line_start(s, i) <= i,
        lines_before(s + more, i) == lines_before(s, i),
    decreases i,
{
    if i > 0 {
        lemma_lines_prefix(s, more, i - 1);
        assert((s + more)[i - 1] == s[i - 1]);
        let start = line_start(s, i - 1);
        assert((s + more).subrange(start, i - 1) =~= s.subrange(start, i - 1));
    }
}

/// Inside a record that follows a whole log, the line still starts where
/// the record starts, and no line has been added.
proof fn lemma_inside_record(s: Seq<char>, record: Seq<char>, j: int)
    requires
        s.len() == 0 || s.last() == '\n',
        fits_a_line(record),
        0 <= j <= record.len(),
    ensures
        line_start(s + record.push('\n'), s.len() + j) == s.len(),
        lines_before(s + record.push('\n'), s.len() + j) == lines_before(s, s.len() as int),
    decreases j,
{
    let w = s + record.push('\n');
    if j == 0 {
        lemma_lines_prefix(s, record.push('\n'), s.len() as int);
    } else {
        lemma_inside_record(s, record, j - 1);
        assert(w[s.len() + j - 1] == record[j - 1]);
    }
}

/// Appending a record and a line feed to a whole log adds the record as
/// the last line.
proof fn lemma_record_appended(s: Seq<char>, record: Seq<char>)
    requires
        s.len() == 0 || s.last() == '\n',
        fits_a_line(record),
    ensures
        lines_before(s + record.push('\n'), (s.len() + record.len() + 1) as int)
            == lines_before(s, s.len() as int).push(record),
        line_start(s + record.push('\n'), (s.len() + record.len() + 1) as int) == s.len()
            + record.len() + 1,
{
    let w = s + record.push('\n');
    let end = s.len() + record.len();
    lemma_inside_record(s, record, record.len() as int);
    assert(w[end as int] == '\n');
    assert(w.subrange(s.len() as int, end as int) =~= record);
}

/// A log to which records were appended, each fit for a line, reads back
/// as those records, in order.
pub proof fn lemma_log_reads_back(records: Seq<Seq<char>>)
    requires
        forall|k: int| 0 <= k < records.len() ==> fits_a_line(#[trigger] records[k]),
    ensures
        record_lines_spec(log_text(records)) == records,
        log_text(records).len() == 0 || log_text(records).last() == '\n',
        lines_before(log_text(records), log_text(records).len() as int) == records,
        line_start(log_text(records), log_text(records).len() as int) == log_text(records).len(),
    decreases records.len(),
{
    if records.len() == 0 {
        assert(lines_before(log_text(records), 0) =~= records);
    } else {
        let earlier = records.drop_last();
        assert forall|k: int| 0 <= k < earlier.len() implies fits_a_line(
            #[trigger] earlier[k],
        ) by {
            assert(earlier[k] == records[k]);
        }
        lemma_log_reads_back(earlier);
        lemma_record_appended(log_text(earlier), records.last());
        assert(earlier.push(records.last()) =~= records);
        let w = log_text(records);
        assert(w.subrange(w.len() as int, w.len() as int) =~= Seq::<char>::empty());
    }
}

} // verus!
