use vstd::prelude::*;

use crate::text::{
    back_ws, back_ws_to, chars_of, find_char, find_char_from, occurs_at, occurs_at_pos,
    occurs_within, occurs_within_range, parse_u64_range, parse_u64_spec, skip_spaces,
    skip_spaces_from, skip_ws, skip_ws_from, string_of, trimmed,
};

verus! {

/// One timing line of the trace.
#[derive(Debug, Clone)]
pub struct ImportRecord {
    pub name: String,
    pub self_us: u64,
    pub cumulative_us: u64,
    pub depth: usize,
}

/// What a record holds, with the name as a sequence of characters.
pub struct RecordView {
    pub name: Seq<char>,
    pub self_us: u64,
    pub cumulative_us: u64,
    pub depth: usize,
}

impl View for ImportRecord {
    type V = RecordView;

    open spec fn view(&self) -> RecordView {
        RecordView {
            name: self.name@,
            self_us: self.self_us,
            cumulative_us: self.cumulative_us,
            depth: self.depth,
        }
    }
}

/// Why a trace could not be turned into records or into a tree.
#[derive(Debug, Clone, Copy, PartialEq, Eq, Structural)]
pub enum ImportTimeError {
    /// A marked line that is neither the legend nor a well-formed record (1-based line number).
    MalformedLine(usize),
    /// The trace holds no record at all.
    NoRecords,
    /// A subtree's total time does not fit in a `u64`.
    TotalOverflow,
}

/// The prefix that every trace line starts with.
pub open spec fn marker() -> Seq<char> {
    "import time:"@
}

/// The phrase that marks the legend line.
pub open spec fn legend() -> Seq<char> {
    "self [us]"@
}

pub open spec fn records_view(v: Seq<ImportRecord>) -> Seq<RecordView> {
    v.map_values(|r: ImportRecord| r@)
}

pub open spec fn option_view(r: Option<ImportRecord>) -> Option<RecordView> {
    match r {
        Some(rec) => Some(rec@),
        None => None,
    }
}

/// `s[lo..hi]` starts with the marker.
pub open spec fn starts_with_marker(s: Seq<char>, lo: int, hi: int) -> bool {
    lo + marker().len() <= hi && occurs_at(s, marker(), lo)
}

/// The number of spaces that lead the name field (the third) of the line `s[lo..hi]`.
pub open spec fn name_indent(s: Seq<char>, lo: int, hi: int) -> int {
    let f = lo + marker().len();
    let b0 = find_char(s, '|', f, hi);
    let b1 = find_char(s, '|', b0 + 1, hi);
    let b2 = find_char(s, '|', b1 + 1, hi);
    let module_end = back_ws(s, b1 + 1, b2);
    skip_spaces(s, b1 + 1, module_end) - (b1 + 1)
}

/// The record that the line `s[lo..hi]` holds: after the marker, three fields split on `|`:
/// self time, cumulative time, and a name whose leading spaces give the depth
/// (`(spaces + 1) / 2`). A line with a fourth field is not a record.
pub open spec fn parse_line_spec(s: Seq<char>, lo: int, hi: int) -> Option<RecordView> {
    if !starts_with_marker(s, lo, hi) {
        None
    } else {
        let f = lo + marker().len();
        let b0 = find_char(s, '|', f, hi);
        let b1 = find_char(s, '|', b0 + 1, hi);
        let b2 = find_char(s, '|', b1 + 1, hi);
        let self_end = back_ws(s, f, b0);
        let self_begin = skip_ws(s, f, self_end);
        let cum_end = back_ws(s, b0 + 1, b1);
        let cum_begin = skip_ws(s, b0 + 1, cum_end);
        let module_end = back_ws(s, b1 + 1, b2);
        let name = trimmed(s, b1 + 1, module_end);
        if b0 >= hi || b1 >= hi || b2 < hi {
            None
        } else if self_begin == self_end || cum_begin == cum_end || module_end == b1 + 1 {
            None
        } else if parse_u64_spec(s, self_begin, self_end) is None || parse_u64_spec(
            s,
            cum_begin,
            cum_end,
        ) is None || name.len() == 0 {
            None
        } else {
            Some(
                RecordView {
                    name,
                    self_us: parse_u64_spec(s, self_begin, self_end)->0,
                    cumulative_us: parse_u64_spec(s, cum_begin, cum_end)->0,
                    depth: ((name_indent(s, lo, hi) + 1) / 2) as usize,
                },
            )
        }
    }
}

fn parse_line_in(s: &Vec<char>, lo: usize, hi: usize, mark: &Vec<char>) -> (r: Option<ImportRecord>)
    requires
        lo <= hi <= s.len(),
        mark@ == marker(),
    ensures
        option_view(r) == parse_line_spec(s@, lo as int, hi as int),
{
    if mark.len() > hi - lo || !occurs_at_pos(s, mark, lo) {
        return None;
    }
    let f = lo + mark.len();
    let b0 = find_char_from(s, '|', f, hi);
    if b0 >= hi {
        return None;
    }
    let b1 = find_char_from(s, '|', b0 + 1, hi);
    if b1 >= hi {
        return None;
    }
    let b2 = find_char_from(s, '|', b1 + 1, hi);
    if b2 < hi {
        return None;
    }
    let self_end = back_ws_to(s, f, b0);
    let self_begin = skip_ws_from(s, f, self_end);
    let cum_end = back_ws_to(s, b0 + 1, b1);
    let cum_begin = skip_ws_from(s, b0 + 1, cum_end);
    let module_end = back_ws_to(s, b1 + 1, b2);
    if self_begin == self_end || cum_begin == cum_end || module_end == b1 + 1 {
        return None;
    }
    let self_us = match parse_u64_range(s, self_begin, self_end) {
        Some(v) => v,
        None => {
            return None;
        },
    };
    let cumulative_us = match parse_u64_range(s, cum_begin, cum_end) {
        Some(v) => v,
        None => {
            return None;
        },
    };
    let name_end = back_ws_to(s, b1 + 1, module_end);
    let name_begin = skip_ws_from(s, b1 + 1, name_end);
    if name_begin == name_end {
        return None;
    }
    let spaces = skip_spaces_from(s, b1 + 1, module_end) - (b1 + 1);
    let name = string_of(s, name_begin, name_end);
    Some(ImportRecord { name, self_us, cumulative_us, depth: (spaces + 1) / 2 })
}

/// Reads one trace line; `None` where it is not a well-formed record line.
pub fn parse_import_line(line: &str) -> (r: Option<ImportRecord>)
    ensures
        option_view(r) == parse_line_spec(line@, 0, line@.len() as int),
{
    let s = chars_of(line);
    let mark = chars_of("import time:");
    parse_line_in(&s, 0, s.len(), &mark)
}

/// How one line of the trace is taken.
pub enum LineKind {
    Record(RecordView),
    Ignored,
    Malformed,
}

/// A line that parses is a record; a marked line that does not parse is malformed unless
/// it is the legend; any other line is ignored.
pub open spec fn line_kind(s: Seq<char>, lo: int, hi: int) -> LineKind {
    match parse_line_spec(s, lo, hi) {
        Some(r) => LineKind::Record(r),
        None => if starts_with_marker(s, lo, hi) && !occurs_within(s, legend(), lo, hi) {
            LineKind::Malformed
        } else {
            LineKind::Ignored
        },
    }
}

/// Scans the lines of `s` (split on `\n`) from position `start`, whose line has number
/// `lineno`: the records in order, or the number of the first malformed line.
pub open spec fn scan_lines(s: Seq<char>, start: int, lineno: int) -> Result<
    Seq<RecordView>,
    int,
>
    decreases s.len() - start,
    via scan_lines_decreases
{
    if start < 0 || start > s.len() {
        Ok(seq![])
    } else {
        let e = find_char(s, '\n', start, s.len() as int);
        let rest = if e < s.len() {
            scan_lines(s, e + 1, lineno + 1)
        } else {
            Ok(seq![])
        };
        match line_kind(s, start, e) {
            LineKind::Malformed => Err(lineno),
            LineKind::Record(r) => match rest {
                Ok(rs) => Ok(seq![r] + rs),
                Err(n) => Err(n),
            },
            LineKind::Ignored => rest,
        }
    }
}

#[via_fn]
proof fn scan_lines_decreases(s: Seq<char>, start: int, lineno: int) {
    if 0 <= start <= s.len() {
        lemma_find_char_bounds(s, '\n', start, s.len() as int);
    }
}

pub proof fn lemma_find_char_bounds(s: Seq<char>, c: char, i: int, hi: int)
    requires
        i <= hi,
    ensures
        i <= find_char(s, c, i, hi) <= hi,
    decreases hi - i,
{
    if i < hi && s[i] != c {
        lemma_find_char_bounds(s, c, i + 1, hi);
    }
}

/// Prepends the records found so far to the outcome of the rest of the scan.
pub open spec fn after(found: Seq<RecordView>, rest: Result<Seq<RecordView>, int>) -> Result<
    Seq<RecordView>,
    int,
> {
    match rest {
        Ok(rs) => Ok(found + rs),
        Err(n) => Err(n),
    }
}

/// What the whole trace yields: the first malformed line is an error, an empty result is
/// an error, and otherwise every record in order.
pub open spec fn parse_import_time_spec(s: Seq<char>) -> Result<Seq<RecordView>, ImportTimeError> {
    match scan_lines(s, 0, 1) {
        Err(n) => Err(ImportTimeError::MalformedLine(n as usize)),
        Ok(rs) => if rs.len() == 0 {
            Err(ImportTimeError::NoRecords)
        } else {
            Ok(rs)
        },
    }
}

pub open spec fn records_result_view(r: Result<Vec<ImportRecord>, ImportTimeError>) -> Result<
    Seq<RecordView>,
    ImportTimeError,
> {
    match r {
        Ok(v) => Ok(records_view(v@)),
        Err(e) => Err(e),
    }
}

/// Reads every record of a trace, in order.
pub fn parse_import_time(text: &str) -> (r: Result<Vec<ImportRecord>, ImportTimeError>)
    ensures
        records_result_view(r) == parse_import_time_spec(text@),
{
    let s = chars_of(text);
    let mark = chars_of("import time:");
    let leg = chars_of("self [us]");
    proof {
        reveal_strlit("import time:");
    }
    let mut records: Vec<ImportRecord> = Vec::new();
    let mut start: usize = 0;
    let mut idx: usize = 0;
    loop
        invariant
            start <= s.len(),
            idx <= start,
            s@ == text@,
            mark@ == marker(),
            mark.len() > 0,
            leg@ == legend(),
            scan_lines(s@, 0, 1) == after(records_view(records@), scan_lines(s@, start as int, idx + 1)),
        decreases s.len() - start,
    {
        let e = find_char_from(&s, '\n', start, s.len());
        let ghost rest = if e < s.len() {
            scan_lines(s@, e + 1, idx + 2)
        } else {
            Ok(seq![])
        };
        assert(scan_lines(s@, start as int, idx + 1) == match line_kind(s@, start as int, e as int) {
            LineKind::Malformed => Err(idx + 1),
            LineKind::Record(r) => after(seq![r], rest),
            LineKind::Ignored => rest,
        });
        match parse_line_in(&s, start, e, &mark) {
            Some(rec) => {
                let ghost before = records@;
                proof {
                    let tail = match rest {
                        Ok(rs) => rs,
                        Err(_) => seq![],
                    };
                    assert(records_view(before) + (seq![rec@] + tail) =~= records_view(before).push(
                        rec@,
                    ) + tail);
                }
                records.push(rec);
                assert(records_view(records@) =~= records_view(before).push(rec@));
            },
            None => {
                if e - start >= mark.len() && occurs_at_pos(&s, &mark, start)
                    && !occurs_within_range(&s, &leg, start, e) {
                    return Err(ImportTimeError::MalformedLine(idx + 1));
                }
            },
        }
        if e >= s.len() {
            if records.len() == 0 {
                return Err(ImportTimeError::NoRecords);
            }
            return Ok(records);
        }
        start = e + 1;
        idx = idx + 1;
    }
}

} // verus!
