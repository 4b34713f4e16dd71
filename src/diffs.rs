use vstd::prelude::*;
use crate::common::{Offset, Version};
use crate::text::{blank, blank_from, hex_run, hex_run_end, hex_value, is_blank, lemma_blank_from_ge, parse_hex};

verus! {

/// One correlation: `left` in the older version is `right` in the newer one.
#[derive(Clone, Copy, Debug, PartialEq, Eq, Structural)]
pub struct Diff {
    pub left: Offset,
    pub right: Offset,
}

/// The correlations reported between two distinct versions.
pub struct DiffList {
    pub diffs: Vec<Diff>,
    pub left: Version,
    pub right: Version,
}

impl DiffList {
    /// The correlations from `left` to `right`; a report from a version to
    /// itself is refused.
    pub fn new(left: Version, right: Version, diffs: Vec<Diff>) -> (r: Option<DiffList>)
        ensures
            r is None <==> left == right,
            r is Some ==> r->Some_0.left == left && r->Some_0.right == right && r->Some_0.diffs@
                == diffs@,
    {
        if left == right {
            None
        } else {
            Some(DiffList { diffs, left, right })
        }
    }

    pub fn iter(&self) -> (r: &[Diff])
        ensures
            r@ == self.diffs@,
    {
        self.diffs.as_slice()
    }
}

/// All diff reports.
pub struct DiffLists {
    lists: Vec<DiffList>,
}

impl DiffLists {
    pub closed spec fn lists(&self) -> Seq<DiffList> {
        self.lists@
    }

    pub fn new() -> (r: DiffLists)
        ensures
            r.lists().len() == 0,
    {
        DiffLists { lists: Vec::new() }
    }

    pub fn push(&mut self, list: DiffList)
        ensures
            final(self).lists() == old(self).lists().push(list),
    {
        self.lists.push(list);
    }

    pub fn iter(&self) -> (r: &[DiffList])
        ensures
            r@ == self.lists(),
    {
        self.lists.as_slice()
    }
}

/// Why a line of a diff report is no correlation.
#[derive(Clone, Copy, Debug, PartialEq, Eq, Structural)]
pub enum LineError {
    /// The line is not two tab-separated `0x14`-prefixed hexadecimal addresses.
    NoMatch,
    /// An address does not fit a 32-bit offset.
    OutOfRange,
}

/// `s` holds `0x14` at position `at`.
pub open spec fn has_0x14(s: Seq<u8>, at: int) -> bool {
    0 <= at && at + 4 <= s.len() && s[at] == 48 && s[at + 1] == 120 && s[at + 2] == 49 && s[at + 3] == 52
}

/// A correlation starts at position `p` of `s`: `0x14`, a run of hexadecimal
/// digits, a tab, `0x14` and another run.
pub open spec fn diff_match_at(s: Seq<u8>, p: int) -> bool {
    let e1 = hex_run_end(s, p + 4);
    let e2 = hex_run_end(s, e1 + 5);
    has_0x14(s, p) && e1 > p + 4 && e1 < s.len() && s[e1] == 9 && has_0x14(s, e1 + 1) && e2 > e1 + 5
}

/// The first position from `p` on where a correlation starts.
pub open spec fn first_diff_from(s: Seq<u8>, p: int) -> Option<int>
    decreases s.len() + 1 - p,
{
    if p < 0 || p > s.len() {
        None
    } else if diff_match_at(s, p) {
        Some(p)
    } else {
        first_diff_from(s, p + 1)
    }
}

/// What a diff line gives: the first correlation in it; each run, read as
/// hexadecimal, is an offset.
pub open spec fn diff_line_result(s: Seq<u8>) -> Result<Diff, LineError> {
    match first_diff_from(s, 0) {
        None => Err(LineError::NoMatch),
        Some(p) => {
            let e1 = hex_run_end(s, p + 4);
            let b = e1 + 5;
            let e2 = hex_run_end(s, b);
            let l = hex_value(s.subrange(p + 4, e1));
            let r = hex_value(s.subrange(b, e2));
            if l <= u32::MAX && r <= u32::MAX {
                Ok(Diff { left: Offset(l as u32), right: Offset(r as u32) })
            } else {
                Err(LineError::OutOfRange)
            }
        },
    }
}

fn has_0x14_at(s: &[u8], at: usize) -> (r: bool)
    ensures
        r == has_0x14(s@, at as int),
{
    at <= s.len() && s.len() - at >= 4 && s[at] == 48 && s[at + 1] == 120 && s[at + 2] == 49 && s[at + 3] == 52
}

/// Reads the values of the correlation that starts at `p`.
fn diff_at(s: &[u8], p: usize) -> (r: Option<Result<Diff, LineError>>)
    requires
        p <= s@.len(),
    ensures
        r is Some <==> diff_match_at(s@, p as int),
        r is Some ==> ({
            let e1 = hex_run_end(s@, p + 4);
            let e2 = hex_run_end(s@, e1 + 5);
            let l = hex_value(s@.subrange(p + 4, e1));
            let rr = hex_value(s@.subrange(e1 + 5, e2));
            r->Some_0 == if l <= u32::MAX && rr <= u32::MAX {
                Ok::<Diff, LineError>(Diff { left: Offset(l as u32), right: Offset(rr as u32) })
            } else {
                Err::<Diff, LineError>(LineError::OutOfRange)
            }
        }),
{
    if !has_0x14_at(s, p) || s.len() - p < 4 {
        return None;
    }
    let e1 = hex_run(s, p + 4);
    if !(e1 > p + 4 && e1 < s.len() && s[e1] == 9 && has_0x14_at(s, e1 + 1)) {
        return None;
    }
    let b = e1 + 5;
    let e2 = hex_run(s, b);
    if e2 <= b {
        return None;
    }
    let l = parse_hex(s, p + 4, e1);
    let r = parse_hex(s, b, e2);
    Some(
        match (l, r) {
            (Some(l), Some(r)) => {
                if l <= 0xffff_ffff && r <= 0xffff_ffff {
                    Ok(Diff { left: Offset(l as u32), right: Offset(r as u32) })
                } else {
                    Err(LineError::OutOfRange)
                }
            },
            _ => Err(LineError::OutOfRange),
        },
    )
}

/// Reads one correlation line of a diff report: its first correlation.
pub fn parse_diff_line(s: &[u8]) -> (r: Result<Diff, LineError>)
    ensures
        r == diff_line_result(s@),
{
    let mut p: usize = 0;
    while p <= s.len()
        invariant
            p <= s@.len() + 1,
            s@.len() == s.len(),
            first_diff_from(s@, 0) == first_diff_from(s@, p as int),
        decreases s@.len() + 1 - p,
    {
        if let Some(r) = diff_at(s, p) {
            return r;
        }
        if p == s.len() {
            assert(first_diff_from(s@, p + 1) is None);
            return Err(LineError::NoMatch);
        }
        p = p + 1;
    }
    Err(LineError::NoMatch)
}

/// Why a diff report cannot be read.
#[derive(Clone, Copy, Debug, PartialEq, Eq, Structural)]
pub enum ReportError {
    /// No line starting with `Overall success:` ends the header.
    NoHeaderEnd,
    /// The line after the header's end is not blank.
    NoBlankAfterHeader,
    /// Line `at` of the report is no correlation.
    BadLine { at: usize, error: LineError },
}

/// `s` starts with `Overall success:`.
pub open spec fn is_header_end(s: Seq<u8>) -> bool {
    s.len() >= 16 && s.subrange(0, 16) == seq![79u8, 118, 101, 114, 97, 108, 108, 32, 115, 117, 99, 99, 101, 115, 115, 58]
}

/// The first line from `i` on that ends the header, or the number of lines.
pub open spec fn header_end_from(lines: Seq<Vec<u8>>, i: int) -> int
    decreases lines.len() - i,
{
    if i >= lines.len() || i < 0 || is_header_end(lines[i]@) {
        i
    } else {
        header_end_from(lines, i + 1)
    }
}

fn header_end_line(s: &[u8]) -> (r: bool)
    ensures
        r == is_header_end(s@),
{
    let word: [u8; 16] = [79, 118, 101, 114, 97, 108, 108, 32, 115, 117, 99, 99, 101, 115, 115, 58];
    if s.len() < 16 {
        return false;
    }
    let mut i: usize = 0;
    while i < 16
        invariant
            s@.len() >= 16,
            word@ == seq![79u8, 118, 101, 114, 97, 108, 108, 32, 115, 117, 99, 99, 101, 115, 115, 58],
            i <= 16,
            forall|j: int| 0 <= j < i ==> s@[j] == word@[j],
        decreases 16 - i,
    {
        if s[i] != word[i] {
            assert(s@.subrange(0, 16)[i as int] != word@[i as int]);
            return false;
        }
        i = i + 1;
    }
    assert(s@.subrange(0, 16) =~= word@);
    true
}

impl DiffList {
    /// Reads the lines of a diff report: a free-text header that ends with a
    /// line starting with `Overall success:` and a blank line, then one
    /// correlation per line up to the end or the next blank line.
    pub fn parse_diffs(lines: &[Vec<u8>]) -> (r: Result<Vec<Diff>, ReportError>)
        ensures
            header_end_from(lines@, 0) >= lines@.len() ==> r == Err::<Vec<Diff>, ReportError>(ReportError::NoHeaderEnd),
            ({
                let h = header_end_from(lines@, 0);
                h < lines@.len() && h + 1 < lines@.len() && !is_blank(lines@[h + 1]@)
                    ==> r == Err::<Vec<Diff>, ReportError>(ReportError::NoBlankAfterHeader)
            }),
            ({
                let h = header_end_from(lines@, 0);
                let stop = blank_from(lines@, h + 2);
                h < lines@.len() && (h + 1 >= lines@.len() || is_blank(lines@[h + 1]@)) ==> (
                r is Ok <==> forall|j: int| h + 2 <= j < stop ==> (#[trigger] diff_line_result(lines@[j]@)) is Ok)
                    && (r is Ok ==> r->Ok_0@.len() == stop - (h + 2) && forall|j: int|
                    0 <= j < r->Ok_0@.len() ==> Ok::<Diff, LineError>(#[trigger] r->Ok_0@[j]) == diff_line_result(lines@[h + 2 + j]@))
                    && (r is Err ==> r->Err_0 is BadLine)
            }),
    {
        let mut h: usize = 0;
        while h < lines.len() && !header_end_line(lines[h].as_slice())
            invariant
                h <= lines@.len(),
                header_end_from(lines@, 0) == header_end_from(lines@, h as int),
            decreases lines.len() - h,
        {
            h = h + 1;
        }
        assert(header_end_from(lines@, h as int) == h as int);
        if h >= lines.len() {
            return Err(ReportError::NoHeaderEnd);
        }
        if h + 1 < lines.len() && !blank(lines[h + 1].as_slice()) {
            return Err(ReportError::NoBlankAfterHeader);
        }
        let mut diffs: Vec<Diff> = Vec::new();
        if h + 1 >= lines.len() {
            assert(blank_from(lines@, h + 2) == h + 2);
            return Ok(diffs);
        }
        let mut i: usize = h + 2;
        let ghost start = h + 2;
        while i < lines.len() && !blank(lines[i].as_slice())
            invariant
                start == h + 2,
                h == header_end_from(lines@, 0),
                h + 1 < lines@.len(),
                is_blank(lines@[h + 1]@),
                start <= i,
                i <= lines@.len(),
                blank_from(lines@, start as int) == blank_from(lines@, i as int),
                diffs@.len() == i - start,
                forall|j: int| start <= j < i ==> (#[trigger] diff_line_result(lines@[j]@)) is Ok,
                forall|j: int|
                    0 <= j < diffs@.len() ==> Ok::<Diff, LineError>(#[trigger] diffs@[j]) == diff_line_result(lines@[start + j]@),
            decreases lines.len() - i,
        {
            match parse_diff_line(lines[i].as_slice()) {
                Ok(d) => diffs.push(d),
                Err(e) => {
                    proof {
                        lemma_blank_from_ge(lines@, i + 1);
                    }
                    return Err(ReportError::BadLine { at: i, error: e });
                },
            }
            i = i + 1;
        }
        assert(blank_from(lines@, i as int) == i as int);
        Ok(diffs)
    }
}

} // verus!
