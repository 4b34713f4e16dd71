use vstd::prelude::*;
use crate::common::Version;
use crate::offsets::is_decimal_digit;
use crate::text::{has_at, starts_with_at};

verus! {

/// The end of the run of decimal digits that starts at `i`.
pub open spec fn dec_run_end(s: Seq<u8>, i: int) -> int
    decreases s.len() - i,
{
    if 0 <= i < s.len() && is_decimal_digit(s[i]) {
        dec_run_end(s, i + 1)
    } else {
        i
    }
}

/// The number that the decimal digits `s` spell.
pub open spec fn dec_value(s: Seq<u8>) -> int
    decreases s.len(),
{
    if s.len() == 0 {
        0
    } else {
        dec_value(s.drop_last()) * 10 + (s.last() - 48)
    }
}

/// A run of digits at `p`: its end.
pub open spec fn number_at(s: Seq<u8>, p: int) -> Option<int> {
    let e = dec_run_end(s, p);
    if e > p {
        Some(e)
    } else {
        None
    }
}

/// A run of digits at `p` followed by `sep`: the position after `sep`.
pub open spec fn number_then(s: Seq<u8>, p: int, sep: u8) -> Option<int> {
    let e = dec_run_end(s, p);
    if e > p && e < s.len() && s[e] == sep {
        Some(e + 1)
    } else {
        None
    }
}

/// Three runs of digits joined by dots at `p`: the end of the third.
pub open spec fn dotted_at(s: Seq<u8>, p: int) -> Option<int> {
    match number_then(s, p, 46) {
        Some(q1) => match number_then(s, q1, 46) {
            Some(q2) => number_at(s, q2),
            None => None,
        },
        None => None,
    }
}

/// The first position from `p` on where `dotted_at` matches.
pub open spec fn first_dotted_from(s: Seq<u8>, p: int) -> Option<int>
    decreases s.len() + 1 - p,
{
    if p < 0 || p > s.len() {
        None
    } else if dotted_at(s, p) is Some {
        Some(p)
    } else {
        first_dotted_from(s, p + 1)
    }
}

/// The value of the digits in `s[from..to]`, if it fits 16 bits.
pub open spec fn component(s: Seq<u8>, from: int, to: int) -> Option<u16> {
    if dec_value(s.subrange(from, to)) <= u16::MAX {
        Some(dec_value(s.subrange(from, to)) as u16)
    } else {
        None
    }
}

/// The version spelled by the three dotted numbers at `p` (build 0).
pub open spec fn dotted_version(s: Seq<u8>, p: int) -> Option<Version> {
    let q1 = number_then(s, p, 46)->Some_0;
    let q2 = number_then(s, q1, 46)->Some_0;
    let e = number_at(s, q2)->Some_0;
    match (component(s, p, q1 - 1), component(s, q1, q2 - 1), component(s, q2, e)) {
        (Some(a), Some(b), Some(c)) => Some(Version { major: a, minor: b, patch: c, build: 0 }),
        _ => None,
    }
}

/// What a location directory's name gives: nothing where no three dotted
/// numbers occur in it; else the version the first such occurrence spells,
/// or an error where a number does not fit 16 bits.
pub open spec fn dir_name_result(s: Seq<u8>) -> Result<Option<Version>, ()> {
    match first_dotted_from(s, 0) {
        None => Ok(None),
        Some(p) => match dotted_version(s, p) {
            Some(v) => Ok(Some(v)),
            None => Err(()),
        },
    }
}

fn dec_run(s: &[u8], at: usize) -> (r: usize)
    requires
        at <= s@.len(),
    ensures
        r == dec_run_end(s@, at as int),
        at <= r <= s@.len(),
        forall|i: int| at <= i < r ==> is_decimal_digit(#[trigger] s@[i]),
    decreases s@.len() - at,
{
    if at < s.len() && 48 <= s[at] && s[at] <= 57 {
        dec_run(s, at + 1)
    } else {
        at
    }
}

fn read_number_then(s: &[u8], p: usize, sep: u8) -> (r: Option<usize>)
    requires
        p <= s@.len(),
    ensures
        r is Some <==> number_then(s@, p as int, sep) is Some,
        r is Some ==> r->Some_0 == number_then(s@, p as int, sep)->Some_0,
        r is Some ==> p < r->Some_0 <= s@.len(),
        r is Some ==> forall|i: int| p <= i < r->Some_0 - 1 ==> is_decimal_digit(#[trigger] s@[i]),
{
    let e = dec_run(s, p);
    if e > p && e < s.len() && s[e] == sep {
        Some(e + 1)
    } else {
        None
    }
}

fn read_dotted(s: &[u8], p: usize) -> (r: Option<(usize, usize, usize)>)
    requires
        p <= s@.len(),
    ensures
        r is Some <==> dotted_at(s@, p as int) is Some,
        r is Some ==> ({
            let (q1, q2, e) = r->Some_0;
            &&& number_then(s@, p as int, 46) == Some(q1 as int)
            &&& number_then(s@, q1 as int, 46) == Some(q2 as int)
            &&& number_at(s@, q2 as int) == Some(e as int)
            &&& p < q1 <= q2 <= e <= s@.len()
            &&& forall|i: int| p <= i < q1 - 1 ==> is_decimal_digit(#[trigger] s@[i])
            &&& forall|i: int| q1 <= i < q2 - 1 ==> is_decimal_digit(#[trigger] s@[i])
            &&& forall|i: int| q2 <= i < e ==> is_decimal_digit(#[trigger] s@[i])
        }),
{
    let q1 = match read_number_then(s, p, 46) {
        Some(q) => q,
        None => {
            return None;
        },
    };
    let q2 = match read_number_then(s, q1, 46) {
        Some(q) => q,
        None => {
            return None;
        },
    };
    let e = dec_run(s, q2);
    if e > q2 {
        Some((q1, q2, e))
    } else {
        None
    }
}

/// Reads `s[from..to]`, all decimal digits, as a 16-bit number.
fn read_component(s: &[u8], from: usize, to: usize) -> (r: Option<u16>)
    requires
        from <= to <= s@.len(),
        forall|i: int| from <= i < to ==> is_decimal_digit(#[trigger] s@[i]),
    ensures
        r == component(s@, from as int, to as int),
{
    let mut acc: u32 = 0;
    let mut i = from;
    while i < to
        invariant
            from <= i <= to <= s@.len(),
            forall|j: int| from <= j < to ==> is_decimal_digit(#[trigger] s@[j]),
            acc == dec_value(s@.subrange(from as int, i as int)),
            acc <= u16::MAX,
        decreases to - i,
    {
        let d = (s[i] - 48) as u32;
        assert(s@.subrange(from as int, i + 1).drop_last() =~= s@.subrange(from as int, i as int));
        let next = acc * 10 + d;
        if next > 0xffff {
            proof {
                lemma_dec_prefix_grows(s@, from as int, i + 1, to as int);
            }
            return None;
        }
        acc = next;
        i = i + 1;
    }
    Some(acc as u16)
}

proof fn lemma_dec_value_nonneg(s: Seq<u8>)
    requires
        forall|i: int| 0 <= i < s.len() ==> is_decimal_digit(#[trigger] s[i]),
    ensures
        0 <= dec_value(s),
    decreases s.len(),
{
    if s.len() > 0 {
        lemma_dec_value_nonneg(s.drop_last());
    }
}

proof fn lemma_dec_prefix_grows(s: Seq<u8>, from: int, mid: int, to: int)
    requires
        0 <= from <= mid <= to <= s.len(),
        forall|j: int| from <= j < to ==> is_decimal_digit(#[trigger] s[j]),
    ensures
        dec_value(s.subrange(from, mid)) <= dec_value(s.subrange(from, to)),
    decreases to - mid,
{
    if mid < to {
        lemma_dec_prefix_grows(s, from, mid, to - 1);
        let t = s.subrange(from, to);
        assert(t.drop_last() =~= s.subrange(from, to - 1));
        lemma_dec_value_nonneg(s.subrange(from, to - 1));
    }
}

/// Reads the version in a location directory's name: the first three
/// dot-joined numbers in it (`1.10.163`), build 0. `Ok(None)` where the
/// name holds none; an error where a number does not fit 16 bits.
pub fn parse_dir_name(s: &[u8]) -> (r: Result<Option<Version>, ()>)
    ensures
        r == dir_name_result(s@),
{
    let mut p: usize = 0;
    while p <= s.len()
        invariant
            p <= s@.len() + 1,
            s@.len() == s.len(),
            first_dotted_from(s@, 0) == first_dotted_from(s@, p as int),
        decreases s@.len() + 1 - p,
    {
        match read_dotted(s, p) {
            Some((q1, q2, e)) => {
                let a = read_component(s, p, q1 - 1);
                let b = read_component(s, q1, q2 - 1);
                let c = read_component(s, q2, e);
                return match (a, b, c) {
                    (Some(a), Some(b), Some(c)) => Ok(Some(Version { major: a, minor: b, patch: c, build: 0 })),
                    _ => Err(()),
                };
            },
            None => {},
        }
        if p == s.len() {
            assert(first_dotted_from(s@, p + 1) is None);
            return Ok(None);
        }
        p = p + 1;
    }
    Ok(None)
}

/// A diff report's name at `p`: two dotted versions joined by `_`, then
/// `.txt`; the end of the match.
pub open spec fn diff_name_at(s: Seq<u8>, p: int) -> Option<int> {
    match dotted_at(s, p) {
        Some(e1) => if e1 < s.len() && s[e1] == 95 {
            match dotted_at(s, e1 + 1) {
                Some(e2) => if has_at(s, e2, seq![46u8, 116, 120, 116]) {
                    Some(e2 + 4)
                } else {
                    None
                },
                None => None,
            }
        } else {
            None
        },
        None => None,
    }
}

/// The first position from `p` on where `diff_name_at` matches.
pub open spec fn first_diff_name_from(s: Seq<u8>, p: int) -> Option<int>
    decreases s.len() + 1 - p,
{
    if p < 0 || p > s.len() {
        None
    } else if diff_name_at(s, p) is Some {
        Some(p)
    } else {
        first_diff_name_from(s, p + 1)
    }
}

/// What a diff report's file name gives: nothing where it holds no match;
/// else the (older, newer) versions of the first match, or an error where a
/// number does not fit 16 bits.
pub open spec fn diff_name_result(s: Seq<u8>) -> Result<Option<(Version, Version)>, ()> {
    match first_diff_name_from(s, 0) {
        None => Ok(None),
        Some(p) => {
            let e1 = dotted_at(s, p)->Some_0;
            match (dotted_version(s, p), dotted_version(s, e1 + 1)) {
                (Some(a), Some(b)) => Ok(Some((a, b))),
                _ => Err(()),
            }
        },
    }
}

/// A bin's name at `p`: `version-`, four numbers joined by `-`, then `.bin`;
/// the positions after each number's separator.
pub open spec fn bin_name_at(s: Seq<u8>, p: int) -> Option<(int, int, int, int)> {
    if !has_at(s, p, seq![118u8, 101, 114, 115, 105, 111, 110, 45]) {
        None
    } else {
        match number_then(s, p + 8, 45) {
            Some(q1) => match number_then(s, q1, 45) {
                Some(q2) => match number_then(s, q2, 45) {
                    Some(q3) => match number_then(s, q3, 46) {
                        Some(q4) => if has_at(s, q4, seq![98u8, 105, 110]) {
                            Some((q1, q2, q3, q4))
                        } else {
                            None
                        },
                        None => None,
                    },
                    None => None,
                },
                None => None,
            },
            None => None,
        }
    }
}

/// The first position from `p` on where `bin_name_at` matches.
pub open spec fn first_bin_name_from(s: Seq<u8>, p: int) -> Option<int>
    decreases s.len() + 1 - p,
{
    if p < 0 || p > s.len() {
        None
    } else if bin_name_at(s, p) is Some {
        Some(p)
    } else {
        first_bin_name_from(s, p + 1)
    }
}

/// What a bin's file name gives: nothing where it holds no match; else the
/// version of the first match, or an error where a number does not fit 16 bits.
pub open spec fn bin_name_result(s: Seq<u8>) -> Result<Option<Version>, ()> {
    match first_bin_name_from(s, 0) {
        None => Ok(None),
        Some(p) => {
            let (q1, q2, q3, q4) = bin_name_at(s, p)->Some_0;
            match (
                component(s, p + 8, q1 - 1),
                component(s, q1, q2 - 1),
                component(s, q2, q3 - 1),
                component(s, q3, q4 - 1),
            ) {
                (Some(a), Some(b), Some(c), Some(d)) => Ok(Some(Version { major: a, minor: b, patch: c, build: d })),
                _ => Err(()),
            }
        },
    }
}

fn read_dotted_version(s: &[u8], p: usize) -> (r: Result<Version, ()>)
    requires
        p <= s@.len(),
        dotted_at(s@, p as int) is Some,
    ensures
        dotted_version(s@, p as int) is Some ==> r == Ok::<Version, ()>(dotted_version(s@, p as int)->Some_0),
        dotted_version(s@, p as int) is None ==> r is Err,
{
    let (q1, q2, e) = read_dotted(s, p).unwrap();
    let a = read_component(s, p, q1 - 1);
    let b = read_component(s, q1, q2 - 1);
    let c = read_component(s, q2, e);
    match (a, b, c) {
        (Some(a), Some(b), Some(c)) => Ok(Version { major: a, minor: b, patch: c, build: 0 }),
        _ => Err(()),
    }
}

fn read_diff_name_at(s: &[u8], p: usize) -> (r: Option<usize>)
    requires
        p <= s@.len(),
    ensures
        r is Some <==> diff_name_at(s@, p as int) is Some,
        r is Some ==> r->Some_0 == dotted_at(s@, p as int)->Some_0 && r->Some_0 < s@.len(),
{
    let e1 = match read_dotted(s, p) {
        Some((_, _, e)) => e,
        None => {
            return None;
        },
    };
    if !(e1 < s.len() && s[e1] == 95) {
        return None;
    }
    let e2 = match read_dotted(s, e1 + 1) {
        Some((_, _, e)) => e,
        None => {
            return None;
        },
    };
    let w: [u8; 4] = [46, 116, 120, 116];
    assert(w@ =~= seq![46u8, 116, 120, 116]);
    if starts_with_at(s, e2, &w) {
        Some(e1)
    } else {
        None
    }
}

/// Reads the versions in a diff report's file name: the first
/// `<maj>.<min>.<patch>_<maj>.<min>.<patch>.txt` in it. `Ok(None)` where
/// the name holds none; an error where a number does not fit 16 bits.
pub fn parse_diff_name(s: &[u8]) -> (r: Result<Option<(Version, Version)>, ()>)
    ensures
        r == diff_name_result(s@),
{
    let mut p: usize = 0;
    while p <= s.len()
        invariant
            p <= s@.len() + 1,
            s@.len() == s.len(),
            first_diff_name_from(s@, 0) == first_diff_name_from(s@, p as int),
        decreases s@.len() + 1 - p,
    {
        if let Some(e1) = read_diff_name_at(s, p) {
            let a = read_dotted_version(s, p);
            let b = read_dotted_version(s, e1 + 1);
            return match (a, b) {
                (Ok(a), Ok(b)) => Ok(Some((a, b))),
                _ => Err(()),
            };
        }
        if p == s.len() {
            assert(first_diff_name_from(s@, p + 1) is None);
            return Ok(None);
        }
        p = p + 1;
    }
    Ok(None)
}

fn read_bin_name_at(s: &[u8], p: usize) -> (r: Option<(usize, usize, usize, usize)>)
    requires
        p <= s@.len(),
    ensures
        r is Some <==> bin_name_at(s@, p as int) is Some,
        r is Some ==> ({
            let (q1, q2, q3, q4) = r->Some_0;
            &&& bin_name_at(s@, p as int) == Some((q1 as int, q2 as int, q3 as int, q4 as int))
            &&& p + 8 < q1 <= q2 <= q3 <= q4 <= s@.len()
            &&& q1 < q2 && q2 < q3 && q3 < q4
            &&& forall|i: int| p + 8 <= i < q1 - 1 ==> is_decimal_digit(#[trigger] s@[i])
            &&& forall|i: int| q1 <= i < q2 - 1 ==> is_decimal_digit(#[trigger] s@[i])
            &&& forall|i: int| q2 <= i < q3 - 1 ==> is_decimal_digit(#[trigger] s@[i])
            &&& forall|i: int| q3 <= i < q4 - 1 ==> is_decimal_digit(#[trigger] s@[i])
        }),
{
    let w: [u8; 8] = [118, 101, 114, 115, 105, 111, 110, 45];
    assert(w@ =~= seq![118u8, 101, 114, 115, 105, 111, 110, 45]);
    if !starts_with_at(s, p, &w) || s.len() - p < 8 {
        return None;
    }
    let q1 = match read_number_then(s, p + 8, 45) {
        Some(q) => q,
        None => {
            return None;
        },
    };
    let q2 = match read_number_then(s, q1, 45) {
        Some(q) => q,
        None => {
            return None;
        },
    };
    let q3 = match read_number_then(s, q2, 45) {
        Some(q) => q,
        None => {
            return None;
        },
    };
    let q4 = match read_number_then(s, q3, 46) {
        Some(q) => q,
        None => {
            return None;
        },
    };
    let b: [u8; 3] = [98, 105, 110];
    assert(b@ =~= seq![98u8, 105, 110]);
    if starts_with_at(s, q4, &b) {
        Some((q1, q2, q3, q4))
    } else {
        None
    }
}

/// Reads the version in a bin's file name: the first
/// `version-<major>-<minor>-<patch>-<build>.bin` in it. `Ok(None)` where
/// the name holds none; an error where a number does not fit 16 bits.
pub fn parse_bin_name(s: &[u8]) -> (r: Result<Option<Version>, ()>)
    ensures
        r == bin_name_result(s@),
{
    let mut p: usize = 0;
    while p <= s.len()
        invariant
            p <= s@.len() + 1,
            s@.len() == s.len(),
            first_bin_name_from(s@, 0) == first_bin_name_from(s@, p as int),
        decreases s@.len() + 1 - p,
    {
        if let Some((q1, q2, q3, q4)) = read_bin_name_at(s, p) {
            let a = read_component(s, p + 8, q1 - 1);
            let b = read_component(s, q1, q2 - 1);
            let c = read_component(s, q2, q3 - 1);
            let d = read_component(s, q3, q4 - 1);
            return match (a, b, c, d) {
                (Some(a), Some(b), Some(c), Some(d)) => Ok(Some(Version { major: a, minor: b, patch: c, build: d })),
                _ => Err(()),
            };
        }
        if p == s.len() {
            assert(first_bin_name_from(s@, p + 1) is None);
            return Ok(None);
        }
        p = p + 1;
    }
    Ok(None)
}

} // verus!
