use vstd::prelude::*;

verus! {

/// `c` is an ASCII hexadecimal digit.
pub open spec fn is_hex_digit(c: u8) -> bool {
    (48 <= c <= 57) || (65 <= c <= 70) || (97 <= c <= 102)
}

/// The value of the hexadecimal digit `c`.
pub open spec fn hex_digit_value(c: u8) -> int {
    if 48 <= c <= 57 {
        c - 48
    } else if 65 <= c <= 70 {
        c - 55
    } else {
        c - 87
    }
}

/// The number that the hexadecimal digits `s` spell, most significant first.
pub open spec fn hex_value(s: Seq<u8>) -> int
    decreases s.len(),
{
    if s.len() == 0 {
        0
    } else {
        hex_value(s.drop_last()) * 16 + hex_digit_value(s.last())
    }
}

/// Every byte of `s` is a hexadecimal digit, and there is at least one.
pub open spec fn all_hex(s: Seq<u8>) -> bool {
    s.len() > 0 && forall|i: int| 0 <= i < s.len() ==> is_hex_digit(#[trigger] s[i])
}

/// The end of the run of hexadecimal digits that starts at `i`.
pub open spec fn hex_run_end(s: Seq<u8>, i: int) -> int
    decreases s.len() - i,
{
    if 0 <= i < s.len() && is_hex_digit(s[i]) {
        hex_run_end(s, i + 1)
    } else {
        i
    }
}

/// `s` holds the bytes `word` at position `at`.
pub open spec fn has_at(s: Seq<u8>, at: int, word: Seq<u8>) -> bool {
    0 <= at && at + word.len() <= s.len() && s.subrange(at, at + word.len()) == word
}

/// `s` holds only ASCII whitespace.
pub open spec fn is_blank(s: Seq<u8>) -> bool {
    forall|i: int| 0 <= i < s.len() ==> is_space(#[trigger] s[i])
}

pub open spec fn is_space(c: u8) -> bool {
    c == 32 || c == 9 || c == 10 || c == 13 || c == 11 || c == 12
}

proof fn lemma_hex_value_bounds(s: Seq<u8>)
    requires
        forall|i: int| 0 <= i < s.len() ==> is_hex_digit(#[trigger] s[i]),
    ensures
        0 <= hex_value(s),
    decreases s.len(),
{
    if s.len() > 0 {
        lemma_hex_value_bounds(s.drop_last());
    }
}

/// The end of the run of hexadecimal digits in `s` that starts at `at`.
pub fn hex_run(s: &[u8], at: usize) -> (r: usize)
    requires
        at <= s@.len(),
    ensures
        r == hex_run_end(s@, at as int),
        at <= r <= s@.len(),
        forall|i: int| at <= i < r ==> is_hex_digit(#[trigger] s@[i]),
    decreases s@.len() - at,
{
    if at < s.len() && is_hex_byte(s[at]) {
        hex_run(s, at + 1)
    } else {
        at
    }
}

fn is_hex_byte(c: u8) -> (r: bool)
    ensures
        r == is_hex_digit(c),
{
    (48 <= c && c <= 57) || (65 <= c && c <= 70) || (97 <= c && c <= 102)
}

/// Reads `s[from..to]`, all hexadecimal digits, as a number; `None` where it
/// does not fit 64 bits.
pub fn parse_hex(s: &[u8], from: usize, to: usize) -> (r: Option<u64>)
    requires
        from <= to <= s@.len(),
        forall|i: int| from <= i < to ==> is_hex_digit(#[trigger] s@[i]),
    ensures
        r is Some <==> hex_value(s@.subrange(from as int, to as int)) <= u64::MAX,
        r is Some ==> r->Some_0 == hex_value(s@.subrange(from as int, to as int)),
{
    let mut acc: u64 = 0;
    let mut i = from;
    while i < to
        invariant
            from <= i <= to <= s@.len(),
            forall|j: int| from <= j < to ==> is_hex_digit(#[trigger] s@[j]),
            acc == hex_value(s@.subrange(from as int, i as int)),
        decreases to - i,
    {
        let c = s[i];
        let d: u64 = if c <= 57 {
            (c - 48) as u64
        } else if c <= 70 {
            (c - 55) as u64
        } else {
            (c - 87) as u64
        };
        assert(s@.subrange(from as int, i + 1).drop_last() =~= s@.subrange(from as int, i as int));
        if acc > (u64::MAX - d) / 16 {
            proof {
                let t = s@.subrange(from as int, to as int);
                lemma_hex_prefix_grows(s@, from as int, i + 1, to as int);
                assert(hex_value(s@.subrange(from as int, i + 1)) > u64::MAX) by (nonlinear_arith)
                    requires
                        acc > (u64::MAX - d) / 16,
                        hex_value(s@.subrange(from as int, i + 1)) == acc * 16 + d,
                        d <= 15,
                ;
            }
            return None;
        }
        assert(acc * 16 + d <= u64::MAX) by (nonlinear_arith)
            requires
                acc <= (u64::MAX - d) / 16,
                d <= 15,
        ;
        acc = acc * 16 + d;
        i = i + 1;
    }
    Some(acc)
}

/// A longer run of digits spells at least as large a number.
proof fn lemma_hex_prefix_grows(s: Seq<u8>, from: int, mid: int, to: int)
    requires
        0 <= from <= mid <= to <= s.len(),
        forall|j: int| from <= j < to ==> is_hex_digit(#[trigger] s[j]),
    ensures
        hex_value(s.subrange(from, mid)) <= hex_value(s.subrange(from, to)),
    decreases to - mid,
{
    if mid < to {
        lemma_hex_prefix_grows(s, from, mid, to - 1);
        let t = s.subrange(from, to);
        assert(t.drop_last() =~= s.subrange(from, to - 1));
        lemma_hex_value_bounds(s.subrange(from, to - 1));
    }
}

/// `s` holds the bytes `word` at position `at`.
pub fn starts_with_at(s: &[u8], at: usize, word: &[u8]) -> (r: bool)
    ensures
        r == has_at(s@, at as int, word@),
{
    if at > s.len() || s.len() - at < word.len() {
        return false;
    }
    let mut i: usize = 0;
    while i < word.len()
        invariant
            at + word@.len() <= s@.len(),
            s@.len() == s.len(),
            i <= word@.len(),
            forall|j: int| 0 <= j < i ==> s@[at + j] == word@[j],
        decreases word.len() - i,
    {
        if s[at + i] != word[i] {
            assert(s@.subrange(at as int, at + word@.len())[i as int] != word@[i as int]);
            return false;
        }
        i = i + 1;
    }
    assert(s@.subrange(at as int, at + word@.len()) =~= word@);
    true
}

/// `s` holds only ASCII whitespace.
pub fn blank(s: &[u8]) -> (r: bool)
    ensures
        r == is_blank(s@),
{
    let mut i: usize = 0;
    while i < s.len()
        invariant
            i <= s@.len(),
            forall|j: int| 0 <= j < i ==> is_space(#[trigger] s@[j]),
        decreases s.len() - i,
    {
        let c = s[i];
        if !(c == 32 || c == 9 || c == 10 || c == 13 || c == 11 || c == 12) {
            return false;
        }
        i = i + 1;
    }
    true
}

/// The first blank line from `i` on, or the number of lines.
pub open spec fn blank_from(lines: Seq<Vec<u8>>, i: int) -> int
    decreases lines.len() - i,
{
    if i >= lines.len() || i < 0 || is_blank(lines[i]@) {
        i
    } else {
        blank_from(lines, i + 1)
    }
}

pub proof fn lemma_blank_from_ge(lines: Seq<Vec<u8>>, i: int)
    requires
        0 <= i,
    ensures
        blank_from(lines, i) >= i,
    decreases lines.len() - i,
{
    if i < lines.len() && !is_blank(lines[i]@) {
        lemma_blank_from_ge(lines, i + 1);
    }
}

} // verus!
