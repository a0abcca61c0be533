use vstd::prelude::*;

verus! {

/// ASCII whitespace as `str::split_ascii_whitespace` understands it.
pub open spec fn is_ws(b: u8) -> bool {
    b == 0x20u8 || b == 0x09u8 || b == 0x0Au8 || b == 0x0Cu8 || b == 0x0Du8
}

pub open spec fn is_digit(b: u8) -> bool {
    0x30u8 <= b && b <= 0x39u8
}

/// First index at or after `i` that does not hold whitespace.
pub open spec fn skip_ws(s: Seq<u8>, i: int) -> int
    decreases s.len() - i,
{
    if i < 0 || i >= s.len() || !is_ws(s[i]) {
        i
    } else {
        skip_ws(s, i + 1)
    }
}

/// First index at or after `i` that does not hold a decimal digit.
pub open spec fn skip_digits(s: Seq<u8>, i: int) -> int
    decreases s.len() - i,
{
    if i < 0 || i >= s.len() || !is_digit(s[i]) {
        i
    } else {
        skip_digits(s, i + 1)
    }
}

/// The number that a run of decimal digits spells.
pub open spec fn digits_value(s: Seq<u8>) -> nat
    decreases s.len(),
{
    if s.len() == 0 {
        0
    } else {
        digits_value(s.drop_last()) * 10 + (s.last() - 0x30u8) as nat
    }
}

/// The header line, without its terminating newline: every byte before the first
/// `'\n'`, or the whole input when it has none.
pub open spec fn first_line_end(data: Seq<u8>) -> int {
    if exists|i: int| 0 <= i < data.len() && data[i] == 0x0Au8 {
        choose|i: int|
            0 <= i < data.len() && data[i] == 0x0Au8 && forall|j: int|
                0 <= j < i ==> data[j] != 0x0Au8
    } else {
        data.len() as int
    }
}

/// Where the records begin: just after the header's newline.
pub open spec fn body_start(data: Seq<u8>) -> int {
    if first_line_end(data) < data.len() {
        first_line_end(data) + 1
    } else {
        data.len() as int
    }
}

/// The header grammar: optional whitespace, a run of digits, whitespace, a run of
/// digits, optional whitespace. Both numbers must be positive and fit in `usize`.
/// Yields the word count and the dimensionality.
pub open spec fn parse_header(line: Seq<u8>) -> Option<(nat, nat)> {
    let a0 = skip_ws(line, 0);
    let a1 = skip_digits(line, a0);
    let b0 = skip_ws(line, a1);
    let b1 = skip_digits(line, b0);
    let n = digits_value(line.subrange(a0, a1));
    let d = digits_value(line.subrange(b0, b1));
    if a1 > a0 && b0 > a1 && b1 > b0 && skip_ws(line, b1) == line.len() && 0 < n
        <= usize::MAX && 0 < d <= usize::MAX {
        Some((n, d))
    } else {
        None
    }
}

proof fn lemma_skip_ws_bounds(s: Seq<u8>, i: int)
    requires
        0 <= i <= s.len(),
    ensures
        i <= skip_ws(s, i) <= s.len(),
        forall|k: int| i <= k < skip_ws(s, i) ==> is_ws(#[trigger] s[k]),
        skip_ws(s, i) < s.len() ==> !is_ws(s[skip_ws(s, i)]),
    decreases s.len() - i,
{
    if i < s.len() && is_ws(s[i]) {
        lemma_skip_ws_bounds(s, i + 1);
    }
}

proof fn lemma_skip_digits_bounds(s: Seq<u8>, i: int)
    requires
        0 <= i <= s.len(),
    ensures
        i <= skip_digits(s, i) <= s.len(),
        forall|k: int| i <= k < skip_digits(s, i) ==> is_digit(#[trigger] s[k]),
        skip_digits(s, i) < s.len() ==> !is_digit(s[skip_digits(s, i)]),
    decreases s.len() - i,
{
    if i < s.len() && is_digit(s[i]) {
        lemma_skip_digits_bounds(s, i + 1);
    }
}

/// A longer run of digits spells a number at least as large.
proof fn lemma_digits_value_grows(s: Seq<u8>, k: int)
    requires
        0 <= k <= s.len(),
        forall|j: int| 0 <= j < s.len() ==> is_digit(#[trigger] s[j]),
    ensures
        digits_value(s.subrange(0, k)) <= digits_value(s),
    decreases s.len() - k,
{
    if k < s.len() {
        let t = s.subrange(0, k + 1);
        assert(t.drop_last() =~= s.subrange(0, k));
        lemma_digits_value_grows(s, k + 1);
    } else {
        assert(s.subrange(0, k) =~= s);
    }
}

/// Index of the first `'\n'` in `data`, or its length when there is none.
pub(crate) fn find_line_end(data: &[u8]) -> (r: usize)
    ensures
        r as int == first_line_end(data@),
        r <= data@.len(),
{
    let mut i: usize = 0;
    while i < data.len()
        invariant
            i <= data@.len(),
            forall|j: int| 0 <= j < i ==> data@[j] != 0x0Au8,
        decreases data.len() - i,
    {
        if data[i] == 0x0Au8 {
            assert(0 <= i < data@.len() && data@[i as int] == 0x0Au8);
            let ghost c = choose|c: int|
                0 <= c < data@.len() && data@[c] == 0x0Au8 && forall|j: int|
                    0 <= j < c ==> data@[j] != 0x0Au8;
            assert(c == i as int) by {
                if c < i {
                } else if c > i {
                    assert(data@[i as int] != 0x0Au8);
                }
            }
            return i;
        }
        i = i + 1;
    }
    i
}

/// Reads the run of digits that starts at `start` and ends before `end`. `None` when
/// its value does not fit in `usize`.
fn read_number(line: &[u8], start: usize, end: usize) -> (r: Option<usize>)
    requires
        start <= end <= line@.len(),
        forall|k: int| start <= k < end ==> is_digit(#[trigger] line@[k]),
    ensures
        match r {
            Some(v) => v as nat == digits_value(line@.subrange(start as int, end as int)),
            None => digits_value(line@.subrange(start as int, end as int)) > usize::MAX,
        },
{
    let ghost run = line@.subrange(start as int, end as int);
    let mut acc: usize = 0;
    let mut i: usize = start;
    while i < end
        invariant
            start <= i <= end <= line@.len(),
            run == line@.subrange(start as int, end as int),
            forall|k: int| 0 <= k < run.len() ==> is_digit(#[trigger] run[k]),
            acc as nat == digits_value(run.subrange(0, i - start)),
        decreases end - i,
    {
        let ghost prev = run.subrange(0, i - start);
        let ghost next = run.subrange(0, i - start + 1);
        assert(next.drop_last() =~= prev);
        assert(next.last() == line@[i as int]);
        let digit: usize = (line[i] - 0x30u8) as usize;
        if acc > (usize::MAX - digit) / 10 {
            assert(digits_value(next) > usize::MAX) by (nonlinear_arith)
                requires
                    digits_value(next) == acc * 10 + digit,
                    acc > (usize::MAX - digit) / 10,
                    digit <= 9,
            ;
            proof {
                lemma_digits_value_grows(run, i - start + 1);
            }
            return None;
        }
        assert(acc * 10 + digit <= usize::MAX) by (nonlinear_arith)
            requires
                acc <= (usize::MAX - digit) / 10,
                digit <= 9,
        ;
        acc = acc * 10 + digit;
        i = i + 1;
    }
    assert(run.subrange(0, end - start) =~= run);
    Some(acc)
}

fn skip_ws_from(line: &[u8], start: usize) -> (r: usize)
    requires
        start <= line@.len(),
    ensures
        r as int == skip_ws(line@, start as int),
{
    let mut i: usize = start;
    while i < line.len() && (line[i] == 0x20u8 || line[i] == 0x09u8 || line[i] == 0x0Au8
        || line[i] == 0x0Cu8 || line[i] == 0x0Du8)
        invariant
            start <= i <= line@.len(),
            skip_ws(line@, start as int) == skip_ws(line@, i as int),
        decreases line.len() - i,
    {
        i = i + 1;
    }
    i
}

fn skip_digits_from(line: &[u8], start: usize) -> (r: usize)
    requires
        start <= line@.len(),
    ensures
        r as int == skip_digits(line@, start as int),
{
    let mut i: usize = start;
    while i < line.len() && 0x30u8 <= line[i] && line[i] <= 0x39u8
        invariant
            start <= i <= line@.len(),
            skip_digits(line@, start as int) == skip_digits(line@, i as int),
        decreases line.len() - i,
    {
        i = i + 1;
    }
    i
}

/// Parses a header line into (word count, dimensionality).
pub fn read_header(line: &[u8]) -> (r: Option<(usize, usize)>)
    ensures
        match parse_header(line@) {
            Some((n, d)) => r == Some((n as usize, d as usize)),
            None => r is None,
        },
{
    let a0 = skip_ws_from(line, 0);
    proof { lemma_skip_ws_bounds(line@, 0); }
    let a1 = skip_digits_from(line, a0);
    proof { lemma_skip_digits_bounds(line@, a0 as int); }
    let b0 = skip_ws_from(line, a1);
    proof { lemma_skip_ws_bounds(line@, a1 as int); }
    let b1 = skip_digits_from(line, b0);
    proof { lemma_skip_digits_bounds(line@, b0 as int); }
    let end = skip_ws_from(line, b1);
    proof { lemma_skip_ws_bounds(line@, b1 as int); }
    if !(a1 > a0 && b0 > a1 && b1 > b0 && end == line.len()) {
        return None;
    }
    let n = match read_number(line, a0, a1) {
        Some(v) => v,
        None => return None,
    };
    let d = match read_number(line, b0, b1) {
        Some(v) => v,
        None => return None,
    };
    if n == 0 || d == 0 {
        return None;
    }
    Some((n, d))
}

} // verus!
