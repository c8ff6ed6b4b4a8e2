//! Decimal text: parsing pid-file contents and rendering counters.
//!
//! A Forking-mode application advertises its service PID as the first line
//! of a pid-file.  The driver reads the file's bytes; the functions here
//! decide, from the text alone, which PID (if any) it names.

use vstd::prelude::*;

verus! {

/// True when `c` is an ASCII decimal digit.
pub open spec fn is_digit(c: char) -> bool {
    '0' <= c && c <= '9'
}

/// Numeric value of the digit `c`.
pub open spec fn digit_val(c: char) -> nat {
    (c as nat - '0' as nat) as nat
}

/// True when every character of `s` is a decimal digit.
pub open spec fn all_digits(s: Seq<char>) -> bool {
    forall|i: int| 0 <= i < s.len() ==> is_digit(#[trigger] s[i])
}

/// The number that the digit string `s` denotes in base ten.
pub open spec fn digits_value(s: Seq<char>) -> nat
    decreases s.len(),
{
    if s.len() == 0 {
        0
    } else {
        digits_value(s.drop_last()) * 10 + digit_val(s.last())
    }
}

/// What parsing a whole string as an unsigned 32-bit decimal yields:
/// the denoted number when `s` is one or more digits and fits, else nothing.
pub open spec fn spec_parse_u32(s: Seq<char>) -> Option<u32> {
    if s.len() > 0 && all_digits(s) && digits_value(s) <= u32::MAX {
        Some(digits_value(s) as u32)
    } else {
        None
    }
}

/// The digit prefix of length `i` denotes no more than the whole string.
proof fn lemma_digits_value_prefix_le(s: Seq<char>, i: int)
    requires
        0 <= i <= s.len(),
    ensures
        digits_value(s.subrange(0, i)) <= digits_value(s),
    decreases s.len() - i,
{
    if i < s.len() {
        lemma_digits_value_prefix_le(s, i + 1);
        let p = s.subrange(0, i);
        let q = s.subrange(0, i + 1);
        assert(q.drop_last() =~= p);
        assert(digits_value(q) == digits_value(p) * 10 + digit_val(q.last()));
    } else {
        assert(s.subrange(0, i) =~= s);
    }
}

/// Parses `s` as a decimal `u32`: digits only, at least one, value in range.
pub fn parse_u32(s: &str) -> (r: Option<u32>)
    ensures
        r == spec_parse_u32(s@),
{
    let n = s.unicode_len();
    if n == 0 {
        return None;
    }
    let mut value: u64 = 0;
    let mut i: usize = 0;
    while i < n
        invariant
            n == s@.len(),
            0 < n,
            0 <= i <= n,
            all_digits(s@.subrange(0, i as int)),
            value == digits_value(s@.subrange(0, i as int)),
            value <= u32::MAX,
        decreases n - i,
    {
        let c = s.get_char(i);
        if c < '0' || c > '9' {
            assert(!is_digit(s@[i as int]));
            return None;
        }
        let d: u64 = (c as u32 as u64) - 48;
        proof {
            assert(s@.subrange(0, i + 1 as int).drop_last() =~= s@.subrange(0, i as int));
            assert(d == digit_val(s@[i as int]));
        }
        let next: u64 = value * 10 + d;
        if next > 0xffff_ffff {
            proof {
                lemma_digits_value_prefix_le(s@, i + 1 as int);
            }
            return None;
        }
        value = next;
        i += 1;
    }
    proof {
        assert(s@.subrange(0, n as int) =~= s@);
    }
    Some(value as u32)
}

/// Index of the first newline of `s`, or `s.len()` when there is none.
pub open spec fn line_end(s: Seq<char>) -> int {
    if exists|i: int| 0 <= i < s.len() && s[i] == '\n' {
        choose|i: int|
            0 <= i < s.len() && s[i] == '\n' && (forall|j: int| 0 <= j < i ==> s[j] != '\n')
    } else {
        s.len() as int
    }
}

/// The first line of `s`: everything before the first newline.
pub open spec fn first_line(s: Seq<char>) -> Seq<char> {
    s.subrange(0, line_end(s))
}

/// `line_end` is in range and is the position of the first newline.
pub proof fn lemma_line_end(s: Seq<char>)
    ensures
        0 <= line_end(s) <= s.len(),
        line_end(s) < s.len() ==> s[line_end(s)] == '\n',
        forall|j: int| 0 <= j < line_end(s) ==> s[j] != '\n',
{
    if exists|i: int| 0 <= i < s.len() && s[i] == '\n' {
        let i0 = choose|i: int| 0 <= i < s.len() && s[i] == '\n';
        let k = least_nl_witness(s, i0);
        assert(0 <= k < s.len() && s[k] == '\n' && (forall|j: int| 0 <= j < k ==> s[j] != '\n'));
    }
}

/// Of all newline positions `<= i0`, returns the least one.
proof fn least_nl_witness(s: Seq<char>, i0: int) -> (k: int)
    requires
        0 <= i0 < s.len(),
        s[i0] == '\n',
    ensures
        0 <= k <= i0,
        s[k] == '\n',
        forall|j: int| 0 <= j < k ==> s[j] != '\n',
    decreases i0,
{
    if exists|j: int| 0 <= j < i0 && s[j] == '\n' {
        let j0 = choose|j: int| 0 <= j < i0 && s[j] == '\n';
        least_nl_witness(s, j0)
    } else {
        i0
    }
}

/// The digit character for a value below ten.
pub open spec fn digit_char(d: nat) -> char {
    if d == 0 {
        '0'
    } else if d == 1 {
        '1'
    } else if d == 2 {
        '2'
    } else if d == 3 {
        '3'
    } else if d == 4 {
        '4'
    } else if d == 5 {
        '5'
    } else if d == 6 {
        '6'
    } else if d == 7 {
        '7'
    } else if d == 8 {
        '8'
    } else {
        '9'
    }
}

/// The decimal digit string of `n`, most significant digit first, with no
/// leading zeros (just "0" for zero).
pub open spec fn dec_digits(n: nat) -> Seq<char>
    decreases n,
{
    if n < 10 {
        seq![digit_char(n)]
    } else {
        dec_digits(n / 10).push(digit_char(n % 10))
    }
}

/// Rendering and parsing round-trip: the decimal digit string of `n`
/// denotes `n`.
pub proof fn lemma_dec_digits_value(n: nat)
    ensures
        dec_digits(n).len() > 0,
        all_digits(dec_digits(n)),
        digits_value(dec_digits(n)) == n,
    decreases n,
{
    if n < 10 {
        assert(dec_digits(n) =~= seq![digit_char(n)]);
        assert(dec_digits(n).drop_last() =~= Seq::<char>::empty());
        assert(digits_value(Seq::<char>::empty()) == 0);
        assert(dec_digits(n).last() == digit_char(n));
        assert(digits_value(dec_digits(n)) == digits_value(dec_digits(n).drop_last()) * 10
            + digit_val(dec_digits(n).last()));
        assert(digit_val(digit_char(n)) == n);
    } else {
        lemma_dec_digits_value(n / 10);
        let s = dec_digits(n);
        assert(s.drop_last() =~= dec_digits(n / 10));
        assert(s.last() == digit_char(n % 10));
        assert(digit_val(digit_char(n % 10)) == n % 10);
        assert(digits_value(s) == digits_value(dec_digits(n / 10)) * 10 + (n % 10));
        assert((n / 10) * 10 + n % 10 == n) by (nonlinear_arith);
        assert(forall|i: int|
            0 <= i < s.len() ==> is_digit(#[trigger] s[i]) == (if i < s.len() - 1 {
                is_digit(dec_digits(n / 10)[i])
            } else {
                is_digit(digit_char(n % 10))
            }));
    }
}

/// Rendering a number that fits in 32 bits and parsing it back yields the
/// number.
pub proof fn lemma_render_parse_round_trip(n: nat)
    requires
        n <= u32::MAX,
    ensures
        spec_parse_u32(dec_digits(n)) == Some(n as u32),
{
    lemma_dec_digits_value(n);
}

/// One decimal digit, as text.
fn digit_str(d: u64) -> (r: &'static str)
    requires
        d < 10,
    ensures
        r@ =~= seq![digit_char(d as nat)],
{
    let s: &'static str = match d {
        0 => "0",
        1 => "1",
        2 => "2",
        3 => "3",
        4 => "4",
        5 => "5",
        6 => "6",
        7 => "7",
        8 => "8",
        _ => "9",
    };
    proof {
        reveal_strlit("0");
        reveal_strlit("1");
        reveal_strlit("2");
        reveal_strlit("3");
        reveal_strlit("4");
        reveal_strlit("5");
        reveal_strlit("6");
        reveal_strlit("7");
        reveal_strlit("8");
        reveal_strlit("9");
    }
    s
}

/// Renders `n` in decimal.
pub fn u64_to_string(n: u64) -> (r: String)
    ensures
        r@ =~= dec_digits(n as nat),
    decreases n,
{
    if n < 10 {
        String::from_str(digit_str(n))
    } else {
        let mut s = u64_to_string(n / 10);
        s.append(digit_str(n % 10));
        proof {
            assert(s@ =~= dec_digits((n / 10) as nat) + seq![digit_char((n % 10) as nat)]);
            assert(dec_digits(n as nat) =~= dec_digits((n / 10) as nat).push(
                digit_char((n % 10) as nat),
            ));
            assert(dec_digits((n / 10) as nat).push(digit_char((n % 10) as nat))
                =~= dec_digits((n / 10) as nat) + seq![digit_char((n % 10) as nat)]);
        }
        s
    }
}

/// Position of the first newline of `s`, or its length when there is none.
fn find_newline(s: &str) -> (r: usize)
    ensures
        r as int == line_end(s@),
{
    let n = s.unicode_len();
    let mut i: usize = 0;
    while i < n
        invariant
            n == s@.len(),
            0 <= i <= n,
            forall|j: int| 0 <= j < i ==> s@[j] != '\n',
        decreases n - i,
    {
        if s.get_char(i) == '\n' {
            proof {
                lemma_line_end(s@);
            }
            return i;
        }
        i += 1;
    }
    proof {
        lemma_line_end(s@);
    }
    n
}

/// Reads a PID out of pid-file text: the first line, taken as a decimal
/// `u32`.  Empty files, empty first lines, and non-numeric first lines all
/// yield `None` (the file counts as unreadable).
pub fn parse_pid_text(s: &str) -> (r: Option<u32>)
    ensures
        r == spec_parse_u32(first_line(s@)),
{
    proof {
        lemma_line_end(s@);
    }
    let end = find_newline(s);
    let line = s.substring_char(0, end);
    parse_u32(line)
}

} // verus!
