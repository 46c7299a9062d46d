//! Decimal numbers as text: written, padded and read back.

use vstd::prelude::*;

verus! {

/// Appends one character; `String::push` is documented to do just that.
pub assume_specification[ String::push ](s: &mut String, c: char)
    ensures
        final(s)@ == old(s)@.push(c),
;

// ---------------------------------------------------------------------------
// Writing
// ---------------------------------------------------------------------------

/// The character of a decimal digit.
pub open spec fn digit_char(d: int) -> char {
    (48 + d) as char
}

/// A number in decimal, without leading zeros.
pub open spec fn decimal(n: nat) -> Seq<char>
    decreases n,
{
    if n < 10 {
        seq![digit_char(n as int)]
    } else {
        decimal(n / 10).push(digit_char((n % 10) as int))
    }
}

/// The sign of a number, empty unless it is negative.
pub open spec fn sign(n: int) -> Seq<char> {
    if n < 0 {
        seq!['-']
    } else {
        Seq::empty()
    }
}

pub open spec fn magnitude(n: int) -> nat {
    if n < 0 {
        (-n) as nat
    } else {
        n as nat
    }
}

/// A number in decimal, signed when it is negative.
pub open spec fn int_text(n: int) -> Seq<char> {
    sign(n) + decimal(magnitude(n))
}

pub open spec fn zeros(k: int) -> Seq<char> {
    Seq::new(
        if k > 0 {
            k as nat
        } else {
            0
        },
        |i: int| '0',
    )
}

/// A number in decimal, filled up to `width` characters with zeros between its
/// sign and its digits.
pub open spec fn padded(n: int, width: int) -> Seq<char> {
    let digits = decimal(magnitude(n));
    sign(n) + zeros(width - sign(n).len() - digits.len()) + digits
}

fn digit(d: u64) -> (c: char)
    requires
        d < 10,
    ensures
        c == digit_char(d as int),
{
    (48 + d as u8) as char
}

/// Append `n` in decimal.
pub fn push_nat(s: &mut String, n: u64)
    ensures
        final(s)@ == old(s)@ + decimal(n as nat),
    decreases n,
{
    if n >= 10 {
        push_nat(s, n / 10);
    }
    s.push(digit(n % 10));
    assert(s@ =~= old(s)@ + decimal(n as nat));
}

fn magnitude_of(n: i64) -> (m: u64)
    ensures
        m == magnitude(n as int),
{
    if n < 0 {
        (-(n as i128)) as u64
    } else {
        n as u64
    }
}

/// Append `n` in decimal, signed when it is negative.
pub fn push_int(s: &mut String, n: i64)
    ensures
        final(s)@ == old(s)@ + int_text(n as int),
{
    if n < 0 {
        s.push('-');
    }
    push_nat(s, magnitude_of(n));
    assert(s@ =~= old(s)@ + int_text(n as int));
}

/// How many digits `n` has.
fn digit_count(n: u64) -> (k: u64)
    ensures
        k == decimal(n as nat).len(),
        1 <= k <= n / 10 + 1,
    decreases n,
{
    if n < 10 {
        1
    } else {
        1 + digit_count(n / 10)
    }
}

/// Append `n` in decimal, zero-filled to `width` characters.
pub fn push_padded(s: &mut String, n: i64, width: u64)
    ensures
        final(s)@ == old(s)@ + padded(n as int, width as int),
{
    let ghost before = s@;
    let m: u64 = magnitude_of(n);
    let mut len: u64 = digit_count(m);
    if n < 0 {
        s.push('-');
        len = len + 1;
    }
    assert(s@ =~= before + sign(n as int));
    let fill: u64 = if len < width {
        width - len
    } else {
        0
    };
    let mut i: u64 = 0;
    while i < fill
        invariant
            i <= fill,
            s@ == before + sign(n as int) + zeros(i as int),
        decreases fill - i,
    {
        s.push('0');
        i = i + 1;
        assert(s@ =~= before + sign(n as int) + zeros(i as int));
    }
    push_nat(s, m);
    assert(s@ =~= before + padded(n as int, width as int));
}

// ---------------------------------------------------------------------------
// Reading
// ---------------------------------------------------------------------------

pub open spec fn is_digit(c: char) -> bool {
    '0' <= c <= '9'
}

pub open spec fn all_digits(s: Seq<char>) -> bool {
    forall|i: int| 0 <= i < s.len() ==> is_digit(#[trigger] s[i])
}

/// The number that a run of digits stands for.
pub open spec fn value_of(s: Seq<char>) -> nat
    decreases s.len(),
{
    if s.len() == 0 {
        0
    } else {
        value_of(s.drop_last()) * 10 + (s.last() as nat - 48) as nat
    }
}

/// Digits, at least one, as a number.
pub open spec fn read_digits(s: Seq<char>) -> Option<int> {
    if s.len() > 0 && all_digits(s) {
        Some(value_of(s) as int)
    } else {
        None
    }
}

/// Digits, with or without a sign before them, as a number.
pub open spec fn read_int(s: Seq<char>) -> Option<int> {
    if s.len() > 0 && s[0] == '-' {
        match read_digits(s.skip(1)) {
            Some(v) => Some(-v),
            None => None,
        }
    } else if s.len() > 0 && s[0] == '+' {
        read_digits(s.skip(1))
    } else {
        read_digits(s)
    }
}

/// Digits, with or without a plus before them, as a number.
pub open spec fn read_nat(s: Seq<char>) -> Option<int> {
    if s.len() > 0 && s[0] == '+' {
        read_digits(s.skip(1))
    } else {
        read_digits(s)
    }
}

/// A number, if it was read and lies between `lo` and `hi`.
pub open spec fn within(v: Option<int>, lo: int, hi: int) -> Option<int> {
    match v {
        Some(x) => if lo <= x <= hi {
            Some(x)
        } else {
            None
        },
        None => None,
    }
}

proof fn lemma_value_prefix(s: Seq<char>, k: int)
    requires
        0 <= k <= s.len(),
        all_digits(s),
    ensures
        value_of(s.take(k)) <= value_of(s),
    decreases s.len() - k,
{
    if k == s.len() {
        assert(s.take(k) =~= s);
    } else {
        lemma_value_prefix(s, k + 1);
        assert(s.take(k + 1).drop_last() =~= s.take(k));
    }
}

/// The characters of a text.
pub fn chars_of(s: &str) -> (v: Vec<char>)
    ensures
        v@ == s@,
{
    let n: usize = s.unicode_len();
    let mut v: Vec<char> = Vec::new();
    let mut i: usize = 0;
    while i < n
        invariant
            i <= n,
            n == s@.len(),
            v@ == s@.take(i as int),
        decreases n - i,
    {
        v.push(s.get_char(i));
        i = i + 1;
        assert(v@ =~= s@.take(i as int));
    }
    assert(v@ =~= s@);
    v
}

/// The digits from `lo` up to `hi` as a number that fits.
fn parse_digits(cs: &Vec<char>, lo: usize, hi: usize) -> (r: Option<u64>)
    requires
        lo <= hi <= cs@.len(),
    ensures
        r matches Some(v) ==> within(
            read_digits(cs@.subrange(lo as int, hi as int)),
            0,
            u64::MAX as int,
        ) == Some(v as int),
        r is None ==> within(
            read_digits(cs@.subrange(lo as int, hi as int)),
            0,
            u64::MAX as int,
        ) is None,
{
    let ghost s = cs@.subrange(lo as int, hi as int);
    if lo == hi {
        return None;
    }
    let mut v: u64 = 0;
    let mut i: usize = lo;
    while i < hi
        invariant
            lo <= i <= hi <= cs@.len(),
            s == cs@.subrange(lo as int, hi as int),
            lo < hi,
            forall|j: int| 0 <= j < i - lo ==> is_digit(#[trigger] s[j]),
            v == value_of(s.take(i - lo)),
        decreases hi - i,
    {
        let c: char = cs[i];
        assert(s[i - lo] == c);
        if c < '0' || c > '9' {
            return None;
        }
        let d: u64 = (c as u32 - 48) as u64;
        assert(s.take(i - lo + 1).drop_last() =~= s.take(i - lo));
        assert(value_of(s.take(i - lo + 1)) == v * 10 + d);
        if v > (u64::MAX - d) / 10 {
            proof {
                if all_digits(s) {
                    lemma_value_prefix(s, i - lo + 1);
                }
            }
            return None;
        }
        v = v * 10 + d;
        i = i + 1;
    }
    assert(s.take(hi - lo) =~= s);
    Some(v)
}

/// The text from `lo` up to `hi` as a signed number.
pub fn parse_i64(cs: &Vec<char>, lo: usize, hi: usize) -> (r: Option<i64>)
    requires
        lo <= hi <= cs@.len(),
    ensures
        ({
            let v = within(
                read_int(cs@.subrange(lo as int, hi as int)),
                i64::MIN as int,
                i64::MAX as int,
            );
            match r {
                Some(x) => v == Some(x as int),
                None => v is None,
            }
        }),
{
    let ghost s = cs@.subrange(lo as int, hi as int);
    let mut from: usize = lo;
    let mut negative = false;
    if lo < hi {
        assert(s[0] == cs@[lo as int]);
        if cs[lo] == '-' {
            negative = true;
            from = lo + 1;
        } else if cs[lo] == '+' {
            from = lo + 1;
        }
    }
    assert(from > lo ==> s.skip(1) =~= cs@.subrange(from as int, hi as int));
    match parse_digits(cs, from, hi) {
        Some(m) => {
            if negative {
                if m <= 0x8000_0000_0000_0000 {
                    Some((-(m as i128)) as i64)
                } else {
                    None
                }
            } else if m <= 0x7fff_ffff_ffff_ffff {
                Some(m as i64)
            } else {
                None
            }
        },
        None => None,
    }
}

/// The text from `lo` up to `hi` as an unsigned number.
pub fn parse_u64(cs: &Vec<char>, lo: usize, hi: usize) -> (r: Option<u64>)
    requires
        lo <= hi <= cs@.len(),
    ensures
        ({
            let v = within(read_nat(cs@.subrange(lo as int, hi as int)), 0, u64::MAX as int);
            match r {
                Some(x) => v == Some(x as int),
                None => v is None,
            }
        }),
{
    let ghost s = cs@.subrange(lo as int, hi as int);
    let mut from: usize = lo;
    if lo < hi {
        assert(s[0] == cs@[lo as int]);
        if cs[lo] == '+' {
            from = lo + 1;
        }
    }
    assert(from > lo ==> s.skip(1) =~= cs@.subrange(from as int, hi as int));
    parse_digits(cs, from, hi)
}

/// The text from `lo` up to `hi` as an unsigned number of 32 bits.
pub fn parse_u32(cs: &Vec<char>, lo: usize, hi: usize) -> (r: Option<u32>)
    requires
        lo <= hi <= cs@.len(),
    ensures
        ({
            let v = within(read_nat(cs@.subrange(lo as int, hi as int)), 0, u32::MAX as int);
            match r {
                Some(x) => v == Some(x as int),
                None => v is None,
            }
        }),
{
    match parse_u64(cs, lo, hi) {
        Some(x) => if x <= 0xffff_ffff {
            Some(x as u32)
        } else {
            None
        },
        None => None,
    }
}

/// The text from `lo` up to `hi` as a signed number of 32 bits.
pub fn parse_i32(cs: &Vec<char>, lo: usize, hi: usize) -> (r: Option<i32>)
    requires
        lo <= hi <= cs@.len(),
    ensures
        ({
            let v = within(
                read_int(cs@.subrange(lo as int, hi as int)),
                i32::MIN as int,
                i32::MAX as int,
            );
            match r {
                Some(x) => v == Some(x as int),
                None => v is None,
            }
        }),
{
    match parse_i64(cs, lo, hi) {
        Some(x) => if -0x8000_0000 <= x && x <= 0x7fff_ffff {
            Some(x as i32)
        } else {
            None
        },
        None => None,
    }
}

/// Why a text is not a number of some kind.
#[derive(Clone, Copy, Debug, PartialEq, Eq, Structural)]
pub enum NumberError {
    /// There is no text.
    Empty,
    /// A character that is no digit, or a sign with nothing behind it.
    InvalidDigit,
    /// The number is past the largest.
    TooLarge,
    /// The number is below the smallest.
    TooSmall,
}

impl NumberError {
    pub fn message(&self) -> (r: &'static str)
        ensures
            r@ == (match *self {
                NumberError::Empty => "cannot parse integer from empty string"@,
                NumberError::InvalidDigit => "invalid digit found in string"@,
                NumberError::TooLarge => "number too large to fit in target type"@,
                NumberError::TooSmall => "number too small to fit in target type"@,
            }),
    {
        match *self {
            NumberError::Empty => "cannot parse integer from empty string",
            NumberError::InvalidDigit => "invalid digit found in string",
            NumberError::TooLarge => "number too large to fit in target type",
            NumberError::TooSmall => "number too small to fit in target type",
        }
    }
}

/// The digits at the start of a text already come to more than `top`.
pub open spec fn overruns(s: Seq<char>, top: int) -> bool {
    exists|k: int| 0 <= k <= s.len() && all_digits(s.take(k)) && #[trigger] value_of(s.take(k)) > top
}

/// What is wrong with a text that is no number from `lo` to `hi`. A minus is a sign
/// only where `lo` is negative.
pub open spec fn number_fault(s: Seq<char>, lo: int, hi: int) -> NumberError {
    if s.len() == 0 {
        NumberError::Empty
    } else if lo < 0 && s[0] == '-' {
        if overruns(s.skip(1), -lo) {
            NumberError::TooSmall
        } else {
            NumberError::InvalidDigit
        }
    } else if overruns(if s[0] == '+' {
        s.skip(1)
    } else {
        s
    }, hi) {
        NumberError::TooLarge
    } else {
        NumberError::InvalidDigit
    }
}

/// Whether the digits from `lo` up to `hi`, as far as they go, come to more than
/// `top`.
fn digits_overrun(cs: &Vec<char>, lo: usize, hi: usize, top: u64) -> (r: bool)
    requires
        lo <= hi <= cs@.len(),
    ensures
        r == overruns(cs@.subrange(lo as int, hi as int), top as int),
{
    let ghost s = cs@.subrange(lo as int, hi as int);
    let mut v: u64 = 0;
    let mut i: usize = lo;
    assert(s.take(0) =~= Seq::empty());
    while i < hi
        invariant
            lo <= i <= hi <= cs@.len(),
            s == cs@.subrange(lo as int, hi as int),
            all_digits(s.take(i - lo)),
            v == value_of(s.take(i - lo)),
            v <= top,
        decreases hi - i,
    {
        let c: char = cs[i];
        let ghost k = i - lo;
        assert(s[k] == c);
        if c < '0' || c > '9' {
            proof {
                lemma_overrun_at(s, k, top as int);
            }
            return false;
        }
        let d: u128 = (c as u32 - 48) as u128;
        assert(s.take(k + 1).drop_last() =~= s.take(k));
        assert forall|j: int| 0 <= j < k + 1 implies is_digit(#[trigger] s.take(k + 1)[j]) by {
            if j < k {
                assert(s.take(k)[j] == s.take(k + 1)[j]);
            }
        }
        let next: u128 = v as u128 * 10 + d;
        assert(value_of(s.take(k + 1)) == next);
        if next > top as u128 {
            return true;
        }
        v = next as u64;
        i = i + 1;
    }
    proof {
        lemma_overrun_at(s, hi - lo, top as int);
    }
    false
}

/// Digits overrun only where they do so before the first character that is none.
proof fn lemma_overrun_at(s: Seq<char>, k: int, top: int)
    requires
        0 <= k <= s.len(),
        all_digits(s.take(k)),
        value_of(s.take(k)) <= top,
        k == s.len() || !is_digit(s[k]),
    ensures
        !overruns(s, top),
{
    if overruns(s, top) {
        let j = choose|j: int|
            0 <= j <= s.len() && all_digits(s.take(j)) && #[trigger] value_of(s.take(j)) > top;
        if j > k {
            assert(is_digit(s.take(j)[k]));
        } else {
            assert(s.take(k).take(j) =~= s.take(j));
            lemma_value_prefix(s.take(k), j);
        }
    }
}

/// What is wrong with the text from `lo` up to `hi`, which is no number from
/// `-least` to `most`.
pub fn find_fault(cs: &Vec<char>, lo: usize, hi: usize, least: u64, most: u64) -> (r: NumberError)
    requires
        lo <= hi <= cs@.len(),
    ensures
        r == number_fault(cs@.subrange(lo as int, hi as int), -(least as int), most as int),
{
    let ghost s = cs@.subrange(lo as int, hi as int);
    if lo == hi {
        return NumberError::Empty;
    }
    assert(s[0] == cs@[lo as int]);
    assert(s.skip(1) =~= cs@.subrange(lo + 1, hi as int));
    if least > 0 && cs[lo] == '-' {
        if digits_overrun(cs, lo + 1, hi, least) {
            NumberError::TooSmall
        } else {
            NumberError::InvalidDigit
        }
    } else {
        let from: usize = if cs[lo] == '+' {
            lo + 1
        } else {
            lo
        };
        if digits_overrun(cs, from, hi, most) {
            NumberError::TooLarge
        } else {
            NumberError::InvalidDigit
        }
    }
}

// ---------------------------------------------------------------------------
// Laws
// ---------------------------------------------------------------------------

/// A number in decimal is digits that stand for that number, with no zero in
/// front unless it is zero.
pub proof fn lemma_decimal(n: nat)
    ensures
        decimal(n).len() > 0,
        all_digits(decimal(n)),
        value_of(decimal(n)) == n,
        n > 0 ==> decimal(n)[0] != '0',
        n == 0 ==> decimal(n) == seq!['0'],
    decreases n,
{
    reveal_with_fuel(value_of, 2);
    if n < 10 {
        assert(decimal(n).drop_last() =~= Seq::empty());
    } else {
        lemma_decimal(n / 10);
        assert(decimal(n).drop_last() =~= decimal(n / 10));
    }
}

/// Zeros in front change no value.
pub proof fn lemma_zeros_value(k: int, s: Seq<char>)
    ensures
        value_of(zeros(k) + s) == value_of(s),
    decreases k, s.len(),
{
    if s.len() > 0 {
        lemma_zeros_value(k, s.drop_last());
        assert((zeros(k) + s).drop_last() =~= zeros(k) + s.drop_last());
    } else if k > 0 {
        lemma_zeros_value(k - 1, s);
        assert((zeros(k) + s).drop_last() =~= zeros(k - 1) + s);
        assert((zeros(k) + s).last() == '0');
    } else {
        assert(zeros(k) + s =~= s);
    }
}

/// Reading what was written, signed or not, padded or not, gives the number back.
pub proof fn lemma_read_padded(n: int, width: int)
    ensures
        read_int(padded(n, width)) == Some(n),
        read_int(int_text(n)) == Some(n),
        n >= 0 ==> read_nat(int_text(n)) == Some(n),
        n >= 0 ==> all_digits(padded(n, width)) && read_nat(padded(n, width)) == Some(n),
{
    let m = magnitude(n);
    let ds = decimal(m);
    let fill = width - sign(n).len() - ds.len();
    lemma_decimal(m);
    lemma_zeros_value(fill, ds);
    let body = zeros(fill) + ds;
    assert(all_digits(body));
    assert(body.len() > 0);
    assert(padded(n, width) =~= sign(n) + body);
    assert(is_digit(body[0]));
    assert(is_digit(ds[0]));
    if n < 0 {
        assert((sign(n) + body).skip(1) =~= body);
        assert(int_text(n).skip(1) =~= ds);
    } else {
        assert(sign(n) + body =~= body);
        assert(int_text(n) =~= ds);
    }
}

/// Two numbers written alike are the same.
pub proof fn lemma_int_text_injective(a: int, b: int)
    requires
        int_text(a) == int_text(b),
    ensures
        a == b,
{
    lemma_read_padded(a, 0);
    lemma_read_padded(b, 0);
}

/// One more digit behind a number makes it ten times as much and the digit more.
pub proof fn lemma_digits_by_ten(s: Seq<char>, d: int)
    requires
        0 <= d < 10,
    ensures
        value_of(Seq::empty()) == 0,
        value_of(s.push((48 + d) as char)) == 10 * value_of(s) + d,
{
    assert(s.push((48 + d) as char).drop_last() =~= s);
}

/// Digits read as the number that they stand for, with a plus before them too, and
/// with a minus as its opposite, but not where no sign is wanted. A text with anything
/// else in it is no number, nor is one without a digit.
pub proof fn lemma_signs_read(s: Seq<char>)
    ensures
        s.len() > 0 && all_digits(s) ==> {
            &&& read_int(s) == Some(value_of(s) as int)
            &&& read_nat(s) == Some(value_of(s) as int)
            &&& read_int(seq!['+'] + s) == Some(value_of(s) as int)
            &&& read_nat(seq!['+'] + s) == Some(value_of(s) as int)
            &&& read_int(seq!['-'] + s) == Some(-(value_of(s) as int))
            &&& read_nat(seq!['-'] + s) is None
        },
        s.len() == 0 || !all_digits(s) ==> {
            &&& read_int(seq!['+'] + s) is None
            &&& read_nat(seq!['+'] + s) is None
            &&& read_int(seq!['-'] + s) is None
            &&& s.len() == 0 || s[0] != '+' && s[0] != '-' ==> read_int(s) is None && read_nat(
                s,
            ) is None
        },
{
    assert((seq!['+'] + s).skip(1) =~= s);
    assert((seq!['-'] + s).skip(1) =~= s);
    if s.len() > 0 && all_digits(s) {
        assert(is_digit(s[0]));
        assert(!is_digit((seq!['-'] + s)[0]));
    }
}

/// What is wrong with a text that is a number outside the bounds is on which side of
/// them it lies, and with a text that is none that it is empty or has a character
/// that is no digit.
pub proof fn lemma_fault_by_side(s: Seq<char>, lo: int, hi: int)
    requires
        lo <= 0 <= hi,
    ensures
        number_fault(s, lo, hi) is Empty <==> s.len() == 0,
        lo < 0 ==> (read_int(s) matches Some(v) ==> (v > hi ==> number_fault(s, lo, hi)
            is TooLarge) && (v < lo ==> number_fault(s, lo, hi) is TooSmall)),
        read_nat(s) matches Some(v) ==> (v > hi ==> number_fault(s, lo, hi) is TooLarge),
        s.len() > 0 && !is_digit(s[0]) && s[0] != '+' && s[0] != '-' ==> number_fault(s, lo, hi)
            is InvalidDigit,
{
    if s.len() > 0 {
        let body = s.skip(1);
        assert(body.take(body.len() as int) =~= body);
        assert(s.take(s.len() as int) =~= s);
        if lo < 0 && s[0] == '-' {
            if read_int(s) is Some && read_int(s)->0 < lo {
                assert(value_of(body.take(body.len() as int)) > -lo);
                assert(overruns(body, -lo));
            }
        } else if s[0] == '+' {
            if read_nat(s) is Some && read_nat(s)->0 > hi {
                assert(value_of(body.take(body.len() as int)) > hi);
                assert(overruns(body, hi));
            }
        } else {
            if read_nat(s) is Some && read_nat(s)->0 > hi {
                assert(value_of(s.take(s.len() as int)) > hi);
                assert(overruns(s, hi));
            }
            if !is_digit(s[0]) {
                assert(s.take(0) =~= Seq::empty());
                lemma_overrun_at(s, 0, hi);
            }
        }
    }
}

/// A number that was read is kept where it lies within the bounds, both included, and
/// is none where it does not.
pub proof fn lemma_bounds_are_kept(v: int, lo: int, hi: int)
    ensures
        lo <= v <= hi ==> within(Some(v), lo, hi) == Some(v),
        v < lo || hi < v ==> within(Some(v), lo, hi) is None,
        within(None, lo, hi) is None,
{
}

} // verus!
