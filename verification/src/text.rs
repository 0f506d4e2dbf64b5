//! Text as sequences of characters: trimming, searching, decimal numerals.
use vstd::prelude::*;
use vstd::slice::slice_subrange;

verus! {

/// `String::push` puts the character behind the text that is there.
pub assume_specification[ String::push ](s: &mut String, c: char)
    ensures
        final(s)@ == old(s)@.push(c),
;

/// The characters of `s`, in order.
pub fn to_chars(s: &str) -> (out: Vec<char>)
    ensures
        out@ == s@,
{
    let mut out: Vec<char> = Vec::new();
    for c in it: s.chars()
        invariant
            it.seq() == s@,
            out@ == s@.take(it.index() as int),
    {
        out.push(c);
        assert(out@ =~= s@.take(it.index() + 1));
    }
    assert(s@.take(s@.len() as int) =~= s@);
    out
}

/// The text that the characters `cs` spell.
pub fn from_chars(cs: &[char]) -> (out: String)
    ensures
        out@ == cs@,
{
    let mut out = String::new();
    for i in 0..cs.len()
        invariant
            out@ == cs@.take(i as int),
    {
        out.push(cs[i]);
        assert(out@ =~= cs@.take(i + 1));
    }
    assert(cs@.take(cs@.len() as int) =~= cs@);
    out
}

/// Whether the two slices spell the same text.
pub fn chars_eq(a: &[char], b: &[char]) -> (same: bool)
    ensures
        same == (a@ == b@),
{
    if a.len() != b.len() {
        return false;
    }
    for i in 0..a.len()
        invariant
            a@.len() == b@.len(),
            forall|j: int| 0 <= j < i ==> a@[j] == b@[j],
    {
        if a[i] != b[i] {
            return false;
        }
    }
    assert(a@ =~= b@);
    true
}

/// Whether `cs` begins with `prefix`.
pub fn starts_with(cs: &[char], prefix: &str) -> (yes: bool)
    ensures
        yes == prefix@.is_prefix_of(cs@),
{
    let p = to_chars(prefix);
    if p.len() > cs.len() {
        return false;
    }
    let head = slice_subrange(cs, 0, p.len());
    chars_eq(p.as_slice(), head)
}

/// Whether `cs` ends with `suffix`.
pub fn ends_with(cs: &[char], suffix: &[char]) -> (yes: bool)
    ensures
        yes == suffix@.is_suffix_of(cs@),
{
    if suffix.len() > cs.len() {
        return false;
    }
    let tail = slice_subrange(cs, cs.len() - suffix.len(), cs.len());
    chars_eq(suffix, tail)
}

/// Whether `c` occurs in `cs`.
pub fn contains_char(cs: &[char], c: char) -> (yes: bool)
    ensures
        yes == cs@.contains(c),
{
    for i in 0..cs.len()
        invariant
            forall|j: int| 0 <= j < i ==> cs@[j] != c,
    {
        if cs[i] == c {
            return true;
        }
    }
    false
}

/// The characters with the Unicode property White_Space.
pub open spec fn is_white_space(c: char) -> bool {
    let n = c as u32;
    ||| 0x09 <= n <= 0x0d
    ||| n == 0x20
    ||| n == 0x85
    ||| n == 0xa0
    ||| n == 0x1680
    ||| 0x2000 <= n <= 0x200a
    ||| n == 0x2028
    ||| n == 0x2029
    ||| n == 0x202f
    ||| n == 0x205f
    ||| n == 0x3000
}

/// Whether `c` has the Unicode property White_Space.
pub fn white_space(c: char) -> (yes: bool)
    ensures
        yes == is_white_space(c),
{
    let n = c as u32;
    (0x09 <= n && n <= 0x0d) || n == 0x20 || n == 0x85 || n == 0xa0 || n == 0x1680 || (0x2000 <= n
        && n <= 0x200a) || n == 0x2028 || n == 0x2029 || n == 0x202f || n == 0x205f || n == 0x3000
}

/// `s` without the white space at its front.
pub open spec fn trim_front(s: Seq<char>) -> Seq<char>
    decreases s.len(),
{
    if s.len() > 0 && is_white_space(s.first()) {
        trim_front(s.drop_first())
    } else {
        s
    }
}

/// `s` without the white space at its back.
pub open spec fn trim_back(s: Seq<char>) -> Seq<char>
    decreases s.len(),
{
    if s.len() > 0 && is_white_space(s.last()) {
        trim_back(s.drop_last())
    } else {
        s
    }
}

/// `s` without the white space at either end.
pub open spec fn trimmed(s: Seq<char>) -> Seq<char> {
    trim_back(trim_front(s))
}

/// `cs` without the white space at either end.
pub fn trim(cs: &[char]) -> (out: &[char])
    ensures
        out@ == trimmed(cs@),
{
    let n = cs.len();
    let mut a: usize = 0;
    assert(cs@.skip(0) =~= cs@);
    while a < n && white_space(cs[a])
        invariant
            n == cs@.len(),
            a <= n,
            trim_front(cs@) == trim_front(cs@.skip(a as int)),
        decreases n - a,
    {
        assert(cs@.skip(a as int).drop_first() =~= cs@.skip(a + 1));
        a += 1;
    }
    let ghost front = cs@.skip(a as int);
    assert(trim_front(cs@) == front);
    let mut b: usize = n;
    assert(cs@.subrange(a as int, n as int) =~= front);
    while a < b && white_space(cs[b - 1])
        invariant
            n == cs@.len(),
            a <= b <= n,
            trim_back(front) == trim_back(cs@.subrange(a as int, b as int)),
        decreases b,
    {
        assert(cs@.subrange(a as int, b as int).drop_last() =~= cs@.subrange(a as int, b - 1));
        b -= 1;
    }
    slice_subrange(cs, a, b)
}

/// The character that stands for the digit `d`.
pub open spec fn digit_char(d: nat) -> char {
    ('0' as u32 + d) as char
}

/// `n` in decimal, without leading zeros.
pub open spec fn decimal(n: nat) -> Seq<char>
    decreases n,
{
    if n < 10 {
        seq![digit_char(n)]
    } else {
        decimal(n / 10).push(digit_char(n % 10))
    }
}

/// Writes `n` in decimal behind `out`.
pub fn push_decimal(out: &mut String, n: u64)
    ensures
        final(out)@ == old(out)@ + decimal(n as nat),
    decreases n,
{
    if n >= 10 {
        push_decimal(out, n / 10);
    }
    let d = (n % 10) as u8;
    let c = (48u8 + d) as char;
    let ghost before = out@;
    out.push(c);
    assert(c == digit_char((n as nat) % 10));
    if n >= 10 {
        assert(out@ =~= old(out)@ + decimal(n as nat));
    } else {
        assert(out@ =~= old(out)@ + seq![c]);
    }
}

/// `n` in decimal with at least `width` digits, zeros in front.
pub open spec fn padded(n: nat, width: nat) -> Seq<char>
    decreases width,
{
    if width == 0 {
        if n == 0 {
            seq![]
        } else {
            decimal(n)
        }
    } else {
        padded(n / 10, (width - 1) as nat).push(digit_char(n % 10))
    }
}

/// Writes `n` in decimal, zero-padded to `width` digits, behind `out`.
pub fn push_padded(out: &mut String, n: u64, width: u8)
    ensures
        final(out)@ == old(out)@ + padded(n as nat, width as nat),
    decreases width,
{
    if width == 0 {
        if n > 0 {
            push_decimal(out, n);
        } else {
            assert(out@ =~= old(out)@ + padded(0, 0));
        }
    } else {
        push_padded(out, n / 10, width - 1);
        let d = (n % 10) as u8;
        let c = (48u8 + d) as char;
        out.push(c);
        assert(c == digit_char((n as nat) % 10));
        assert(out@ =~= old(out)@ + padded(n as nat, width as nat));
    }
}

/// Why a text is no numeral of an unsigned integer type.
#[derive(Debug, Clone, Copy, PartialEq, Eq, Structural)]
pub enum NumeralFault {
    Empty,
    InvalidDigit,
    TooLarge,
}

/// Whether `c` is one of the ten ASCII digits.
pub open spec fn is_digit(c: char) -> bool {
    '0' <= c <= '9'
}

/// The value of a digit.
pub open spec fn digit_value(c: char) -> nat {
    (c as u32 - '0' as u32) as nat
}

/// Reads the digits `s` from left to right behind the value `seen` of the digits in front;
/// the first character that is no digit, or that makes the value exceed `max`, is the fault.
pub open spec fn read_digits(s: Seq<char>, seen: nat, max: nat) -> Result<nat, NumeralFault>
    decreases s.len(),
{
    if s.len() == 0 {
        Ok(seen)
    } else if !is_digit(s.first()) {
        Err(NumeralFault::InvalidDigit)
    } else if seen * 10 + digit_value(s.first()) > max {
        Err(NumeralFault::TooLarge)
    } else {
        read_digits(s.drop_first(), seen * 10 + digit_value(s.first()), max)
    }
}

/// The number up to `max` that `s` writes: an optional plus sign, then one digit or more.
pub open spec fn numeral(s: Seq<char>, max: nat) -> Result<nat, NumeralFault> {
    let digits = if s.len() > 0 && s.first() == '+' {
        s.drop_first()
    } else {
        s
    };
    if s.len() == 0 {
        Err(NumeralFault::Empty)
    } else if digits.len() == 0 {
        Err(NumeralFault::InvalidDigit)
    } else {
        read_digits(digits, 0, max)
    }
}

/// A number that was read is at most `max`.
pub proof fn read_digits_bound(s: Seq<char>, seen: nat, max: nat)
    requires
        seen <= max,
    ensures
        read_digits(s, seen, max) matches Ok(v) ==> v <= max,
    decreases s.len(),
{
    if s.len() > 0 && is_digit(s.first()) && seen * 10 + digit_value(s.first()) <= max {
        read_digits_bound(s.drop_first(), seen * 10 + digit_value(s.first()), max);
    }
}

/// A numeral's value is at most `max`.
pub proof fn numeral_bound(s: Seq<char>, max: nat)
    ensures
        numeral(s, max) matches Ok(v) ==> v <= max,
{
    let digits = if s.len() > 0 && s.first() == '+' {
        s.drop_first()
    } else {
        s
    };
    read_digits_bound(digits, 0, max);
}

/// Reads the number up to `max` that `cs` writes.
pub fn parse_numeral(cs: &[char], max: u64) -> (out: Result<u64, NumeralFault>)
    ensures
        match (out, numeral(cs@, max as nat)) {
            (Ok(v), Ok(w)) => v == w,
            (Err(e), Err(f)) => e == f,
            _ => false,
        },
{
    if cs.len() == 0 {
        return Err(NumeralFault::Empty);
    }
    let start: usize = if cs[0] == '+' {
        1
    } else {
        0
    };
    let n = cs.len();
    if start == n {
        return Err(NumeralFault::InvalidDigit);
    }
    let ghost digits = cs@.skip(start as int);
    assert(start == 1 ==> digits =~= cs@.drop_first());
    assert(start == 0 ==> digits =~= cs@);
    let mut seen: u64 = 0;
    let mut i: usize = start;
    while i < n
        invariant
            n == cs@.len(),
            start <= i <= n,
            seen <= max,
            read_digits(digits, 0, max as nat) == read_digits(
                cs@.skip(i as int),
                seen as nat,
                max as nat,
            ),
            numeral(cs@, max as nat) == read_digits(digits, 0, max as nat),
        decreases n - i,
    {
        let c = cs[i];
        let ghost rest = cs@.skip(i as int);
        assert(rest.first() == c);
        assert(rest.drop_first() =~= cs@.skip(i + 1));
        if c < '0' || c > '9' {
            return Err(NumeralFault::InvalidDigit);
        }
        let d = (c as u32 - 48) as u64;
        assert(d == digit_value(c));
        if d > max || seen > max / 10 || seen * 10 > max - d {
            return Err(NumeralFault::TooLarge);
        }
        seen = seen * 10 + d;
        i += 1;
    }
    Ok(seen)
}

// ---------------------------------------------------------------------------
// What holds of all texts and numerals
// ---------------------------------------------------------------------------

/// White space is what Unicode lists as such.
pub proof fn white_space_is_what_unicode_lists(c: char)
    ensures
        is_white_space(c) <==> set![
            0x09u32, 0x0a, 0x0b, 0x0c, 0x0d, 0x20, 0x85, 0xa0, 0x1680, 0x2000, 0x2001, 0x2002,
            0x2003, 0x2004, 0x2005, 0x2006, 0x2007, 0x2008, 0x2009, 0x200a, 0x2028, 0x2029,
            0x202f, 0x205f, 0x3000,
        ].contains(c as u32),
{
}

/// What is taken off the front is white space.
proof fn front_is_white(s: Seq<char>) -> (front: Seq<char>)
    ensures
        s == front + trim_front(s),
        forall|i: int| 0 <= i < front.len() ==> is_white_space(#[trigger] front[i]),
        trim_front(s).len() > 0 ==> !is_white_space(trim_front(s).first()),
    decreases s.len(),
{
    if s.len() > 0 && is_white_space(s.first()) {
        let rest = front_is_white(s.drop_first());
        let front = seq![s.first()] + rest;
        assert(s =~= seq![s.first()] + s.drop_first());
        assert(trim_front(s) == trim_front(s.drop_first()));
        assert(seq![s.first()] + (rest + trim_front(s)) =~= front + trim_front(s));
        assert forall|i: int| 0 <= i < front.len() implies is_white_space(#[trigger] front[i]) by {
            if i > 0 {
                assert(is_white_space(rest[i - 1]));
            }
        }
        front
    } else {
        assert(s =~= Seq::<char>::empty() + s);
        Seq::empty()
    }
}

/// What is taken off the back is white space.
proof fn back_is_white(s: Seq<char>) -> (back: Seq<char>)
    ensures
        s == trim_back(s) + back,
        forall|i: int| 0 <= i < back.len() ==> is_white_space(#[trigger] back[i]),
        trim_back(s).len() > 0 ==> !is_white_space(trim_back(s).last()),
    decreases s.len(),
{
    if s.len() > 0 && is_white_space(s.last()) {
        let rest = back_is_white(s.drop_last());
        let back = rest.push(s.last());
        assert(s =~= s.drop_last().push(s.last()));
        assert(trim_back(s) == trim_back(s.drop_last()));
        assert((trim_back(s) + rest).push(s.last()) =~= trim_back(s) + back);
        assert forall|i: int| 0 <= i < back.len() implies is_white_space(#[trigger] back[i]) by {
            if i < rest.len() {
                assert(is_white_space(rest[i]));
            }
        }
        back
    } else {
        assert(s =~= s + Seq::<char>::empty());
        Seq::empty()
    }
}

/// Trimming takes white space off the two ends, all that is there, and nothing else: there are
/// white `front` and `back` with the trimmed text between them, which neither starts nor ends
/// with white space.
pub proof fn trimming_takes_white_space_off_the_ends(s: Seq<char>) -> (ends: (
    Seq<char>,
    Seq<char>,
))
    ensures
        s == ends.0 + trimmed(s) + ends.1,
        forall|i: int| 0 <= i < ends.0.len() ==> is_white_space(#[trigger] ends.0[i]),
        forall|i: int| 0 <= i < ends.1.len() ==> is_white_space(#[trigger] ends.1[i]),
        trimmed(s).len() > 0 ==> !is_white_space(trimmed(s).first()) && !is_white_space(
            trimmed(s).last(),
        ),
{
    let front = front_is_white(s);
    let middle = trim_front(s);
    let back = back_is_white(middle);
    assert(s =~= front + trimmed(s) + back);
    if trimmed(s).len() > 0 {
        assert(trimmed(s).first() == middle.first());
    }
    (front, back)
}

/// Decimal notation is positional: a number below ten is its digit, and a digit behind a number
/// stands for ten times that number and the digit.
pub proof fn decimal_is_positional(n: nat, d: nat)
    requires
        d < 10,
    ensures
        decimal(d) == seq![(48 + d) as char],
        n > 0 ==> decimal((n * 10 + d) as nat) == decimal(n).push((48 + d) as char),
{
    assert((n * 10 + d) as nat / 10 == n && (n * 10 + d) as nat % 10 == d);
}

/// A number in at least `width` digits is its decimal form with zeros in front, no more than
/// the width asks for.
pub proof fn padding_is_zeros_in_front(n: nat, width: nat)
    requires
        width > 0,
    ensures
        ({
            let p = padded(n, width);
            let d = decimal(n);
            &&& p.len() == if d.len() < width {
                width
            } else {
                d.len()
            }
            &&& p.skip(p.len() - d.len()) == d
            &&& forall|i: int| 0 <= i < p.len() - d.len() ==> #[trigger] p[i] == '0'
        }),
    decreases width,
{
    let p = padded(n, width);
    let d = decimal(n);
    let rest = padded(n / 10, (width - 1) as nat);
    if width == 1 {
        if n < 10 {
            assert(p =~= d);
        }
        assert(p =~= d);
        assert(p.skip(0) =~= p);
    } else {
        padding_is_zeros_in_front(n / 10, (width - 1) as nat);
        if n < 10 {
            let z = decimal(0);
            assert(n / 10 == 0);
            assert(z =~= seq!['0']);
            assert(rest.skip(rest.len() - 1) =~= seq![rest.last()]);
            assert(rest.last() == '0') by {
                assert(rest.skip(rest.len() - 1)[0] == z[0]);
            }
            assert(p.skip(p.len() - 1) =~= d);
            assert forall|i: int| 0 <= i < p.len() - d.len() implies #[trigger] p[i] == '0' by {
                assert(p[i] == rest[i]);
            }
        } else {
            let e = decimal(n / 10);
            assert(d == e.push(digit_char(n % 10)));
            assert(p.skip(p.len() - d.len()) =~= d) by {
                assert forall|i: int| 0 <= i < d.len() implies p.skip(p.len() - d.len())[i]
                    == d[i] by {
                    if i < e.len() {
                        assert(rest.skip(rest.len() - e.len())[i] == e[i]);
                    }
                }
            }
            assert forall|i: int| 0 <= i < p.len() - d.len() implies #[trigger] p[i] == '0' by {
                assert(p[i] == rest[i]);
            }
        }
    }
}

/// One character more behind what was read.
proof fn one_character_more(s: Seq<char>, d: char, seen: nat, max: nat)
    ensures
        read_digits(s.push(d), seen, max) == match read_digits(s, seen, max) {
            Err(fault) => Err(fault),
            Ok(v) => if !is_digit(d) {
                Err(NumeralFault::InvalidDigit)
            } else if v * 10 + digit_value(d) > max {
                Err(NumeralFault::TooLarge)
            } else {
                Ok((v * 10 + digit_value(d)) as nat)
            },
        },
    decreases s.len(),
{
    let longer = s.push(d);
    if s.len() == 0 {
        assert(longer.first() == d);
        assert(longer.drop_first() =~= Seq::<char>::empty());
        reveal_with_fuel(read_digits, 2);
    } else {
        assert(longer.first() == s.first());
        assert(longer.drop_first() =~= s.drop_first().push(d));
        if is_digit(s.first()) && seen * 10 + digit_value(s.first()) <= max {
            one_character_more(s.drop_first(), d, seen * 10 + digit_value(s.first()), max);
        }
    }
}

/// A numeral is positional: one digit stands for itself, and one character more behind a
/// numeral that can be read makes it ten times as much and the digit, or too large if that
/// exceeds the limit, or unreadable if it is no digit; what cannot be read stays so. A plus sign
/// in front changes nothing, alone it is no numeral, and the empty text is none.
pub proof fn numerals_are_positional(s: Seq<char>, d: char, max: nat)
    ensures
        numeral(Seq::empty(), max) == Err::<nat, NumeralFault>(NumeralFault::Empty),
        numeral(seq!['+'], max) == Err::<nat, NumeralFault>(NumeralFault::InvalidDigit),
        d != '+' ==> numeral(seq![d], max) == if !('0' <= d <= '9') {
            Err::<nat, NumeralFault>(NumeralFault::InvalidDigit)
        } else if d as u32 - 48 > max {
            Err(NumeralFault::TooLarge)
        } else {
            Ok((d as u32 - 48) as nat)
        },
        s.len() > 0 && s != seq!['+'] ==> numeral(s.push(d), max) == match numeral(s, max) {
            Err(fault) => Err::<nat, NumeralFault>(fault),
            Ok(v) => if !('0' <= d <= '9') {
                Err(NumeralFault::InvalidDigit)
            } else if v * 10 + (d as u32 - 48) > max {
                Err(NumeralFault::TooLarge)
            } else {
                Ok((v * 10 + (d as u32 - 48)) as nat)
            },
        },
        s.len() > 0 && s.first() != '+' ==> numeral(seq!['+'] + s, max) == numeral(s, max),
        s.len() > 0 && s.first() == '+' ==> numeral(seq!['+'] + s, max) == Err::<
            nat,
            NumeralFault,
        >(NumeralFault::InvalidDigit),
{
    reveal_with_fuel(read_digits, 2);
    assert(seq!['+'].drop_first() =~= Seq::<char>::empty());
    assert(seq![d].drop_first() =~= Seq::<char>::empty());
    assert((seq!['+'] + s).drop_first() =~= s);
    if s.len() > 0 && s != seq!['+'] {
        assert(s.push(d).first() == s.first());
        if s.first() == '+' {
            if s.len() == 1 {
                assert(s =~= seq!['+']);
            }
            assert(s.push(d).drop_first() =~= s.drop_first().push(d));
            one_character_more(s.drop_first(), d, 0, max);
        } else {
            one_character_more(s, d, 0, max);
        }
    }
}

} // verus!
