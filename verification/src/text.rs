//! Text helpers: comparing strings, searching bytes for ASCII letters, and
//! writing numbers in decimal.

use vstd::prelude::*;
use vstd::string::*;
use vstd::utf8::*;

verus! {

/// Whether two byte strings are the same.
pub fn bytes_eq(a: &[u8], b: &[u8]) -> (r: bool)
    ensures
        r == (a@ == b@),
{
    if a.len() != b.len() {
        return false;
    }
    let mut i: usize = 0;
    while i < a.len()
        invariant
            a@.len() == b@.len(),
            i <= a@.len(),
            forall|j: int| 0 <= j < i ==> a@[j] == b@[j],
        decreases a@.len() - i,
    {
        if a[i] != b[i] {
            return false;
        }
        i = i + 1;
    }
    assert(a@ =~= b@);
    true
}

/// Two strings with the same UTF-8 bytes hold the same characters.
pub proof fn lemma_same_bytes_same_chars(a: Seq<char>, b: Seq<char>)
    requires
        encode_utf8(a) == encode_utf8(b),
    ensures
        a == b,
{
    encode_utf8_decode_utf8(a);
    encode_utf8_decode_utf8(b);
}

/// Whether two strings hold the same characters.
pub fn str_eq(a: &str, b: &str) -> (r: bool)
    ensures
        r == (a@ == b@),
{
    let same = bytes_eq(a.as_bytes(), b.as_bytes());
    proof {
        if same {
            lemma_same_bytes_same_chars(a@, b@);
        }
    }
    same
}

/// The ASCII byte `b` in lower case.
pub open spec fn lower(b: u8) -> u8 {
    if 65 <= b <= 90 {
        (b + 32) as u8
    } else {
        b
    }
}

/// `pat` stands in `s` at position `at`, letter case of `s` aside.
pub open spec fn matches_lower_at(s: Seq<u8>, at: int, pat: Seq<u8>) -> bool {
    &&& 0 <= at
    &&& at + pat.len() <= s.len()
    &&& forall|j: int| 0 <= j < pat.len() ==> lower(#[trigger] s[at + j]) == pat[j]
}

/// `pat` stands somewhere in `s`, letter case of `s` aside.
pub open spec fn contains_lower(s: Seq<u8>, pat: Seq<u8>) -> bool {
    exists|at: int| matches_lower_at(s, at, pat)
}

fn to_lower(b: u8) -> (r: u8)
    ensures
        r == lower(b),
{
    if 65 <= b && b <= 90 {
        b + 32
    } else {
        b
    }
}

fn lower_match_at(s: &[u8], at: usize, pat: &[u8]) -> (r: bool)
    requires
        at + pat@.len() <= s@.len(),
    ensures
        r == matches_lower_at(s@, at as int, pat@),
{
    let len: usize = s.len();
    let mut j: usize = 0;
    while j < pat.len()
        invariant
            at + pat@.len() <= s@.len(),
            s@.len() == len,
            j <= pat@.len(),
            forall|k: int| 0 <= k < j ==> lower(#[trigger] s@[at + k]) == pat@[k],
        decreases pat@.len() - j,
    {
        if to_lower(s[at + j]) != pat[j] {
            return false;
        }
        j = j + 1;
    }
    true
}

/// Whether `pat` occurs in `s` once the ASCII capitals of `s` are lowered.
/// `pat` itself is taken as it is.
pub fn contains_ignore_case(s: &[u8], pat: &[u8]) -> (r: bool)
    ensures
        r == contains_lower(s@, pat@),
{
    if pat.len() > s.len() {
        return false;
    }
    let last: usize = s.len() - pat.len();
    let mut at: usize = 0;
    while at <= last
        invariant
            last + pat@.len() == s@.len(),
            at <= last,
            forall|k: int| 0 <= k < at ==> !matches_lower_at(s@, k, pat@),
        decreases last - at,
    {
        if lower_match_at(s, at, pat) {
            return true;
        }
        if at == last {
            return false;
        }
        at = at + 1;
    }
    false
}

/// The decimal digit `d` as a character.
pub open spec fn digit_char(d: int) -> char {
    if d == 0 {
        '0'
    } else if d == 1 {
        '1'
    } else if d == 2 {
        '2'
    } else if d == 3 {
        '3'
    } else if d == 4 {
        '4'
    } else if d == 5 {
        '5'
    } else if d == 6 {
        '6'
    } else if d == 7 {
        '7'
    } else if d == 8 {
        '8'
    } else {
        '9'
    }
}

/// `n` in decimal, without leading zeros; zero is the empty string.
pub open spec fn decimal_digits(n: nat) -> Seq<char>
    decreases n,
{
    if n == 0 {
        Seq::empty()
    } else {
        decimal_digits(n / 10).push(digit_char((n % 10) as int))
    }
}

/// `n` in decimal, filled with zeros on the left up to `width` characters.
pub open spec fn zero_padded(n: nat, width: nat) -> Seq<char> {
    let digits = decimal_digits(n);
    if digits.len() >= width {
        digits
    } else {
        Seq::new((width - digits.len()) as nat, |i: int| '0') + digits
    }
}

fn digit_str(d: u64) -> (r: &'static str)
    requires
        d < 10,
    ensures
        r@ == seq![digit_char(d as int)],
{
    proof {
        reveal_strlit("0");
        reveal_strlit("1");
        reveal_strlit("2");
        reveal_strlit("3");
        reveal_strlit("4");
        reveal_strlit("5");
        reveal_strlit("6");
        reveal_strlit("7");
        reveal_strlit("8");
        reveal_strlit("9");
    }
    let r = if d == 0 {
        "0"
    } else if d == 1 {
        "1"
    } else if d == 2 {
        "2"
    } else if d == 3 {
        "3"
    } else if d == 4 {
        "4"
    } else if d == 5 {
        "5"
    } else if d == 6 {
        "6"
    } else if d == 7 {
        "7"
    } else if d == 8 {
        "8"
    } else {
        "9"
    };
    assert(r@ =~= seq![digit_char(d as int)]);
    r
}

/// Writes `n` in decimal, filled with zeros on the left up to `width`
/// characters. With `width` 0 the number zero is written as the empty string.
pub fn decimal(n: u64, width: usize) -> (r: String)
    ensures
        r@ == zero_padded(n as nat, width as nat),
{
    let mut digits: Vec<u64> = Vec::new();
    let mut rest: u64 = n;
    // least significant digit first
    while rest > 0
        invariant
            forall|i: int| 0 <= i < digits@.len() ==> digits@[i] < 10,
            decimal_digits(n as nat) == decimal_digits(rest as nat) + Seq::new(
                digits@.len(),
                |i: int| digit_char(digits@[digits@.len() - 1 - i] as int),
            ),
        decreases rest,
    {
        let ghost before = digits@;
        let ghost tail = Seq::new(
            before.len(),
            |i: int| digit_char(before[before.len() - 1 - i] as int),
        );
        digits.push(rest % 10);
        proof {
            let now = Seq::new(
                digits@.len(),
                |i: int| digit_char(digits@[digits@.len() - 1 - i] as int),
            );
            assert(now =~= seq![digit_char((rest % 10) as int)] + tail);
            assert(decimal_digits(rest as nat) == decimal_digits((rest / 10) as nat).push(
                digit_char((rest % 10) as int),
            ));
            assert(decimal_digits(rest as nat) + tail =~= decimal_digits((rest / 10) as nat)
                + now);
        }
        rest = rest / 10;
    }
    assert(decimal_digits(0) =~= Seq::<char>::empty());
    let ghost all = Seq::new(
        digits@.len(),
        |i: int| digit_char(digits@[digits@.len() - 1 - i] as int),
    );
    assert(decimal_digits(n as nat) =~= all);
    let mut out = String::new();
    let mut pad: usize = digits.len();
    while pad < width
        invariant
            digits@.len() <= pad,
            pad <= width || pad == digits@.len(),
            out@ == Seq::new((pad - digits@.len()) as nat, |i: int| '0'),
        decreases width - pad,
    {
        proof {
            reveal_strlit("0");
        }
        out.append("0");
        assert(out@ =~= Seq::new((pad + 1 - digits@.len()) as nat, |i: int| '0'));
        pad = pad + 1;
    }
    let ghost zeros = out@;
    let mut k: usize = digits.len();
    while k > 0
        invariant
            k <= digits@.len(),
            forall|i: int| 0 <= i < digits@.len() ==> digits@[i] < 10,
            all == Seq::new(
                digits@.len(),
                |i: int| digit_char(digits@[digits@.len() - 1 - i] as int),
            ),
            out@ == zeros + all.subrange(0, digits@.len() - k),
        decreases k,
    {
        k = k - 1;
        out.append(digit_str(digits[k]));
        assert(out@ =~= zeros + all.subrange(0, digits@.len() - k));
    }
    assert(all.subrange(0, digits@.len() as int) =~= all);
    assert(out@ =~= zero_padded(n as nat, width as nat)) by {
        if digits@.len() >= width {
            assert(zeros =~= Seq::<char>::empty());
        }
    }
    out
}

/// The number that the decimal digits `s` spell; a character that is no
/// digit counts as nine.
pub open spec fn number_of(s: Seq<char>) -> nat
    decreases s.len(),
{
    if s.len() == 0 {
        0
    } else {
        10 * number_of(s.drop_last()) + digit_of(s.last())
    }
}

/// The value of a decimal digit.
pub open spec fn digit_of(c: char) -> nat {
    if c == '0' {
        0
    } else if c == '1' {
        1
    } else if c == '2' {
        2
    } else if c == '3' {
        3
    } else if c == '4' {
        4
    } else if c == '5' {
        5
    } else if c == '6' {
        6
    } else if c == '7' {
        7
    } else if c == '8' {
        8
    } else {
        9
    }
}

/// The digits of a number spell that number.
pub proof fn lemma_digits_spell(n: nat)
    ensures
        number_of(decimal_digits(n)) == n,
    decreases n,
{
    if n != 0 {
        lemma_digits_spell(n / 10);
        let digits = decimal_digits(n);
        assert(digits.drop_last() =~= decimal_digits(n / 10));
        assert(digit_of(digit_char((n % 10) as int)) == n % 10);
    }
}

/// Zeros in front do not change the number that digits spell.
pub proof fn lemma_zeros_in_front(k: nat, digits: Seq<char>)
    ensures
        number_of(Seq::new(k, |i: int| '0') + digits) == number_of(digits),
    decreases digits.len(), k,
{
    let zeros = Seq::new(k, |i: int| '0');
    if digits.len() != 0 {
        lemma_zeros_in_front(k, digits.drop_last());
        assert((zeros + digits).drop_last() =~= zeros + digits.drop_last());
    } else if k != 0 {
        lemma_zeros_in_front((k - 1) as nat, digits);
        assert(zeros + digits =~= zeros);
        assert(zeros.drop_last() =~= Seq::new((k - 1) as nat, |i: int| '0'));
        assert(Seq::new((k - 1) as nat, |i: int| '0') + digits =~= Seq::new(
            (k - 1) as nat,
            |i: int| '0',
        ));
    } else {
        assert(zeros + digits =~= digits);
    }
}

/// A number can be read back from its padded form: two numbers that are
/// written the same are the same.
pub proof fn lemma_padded_spells(n: nat, width: nat)
    ensures
        number_of(zero_padded(n, width)) == n,
{
    lemma_digits_spell(n);
    let digits = decimal_digits(n);
    if digits.len() < width {
        lemma_zeros_in_front((width - digits.len()) as nat, digits);
    }
}

} // verus!
