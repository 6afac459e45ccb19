use vstd::prelude::*;

verus! {

// Character classes of RFC 7230, stated over the raw octets of a message.

/// An octet allowed in a header field name: an ASCII letter or digit, or
/// one of the fifteen token symbols.
pub open spec fn is_token_byte(b: u8) -> bool {
    (0x30 <= b <= 0x39)  // digit
    || (0x41 <= b <= 0x5a)  // upper case letter
    || (0x61 <= b <= 0x7a)  // lower case letter
    || b == 0x21 || b == 0x23 || b == 0x24 || b == 0x25 || b == 0x26
    || b == 0x27 || b == 0x2a || b == 0x2b || b == 0x2d || b == 0x2e
    || b == 0x5e || b == 0x5f || b == 0x60 || b == 0x7c || b == 0x7e
}

/// A visible octet of a field value: a printable ASCII character or obs-text.
pub open spec fn is_vchar_byte(b: u8) -> bool {
    (0x21 <= b <= 0x7e) || b >= 0x80
}

/// Optional white space: space or horizontal tab.
pub open spec fn is_ows_byte(b: u8) -> bool {
    b == 0x20 || b == 0x09
}

/// An octet allowed inside a header field value.
pub open spec fn is_field_byte(b: u8) -> bool {
    is_vchar_byte(b) || is_ows_byte(b)
}

/// Whether the octet stands for an ASCII letter or digit.
pub open spec fn is_alnum_byte(b: u8) -> bool {
    (0x30 <= b <= 0x39) || (0x41 <= b <= 0x5a) || (0x61 <= b <= 0x7a)
}

pub fn byte_is_token(b: u8) -> (r: bool)
    ensures
        r == is_token_byte(b),
{
    (0x30 <= b && b <= 0x39) || (0x41 <= b && b <= 0x5a) || (0x61 <= b && b <= 0x7a)
        || b == 0x21 || b == 0x23 || b == 0x24 || b == 0x25 || b == 0x26 || b == 0x27
        || b == 0x2a || b == 0x2b || b == 0x2d || b == 0x2e || b == 0x5e || b == 0x5f
        || b == 0x60 || b == 0x7c || b == 0x7e
}

pub fn byte_is_field(b: u8) -> (r: bool)
    ensures
        r == is_field_byte(b),
{
    (0x21 <= b && b <= 0x7e) || b >= 0x80 || b == 0x20 || b == 0x09
}

pub fn byte_is_ows(b: u8) -> (r: bool)
    ensures
        r == is_ows_byte(b),
{
    b == 0x20 || b == 0x09
}

// Conversions between octets and text.  Every octet is read as the character
// with the same code point, so any byte sequence has a textual image and the
// image of a header octet sequence turns back into the same octets.

/// The character with the same code point as each octet.
pub open spec fn latin1(s: Seq<u8>) -> Seq<char> {
    s.map(|i: int, b: u8| b as char)
}

/// The octet with the same code point as each character; callers only apply
/// this to characters below 0x100.
pub open spec fn latin1_bytes(s: Seq<char>) -> Seq<u8> {
    s.map(|i: int, c: char| c as u8)
}

/// Whether every character of the sequence has a code point below 0x100.
pub open spec fn is_latin1_seq(s: Seq<char>) -> bool {
    forall|i: int| 0 <= i < s.len() ==> #[trigger] (s[i] as u32) < 0x100
}

pub proof fn lemma_latin1_roundtrip(b: Seq<u8>)
    ensures
        latin1_bytes(latin1(b)) =~= b,
        is_latin1_seq(latin1(b)),
{
    assert forall|i: int| 0 <= i < b.len() implies latin1_bytes(latin1(b))[i] == b[i] by {
        assert(latin1(b)[i] == b[i] as char);
    }
    assert forall|i: int| 0 <= i < b.len() implies #[trigger] (latin1(b)[i] as u32) < 0x100 by {
        assert(latin1(b)[i] == b[i] as char);
    }
}

pub proof fn lemma_latin1_roundtrip_chars(s: Seq<char>)
    requires
        is_latin1_seq(s),
    ensures
        latin1(latin1_bytes(s)) =~= s,
{
    assert forall|i: int| 0 <= i < s.len() implies latin1(latin1_bytes(s))[i] == s[i] by {
        assert((s[i] as u32) < 0x100);
        assert(latin1_bytes(s)[i] == s[i] as u8);
        let u: u32 = s[i] as u32;
        vstd::utf8::char_u32_cast(s[i], u);
        assert((s[i] as u8) as u32 == u);
        assert((s[i] as u8) as char == (u as char));
    }
}

/// Relies on String::push: appends a single character at the end.
#[verifier::external_body]
pub fn push_char(s: &mut String, c: char)
    ensures
        final(s)@ == old(s)@.push(c),
{
    s.push(c);
}

/// Reads a byte sequence as text, one character per octet.
pub fn bytes_to_string(b: &[u8]) -> (r: String)
    ensures
        r@ == latin1(b@),
{
    let mut r = String::new();
    let mut i: usize = 0;
    while i < b.len()
        invariant
            i <= b@.len(),
            r@ == latin1(b@).take(i as int),
        decreases b@.len() - i,
    {
        let c = b[i] as char;
        push_char(&mut r, c);
        i = i + 1;
        proof {
            assert(latin1(b@).take(i as int) =~= latin1(b@).take(i - 1).push(b@[i - 1] as char));
        }
    }
    proof {
        assert(latin1(b@).take(b@.len() as int) =~= latin1(b@));
    }
    r
}

/// Writes text whose characters all lie below 0x100 back as octets.
pub fn string_to_bytes(s: &str) -> (r: Vec<u8>)
    requires
        is_latin1_seq(s@),
    ensures
        r@ == latin1_bytes(s@),
{
    let n = s.unicode_len();
    let mut r: Vec<u8> = Vec::new();
    let mut i: usize = 0;
    while i < n
        invariant
            n == s@.len(),
            is_latin1_seq(s@),
            i <= n,
            r@ == latin1_bytes(s@).take(i as int),
        decreases n - i,
    {
        let c = s.get_char(i);
        let u = c as u32;
        assert(u < 0x100);
        let b = u as u8;
        r.push(b);
        i = i + 1;
        proof {
            assert(latin1_bytes(s@).take(i as int) =~= latin1_bytes(s@).take(i - 1).push(
                s@[i - 1] as u8,
            ));
        }
    }
    proof {
        assert(latin1_bytes(s@).take(n as int) =~= latin1_bytes(s@));
    }
    r
}

/// Decides whether every character of the text lies below 0x100, so the
/// text can be written back as octets.
#[verifier::loop_isolation(false)]
pub fn str_is_latin1(s: &str) -> (r: bool)
    ensures
        r == is_latin1_seq(s@),
{
    let n = s.unicode_len();
    let mut i: usize = 0;
    while i < n
        invariant
            i <= n,
            n == s@.len(),
            forall|j: int| 0 <= j < i ==> ((#[trigger] s@[j]) as u32) < 0x100,
        decreases n - i,
    {
        let c = s.get_char(i);
        if c as u32 >= 0x100 {
            proof {
                assert((s@[i as int] as u32) >= 0x100);
            }
            return false;
        }
        i = i + 1;
    }
    true
}

/// Whether two string slices hold the same characters.
pub fn str_eq(a: &str, b: &str) -> (r: bool)
    ensures
        r == (a@ == b@),
{
    let sa = a.to_owned();
    let sb = b.to_owned();
    sa == sb
}

// Decimal numerals.

/// The decimal digit character for a value below ten.
pub open spec fn digit_char(n: nat) -> char {
    ((0x30 + n) as u8) as char
}

/// The shortest decimal numeral of a number, as text.
pub open spec fn dec_str(n: nat) -> Seq<char>
    decreases n,
{
    if n < 10 {
        seq![digit_char(n)]
    } else {
        dec_str(n / 10) + seq![digit_char(n % 10)]
    }
}

/// Writes a number as its decimal numeral.
pub fn u64_to_string(n: u64) -> (r: String)
    ensures
        r@ == dec_str(n as nat),
    decreases n,
{
    if n < 10 {
        let mut r = String::new();
        let d = (0x30 + (n as u8)) as char;
        push_char(&mut r, d);
        proof {
            assert(r@ =~= dec_str(n as nat));
        }
        r
    } else {
        let mut r = u64_to_string(n / 10);
        let d = (0x30 + ((n % 10) as u8)) as char;
        push_char(&mut r, d);
        proof {
            assert(r@ =~= dec_str(n as nat));
        }
        r
    }
}

/// Whether the octet is a decimal digit.
pub open spec fn is_digit_byte(b: u8) -> bool {
    0x30 <= b <= 0x39
}

/// Whether the sequence is one or more decimal digits.
pub open spec fn is_digit_seq(s: Seq<u8>) -> bool {
    s.len() >= 1 && forall|i: int| 0 <= i < s.len() ==> is_digit_byte(#[trigger] s[i])
}

/// The value of a sequence of decimal digits.
pub open spec fn digits_val(s: Seq<u8>) -> int
    decreases s.len(),
{
    if s.len() == 0 {
        0
    } else {
        digits_val(s.drop_last()) * 10 + (s.last() - 0x30)
    }
}

/// Reads a numeral of one or more decimal digits; rejects anything else and
/// any value above `u64::MAX`.
pub fn parse_u64_digits(s: &[u8]) -> (r: Option<u64>)
    ensures
        r is Some <==> is_digit_seq(s@) && digits_val(s@) <= u64::MAX,
        r matches Some(v) ==> v == digits_val(s@),
{
    if s.len() == 0 {
        return None;
    }
    let mut acc: u64 = 0;
    let mut i: usize = 0;
    while i < s.len()
        invariant
            i <= s@.len(),
            forall|j: int| 0 <= j < i ==> is_digit_byte(#[trigger] s@[j]),
            acc == digits_val(s@.take(i as int)),
        decreases s@.len() - i,
    {
        let b = s[i];
        if !(0x30 <= b && b <= 0x39) {
            assert(!is_digit_seq(s@));
            return None;
        }
        let d = (b - 0x30) as u64;
        if acc > (u64::MAX - d) / 10 {
            proof {
                assert(s@.take(i + 1).drop_last() =~= s@.take(i as int));
                assert(digits_val(s@.take(i + 1)) == acc * 10 + d);
                assert(acc * 10 + d > u64::MAX) by (nonlinear_arith)
                    requires acc > (u64::MAX - d) / 10 && 0 <= d <= 9;
                if is_digit_seq(s@) {
                    lemma_digits_val_prefix_le(s@, i + 1);
                }
            }
            return None;
        }
        acc = acc * 10 + d;
        i = i + 1;
        proof {
            assert(s@.take(i as int).drop_last() =~= s@.take(i - 1));
            assert(s@.take(i as int).last() == s@[i - 1]);
        }
    }
    proof {
        assert(s@.take(s@.len() as int) =~= s@);
    }
    Some(acc)
}

/// A longer digit string never has a smaller value: the value of a prefix is
/// at most the value of the whole.
pub proof fn lemma_digits_val_prefix_le(s: Seq<u8>, n: int)
    requires
        0 <= n <= s.len(),
        forall|i: int| 0 <= i < s.len() ==> is_digit_byte(#[trigger] s[i]),
    ensures
        digits_val(s.take(n)) <= digits_val(s),
    decreases s.len() - n,
{
    if n < s.len() {
        lemma_digits_val_prefix_le(s, n + 1);
        lemma_digits_val_nonneg(s.take(n));
        assert(s.take(n + 1).drop_last() =~= s.take(n));
        assert(digits_val(s.take(n + 1)) == digits_val(s.take(n)) * 10 + (s.take(n + 1).last()
            - 0x30));
    } else {
        assert(s.take(n) =~= s);
    }
}

/// The value of a digit string is never negative.
pub proof fn lemma_digits_val_nonneg(s: Seq<u8>)
    requires
        forall|i: int| 0 <= i < s.len() ==> is_digit_byte(#[trigger] s[i]),
    ensures
        digits_val(s) >= 0,
    decreases s.len(),
{
    if s.len() > 0 {
        lemma_digits_val_nonneg(s.drop_last());
    }
}


/// Where an octet first occurs in the sequence, or -1 where it does not.
pub open spec fn until_pos(s: Seq<u8>, d: u8) -> int
    decreases s.len(),
{
    if s.len() == 0 {
        -1
    } else if s[0] == d {
        0
    } else {
        let r = until_pos(s.skip(1), d);
        if r == -1 {
            -1
        } else {
            r + 1
        }
    }
}

/// What the first occurrence means: nothing before it is the octet, and
/// the position itself is.
pub proof fn lemma_until_pos(s: Seq<u8>, d: u8)
    ensures
        until_pos(s, d) == -1 || 0 <= until_pos(s, d) < s.len(),
        until_pos(s, d) == -1 ==> forall|j: int| 0 <= j < s.len() ==> (#[trigger] s[j]) != d,
        until_pos(s, d) >= 0 ==> until_pos(s, d) < s.len() && s[until_pos(s, d)] == d,
        until_pos(s, d) >= 0 ==> forall|j: int| 0 <= j < until_pos(s, d) ==> (#[trigger] s[j]) != d,
    decreases s.len(),
{
    if s.len() > 0 && s[0] != d {
        lemma_until_pos(s.skip(1), d);
        let r = until_pos(s.skip(1), d);
        if r == -1 {
            assert forall|j: int| 0 <= j < s.len() implies (#[trigger] s[j]) != d by {
                if j > 0 {
                    assert(s.skip(1)[j - 1] == s[j]);
                }
            }
        } else {
            assert(s.skip(1)[r] == s[r + 1]);
            assert forall|j: int| 0 <= j < until_pos(s, d) implies (#[trigger] s[j]) != d by {
                if j > 0 {
                    assert(s.skip(1)[j - 1] == s[j]);
                }
            }
        }
    }
}

/// Where the octet is known to stand, with no earlier occurrence, the
/// first occurrence is there.
pub proof fn lemma_until_at(s: Seq<u8>, d: u8, p: int)
    requires
        0 <= p < s.len(),
        s[p] == d,
        forall|j: int| 0 <= j < p ==> (#[trigger] s[j]) != d,
    ensures
        until_pos(s, d) == p,
{
    lemma_until_pos(s, d);
    let r = until_pos(s, d);
    if r == -1 {
        assert(s[p] != d);
    } else if r < p {
        assert(s[r] == d);
    } else if r > p {
        assert(s[p] != d);
    }
}

/// How far the segment that ends at the first occurrence of the octet
/// reaches, the occurrence included; all of the input where the octet
/// does not occur.
pub open spec fn segment_end(s: Seq<u8>, d: u8) -> int {
    if until_pos(s, d) == -1 {
        s.len() as int
    } else {
        until_pos(s, d) + 1
    }
}

/// Reads octets starting at `start` up to and including the first `d`, or
/// to the end of the input where `d` does not occur; returns the position
/// after the segment.
pub fn read_until(from: &[u8], start: usize, d: u8) -> (end: usize)
    requires
        start <= from@.len(),
    ensures
        start <= end <= from@.len(),
        end - start == segment_end(from@.skip(start as int), d),
{
    let ghost rest = from@.skip(start as int);
    proof {
        lemma_until_pos(rest, d);
    }
    let n = from.len();
    let mut i: usize = start;
    while i < n && from[i] != d
        invariant
            n == from@.len(),
            start <= i <= n,
            rest == from@.skip(start as int),
            forall|j: int| 0 <= j < i - start ==> (#[trigger] rest[j]) != d,
        decreases n - i,
    {
        proof {
            assert(rest[i - start] == from@[i as int]);
        }
        i = i + 1;
    }
    if i == n {
        proof {
            assert(until_pos(rest, d) == -1) by {
                if until_pos(rest, d) >= 0 {
                    assert(rest[until_pos(rest, d)] != d);
                }
            }
        }
        n
    } else {
        proof {
            assert(rest[i - start] == from@[i as int]);
            lemma_until_at(rest, d, i - start);
        }
        i + 1
    }
}

// Decimal numerals over text.

/// Whether the text is one or more decimal digit characters.
pub open spec fn char_digits(s: Seq<char>) -> bool {
    s.len() >= 1 && forall|i: int|
        0 <= i < s.len() ==> ((#[trigger] s[i]) as u32) < 0x100 && is_digit_byte(s[i] as u8)
}

/// The value of a decimal numeral written as text.
pub open spec fn char_digits_val(s: Seq<char>) -> int {
    digits_val(latin1_bytes(s))
}

/// Reads a numeral of one or more decimal digit characters; rejects
/// anything else and any value above `u64::MAX`.
pub fn parse_u64_str(s: &str) -> (r: Option<u64>)
    ensures
        r is Some <==> char_digits(s@) && char_digits_val(s@) <= u64::MAX,
        r matches Some(v) ==> v == char_digits_val(s@),
{
    let ghost b = latin1_bytes(s@);
    let n = s.unicode_len();
    if n == 0 {
        return None;
    }
    let mut acc: u64 = 0;
    let mut i: usize = 0;
    while i < n
        invariant
            n == s@.len(),
            b == latin1_bytes(s@),
            i <= n,
            forall|j: int|
                0 <= j < i ==> ((#[trigger] s@[j]) as u32) < 0x100 && is_digit_byte(s@[j] as u8),
            acc == digits_val(b.take(i as int)),
        decreases n - i,
    {
        let c = s.get_char(i);
        let u = c as u32;
        if !(0x30 <= u && u <= 0x39) {
            proof {
                assert(!char_digits(s@)) by {
                    if (s@[i as int] as u32) < 0x100 && is_digit_byte(s@[i as int] as u8) {
                        assert((s@[i as int] as u8) as u32 == u);
                    }
                }
            }
            return None;
        }
        let d = (u - 0x30) as u64;
        proof {
            assert(b[i as int] == s@[i as int] as u8);
            assert(s@[i as int] as u8 == u as u8);
        }
        if acc > (u64::MAX - d) / 10 {
            proof {
                assert(b.take(i + 1).drop_last() =~= b.take(i as int));
                assert(b.take(i + 1).last() == b[i as int]);
                assert(digits_val(b.take(i + 1)) == acc * 10 + d);
                assert(acc * 10 + d > u64::MAX) by (nonlinear_arith)
                    requires
                        acc > (u64::MAX - d) / 10 && 0 <= d <= 9,
                ;
                if char_digits(s@) {
                    assert forall|j: int| 0 <= j < b.len() implies is_digit_byte(
                        #[trigger] b[j],
                    ) by {
                        assert(b[j] == s@[j] as u8);
                    }
                    lemma_digits_val_prefix_le(b, i + 1);
                }
            }
            return None;
        }
        acc = acc * 10 + d;
        i = i + 1;
        proof {
            assert(b.take(i as int).drop_last() =~= b.take(i - 1));
            assert(b.take(i as int).last() == b[i - 1]);
        }
    }
    proof {
        assert(b.take(n as int) =~= b);
    }
    Some(acc)
}

/// The decimal numeral of a number is all digits and reads back as the
/// number; numbers of three digits give three characters.
pub proof fn lemma_dec_str_props(n: nat)
    ensures
        char_digits(dec_str(n)),
        char_digits_val(dec_str(n)) == n,
        n < 10 ==> dec_str(n).len() == 1,
        10 <= n < 100 ==> dec_str(n).len() == 2,
        100 <= n < 1000 ==> dec_str(n).len() == 3,
    decreases n,
{
    if n < 10 {
        let c = digit_char(n);
        assert((c as u32) == 0x30 + n);
        assert(latin1_bytes(dec_str(n)) =~= seq![(0x30 + n) as u8]);
        assert(latin1_bytes(dec_str(n)).drop_last() =~= Seq::<u8>::empty());
        assert(latin1_bytes(dec_str(n)).last() == (0x30 + n) as u8);
        assert(digits_val(latin1_bytes(dec_str(n))) == digits_val(Seq::<u8>::empty()) * 10 + (
        latin1_bytes(dec_str(n)).last() - 0x30));
        assert((0x30 + n) as u8 == 0x30 + n);
    } else {
        lemma_dec_str_props(n / 10);
        let c = digit_char(n % 10);
        assert((c as u32) == 0x30 + n % 10);
        assert(latin1_bytes(dec_str(n)) =~= latin1_bytes(dec_str(n / 10)).push((0x30 + n % 10) as u8));
        assert(latin1_bytes(dec_str(n)).drop_last() =~= latin1_bytes(dec_str(n / 10)));
        assert(digits_val(latin1_bytes(dec_str(n))) == digits_val(latin1_bytes(dec_str(n / 10)))
            * 10 + n % 10);
        assert forall|i: int| 0 <= i < dec_str(n).len() implies ((#[trigger] dec_str(n)[i]) as u32)
            < 0x100 && is_digit_byte(dec_str(n)[i] as u8) by {
            if i < dec_str(n / 10).len() {
                assert(dec_str(n)[i] == dec_str(n / 10)[i]);
            } else {
                assert(dec_str(n)[i] == c);
            }
        }
        if n < 100 {
            assert(dec_str(n / 10).len() == 1);
        } else if n < 1000 {
            assert(dec_str(n / 10).len() == 2);
        }
    }
}

} // verus!
