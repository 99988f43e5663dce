//! Byte strings as text in base 62.
//!
//! The text of a byte string is the number that it denotes, written with the
//! digits 0-9, A-Z and a-z, behind one digit 0 for each leading zero byte.
use crate::bytes;
use crate::bytes::{all_zero, copy_range};
use crate::peer;
use vstd::arithmetic::power::*;
use vstd::prelude::*;

verus! {

/// The digit for a number below 62.
pub open spec fn digit62(d: nat) -> char {
    if d < 10 {
        (('0' as nat) + d) as char
    } else if d < 36 {
        (('A' as nat) + (d - 10)) as char
    } else {
        (('a' as nat) + (d - 36)) as char
    }
}

/// The number that a byte of text stands for, if it is a digit.
pub open spec fn value62(c: u8) -> Option<nat> {
    if 48 <= c <= 57 {
        Some((c - 48) as nat)
    } else if 65 <= c <= 90 {
        Some((c - 55) as nat)
    } else if 97 <= c <= 122 {
        Some((c - 61) as nat)
    } else {
        None
    }
}

/// The digits of a number, without leading zeros; none for zero.
pub open spec fn digits62(v: nat) -> Seq<nat>
    decreases v,
{
    if v == 0 {
        Seq::empty()
    } else {
        digits62(v / 62).push(v % 62)
    }
}

/// The number that digits denote.
pub open spec fn number62(d: Seq<nat>) -> nat
    decreases d.len(),
{
    if d.len() == 0 {
        0
    } else {
        number62(d.drop_last()) * 62 + d.last()
    }
}

/// How many elements at the start are zero.
pub open spec fn leading_zero_bytes(s: Seq<u8>) -> nat
    decreases s.len(),
{
    if s.len() == 0 || s[0] != 0 {
        0
    } else {
        1 + leading_zero_bytes(s.drop_first())
    }
}

/// How many digits at the start are zero.
pub open spec fn leading_zero_digits(d: Seq<nat>) -> nat
    decreases d.len(),
{
    if d.len() == 0 || d[0] != 0 {
        0
    } else {
        1 + leading_zero_digits(d.drop_first())
    }
}

/// The digits that stand for a byte string. A byte string without a byte other
/// than zero has one digit.
pub open spec fn byte_digits(data: Seq<u8>) -> Seq<nat> {
    if bytes::be_nat(data) == 0 {
        seq![0nat]
    } else {
        Seq::new(leading_zero_bytes(data), |i: int| 0nat) + digits62(bytes::be_nat(data))
    }
}

/// The text of a byte string.
pub open spec fn base62_text(data: Seq<u8>) -> Seq<char> {
    byte_digits(data).map_values(|d: nat| digit62(d))
}

/// The bytes of a number, without leading zero bytes; one zero byte for zero.
pub open spec fn min_bytes(v: nat) -> Seq<u8>
    decreases v,
{
    if v < 256 {
        seq![v as u8]
    } else {
        min_bytes(v / 256).push((v % 256) as u8)
    }
}

/// Whether every byte of a text is a digit.
pub open spec fn all_digits(text: Seq<u8>) -> bool {
    forall|i: int| 0 <= i < text.len() ==> value62(#[trigger] text[i]) is Some
}

/// The numbers that the digits of a text stand for.
pub open spec fn text_digits(text: Seq<u8>) -> Seq<nat> {
    text.map_values(|c: u8| value62(c)->0)
}

/// The byte string that a text stands for: a zero byte for each leading zero
/// digit, up to as many as 32 bits can count, and the bytes of the number. The
/// empty text stands for the empty byte string.
pub open spec fn base62_bytes(text: Seq<u8>) -> Option<Seq<u8>> {
    if text.len() == 0 {
        Some(Seq::empty())
    } else if !all_digits(text) {
        None
    } else {
        let d = text_digits(text);
        Some(Seq::new(counted(leading_zero_digits(d)), |i: int| 0u8) + min_bytes(number62(d)))
    }
}

/// A number as far as 32 bits can count.
pub open spec fn counted(n: nat) -> nat {
    if n < 0xffff_ffff {
        n
    } else {
        0xffff_ffff
    }
}

/// The digit for a number below 62.
fn digit(d: u8) -> (c: char)
    requires
        d < 62,
    ensures
        c == digit62(d as nat),
{
    if d < 10 {
        (48u8 + d) as char
    } else if d < 36 {
        (55u8 + d) as char
    } else {
        (61u8 + d) as char
    }
}

/// The number that a byte of text stands for.
fn value(c: u8) -> (r: Option<u8>)
    ensures
        match r {
            Some(v) => value62(c) == Some(v as nat) && v < 62,
            None => value62(c) is None,
        },
{
    if 48 <= c && c <= 57 {
        Some(c - 48)
    } else if 65 <= c && c <= 90 {
        Some(c - 55)
    } else if 97 <= c && c <= 122 {
        Some(c - 61)
    } else {
        None
    }
}

/// Divides a number by 62, digit by digit in base 256.
fn divide(value: &Vec<u8>) -> (r: (Vec<u8>, u8))
    ensures
        r.1 < 62,
        r.0@.len() == value@.len(),
        bytes::be_nat(value@) == bytes::be_nat(r.0@) * 62 + r.1,
{
    let mut quotient: Vec<u8> = Vec::with_capacity(value.len());
    let mut rem: u8 = 0;
    let mut i: usize = 0;
    assert(value@.subrange(0, 0) =~= Seq::<u8>::empty());
    while i < value.len()
        invariant
            i <= value@.len(),
            quotient@.len() == i,
            rem < 62,
            bytes::be_nat(value@.subrange(0, i as int)) == bytes::be_nat(quotient@) * 62 + rem,
        decreases value@.len() - i,
    {
        let ghost q = quotient@;
        let combined: u16 = rem as u16 * 256 + value[i] as u16;
        quotient.push((combined / 62) as u8);
        proof {
            let next = value@.subrange(0, i + 1);
            assert(next.drop_last() =~= value@.subrange(0, i as int));
            assert(quotient@.drop_last() =~= q);
        }
        rem = (combined % 62) as u8;
        i = i + 1;
    }
    assert(value@.subrange(0, i as int) =~= value@);
    (quotient, rem)
}

/// The text of a byte string in base 62.
pub fn encode_base62(data: &[u8]) -> (s: String)
    ensures
        s@ == base62_text(data@),
{
    proof {
        peer::lemma_be_nat_zero(data@);
    }
    let mut result: String = String::new();
    if all_zero(data) {
        result.push('0');
        assert(result@ =~= base62_text(data@));
        return result;
    }
    // The digits, least significant first.
    let mut low: Vec<u8> = Vec::new();
    let mut value: Vec<u8> = copy_range(data, 0, data.len());
    assert(value@ =~= data@);
    assert(digits62(bytes::be_nat(value@)) + backwards(low@) =~= digits62(bytes::be_nat(data@)));
    while !all_zero(value.as_slice())
        invariant
            forall|i: int| 0 <= i < low@.len() ==> #[trigger] low@[i] < 62,
            digits62(bytes::be_nat(value@)) + backwards(low@) == digits62(bytes::be_nat(data@)),
        decreases bytes::be_nat(value@),
    {
        proof {
            peer::lemma_be_nat_zero(value@);
        }
        let ghost before = low@;
        let (quotient, rem): (Vec<u8>, u8) = divide(&value);
        low.push(rem);
        proof {
            let v = bytes::be_nat(value@);
            let q = bytes::be_nat(quotient@);
            assert(v / 62 == q && v % 62 == rem as nat);
            assert(backwards(low@) =~= seq![rem as nat] + backwards(before));
            assert(digits62(q) + backwards(low@) =~= digits62(q).push(rem as nat) + backwards(
                before,
            ));
        }
        value = quotient;
    }
    proof {
        peer::lemma_be_nat_zero(value@);
        assert(digits62(0) + backwards(low@) =~= backwards(low@));
    }
    let mut z: usize = 0;
    assert(data@.skip(0) =~= data@);
    while z < data.len() && data[z] == 0
        invariant
            z <= data@.len(),
            leading_zero_bytes(data@) == z + leading_zero_bytes(data@.skip(z as int)),
            result@ == Seq::new(z as nat, |i: int| '0'),
        decreases data@.len() - z,
    {
        assert(data@.skip(z as int).drop_first() =~= data@.skip(z + 1));
        assert(data@.skip(z as int)[0] == data@[z as int]);
        result.push('0');
        z = z + 1;
        assert(result@ =~= Seq::new(z as nat, |i: int| '0'));
    }
    proof {
        if z < data@.len() {
            assert(data@.skip(z as int)[0] == data@[z as int]);
        }
        assert(z == leading_zero_bytes(data@));
    }
    let ghost head = result@;
    let mut i: usize = low.len();
    while i > 0
        invariant
            i <= low@.len(),
            forall|j: int| 0 <= j < low@.len() ==> #[trigger] low@[j] < 62,
            result@ == head + backwards(low@).subrange(0, low@.len() - i).map_values(
                |d: nat| digit62(d),
            ),
        decreases i,
    {
        i = i - 1;
        result.push(digit(low[i]));
        proof {
            let b = backwards(low@);
            let n = low@.len() - i;
            assert(b.subrange(0, n as int).map_values(|d: nat| digit62(d)) =~= b.subrange(
                0,
                n - 1,
            ).map_values(|d: nat| digit62(d)).push(digit62(low@[i as int] as nat)));
        }
    }
    proof {
        let b = backwards(low@);
        assert(b.subrange(0, low@.len() as int) =~= b);
        assert(result@ =~= base62_text(data@));
    }
    result
}

/// Digits in the opposite order.
pub open spec fn backwards(low: Seq<u8>) -> Seq<nat> {
    Seq::new(low.len(), |i: int| low[low.len() - 1 - i] as nat)
}

/// Putting one byte string in front of another.
proof fn lemma_be_nat_concat(a: Seq<u8>, b: Seq<u8>)
    ensures
        bytes::be_nat(a + b) == bytes::be_nat(a) * pow(256, b.len()) + bytes::be_nat(b),
    decreases b.len(),
{
    reveal(pow);
    if b.len() == 0 {
        assert(a + b =~= a);
        assert(pow(256, 0) == 1);
        assert(bytes::be_nat(a) * 1 == bytes::be_nat(a));
    } else {
        let c = b.drop_last();
        lemma_be_nat_concat(a, c);
        assert((a + b).drop_last() =~= a + c);
        let x = bytes::be_nat(a) as int;
        let p = pow(256, c.len());
        assert(pow(256, b.len()) == 256 * p);
        let y = bytes::be_nat(c) as int;
        assert((x * p + y) * 256 == x * (256 * p) + y * 256) by (nonlinear_arith);
    }
}

/// A byte string that does not start with a zero byte denotes a number of so many
/// bytes, and the other way round.
proof fn lemma_first_byte(s: Seq<u8>)
    requires
        s.len() > 0,
    ensures
        s[0] != 0 <==> bytes::be_nat(s) >= pow(256, (s.len() - 1) as nat),
    decreases s.len(),
{
    reveal(pow);
    let front = s.drop_last();
    if s.len() == 1 {
        assert(front =~= Seq::<u8>::empty());
        assert(bytes::be_nat(s) == s[0] as nat);
        assert(pow(256, 0) == 1);
    } else {
        lemma_first_byte(front);
        assert(pow(256, (s.len() - 1) as nat) == 256 * pow(256, (s.len() - 2) as nat));
    }
}

/// A byte string that does not start with a zero byte, or that is a single zero
/// byte, is the bytes of the number that it denotes.
proof fn lemma_min_bytes(s: Seq<u8>)
    requires
        s.len() > 0,
        s[0] != 0 || s.len() == 1,
    ensures
        min_bytes(bytes::be_nat(s)) == s,
    decreases s.len(),
{
    let front = s.drop_last();
    assert(front.push(s.last()) =~= s);
    if s.len() == 1 {
        bytes::lemma_be_nat_small(s);
        assert(min_bytes(bytes::be_nat(s)) =~= s);
    } else {
        lemma_min_bytes(front);
        peer::lemma_be_nat_zero(front);
        assert(front[0] != 0);
        assert(bytes::be_nat(front) > 0);
        assert(bytes::be_nat(s) / 256 == bytes::be_nat(front));
    }
}

/// One step of multiplying by 62 in base 256, from the right.
proof fn lemma_multiply_step(p: int, b: int, c: int, m: int, rest: int, n: int, d: int)
    requires
        b * 62 + c == d * 256 + n,
    ensures
        (p * 62 + d) * (256 * m) + (n * m + rest) == ((p * 256 + b) * 62 + c) * m + rest,
{
    assert((p * 62 + d) * (256 * m) + n * m == (p * 62 * 256 + d * 256 + n) * m) by (nonlinear_arith);
    assert((p * 256 + b) * 62 + c == p * 62 * 256 + d * 256 + n);
}

/// Multiplies a number by 62 and adds a digit.
fn multiply_add(value: &mut Vec<u8>, d: u8)
    requires
        d < 62,
        old(value)@.len() > 0,
        old(value)@[0] != 0 || old(value)@.len() == 1,
        bytes::be_nat(old(value)@) > 0 || d > 0,
    ensures
        bytes::be_nat(final(value)@) == bytes::be_nat(old(value)@) * 62 + d,
        final(value)@.len() > 0,
        final(value)@[0] != 0,
{
    let mut carry: u32 = d as u32;
    let mut i: usize = value.len();
    let ghost whole = value@;
    let ghost target = bytes::be_nat(whole) * 62 + d;
    proof {
        assert(whole.subrange(0, i as int) =~= whole);
        assert(value@.skip(i as int) =~= Seq::<u8>::empty());
        assert(pow(256, 0) == 1) by {
            reveal(pow);
        }
        let x = bytes::be_nat(whole) * 62 + d;
        assert(x * 1 == x);
    }
    while i > 0
        invariant
            i <= value@.len(),
            value@.len() == whole.len(),
            carry < 62,
            value@.subrange(0, i as int) == whole.subrange(0, i as int),
            (bytes::be_nat(whole.subrange(0, i as int)) * 62 + carry) * pow(
                256,
                (whole.len() - i) as nat,
            ) + bytes::be_nat(value@.skip(i as int)) == target,
        decreases i,
    {
        let ghost before = value@;
        i = i - 1;
        assert(value@[i as int] == value@.subrange(0, i + 1)[i as int]);
        assert(whole[i as int] == whole.subrange(0, i + 1)[i as int]);
        let v: u32 = value[i] as u32 * 62 + carry;
        let byte: u8 = (v % 256) as u8;
        let next: u32 = v / 256;
        value[i] = byte;
        proof {
            let m = pow(256, (whole.len() - i - 1) as nat);
            let rest = before.skip(i + 1);
            let prefix = whole.subrange(0, i as int);
            assert(whole.subrange(0, i + 1).drop_last() =~= prefix);
            assert(value@.skip(i as int) =~= seq![byte] + rest);
            lemma_be_nat_concat(seq![byte], rest);
            assert(bytes::be_nat(seq![byte]) == byte) by {
                bytes::lemma_be_nat_small(seq![byte]);
            }
            assert(pow(256, (whole.len() - i) as nat) == 256 * m) by {
                reveal(pow);
            }
            lemma_multiply_step(
                bytes::be_nat(prefix) as int,
                whole[i as int] as int,
                carry as int,
                m,
                bytes::be_nat(rest) as int,
                byte as int,
                next as int,
            );
            assert(value@.subrange(0, i as int) =~= prefix) by {
                assert forall|j: int| 0 <= j < i implies value@[j] == whole[j] by {
                    assert(before.subrange(0, i + 1)[j] == whole.subrange(0, i + 1)[j]);
                }
            }
        }
        carry = next;
    }
    proof {
        assert(whole.subrange(0, 0) =~= Seq::<u8>::empty());
        assert(value@.skip(0) =~= value@);
    }
    let ghost body = value@;
    if carry > 0 {
        value.insert(0, carry as u8);
        proof {
            assert(value@ =~= seq![carry as u8] + body);
            lemma_be_nat_concat(seq![carry as u8], body);
            bytes::lemma_be_nat_small(seq![carry as u8]);
        }
    } else {
        proof {
            assert(0 * pow(256, whole.len()) == 0);
            lemma_first_byte(whole);
            lemma_first_byte(body);
            if whole.len() == 1 {
                assert(pow(256, 0) == 1) by {
                    reveal(pow);
                }
            }
        }
    }
}

/// The byte string that a text in base 62 stands for.
pub fn decode_base62(s: &str) -> (r: Option<Vec<u8>>)
    ensures
        match r {
            Some(out) => base62_bytes(vstd::utf8::encode_utf8(s@)) == Some(out@),
            None => base62_bytes(vstd::utf8::encode_utf8(s@)) is None,
        },
{
    decode_text(s.as_bytes())
}

/// The byte string that the bytes of a text in base 62 stand for.
pub fn decode_text(text: &[u8]) -> (r: Option<Vec<u8>>)
    ensures
        match r {
            Some(out) => base62_bytes(text@) == Some(out@),
            None => base62_bytes(text@) is None,
        },
{
    if text.len() == 0 {
        return Some(Vec::new());
    }
    let mut value_bytes: Vec<u8> = Vec::new();
    value_bytes.push(0);
    let mut zeros: u32 = 0;
    let mut i: usize = 0;
    let ghost d = text_digits(text@);
    proof {
        bytes::lemma_be_nat_small(value_bytes@);
        assert(d.subrange(0, 0) =~= Seq::<nat>::empty());
    }
    while i < text.len()
        invariant
            i <= text@.len(),
            d == text_digits(text@),
            forall|j: int| 0 <= j < i ==> value62(#[trigger] text@[j]) is Some,
            value_bytes@.len() > 0,
            value_bytes@[0] != 0 || value_bytes@.len() == 1,
            bytes::be_nat(value_bytes@) == number62(d.subrange(0, i as int)),
            zeros as nat == counted(leading_zero_digits(d.subrange(0, i as int))),
            bytes::be_nat(value_bytes@) == 0 ==> leading_zero_digits(d.subrange(0, i as int)) == i,
            bytes::be_nat(value_bytes@) > 0 ==> leading_zero_digits(d.subrange(0, i as int)) < i,
        decreases text@.len() - i,
    {
        let idx: u8 = match value(text[i]) {
            None => {
                return None;
            },
            Some(v) => v,
        };
        proof {
            let next = d.subrange(0, i + 1);
            assert(next.drop_last() =~= d.subrange(0, i as int));
            assert(next.last() == idx as nat);
            assert(next =~= d.subrange(0, i as int).push(idx as nat));
            lemma_leading_zero_push(d.subrange(0, i as int), idx as nat);
            lemma_min_bytes(value_bytes@);
            bytes::lemma_be_nat_small(value_bytes@);
            peer::lemma_be_nat_zero(value_bytes@);
        }
        if idx == 0 && value_bytes.len() == 1 && value_bytes[0] == 0 {
            zeros = zeros.saturating_add(1);
        } else {
            multiply_add(&mut value_bytes, idx);
        }
        i = i + 1;
    }
    assert(d.subrange(0, i as int) =~= d);
    let mut result: Vec<u8> = Vec::new();
    let mut z: u32 = 0;
    while z < zeros
        invariant
            z <= zeros,
            result@ == Seq::new(z as nat, |i: int| 0u8),
        decreases zeros - z,
    {
        result.push(0);
        z = z + 1;
        assert(result@ =~= Seq::new(z as nat, |i: int| 0u8));
    }
    proof {
        lemma_min_bytes(value_bytes@);
    }
    result.extend_from_slice(value_bytes.as_slice());
    Some(result)
}

/// The leading zeros of digits with one more.
proof fn lemma_leading_zero_push(d: Seq<nat>, x: nat)
    ensures
        leading_zero_digits(d) <= d.len(),
        leading_zero_digits(d.push(x)) == if leading_zero_digits(d) == d.len() && x == 0 {
            d.len() + 1
        } else {
            leading_zero_digits(d)
        },
    decreases d.len(),
{
    let e = d.push(x);
    if d.len() == 0 {
        assert(e.drop_first() =~= Seq::<nat>::empty());
        assert(e[0] == x);
        assert(leading_zero_digits(e.drop_first()) == 0);
    } else {
        lemma_leading_zero_push(d.drop_first(), x);
        assert(e.drop_first() =~= d.drop_first().push(x));
        assert(e[0] == d[0]);
    }
}

/// The digits of a number are below 62, denote it, and do not start with zero.
proof fn lemma_digits62(v: nat)
    ensures
        number62(digits62(v)) == v,
        forall|i: int| 0 <= i < digits62(v).len() ==> #[trigger] digits62(v)[i] < 62,
        v > 0 ==> digits62(v).len() > 0 && digits62(v)[0] != 0,
    decreases v,
{
    if v > 0 {
        lemma_digits62(v / 62);
        assert(digits62(v).drop_last() =~= digits62(v / 62));
    }
}

/// Zeros in front of digits change the number of leading zeros and not the number.
proof fn lemma_zeros_in_front(z: nat, d: Seq<nat>)
    requires
        d.len() > 0,
        d[0] != 0,
    ensures
        ({
            let e = Seq::new(z, |i: int| 0nat) + d;
            &&& leading_zero_digits(e) == z
            &&& number62(e) == number62(d)
        }),
    decreases z,
{
    let e = Seq::new(z, |i: int| 0nat) + d;
    if z == 0 {
        assert(e =~= d);
    } else {
        let f = Seq::new((z - 1) as nat, |i: int| 0nat) + d;
        lemma_zeros_in_front((z - 1) as nat, d);
        assert(e.drop_first() =~= f);
        lemma_number_front_zero(f);
        assert(e =~= seq![0nat] + f);
    }
}

/// A zero in front of digits does not change the number.
proof fn lemma_number_front_zero(f: Seq<nat>)
    ensures
        number62(seq![0nat] + f) == number62(f),
    decreases f.len(),
{
    let e = seq![0nat] + f;
    if f.len() == 0 {
        assert(e.drop_last() =~= Seq::<nat>::empty());
        assert(number62(e) == number62(e.drop_last()) * 62 + 0);
    } else {
        lemma_number_front_zero(f.drop_last());
        assert(e.drop_last() =~= seq![0nat] + f.drop_last());
    }
}

/// A byte string with a byte other than zero is its leading zero bytes and the
/// bytes of the number that it denotes.
proof fn lemma_split_zeros(s: Seq<u8>)
    requires
        bytes::be_nat(s) > 0,
    ensures
        s == Seq::new(leading_zero_bytes(s), |i: int| 0u8) + min_bytes(bytes::be_nat(s)),
        leading_zero_bytes(s) < s.len(),
    decreases s.len(),
{
    if s.len() > 0 && s[0] != 0 {
        lemma_min_bytes(s);
        assert(s =~= Seq::new(0, |i: int| 0u8) + min_bytes(bytes::be_nat(s)));
    } else {
        let t = s.drop_first();
        assert(s =~= seq![0u8] + t);
        lemma_be_nat_concat(seq![0u8], t);
        bytes::lemma_be_nat_small(seq![0u8]);
        assert(0 * pow(256, t.len()) == 0);
        lemma_split_zeros(t);
        let z = leading_zero_bytes(t);
        assert(s =~= Seq::new(z + 1, |i: int| 0u8) + min_bytes(bytes::be_nat(s)));
    }
}

/// A digit is a seven-bit character that reads back as its number.
proof fn lemma_digit62(d: nat)
    requires
        d < 62,
    ensures
        '\0' <= digit62(d) <= '\u{7f}',
        value62(digit62(d) as u8) == Some(d),
{
}

/// The text of a byte string is made of seven-bit characters.
pub proof fn lemma_text_ascii(data: Seq<u8>)
    ensures
        vstd::utf8::is_ascii_chars(base62_text(data)),
{
    let v = bytes::be_nat(data);
    let z = leading_zero_bytes(data);
    let d = byte_digits(data);
    let t = base62_text(data);
    lemma_digits62(v);
    assert forall|i: int| 0 <= i < t.len() implies '\0' <= #[trigger] t[i] <= '\u{7f}' by {
        if v > 0 && i >= z {
            assert(d[i] == digits62(v)[i - z]);
        }
        lemma_digit62(d[i]);
    }
}

/// Reading the text of a byte string gives the byte string, for every byte string
/// with a byte other than zero. The leading zero bytes must be no more than 32 bits can
/// count.
pub proof fn law_base62_roundtrip(data: Seq<u8>)
    requires
        bytes::be_nat(data) > 0,
        leading_zero_bytes(data) <= 0xffff_ffff,
    ensures
        base62_bytes(vstd::utf8::encode_utf8(base62_text(data))) == Some(data),
{
    let v = bytes::be_nat(data);
    let z = leading_zero_bytes(data);
    let d = byte_digits(data);
    let t = base62_text(data);
    let b = vstd::utf8::encode_utf8(t);
    lemma_digits62(v);
    lemma_zeros_in_front(z, digits62(v));
    lemma_split_zeros(data);
    assert forall|i: int| 0 <= i < d.len() implies #[trigger] d[i] < 62 by {
        if i >= z {
            assert(d[i] == digits62(v)[i - z]);
        }
    }
    assert forall|i: int| 0 <= i < t.len() implies '\0' <= #[trigger] t[i] <= '\u{7f}' by {
        lemma_digit62(d[i]);
    }
    vstd::utf8::is_ascii_chars_encode_utf8(t);
    assert forall|i: int| 0 <= i < b.len() implies value62(#[trigger] b[i]) == Some(d[i]) by {
        assert(t[i] as u8 == b[i]);
        lemma_digit62(d[i]);
    }
    assert(text_digits(b) =~= d);
}

/// Whether a character is a digit: 0-9, A-Z or a-z.
pub open spec fn is_digit62(c: char) -> bool {
    '0' <= c <= '9' || 'A' <= c <= 'Z' || 'a' <= c <= 'z'
}

/// The bytes of a character are digits exactly where the character is one.
proof fn lemma_scalar_digits(c: char)
    ensures
        all_digits(vstd::utf8::encode_scalar(c as u32)) <==> is_digit62(c),
{
    let v = c as u32;
    let b = vstd::utf8::encode_scalar(v);
    vstd::utf8::char_is_scalar(c);
    if vstd::utf8::has_width_1_encoding(v) {
        assert((v & 0x7F) as u8 == v) by (bit_vector)
            requires
                v <= 0x7F,
        ;
        assert(b[0] == v);
        assert(value62(b[0]) is Some <==> is_digit62(c));
    } else {
        assert((0xC0u8 | ((v >> 6) & 0x1F) as u8) >= 0xC0) by (bit_vector);
        assert((0xE0u8 | ((v >> 12) & 0x0F) as u8) >= 0xC0) by (bit_vector);
        assert((0xF0u8 | ((v >> 18) & 0x7) as u8) >= 0xC0) by (bit_vector);
        assert(value62(b[0]) is None);
    }
}

/// A text is refused exactly where it holds a character that is no digit.
pub proof fn law_base62_refused(text: Seq<char>)
    ensures
        base62_bytes(vstd::utf8::encode_utf8(text)) is None <==> exists|i: int|
            0 <= i < text.len() && !is_digit62(#[trigger] text[i]),
    decreases text.len(),
{
    let b = vstd::utf8::encode_utf8(text);
    if text.len() > 0 {
        let rest = text.drop_first();
        let first = vstd::utf8::encode_scalar(text[0] as u32);
        let tail = vstd::utf8::encode_utf8(rest);
        law_base62_refused(rest);
        lemma_scalar_digits(text[0]);
        assert(b == first + tail);
        assert(first.len() > 0);
        assert(all_digits(tail) <==> base62_bytes(tail) is Some);
        assert(all_digits(b) <==> all_digits(first) && all_digits(tail)) by {
            if all_digits(b) {
                assert forall|i: int| 0 <= i < first.len() implies value62(
                    #[trigger] first[i],
                ) is Some by {
                    assert(b[i] == first[i]);
                }
                assert forall|i: int| 0 <= i < tail.len() implies value62(
                    #[trigger] tail[i],
                ) is Some by {
                    assert(b[first.len() + i] == tail[i]);
                }
            }
        }
        if exists|i: int| 0 <= i < text.len() && !is_digit62(#[trigger] text[i]) {
            let i = choose|i: int| 0 <= i < text.len() && !is_digit62(#[trigger] text[i]);
            if i > 0 {
                assert(rest[i - 1] == text[i]);
            }
        }
        if exists|i: int| 0 <= i < rest.len() && !is_digit62(#[trigger] rest[i]) {
            let i = choose|i: int| 0 <= i < rest.len() && !is_digit62(#[trigger] rest[i]);
            assert(text[i + 1] == rest[i]);
        }
    }
}

/// The text of a byte string starts with a digit 0 for each leading zero byte, goes on with
/// another digit, and ends with the digit for the rest of the number by 62. The digits are
/// 0 to 9, A to Z and a to z, in this order.
pub proof fn law_base62_text(data: Seq<u8>)
    requires
        bytes::be_nat(data) > 0,
    ensures
        ({
            let t = base62_text(data);
            let z = leading_zero_bytes(data) as int;
            let digits = "0123456789ABCDEFGHIJKLMNOPQRSTUVWXYZabcdefghijklmnopqrstuvwxyz"@;
            &&& z < t.len()
            &&& forall|i: int| 0 <= i < z ==> #[trigger] t[i] == '0'
            &&& t[z] != '0'
            &&& t[t.len() - 1] == digits[bytes::be_nat(data) as int % 62]
        }),
{
    reveal_strlit("0123456789ABCDEFGHIJKLMNOPQRSTUVWXYZabcdefghijklmnopqrstuvwxyz");
    let v = bytes::be_nat(data);
    let d = byte_digits(data);
    let t = base62_text(data);
    let z = leading_zero_bytes(data) as int;
    lemma_digits62(v);
    assert(d[z] == digits62(v)[0]);
    assert(d[z] < 62);
    assert(t[z] == digit62(d[z]));
    lemma_digit62(d[z]);
    lemma_digit62(0);
    assert(d[d.len() - 1] == v % 62);
    assert forall|i: int| 0 <= i < z implies #[trigger] t[i] == '0' by {
        assert(d[i] == 0);
    }
}

} // verus!
