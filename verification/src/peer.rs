//! Peer identifiers and the XOR metric on them.
use crate::bytes;
use crate::bytes::{array_at, bytes_equal};
use crate::hexadecimal;
use crate::hexadecimal::{decode_hex, push_hex, HexError};
use vstd::arithmetic::power2::pow2;
use vstd::prelude::*;

verus! {

/// A 256-bit identifier: the SHA-256 digest of an Ed25519 public key.
#[derive(Clone, Copy, Debug, Hash, PartialOrd, Ord, Eq)]
pub struct PeerId(pub [u8; 32]);

impl View for PeerId {
    type V = Seq<u8>;

    /// The 32 bytes.
    open spec fn view(&self) -> Seq<u8> {
        self.0@
    }
}

impl PartialEq for PeerId {
    fn eq(&self, other: &Self) -> (r: bool) {
        proof {
            lemma_peer_id_ext(*self, *other);
        }
        bytes_equal(self.0.as_slice(), other.0.as_slice())
    }
}

impl vstd::std_specs::cmp::PartialEqSpecImpl for PeerId {
    open spec fn obeys_eq_spec() -> bool {
        true
    }

    open spec fn eq_spec(&self, other: &Self) -> bool {
        *self == *other
    }
}

/// Identifiers with the same bytes are the same.
pub proof fn lemma_peer_id_ext(a: PeerId, b: PeerId)
    ensures
        a@ == b@ <==> a == b,
{
    if a@ == b@ {
        assert(a.0 =~= b.0);
    }
}

/// The bytewise exclusive or of two byte strings of equal length.
pub open spec fn xor_bytes(a: Seq<u8>, b: Seq<u8>) -> Seq<u8> {
    Seq::new(a.len(), |i: int| a[i] ^ b[i])
}

/// The XOR distance of two identifiers, as a number.
pub open spec fn distance_nat(a: Seq<u8>, b: Seq<u8>) -> nat {
    bytes::be_nat(xor_bytes(a, b))
}

/// The number of leading zero bits of a byte.
pub open spec fn byte_leading_zeros(b: u8) -> nat {
    if b >= 128 {
        0
    } else if b >= 64 {
        1
    } else if b >= 32 {
        2
    } else if b >= 16 {
        3
    } else if b >= 8 {
        4
    } else if b >= 4 {
        5
    } else if b >= 2 {
        6
    } else if b >= 1 {
        7
    } else {
        8
    }
}

/// The number of leading zero bits of a byte string.
pub open spec fn leading_zeros(s: Seq<u8>) -> nat
    decreases s.len(),
{
    if s.len() == 0 {
        0
    } else if s[0] == 0 {
        8 + leading_zeros(s.drop_first())
    } else {
        byte_leading_zeros(s[0])
    }
}

/// The bucket that `b` falls in as seen from `a`: the number of leading bits
/// that the two share, where an identifier equal to `a` goes to the last of the
/// 256 buckets.
pub open spec fn bucket_of(a: Seq<u8>, b: Seq<u8>) -> nat {
    let n = leading_zeros(xor_bytes(a, b));
    if n < 255 {
        n
    } else {
        255
    }
}

/// What reading an identifier from hexadecimal text gives.
pub open spec fn parsed_peer_id(text: Seq<char>) -> Result<Seq<u8>, Seq<char>> {
    parsed_peer_bytes(vstd::utf8::encode_utf8(text))
}

/// What reading an identifier from the bytes of hexadecimal text gives.
pub open spec fn parsed_peer_bytes(text: Seq<u8>) -> Result<Seq<u8>, Seq<char>> {
    match hexadecimal::hex_decoded(text) {
        Err(e) => Err(e.message()),
        Ok(b) => if b.len() == 32 {
            Ok(b)
        } else {
            Err("PeerId must be 32 bytes"@)
        },
    }
}

/// The number of leading zero bits of a byte.
fn zeros_of(b: u8) -> (n: usize)
    ensures
        n == byte_leading_zeros(b),
{
    if b >= 128 {
        0
    } else if b >= 64 {
        1
    } else if b >= 32 {
        2
    } else if b >= 16 {
        3
    } else if b >= 8 {
        4
    } else if b >= 4 {
        5
    } else if b >= 2 {
        6
    } else if b >= 1 {
        7
    } else {
        8
    }
}

impl PeerId {
    /// The 32 bytes.
    pub fn as_bytes(&self) -> (r: &[u8; 32])
        ensures
            r@ == self@,
    {
        &self.0
    }

    /// The 64 lower-case hexadecimal digits.
    pub fn to_hex(&self) -> (s: String)
        ensures
            s@ == hexadecimal::hex_text(self@),
    {
        let mut s: String = String::new();
        push_hex(&mut s, self.0.as_slice());
        assert(s@ =~= hexadecimal::hex_text(self@));
        s
    }

    /// The first sixteen hexadecimal digits, for messages.
    pub fn short_hex(&self) -> (s: String)
        ensures
            s@ == hexadecimal::hex_text(self@.subrange(0, 8)),
    {
        let mut s: String = String::new();
        let all: &[u8] = self.0.as_slice();
        push_hex(&mut s, &all[0..8]);
        assert(s@ =~= hexadecimal::hex_text(self@.subrange(0, 8)));
        s
    }

    /// Reads an identifier from 64 hexadecimal digits, in either case.
    pub fn from_hex(hex: &str) -> (r: Result<Self, String>)
        ensures
            match r {
                Ok(id) => parsed_peer_id(hex@) == Ok::<Seq<u8>, Seq<char>>(id@),
                Err(e) => parsed_peer_id(hex@) == Err::<Seq<u8>, Seq<char>>(e@),
            },
    {
        PeerId::from_hex_bytes(hex.as_bytes())
    }

    /// Reads an identifier from the bytes of 64 hexadecimal digits.
    pub fn from_hex_bytes(hex: &[u8]) -> (r: Result<Self, String>)
        ensures
            match r {
                Ok(id) => parsed_peer_bytes(hex@) == Ok::<Seq<u8>, Seq<char>>(id@),
                Err(e) => parsed_peer_bytes(hex@) == Err::<Seq<u8>, Seq<char>>(e@),
            },
    {
        let decoded: Result<Vec<u8>, HexError> = decode_hex(hex);
        match decoded {
            Err(e) => Err(e.text()),
            Ok(b) => {
                if b.len() != 32 {
                    return Err("PeerId must be 32 bytes".to_string());
                }
                let id: [u8; 32] = array_at(b.as_slice(), 0);
                assert(id@ =~= b@);
                Ok(PeerId(id))
            },
        }
    }

    /// The XOR distance.
    pub fn distance(&self, other: &PeerId) -> (dist: [u8; 32])
        ensures
            dist@ == xor_bytes(self@, other@),
    {
        let mut dist: [u8; 32] = [0u8; 32];
        let mut i: usize = 0;
        while i < 32
            invariant
                i <= 32,
                forall|j: int| 0 <= j < i ==> dist@[j] == self@[j] ^ other@[j],
            decreases 32 - i,
        {
            dist[i] = self.0[i] ^ other.0[i];
            i = i + 1;
        }
        assert(dist@ =~= xor_bytes(self@, other@));
        dist
    }

    /// The bucket that `other` falls in as seen from this identifier.
    pub fn bucket_index(&self, other: &PeerId) -> (index: usize)
        ensures
            index == bucket_of(self@, other@),
            index < 256,
    {
        let dist: [u8; 32] = self.distance(other);
        let mut i: usize = 0;
        assert(dist@.skip(0) =~= dist@);
        while i < 32 && dist[i] == 0
            invariant
                i <= 32,
                leading_zeros(dist@) == 8 * i + leading_zeros(dist@.skip(i as int)),
            decreases 32 - i,
        {
            assert(dist@.skip(i as int).drop_first() =~= dist@.skip(i + 1));
            assert(dist@.skip(i as int)[0] == dist@[i as int]);
            i = i + 1;
        }
        let bits: usize = if i < 32 {
            assert(dist@.skip(i as int)[0] == dist@[i as int]);
            8 * i + zeros_of(dist[i])
        } else {
            256
        };
        if bits < 255 {
            bits
        } else {
            255
        }
    }

    /// Whether this identifier comes before `other`, compared byte by byte.
    pub fn precedes(&self, other: &PeerId) -> (r: bool)
        ensures
            r == (bytes::be_nat(self@) < bytes::be_nat(other@)),
    {
        number_less(&self.0, &other.0)
    }
}

/// Whether the number that `a` denotes is below the one that `b` denotes: the
/// first byte in which they differ decides.
pub fn number_less(a: &[u8; 32], b: &[u8; 32]) -> (r: bool)
    ensures
        r == (bytes::be_nat(a@) < bytes::be_nat(b@)),
{
    let mut i: usize = 0;
    while i < 32 && a[i] == b[i]
        invariant
            i <= 32,
            forall|j: int| 0 <= j < i ==> a@[j] == b@[j],
        decreases 32 - i,
    {
        i = i + 1;
    }
    if i == 32 {
        assert(a@ =~= b@);
        return false;
    }
    let r: bool = a[i] < b[i];
    proof {
        if r {
            lemma_first_difference(a@, b@, i as int);
        } else {
            lemma_first_difference(b@, a@, i as int);
        }
    }
    r
}

/// Byte strings of equal length are ordered by the first byte in which they
/// differ.
pub proof fn lemma_first_difference(a: Seq<u8>, b: Seq<u8>, i: int)
    requires
        a.len() == b.len(),
        0 <= i < a.len(),
        forall|j: int| 0 <= j < i ==> a[j] == b[j],
        a[i] < b[i],
    ensures
        bytes::be_nat(a) < bytes::be_nat(b),
    decreases a.len(),
{
    if i == a.len() - 1 {
        assert(a.drop_last() =~= b.drop_last());
    } else {
        lemma_first_difference(a.drop_last(), b.drop_last(), i);
    }
}

/// Byte strings of equal length that denote the same number are equal.
pub proof fn lemma_be_nat_injective(a: Seq<u8>, b: Seq<u8>)
    requires
        a.len() == b.len(),
        bytes::be_nat(a) == bytes::be_nat(b),
    ensures
        a == b,
{
    bytes::lemma_be_bytes_of_nat(a);
    bytes::lemma_be_bytes_of_nat(b);
}

/// Only zero bytes denote zero.
pub proof fn lemma_be_nat_zero(a: Seq<u8>)
    ensures
        bytes::be_nat(a) == 0 <==> forall|i: int| 0 <= i < a.len() ==> a[i] == 0,
    decreases a.len(),
{
    if a.len() > 0 {
        lemma_be_nat_zero(a.drop_last());
        if bytes::be_nat(a) == 0 {
            assert forall|i: int| 0 <= i < a.len() implies a[i] == 0 by {
                if i < a.len() - 1 {
                    assert(a.drop_last()[i] == 0);
                }
            }
        }
    }
}

/// The distance is the same in both directions.
pub proof fn law_distance_symmetric(a: Seq<u8>, b: Seq<u8>)
    requires
        a.len() == b.len(),
    ensures
        xor_bytes(a, b) == xor_bytes(b, a),
        bucket_of(a, b) == bucket_of(b, a),
{
    assert forall|x: u8, y: u8| #[trigger] (x ^ y) == y ^ x by {
        assert(x ^ y == y ^ x) by (bit_vector);
    }
    assert(xor_bytes(a, b) =~= xor_bytes(b, a));
}

/// The distance is zero for equal identifiers and for no others.
pub proof fn law_distance_zero(a: Seq<u8>, b: Seq<u8>)
    requires
        a.len() == b.len(),
    ensures
        distance_nat(a, b) == 0 <==> a == b,
{
    lemma_be_nat_zero(xor_bytes(a, b));
    assert forall|x: u8, y: u8| (#[trigger] (x ^ y) == 0) == (x == y) by {
        assert((x ^ y == 0) == (x == y)) by (bit_vector);
    }
    if distance_nat(a, b) == 0 {
        assert forall|i: int| 0 <= i < a.len() implies a[i] == b[i] by {
            assert(xor_bytes(a, b)[i] == 0);
        }
        assert(a =~= b);
    }
}

/// From one identifier, different identifiers lie at different distances.
pub proof fn law_distance_unidirectional(a: Seq<u8>, b: Seq<u8>, c: Seq<u8>)
    requires
        a.len() == b.len(),
        a.len() == c.len(),
        distance_nat(b, a) == distance_nat(c, a),
    ensures
        b == c,
{
    lemma_be_nat_injective(xor_bytes(b, a), xor_bytes(c, a));
    assert forall|i: int| 0 <= i < a.len() implies b[i] == c[i] by {
        assert(xor_bytes(b, a)[i] == xor_bytes(c, a)[i]);
        let x = a[i];
        let y = b[i];
        let z = c[i];
        assert(y ^ x == z ^ x ==> y == z) by (bit_vector);
    }
    assert(b =~= c);
}

/// The exclusive or of two numbers is at most their sum.
proof fn lemma_xor_le_sum(a: Seq<u8>, b: Seq<u8>)
    requires
        a.len() == b.len(),
    ensures
        bytes::be_nat(xor_bytes(a, b)) <= bytes::be_nat(a) + bytes::be_nat(b),
    decreases a.len(),
{
    if a.len() > 0 {
        lemma_xor_le_sum(a.drop_last(), b.drop_last());
        assert(xor_bytes(a, b).drop_last() =~= xor_bytes(a.drop_last(), b.drop_last()));
        let x = a.last();
        let y = b.last();
        assert(x ^ y <= x + y) by (bit_vector);
        assert(xor_bytes(a, b).last() == x ^ y);
    }
}

/// The way over a third identifier is never shorter.
pub proof fn law_distance_triangle(a: Seq<u8>, b: Seq<u8>, c: Seq<u8>)
    requires
        a.len() == b.len(),
        a.len() == c.len(),
    ensures
        distance_nat(a, c) <= distance_nat(a, b) + distance_nat(b, c),
{
    let p = xor_bytes(a, b);
    let q = xor_bytes(b, c);
    lemma_xor_le_sum(p, q);
    assert forall|i: int| 0 <= i < a.len() implies #[trigger] xor_bytes(p, q)[i] == xor_bytes(
        a,
        c,
    )[i] by {
        let x = a[i];
        let y = b[i];
        let z = c[i];
        assert((x ^ y) ^ (y ^ z) == x ^ z) by (bit_vector);
    }
    assert(xor_bytes(p, q) =~= xor_bytes(a, c));
}

/// The first byte of a byte string weighs 256 to the number of bytes after it.
#[verifier::spinoff_prover]
proof fn lemma_be_nat_front(s: Seq<u8>)
    requires
        s.len() > 0,
    ensures
        bytes::be_nat(s) == s[0] * pow2((8 * (s.len() - 1)) as nat) + bytes::be_nat(s.drop_first()),
    decreases s.len(),
{
    let n = (s.len() - 1) as nat;
    if n == 0 {
        vstd::arithmetic::power2::lemma2_to64();
        assert(s.drop_last() =~= Seq::<u8>::empty());
        assert(s.drop_first() =~= Seq::<u8>::empty());
        assert(bytes::be_nat(s.drop_last()) == 0);
        assert(bytes::be_nat(s.drop_first()) == 0);
        let x = s[0] as int;
        assert(bytes::be_nat(s) == x);
        assert(x * 1 == x);
        assert(pow2(0) == 1);
        assert((8 * (s.len() - 1)) as nat == 0);
    } else {
        let front = s.drop_last();
        lemma_be_nat_front(front);
        assert(front.drop_first() =~= s.drop_first().drop_last());
        vstd::arithmetic::power2::lemma_pow2_adds((8 * (n - 1)) as nat, 8);
        vstd::arithmetic::power2::lemma2_to64();
        let p = pow2((8 * (n - 1)) as nat) as int;
        let x = s[0] as int;
        let y = bytes::be_nat(front.drop_first()) as int;
        assert(bytes::be_nat(front) == x * p + y);
        assert(bytes::be_nat(s.drop_first()) == y * 256 + s.last());
        assert(pow2((8 * n) as nat) == p * 256);
        assert((x * p + y) * 256 == x * (p * 256) + y * 256) by (nonlinear_arith);
        assert(bytes::be_nat(s) == (x * p + y) * 256 + s.last());
        assert(bytes::be_nat(s) == x * (p * 256) + bytes::be_nat(s.drop_first()));
    }
}

/// A byte string with `z` leading zero bits denotes a number of exactly so many
/// bits less.
proof fn lemma_leading_zeros_range(s: Seq<u8>)
    ensures
        leading_zeros(s) <= 8 * s.len(),
        bytes::be_nat(s) < pow2((8 * s.len() - leading_zeros(s)) as nat),
        leading_zeros(s) < 8 * s.len() ==> bytes::be_nat(s) >= pow2(
            (8 * s.len() - leading_zeros(s) - 1) as nat,
        ),
    decreases s.len(),
{
    vstd::arithmetic::power2::lemma2_to64();
    if s.len() > 0 {
        lemma_be_nat_front(s);
        let n = (s.len() - 1) as nat;
        let rest = s.drop_first();
        let p = pow2((8 * n) as nat) as int;
        lemma_leading_zeros_range(rest);
        if s[0] != 0 {
            let z = byte_leading_zeros(s[0]);
            let x = s[0] as int;
            let top = pow2((8 - z) as nat) as int;
            let bottom = pow2((7 - z) as nat) as int;
            vstd::arithmetic::power2::lemma_pow2_adds((8 * n) as nat, (8 - z) as nat);
            vstd::arithmetic::power2::lemma_pow2_adds((8 * n) as nat, (7 - z) as nat);
            assert(bottom <= x < top);
            assert(bytes::be_nat(rest) < p) by {
                lemma_be_nat_below(rest);
            }
            assert(x * p + p <= top * p) by (nonlinear_arith)
                requires
                    x + 1 <= top,
                    p >= 0,
            ;
            assert(x * p >= bottom * p) by (nonlinear_arith)
                requires
                    x >= bottom,
                    p >= 0,
            ;
            assert(top * p == p * top) by (nonlinear_arith);
            assert(bottom * p == p * bottom) by (nonlinear_arith);
        } else {
            assert(0 * p == 0);
        }
    }
}

/// A byte string denotes a number below two to its length in bits.
proof fn lemma_be_nat_below(s: Seq<u8>)
    ensures
        bytes::be_nat(s) < pow2((8 * s.len()) as nat),
    decreases s.len(),
{
    vstd::arithmetic::power2::lemma2_to64();
    if s.len() > 0 {
        lemma_be_nat_below(s.drop_last());
        vstd::arithmetic::power2::lemma_pow2_adds((8 * (s.len() - 1)) as nat, 8);
    }
}

/// Bucket `k` holds the identifiers at a distance from two to the `255 - k` up to
/// twice that. The last bucket holds the identifier itself besides.
pub proof fn law_bucket_range(a: Seq<u8>, b: Seq<u8>)
    requires
        a.len() == 32,
        b.len() == 32,
    ensures
        distance_nat(a, b) < pow2((256 - bucket_of(a, b)) as nat),
        a != b ==> distance_nat(a, b) >= pow2((255 - bucket_of(a, b)) as nat),
{
    let d = xor_bytes(a, b);
    lemma_leading_zeros_range(d);
    law_distance_zero(a, b);
    vstd::arithmetic::power2::lemma2_to64();
}

/// Reading the hexadecimal text of an identifier gives the identifier.
pub proof fn law_peer_id_hex_roundtrip(id: PeerId)
    ensures
        parsed_peer_id(hexadecimal::hex_text(id@)) == Ok::<Seq<u8>, Seq<char>>(id@),
{
    hexadecimal::law_hex_roundtrip(id@);
}

} // verus!
