//! Big-endian integers and fixed-size fields inside byte strings.
use vstd::arithmetic::power::*;
use vstd::prelude::*;

verus! {

/// The number that a byte string denotes, most significant byte first.
pub open spec fn be_nat(s: Seq<u8>) -> nat
    decreases s.len(),
{
    if s.len() == 0 {
        0
    } else {
        be_nat(s.drop_last()) * 256 + s.last() as nat
    }
}

/// The `n` low-order bytes of `v`, most significant byte first.
pub open spec fn be_bytes(v: nat, n: nat) -> Seq<u8>
    decreases n,
{
    if n == 0 {
        Seq::empty()
    } else {
        be_bytes(v / 256, (n - 1) as nat).push((v % 256) as u8)
    }
}

pub proof fn lemma_be_bytes_len(v: nat, n: nat)
    ensures
        be_bytes(v, n).len() == n,
    decreases n,
{
    if n > 0 {
        lemma_be_bytes_len(v / 256, (n - 1) as nat);
    }
}

/// A byte string of length `n` denotes a number below `256^n`.
pub proof fn lemma_be_nat_bound(s: Seq<u8>)
    ensures
        be_nat(s) < pow(256, s.len()),
    decreases s.len(),
{
    reveal(pow);
    if s.len() > 0 {
        lemma_be_nat_bound(s.drop_last());
        assert(pow(256, s.len()) == 256 * pow(256, (s.len() - 1) as nat));
    }
}

/// Reading back the bytes of a number that fits gives the number.
pub proof fn lemma_be_nat_of_bytes(v: nat, n: nat)
    requires
        v < pow(256, n),
    ensures
        be_bytes(v, n).len() == n,
        be_nat(be_bytes(v, n)) == v,
    decreases n,
{
    reveal(pow);
    lemma_be_bytes_len(v, n);
    if n > 0 {
        assert(pow(256, n) == 256 * pow(256, (n - 1) as nat));
        lemma_be_nat_of_bytes(v / 256, (n - 1) as nat);
        assert(be_bytes(v, n).drop_last() == be_bytes(v / 256, (n - 1) as nat));
    }
}

/// Writing the number that a byte string denotes gives the byte string.
pub proof fn lemma_be_bytes_of_nat(s: Seq<u8>)
    ensures
        be_bytes(be_nat(s), s.len()) == s,
    decreases s.len(),
{
    if s.len() > 0 {
        lemma_be_bytes_of_nat(s.drop_last());
        assert(be_nat(s) / 256 == be_nat(s.drop_last()));
        assert(be_nat(s) % 256 == s.last() as nat);
        assert(s.drop_last().push(s.last()) == s);
    } else {
        assert(be_bytes(be_nat(s), s.len()) =~= s);
    }
}

/// The powers of 256 that the field widths of the wire formats need.
pub proof fn lemma_pow256()
    ensures
        pow(256, 1) == 0x100,
        pow(256, 2) == 0x1_0000,
        pow(256, 3) == 0x100_0000,
        pow(256, 4) == 0x1_0000_0000,
        pow(256, 8) == 0x1_0000_0000_0000_0000,
{
    reveal_with_fuel(pow, 9);
    assert(pow(256, 4) == 0x1_0000_0000);
    assert(pow(256, 8) == 0x1_0000_0000_0000_0000);
}

/// `be_nat` of a string of one to four bytes, written out.
pub proof fn lemma_be_nat_small(s: Seq<u8>)
    ensures
        s.len() == 1 ==> be_nat(s) == s[0],
        s.len() == 2 ==> be_nat(s) == s[0] * 0x100 + s[1],
        s.len() == 3 ==> be_nat(s) == s[0] * 0x1_0000 + s[1] * 0x100 + s[2],
        s.len() == 4 ==> be_nat(s) == s[0] * 0x100_0000 + s[1] * 0x1_0000 + s[2] * 0x100 + s[3],
{
    reveal_with_fuel(be_nat, 5);
}

/// `be_nat` of a string of eight bytes, written out.
pub proof fn lemma_be_nat_8(s: Seq<u8>)
    requires
        s.len() == 8,
    ensures
        be_nat(s) == s[0] * 0x100_0000_0000_0000 + s[1] * 0x1_0000_0000_0000 + s[2]
            * 0x100_0000_0000 + s[3] * 0x1_0000_0000 + s[4] * 0x100_0000 + s[5] * 0x1_0000 + s[6]
            * 0x100 + s[7],
{
    reveal_with_fuel(be_nat, 9);
}

/// `be_bytes` of one to four bytes, written out.
pub proof fn lemma_be_bytes_small(v: nat)
    ensures
        be_bytes(v, 1) == seq![(v % 256) as u8],
        be_bytes(v, 2) == seq![(v / 0x100 % 256) as u8, (v % 256) as u8],
        be_bytes(v, 3) == seq![
            (v / 0x1_0000 % 256) as u8,
            (v / 0x100 % 256) as u8,
            (v % 256) as u8,
        ],
        be_bytes(v, 4) == seq![
            (v / 0x100_0000 % 256) as u8,
            (v / 0x1_0000 % 256) as u8,
            (v / 0x100 % 256) as u8,
            (v % 256) as u8,
        ],
{
    reveal_with_fuel(be_bytes, 5);
    assert(v / 256 / 256 == v / 0x1_0000);
    assert(v / 256 / 256 / 256 == v / 0x100_0000);
    assert(be_bytes(v, 1) =~= seq![(v % 256) as u8]);
    assert(be_bytes(v, 2) =~= seq![(v / 0x100 % 256) as u8, (v % 256) as u8]);
    assert(be_bytes(v, 3) =~= seq![
        (v / 0x1_0000 % 256) as u8,
        (v / 0x100 % 256) as u8,
        (v % 256) as u8,
    ]);
    assert(be_bytes(v, 4) =~= seq![
        (v / 0x100_0000 % 256) as u8,
        (v / 0x1_0000 % 256) as u8,
        (v / 0x100 % 256) as u8,
        (v % 256) as u8,
    ]);
}

/// `be_bytes` of eight bytes, written out.
pub proof fn lemma_be_bytes_8(v: nat)
    ensures
        be_bytes(v, 8) == seq![
            (v / 0x100_0000_0000_0000 % 256) as u8,
            (v / 0x1_0000_0000_0000 % 256) as u8,
            (v / 0x100_0000_0000 % 256) as u8,
            (v / 0x1_0000_0000 % 256) as u8,
            (v / 0x100_0000 % 256) as u8,
            (v / 0x1_0000 % 256) as u8,
            (v / 0x100 % 256) as u8,
            (v % 256) as u8,
        ],
{
    let w: nat = v / 0x1_0000_0000;
    lemma_be_bytes_small(w);
    reveal_with_fuel(be_bytes, 5);
    assert(be_bytes(v, 8) == be_bytes(v / 256 / 256 / 256 / 256, 4).push(
        (v / 256 / 256 / 256 % 256) as u8,
    ).push((v / 256 / 256 % 256) as u8).push((v / 256 % 256) as u8).push((v % 256) as u8));
    assert(v / 256 / 256 / 256 / 256 == w);
    assert(v / 256 / 256 == v / 0x1_0000);
    assert(v / 256 / 256 / 256 == v / 0x100_0000);
    assert(w / 0x100 == v / 0x100_0000_0000);
    assert(w / 0x1_0000 == v / 0x1_0000_0000_0000);
    assert(w / 0x100_0000 == v / 0x100_0000_0000_0000);
    assert(be_bytes(v, 8) =~= seq![
        (v / 0x100_0000_0000_0000 % 256) as u8,
        (v / 0x1_0000_0000_0000 % 256) as u8,
        (v / 0x100_0000_0000 % 256) as u8,
        (v / 0x1_0000_0000 % 256) as u8,
        (v / 0x100_0000 % 256) as u8,
        (v / 0x1_0000 % 256) as u8,
        (v / 0x100 % 256) as u8,
        (v % 256) as u8,
    ]);
}

/// The low-order bytes of `q * 2^24 + r` are those of `r`.
proof fn lemma_low_bytes(q: nat, r: nat)
    requires
        r < 0x100_0000,
    ensures
        ({
            let v = q * 0x100_0000 + r;
            &&& v % 256 == r % 256
            &&& v / 0x100 % 256 == r / 0x100 % 256
            &&& v / 0x1_0000 % 256 == r / 0x1_0000 % 256
        }),
{
    let v = q * 0x100_0000 + r;
    assert(v / 0x100 == q * 0x1_0000 + r / 0x100);
    assert(v / 0x1_0000 == q * 0x100 + r / 0x1_0000);
}

/// The low-order bytes of a number do not depend on what lies above them.
pub proof fn lemma_be_bytes_mod(v: nat)
    ensures
        be_bytes(v % 0x1_0000, 2) == be_bytes(v, 2),
        be_bytes(v % 0x100_0000, 3) == be_bytes(v, 3),
{
    let r = v % 0x100_0000;
    let t = v % 0x1_0000;
    lemma_low_bytes(v / 0x100_0000, r);
    assert(v == v / 0x100_0000 * 0x100_0000 + r);
    lemma_be_bytes_small(v);
    lemma_be_bytes_small(r);
    lemma_be_bytes_small(t);
    assert(be_bytes(r, 3) =~= be_bytes(v, 3));
    assert(t / 0x100 % 256 == v / 0x100 % 256) by {
        assert(v == v / 0x1_0000 * 0x1_0000 + t);
        assert(v / 0x100 == v / 0x1_0000 * 0x100 + t / 0x100);
    }
    assert(t % 256 == v % 256);
    assert(be_bytes(t, 2) =~= be_bytes(v, 2));
}

/// Appends `v` in two bytes.
pub fn push_u16(buf: &mut Vec<u8>, v: u16)
    ensures
        final(buf)@ == old(buf)@ + be_bytes(v as nat, 2),
{
    proof {
        lemma_be_bytes_small(v as nat);
    }
    buf.push((v / 0x100) as u8);
    buf.push((v % 0x100) as u8);
    assert(buf@ =~= old(buf)@ + be_bytes(v as nat, 2));
}

/// Appends the low-order 24 bits of `v` in three bytes.
pub fn push_u24(buf: &mut Vec<u8>, v: u32)
    ensures
        final(buf)@ == old(buf)@ + be_bytes(v as nat, 3),
{
    proof {
        lemma_be_bytes_small(v as nat);
    }
    buf.push((v / 0x1_0000 % 0x100) as u8);
    buf.push((v / 0x100 % 0x100) as u8);
    buf.push((v % 0x100) as u8);
    assert(buf@ =~= old(buf)@ + be_bytes(v as nat, 3));
}

/// Appends `v` in four bytes.
pub fn push_u32(buf: &mut Vec<u8>, v: u32)
    ensures
        final(buf)@ == old(buf)@ + be_bytes(v as nat, 4),
{
    proof {
        lemma_be_bytes_small(v as nat);
    }
    buf.push((v / 0x100_0000) as u8);
    buf.push((v / 0x1_0000 % 0x100) as u8);
    buf.push((v / 0x100 % 0x100) as u8);
    buf.push((v % 0x100) as u8);
    assert(buf@ =~= old(buf)@ + be_bytes(v as nat, 4));
}

/// Appends `v` in eight bytes.
pub fn push_u64(buf: &mut Vec<u8>, v: u64)
    ensures
        final(buf)@ == old(buf)@ + be_bytes(v as nat, 8),
{
    proof {
        lemma_be_bytes_8(v as nat);
    }
    buf.push((v / 0x100_0000_0000_0000) as u8);
    buf.push((v / 0x1_0000_0000_0000 % 0x100) as u8);
    buf.push((v / 0x100_0000_0000 % 0x100) as u8);
    buf.push((v / 0x1_0000_0000 % 0x100) as u8);
    buf.push((v / 0x100_0000 % 0x100) as u8);
    buf.push((v / 0x1_0000 % 0x100) as u8);
    buf.push((v / 0x100 % 0x100) as u8);
    buf.push((v % 0x100) as u8);
    assert(buf@ =~= old(buf)@ + be_bytes(v as nat, 8));
}

/// The two-byte integer at offset `at`.
pub fn read_u16(data: &[u8], at: usize) -> (v: u16)
    requires
        at + 2 <= data@.len(),
    ensures
        v as nat == be_nat(data@.subrange(at as int, at + 2)),
{
    proof {
        lemma_be_nat_small(data@.subrange(at as int, at + 2));
    }
    data[at] as u16 * 0x100 + data[at + 1] as u16
}

/// The three-byte integer at offset `at`.
pub fn read_u24(data: &[u8], at: usize) -> (v: u32)
    requires
        at + 3 <= data@.len(),
    ensures
        v as nat == be_nat(data@.subrange(at as int, at + 3)),
        v < 0x100_0000,
{
    proof {
        lemma_be_nat_small(data@.subrange(at as int, at + 3));
    }
    data[at] as u32 * 0x1_0000 + data[at + 1] as u32 * 0x100 + data[at + 2] as u32
}

/// The four-byte integer at offset `at`.
pub fn read_u32(data: &[u8], at: usize) -> (v: u32)
    requires
        at + 4 <= data@.len(),
    ensures
        v as nat == be_nat(data@.subrange(at as int, at + 4)),
{
    proof {
        lemma_be_nat_small(data@.subrange(at as int, at + 4));
    }
    data[at] as u32 * 0x100_0000 + data[at + 1] as u32 * 0x1_0000 + data[at + 2] as u32 * 0x100
        + data[at + 3] as u32
}

/// The eight-byte integer at offset `at`.
pub fn read_u64(data: &[u8], at: usize) -> (v: u64)
    requires
        at + 8 <= data@.len(),
    ensures
        v as nat == be_nat(data@.subrange(at as int, at + 8)),
{
    proof {
        lemma_be_nat_8(data@.subrange(at as int, at + 8));
    }
    data[at] as u64 * 0x100_0000_0000_0000 + data[at + 1] as u64 * 0x1_0000_0000_0000 + data[at
        + 2] as u64 * 0x100_0000_0000 + data[at + 3] as u64 * 0x1_0000_0000 + data[at + 4] as u64
        * 0x100_0000 + data[at + 5] as u64 * 0x1_0000 + data[at + 6] as u64 * 0x100 + data[at
        + 7] as u64
}

/// Appends `data` to `buf`.
pub fn push_bytes(buf: &mut Vec<u8>, data: &[u8])
    ensures
        final(buf)@ == old(buf)@ + data@,
{
    buf.extend_from_slice(data);
}

/// The bytes `from..to` of `data`, copied.
pub fn copy_range(data: &[u8], from: usize, to: usize) -> (out: Vec<u8>)
    requires
        from <= to <= data@.len(),
    ensures
        out@ == data@.subrange(from as int, to as int),
{
    let mut out: Vec<u8> = Vec::with_capacity(to - from);
    let mut i: usize = from;
    while i < to
        invariant
            from <= i <= to <= data@.len(),
            out@ == data@.subrange(from as int, i as int),
        decreases to - i,
    {
        out.push(data[i]);
        i = i + 1;
    }
    out
}

/// The `N` bytes of `data` from offset `at` on.
pub fn array_at<const N: usize>(data: &[u8], at: usize) -> (out: [u8; N])
    requires
        at + N <= data@.len(),
    ensures
        out@ == data@.subrange(at as int, at + N),
{
    let len: usize = data.len();
    let mut out: [u8; N] = [0u8; N];
    let mut i: usize = 0;
    while i < N
        invariant
            i <= N,
            at + N <= data@.len(),
            len == data@.len(),
            out@.len() == N,
            forall|j: int| 0 <= j < i ==> out@[j] == data@[at + j],
        decreases N - i,
    {
        out[i] = data[at + i];
        i = i + 1;
    }
    assert(out@ =~= data@.subrange(at as int, at + N));
    out
}

/// Whether two byte strings are equal.
pub fn bytes_equal(a: &[u8], b: &[u8]) -> (r: bool)
    ensures
        r == (a@ == b@),
{
    if a.len() != b.len() {
        return false;
    }
    let mut i: usize = 0;
    while i < a.len()
        invariant
            i <= a@.len(),
            a@.len() == b@.len(),
            forall|j: int| 0 <= j < i ==> a@[j] == b@[j],
        decreases a@.len() - i,
    {
        if a[i] != b[i] {
            return false;
        }
        i = i + 1;
    }
    assert(a@ =~= b@);
    true
}

/// Whether every byte is zero.
pub fn all_zero(a: &[u8]) -> (r: bool)
    ensures
        r == (forall|i: int| 0 <= i < a@.len() ==> a@[i] == 0),
{
    let mut i: usize = 0;
    while i < a.len()
        invariant
            i <= a@.len(),
            forall|j: int| 0 <= j < i ==> a@[j] == 0,
        decreases a@.len() - i,
    {
        if a[i] != 0 {
            return false;
        }
        i = i + 1;
    }
    true
}

/// There is an array that starts with the first bytes of a byte string.
proof fn lemma_array_prefix<const N: usize>(s: Seq<u8>, n: int) -> (a: [u8; N])
    requires
        s.len() == N,
        0 <= n <= N,
    ensures
        forall|i: int| 0 <= i < n ==> #[trigger] a@[i] == s[i],
    decreases n,
{
    if n == 0 {
        arbitrary()
    } else {
        let b: [u8; N] = lemma_array_prefix(s, n - 1);
        let c: [u8; N] = vstd::array::spec_array_update(b, n - 1, s[n - 1]);
        assert(c@ == b@.update(n - 1, s[n - 1]));
        c
    }
}

/// There is an array of the bytes of any byte string that is as long.
pub proof fn lemma_array_of<const N: usize>(s: Seq<u8>) -> (a: [u8; N])
    requires
        s.len() == N,
    ensures
        a@ == s,
{
    let a: [u8; N] = lemma_array_prefix(s, N as int);
    assert(a@ =~= s);
    a
}

} // verus!
