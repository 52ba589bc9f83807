//! Byte strings: little-endian lengths, numbers read from bytes, copies and
//! comparison.
use vstd::prelude::*;

verus! {

/// The two little-endian bytes of `n` modulo 2^16.
pub open spec fn le16(n: nat) -> Seq<u8> {
    seq![(n % 256) as u8, (n / 256 % 256) as u8]
}

/// The four little-endian bytes of `n` modulo 2^32.
pub open spec fn le32(n: nat) -> Seq<u8> {
    seq![
        (n % 256) as u8,
        (n / 256 % 256) as u8,
        (n / 65536 % 256) as u8,
        (n / 16777216 % 256) as u8,
    ]
}

/// The number whose little-endian bytes are `bytes`.
pub open spec fn le_value(bytes: Seq<u8>) -> nat
    decreases bytes.len(),
{
    if bytes.len() == 0 {
        0
    } else {
        bytes[0] as nat + 256 * le_value(bytes.skip(1))
    }
}

/// The first `len` little-endian bytes of `n`.
pub open spec fn le_bytes(n: nat, len: nat) -> Seq<u8>
    decreases len,
{
    if len == 0 {
        Seq::empty()
    } else {
        seq![(n % 256) as u8] + le_bytes(n / 256, (len - 1) as nat)
    }
}

/// The number whose big-endian bytes are `bytes`.
pub open spec fn be_value(bytes: Seq<u8>) -> nat
    decreases bytes.len(),
{
    if bytes.len() == 0 {
        0
    } else {
        256 * be_value(bytes.drop_last()) + bytes.last() as nat
    }
}

/// The last `len` big-endian bytes of `n`.
pub open spec fn be_bytes(n: nat, len: nat) -> Seq<u8>
    decreases len,
{
    if len == 0 {
        Seq::empty()
    } else {
        be_bytes(n / 256, (len - 1) as nat).push((n % 256) as u8)
    }
}

/// Bytes are the encoding of the number they hold.
pub proof fn lemma_be_bytes_of_value(bytes: Seq<u8>)
    ensures
        be_bytes(be_value(bytes), bytes.len()) == bytes,
    decreases bytes.len(),
{
    if bytes.len() > 0 {
        lemma_be_bytes_of_value(bytes.drop_last());
        let n = be_value(bytes);
        assert(n / 256 == be_value(bytes.drop_last()));
        assert(n % 256 == bytes.last());
        assert(bytes.drop_last().push(bytes.last()) =~= bytes);
    }
}

/// A two-byte length reads back as written.
pub proof fn lemma_le16_value(n: nat)
    requires
        n < 65536,
    ensures
        le_value(le16(n)) == n,
{
    reveal_with_fuel(le_value, 3);
    let b = le16(n);
    assert(b.skip(1) =~= seq![b[1]]);
    assert(b.skip(1).skip(1) =~= Seq::<u8>::empty());
}

/// A four-byte length reads back as written.
pub proof fn lemma_le32_value(n: nat)
    requires
        n < 0x1_0000_0000,
    ensures
        le_value(le32(n)) == n,
{
    reveal_with_fuel(le_value, 5);
    let b = le32(n);
    assert(b.skip(1) =~= seq![b[1], b[2], b[3]]);
    assert(b.skip(1).skip(1) =~= seq![b[2], b[3]]);
    assert(b.skip(1).skip(1).skip(1) =~= seq![b[3]]);
    assert(b.skip(1).skip(1).skip(1).skip(1) =~= Seq::<u8>::empty());
}

/// Two bytes are the encoding of the number they hold.
pub proof fn lemma_le16_of_value(b: Seq<u8>)
    requires
        b.len() == 2,
    ensures
        le_value(b) == b[0] + 256 * b[1],
        le16(le_value(b)) == b,
        le_value(b) < 65536,
{
    reveal_with_fuel(le_value, 3);
    assert(b.skip(1) =~= seq![b[1]]);
    assert(b.skip(1).skip(1) =~= Seq::<u8>::empty());
    assert(le16(le_value(b)) =~= b);
}

/// Four bytes are the encoding of the number they hold.
pub proof fn lemma_le32_of_value(b: Seq<u8>)
    requires
        b.len() == 4,
    ensures
        le_value(b) == b[0] + 256 * b[1] + 65536 * b[2] + 16777216 * b[3],
        le32(le_value(b)) == b,
        le_value(b) < 0x1_0000_0000,
{
    reveal_with_fuel(le_value, 5);
    assert(b.skip(1) =~= seq![b[1], b[2], b[3]]);
    assert(b.skip(1).skip(1) =~= seq![b[2], b[3]]);
    assert(b.skip(1).skip(1).skip(1) =~= seq![b[3]]);
    assert(b.skip(1).skip(1).skip(1).skip(1) =~= Seq::<u8>::empty());
    assert(le32(le_value(b)) =~= b);
}

/// What bytes stand for: a byte in front counts once and the rest 256 times if
/// they are read little-endian, a byte behind counts once and the rest 256 times
/// if they are read big-endian; no bytes stand for zero.
pub proof fn bytes_stand_for_numbers(byte: u8, rest: Seq<u8>)
    ensures
        le_value(Seq::empty()) == 0,
        be_value(Seq::empty()) == 0,
        le_value(seq![byte] + rest) == byte + 256 * le_value(rest),
        be_value(rest.push(byte)) == 256 * be_value(rest) + byte,
{
    assert((seq![byte] + rest).skip(1) =~= rest);
    assert(rest.push(byte).drop_last() =~= rest);
}

/// The bytes of a number that they have room for stand for the number.
pub proof fn numbers_have_their_bytes(n: nat, len: nat, bound: nat)
    requires
        bound == vstd::arithmetic::power::pow(256, len),
        n < bound,
    ensures
        le_bytes(n, len).len() == len,
        le_value(le_bytes(n, len)) == n,
        be_bytes(n, len).len() == len,
        be_value(be_bytes(n, len)) == n,
    decreases len,
{
    vstd::arithmetic::power::lemma_pow0(256);
    if len > 0 {
        let fewer = (len - 1) as nat;
        let part = vstd::arithmetic::power::pow(256, fewer);
        assert(bound == 256 * part) by {
            reveal(vstd::arithmetic::power::pow);
        }
        vstd::arithmetic::power::lemma_pow_positive(256, fewer);
        numbers_have_their_bytes(n / 256, fewer, part as nat);
        bytes_stand_for_numbers((n % 256) as u8, le_bytes(n / 256, fewer));
        bytes_stand_for_numbers((n % 256) as u8, be_bytes(n / 256, fewer));
    }
}

/// A two-byte length holds the low 16 bits, a four-byte length the low 32, the
/// lowest byte first.
pub proof fn lengths_are_little_endian(n: nat)
    ensures
        le16(n).len() == 2,
        le16(n)[0] + 256 * le16(n)[1] == n % 65536,
        le32(n).len() == 4,
        le32(n)[0] + 256 * le32(n)[1] + 65536 * le32(n)[2] + 16777216 * le32(n)[3] == n
            % 0x1_0000_0000,
{
    let second = n / 256;
    let third = second / 256;
    let fourth = third / 256;
    assert(n == 256 * second + n % 256);
    assert(second == 256 * third + second % 256);
    assert(third == 256 * fourth + third % 256);
    assert(fourth == 256 * (fourth / 256) + fourth % 256);
    assert(n / 65536 == third);
    assert(n / 16777216 == fourth);
}

/// Appends the low two bytes of `n`, little-endian.
pub fn push_le16(out: &mut Vec<u8>, n: usize)
    ensures
        final(out)@ == old(out)@ + le16(n as nat),
{
    out.push((n % 256) as u8);
    out.push((n / 256 % 256) as u8);
    assert(out@ =~= old(out)@ + le16(n as nat));
}

/// Appends the low four bytes of `n`, little-endian.
pub fn push_le32(out: &mut Vec<u8>, n: usize)
    ensures
        final(out)@ == old(out)@ + le32(n as nat),
{
    out.push((n % 256) as u8);
    out.push((n / 256 % 256) as u8);
    out.push((n / 65536 % 256) as u8);
    out.push((n / 16777216 % 256) as u8);
    assert(out@ =~= old(out)@ + le32(n as nat));
}

/// Reads two little-endian bytes at `start`.
pub fn read_le16(bytes: &[u8], start: usize) -> (n: usize)
    requires
        start + 2 <= bytes@.len(),
    ensures
        n == le_value(bytes@.subrange(start as int, start + 2)),
        n < 65536,
{
    proof {
        lemma_le16_of_value(bytes@.subrange(start as int, start + 2));
    }
    bytes[start] as usize + 256 * (bytes[start + 1] as usize)
}

/// Reads four little-endian bytes at `start`.
pub fn read_le32(bytes: &[u8], start: usize) -> (n: usize)
    requires
        start + 4 <= bytes@.len(),
    ensures
        n == le_value(bytes@.subrange(start as int, start + 4)),
        n < 0x1_0000_0000,
{
    proof {
        lemma_le32_of_value(bytes@.subrange(start as int, start + 4));
    }
    bytes[start] as usize + 256 * (bytes[start + 1] as usize) + 65536 * (bytes[start + 2] as usize)
        + 16777216 * (bytes[start + 3] as usize)
}

/// An array that begins with the first `i` of the bytes.
spec fn array_up_to<const N: usize>(bytes: Seq<u8>, i: nat) -> [u8; N]
    decreases i,
{
    if i == 0 {
        vstd::array::spec_array_fill_for_copy_type(0u8)
    } else {
        vstd::array::spec_array_update(
            array_up_to(bytes, (i - 1) as nat),
            i - 1,
            bytes[i - 1],
        )
    }
}

/// The array of the bytes.
pub closed spec fn array_of<const N: usize>(bytes: Seq<u8>) -> [u8; N] {
    array_up_to(bytes, N as nat)
}

proof fn lemma_array_up_to<const N: usize>(bytes: Seq<u8>, i: nat)
    requires
        i <= N,
    ensures
        forall|j: int| 0 <= j < i ==> #[trigger] array_up_to::<N>(bytes, i)@[j] == bytes[j],
    decreases i,
{
    if i > 0 {
        lemma_array_up_to::<N>(bytes, (i - 1) as nat);
        let before = array_up_to::<N>(bytes, (i - 1) as nat);
        assert(array_up_to::<N>(bytes, i)@ == before@.update(i - 1, bytes[i - 1]));
    }
}

/// The array of as many bytes as it has places holds these bytes.
pub proof fn lemma_array_of<const N: usize>(bytes: Seq<u8>)
    requires
        bytes.len() == N,
    ensures
        array_of::<N>(bytes)@ == bytes,
{
    lemma_array_up_to::<N>(bytes, N as nat);
    assert(array_of::<N>(bytes)@ =~= bytes);
}

/// Copies `N` bytes from `start` into an array.
pub fn array_at<const N: usize>(bytes: &[u8], start: usize) -> (out: [u8; N])
    requires
        start + N <= bytes@.len(),
    ensures
        out@ == bytes@.subrange(start as int, start + N),
{
    let mut out: [u8; N] = [0u8; N];
    let mut i: usize = 0;
    while i < N
        invariant
            i <= N,
            start + N <= bytes.len(),
            forall|j: int| 0 <= j < i ==> out@[j] == bytes@[start + j],
        decreases N - i,
    {
        out[i] = bytes[start + i];
        i += 1;
    }
    assert(out@ =~= bytes@.subrange(start as int, start + N));
    out
}

/// Copies the bytes from `start` up to `end`.
pub fn vec_at(bytes: &[u8], start: usize, end: usize) -> (out: Vec<u8>)
    requires
        start <= end <= bytes@.len(),
    ensures
        out@ == bytes@.subrange(start as int, end as int),
{
    vstd::slice::slice_to_vec(vstd::slice::slice_subrange(bytes, start, end))
}

/// Whether two byte strings are the same.
pub fn same_bytes(a: &[u8], b: &[u8]) -> (same: bool)
    ensures
        same == (a@ == b@),
{
    if a.len() != b.len() {
        return false;
    }
    let mut i: usize = 0;
    while i < a.len()
        invariant
            i <= a@.len(),
            a@.len() == b@.len(),
            forall|j: int| 0 <= j < i ==> a@[j] == b@[j],
        decreases a.len() - i,
    {
        if a[i] != b[i] {
            return false;
        }
        i += 1;
    }
    assert(a@ =~= b@);
    true
}

} // verus!
