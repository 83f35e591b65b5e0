//! Byte order and fixed-size pieces of byte slices.

use vstd::prelude::*;

verus! {

/// The `N` bytes of `data` from `from` on.
pub(crate) fn array_at<const N: usize>(data: &[u8], from: usize) -> (out: [u8; N])
    requires
        from + N <= data@.len(),
    ensures
        out@ == data@.subrange(from as int, from + N),
{
    let mut out: [u8; N] = [0u8; N];
    let len: usize = data.len();
    let mut i: usize = 0;
    while i < N
        invariant
            i <= N,
            from + N <= len == data@.len(),
            forall|j: int| 0 <= j < i ==> #[trigger] out@[j] == data@[from + j],
        decreases N - i,
    {
        out[i] = data[from + i];
        i = i + 1;
    }
    assert(out@ =~= data@.subrange(from as int, from + N));
    out
}

/// The number that the bytes of `s` write in big-endian order.
pub open spec fn be_value(s: Seq<u8>) -> nat
    decreases s.len(),
{
    if s.len() == 0 {
        0
    } else {
        256 * be_value(s.drop_last()) + s.last() as nat
    }
}

/// The last `width` big-endian bytes of `n`.
pub open spec fn be_bytes(n: nat, width: nat) -> Seq<u8>
    decreases width,
{
    if width == 0 {
        Seq::empty()
    } else {
        be_bytes(n / 256, (width - 1) as nat).push((n % 256) as u8)
    }
}

/// The number that the bytes of `s` write in little-endian order.
pub open spec fn le_value(s: Seq<u8>) -> nat
    decreases s.len(),
{
    if s.len() == 0 {
        0
    } else {
        s[0] as nat + 256 * le_value(s.drop_first())
    }
}

/// The little-endian value of two bytes.
pub proof fn lemma_le_value_2(s: Seq<u8>)
    requires
        s.len() == 2,
    ensures
        le_value(s) == s[0] + 256 * s[1],
{
    reveal_with_fuel(le_value, 3);
    assert(s.drop_first()[0] == s[1]);
}

/// The little-endian value of three bytes.
pub proof fn lemma_le_value_3(s: Seq<u8>)
    requires
        s.len() == 3,
    ensures
        le_value(s) == s[0] + 256 * s[1] + 65536 * s[2],
{
    lemma_le_value_2(s.drop_first());
}

/// The little-endian value of four bytes.
pub proof fn lemma_le_value_4(s: Seq<u8>)
    requires
        s.len() == 4,
    ensures
        le_value(s) == s[0] + 256 * s[1] + 65536 * s[2] + 16777216 * s[3],
{
    lemma_le_value_3(s.drop_first());
}

/// Whether `a` and `b` hold the same bytes.
pub(crate) fn same_bytes(a: &[u8], b: &[u8]) -> (same: bool)
    ensures
        same == (a@ == b@),
{
    if a.len() != b.len() {
        return false;
    }
    let mut i: usize = 0;
    while i < a.len()
        invariant
            a@.len() == b@.len(),
            i <= a@.len(),
            a@.take(i as int) =~= b@.take(i as int),
        decreases a@.len() - i,
    {
        if a[i] != b[i] {
            return false;
        }
        assert(a@.take(i + 1) =~= a@.take(i as int).push(a@[i as int]));
        assert(b@.take(i + 1) =~= b@.take(i as int).push(b@[i as int]));
        i = i + 1;
    }
    assert(a@.take(i as int) =~= a@);
    assert(b@.take(i as int) =~= b@);
    true
}

/// How many values `width` bytes have.
pub open spec fn pow256(width: nat) -> nat
    decreases width,
{
    if width == 0 {
        1
    } else {
        256 * pow256((width - 1) as nat)
    }
}

/// A number that fits into `width` bytes is read back from them.
pub proof fn lemma_be_round_trip(n: nat, width: nat)
    requires
        n < pow256(width),
    ensures
        be_bytes(n, width).len() == width,
        be_value(be_bytes(n, width)) == n,
    decreases width,
{
    if width > 0 {
        lemma_be_round_trip(n / 256, (width - 1) as nat);
        assert(be_bytes(n, width).drop_last() =~= be_bytes(n / 256, (width - 1) as nat));
    }
}

/// `width` bytes stay below the number of values that they have.
pub proof fn lemma_be_value_bound(s: Seq<u8>)
    ensures
        be_value(s) < pow256(s.len()),
    decreases s.len(),
{
    if s.len() > 0 {
        lemma_be_value_bound(s.drop_last());
    }
}

/// The values of two and of eight bytes.
pub proof fn lemma_pow256_values()
    ensures
        pow256(2) == 0x1_0000,
        pow256(8) == 0x1_0000_0000_0000_0000,
{
    reveal_with_fuel(pow256, 9);
}

/// More bytes have more values.
proof fn lemma_pow256_grows(a: nat, b: nat)
    requires
        a <= b,
    ensures
        pow256(a) <= pow256(b),
    decreases b,
{
    if a < b {
        lemma_pow256_grows(a, (b - 1) as nat);
    }
}

/// Appends the last `width` big-endian bytes of `n`.
pub(crate) fn push_be(out: &mut Vec<u8>, n: u64, width: usize)
    ensures
        final(out)@ == old(out)@ + be_bytes(n as nat, width as nat),
    decreases width,
{
    if width > 0 {
        push_be(out, n / 256, width - 1);
        out.push((n % 256) as u8);
    }
    assert(out@ =~= old(out)@ + be_bytes(n as nat, width as nat));
}

/// Reads `width` big-endian bytes from `from` on.
pub(crate) fn read_be(data: &[u8], from: usize, width: usize) -> (n: u64)
    requires
        width <= 8,
        from + width <= data@.len(),
    ensures
        n == be_value(data@.subrange(from as int, from + width)),
{
    let len: usize = data.len();
    let ghost all = data@.subrange(from as int, from + width);
    let mut n: u64 = 0;
    let mut i: usize = 0;
    while i < width
        invariant
            i <= width <= 8,
            from + width <= len == data@.len(),
            all == data@.subrange(from as int, from + width),
            n == be_value(all.take(i as int)),
        decreases width - i,
    {
        proof {
            let next = all.take(i + 1);
            assert(next.drop_last() =~= all.take(i as int));
            assert(next.last() == data@[from + i]);
            lemma_be_value_bound(next);
            lemma_pow256_grows((i + 1) as nat, 8);
            lemma_pow256_values();
        }
        n = 256 * n + data[from + i] as u64;
        i = i + 1;
    }
    assert(all.take(i as int) =~= all);
    n
}

/// Two big-endian bytes: the high one first.
pub proof fn law_two_bytes(n: nat)
    requires
        n < 65536,
    ensures
        be_bytes(n, 2) == seq![(n / 256) as u8, (n % 256) as u8],
{
    reveal_with_fuel(be_bytes, 3);
    assert(be_bytes(n, 2) =~= seq![(n / 256) as u8, (n % 256) as u8]);
}

/// The number that two big-endian bytes write.
pub proof fn law_two_bytes_value(s: Seq<u8>)
    requires
        s.len() == 2,
    ensures
        be_value(s) == 256 * s[0] + s[1],
{
    reveal_with_fuel(be_value, 3);
    assert(s.drop_last().last() == s[0]);
}

/// The number that eight big-endian bytes write.
pub proof fn law_eight_bytes_value(s: Seq<u8>)
    requires
        s.len() == 8,
    ensures
        be_value(s) == 0x100_0000_0000_0000 * s[0] + 0x1_0000_0000_0000 * s[1]
            + 0x100_0000_0000 * s[2] + 0x1_0000_0000 * s[3] + 0x100_0000 * s[4] + 0x1_0000 * s[5]
            + 0x100 * s[6] + s[7],
{
    reveal_with_fuel(be_value, 9);
    let s7 = s.drop_last();
    let s6 = s7.drop_last();
    let s5 = s6.drop_last();
    let s4 = s5.drop_last();
    let s3 = s4.drop_last();
    let s2 = s3.drop_last();
    assert(s7.last() == s[6] && s6.last() == s[5] && s5.last() == s[4] && s4.last() == s[3]
        && s3.last() == s[2] && s2.last() == s[1] && s2.drop_last().last() == s[0]);
}

} // verus!
