//! Little-endian byte encodings of integers.

use vstd::prelude::*;

verus! {

/// The low `n` bytes of `x`, least significant first.
pub open spec fn le_bytes(x: nat, n: nat) -> Seq<u8>
    decreases n,
{
    if n == 0 {
        Seq::empty()
    } else {
        seq![(x % 256) as u8] + le_bytes(x / 256, (n - 1) as nat)
    }
}

/// The integer whose bytes are `b`, least significant first.
pub open spec fn le_value(b: Seq<u8>) -> nat
    decreases b.len(),
{
    if b.len() == 0 {
        0
    } else {
        b[0] as nat + 256 * le_value(b.drop_first())
    }
}

/// The two's complement of a signed integer of 128 bits, read as unsigned.
pub open spec fn twos_complement(x: i128) -> nat {
    if x >= 0 {
        x as nat
    } else {
        (x + 0x1_0000_0000_0000_0000_0000_0000_0000_0000) as nat
    }
}

/// 256 to the `n`.
pub open spec fn byte_range(n: nat) -> nat
    decreases n,
{
    if n == 0 {
        1
    } else {
        256 * byte_range((n - 1) as nat)
    }
}

pub(crate) proof fn lemma_byte_ranges()
    ensures
        byte_range(4) == 0x1_0000_0000,
        byte_range(8) == 0x1_0000_0000_0000_0000,
        byte_range(16) == 0x1_0000_0000_0000_0000_0000_0000_0000_0000,
{
    reveal_with_fuel(byte_range, 17);
}

pub(crate) proof fn lemma_le_bytes_len(x: nat, n: nat)
    ensures
        le_bytes(x, n).len() == n,
    decreases n,
{
    if n > 0 {
        lemma_le_bytes_len(x / 256, (n - 1) as nat);
    }
}

/// Reading back what was encoded gives the integer, where it fits.
pub proof fn le_value_of_le_bytes(x: nat, n: nat)
    requires
        x < byte_range(n),
    ensures
        le_value(le_bytes(x, n)) == x,
    decreases n,
{
    if n > 0 {
        lemma_le_bytes_len(x, n);
        le_value_of_le_bytes(x / 256, (n - 1) as nat);
        assert(le_bytes(x, n).drop_first() =~= le_bytes(x / 256, (n - 1) as nat));
    }
}

/// Encoding what was read back gives the bytes.
pub proof fn le_bytes_of_le_value(b: Seq<u8>)
    ensures
        le_bytes(le_value(b), b.len()) == b,
        le_value(b) < byte_range(b.len()),
    decreases b.len(),
{
    if b.len() > 0 {
        le_bytes_of_le_value(b.drop_first());
        let rest = le_value(b.drop_first());
        assert(le_value(b) % 256 == b[0]);
        assert(le_value(b) / 256 == rest);
        assert(le_bytes(le_value(b), b.len()) =~= b);
    }
}

/// Writes the low `n` bytes of `x` at `off`, least significant first.
pub fn write_le(buf: &mut [u8], off: usize, n: usize, x: u128)
    requires
        off + n <= old(buf)@.len(),
    ensures
        final(buf)@ == old(buf)@.subrange(0, off as int) + le_bytes(x as nat, n as nat) + old(
            buf,
        )@.subrange(off + n, old(buf)@.len() as int),
{
    let ghost start = buf@;
    let mut rest: u128 = x;
    let mut i: usize = 0;
    proof {
        lemma_le_bytes_len(x as nat, n as nat);
    }
    while i < n
        invariant
            i <= n,
            off + n <= start.len(),
            buf@.len() == start.len(),
            le_bytes(x as nat, n as nat).len() == n,
            forall|j: int| 0 <= j < start.len() && !(off <= j < off + i) ==> buf@[j] == start[j],
            buf@.subrange(off as int, off + i) + le_bytes(rest as nat, (n - i) as nat) == le_bytes(
                x as nat,
                n as nat,
            ),
        decreases n - i,
    {
        let b: u8 = (rest % 256) as u8;
        let ghost before = buf@;
        assert(off + i < buf.len());
        buf[off + i] = b;
        proof {
            assert(buf@.subrange(off as int, off + i + 1) =~= before.subrange(off as int, off + i)
                + seq![b]);
            let tail = le_bytes((rest / 256) as nat, (n - i - 1) as nat);
            assert(le_bytes(rest as nat, (n - i) as nat) == seq![b] + tail);
            assert(buf@.subrange(off as int, off + i + 1) + tail =~= before.subrange(
                off as int,
                off + i,
            ) + (seq![b] + tail));
        }
        rest = rest / 256;
        i = i + 1;
    }
    assert(buf@.subrange(off as int, off + n) =~= le_bytes(x as nat, n as nat));
    assert(buf@ =~= start.subrange(0, off as int) + buf@.subrange(off as int, off + n)
        + start.subrange(off + n, start.len() as int));
}

/// Reads the integer whose bytes are `buf[off..off + n]`, least significant first.
pub fn read_le(buf: &[u8], off: usize, n: usize) -> (r: u128)
    requires
        off + n <= buf@.len(),
        n <= 16,
    ensures
        r == le_value(buf@.subrange(off as int, off + n)),
{
    let mut r: u128 = 0;
    let mut i: usize = n;
    proof {
        assert(buf@.subrange(off + n, off + n) =~= Seq::<u8>::empty());
    }
    while i > 0
        invariant
            i <= n <= 16,
            off + n <= buf@.len(),
            r == le_value(buf@.subrange(off + i, off + n)),
        decreases i,
    {
        let ghost s = buf@.subrange(off + i - 1, off + n);
        proof {
            assert(s.drop_first() =~= buf@.subrange(off + i, off + n));
            le_bytes_of_le_value(s);
            lemma_byte_ranges();
            lemma_byte_range_increases(s.len(), 16);
        }
        assert(off + i <= buf.len());
        r = r * 256 + buf[off + i - 1] as u128;
        i = i - 1;
    }
    r
}

proof fn lemma_byte_range_increases(m: nat, n: nat)
    requires
        m <= n,
    ensures
        byte_range(m) <= byte_range(n),
        byte_range(n) >= 1,
    decreases n,
{
    if m < n {
        lemma_byte_range_increases(m, (n - 1) as nat);
    } else if n > 0 {
        lemma_byte_range_increases((n - 1) as nat, (n - 1) as nat);
    }
}

/// The two's complement of `x`.
pub fn to_twos_complement(x: i128) -> (r: u128)
    ensures
        r == twos_complement(x),
{
    assert(x as u128 == if x >= 0 {
        x as int
    } else {
        x + 0x1_0000_0000_0000_0000_0000_0000_0000_0000
    }) by (bit_vector);
    x as u128
}

/// The signed integer whose two's complement is `x`.
pub fn from_twos_complement(x: u128) -> (r: i128)
    ensures
        twos_complement(r) == x,
{
    assert(x == if (x as i128) >= 0 {
        (x as i128) as int
    } else {
        (x as i128) + 0x1_0000_0000_0000_0000_0000_0000_0000_0000
    }) by (bit_vector);
    x as i128
}

/// Byte `j` of an integer is its digit `j` to the base 256.
pub proof fn bytes_are_digits(x: nat, n: nat, j: int)
    requires
        0 <= j < n,
    ensures
        le_bytes(x, n).len() == n,
        le_bytes(x, n)[j] == (x as int / vstd::arithmetic::power::pow(256, j as nat)) % 256,
    decreases n,
{
    lemma_le_bytes_len(x, n);
    vstd::arithmetic::power::lemma_pow0(256);
    if j > 0 {
        bytes_are_digits(x / 256, (n - 1) as nat, j - 1);
        lemma_le_bytes_len(x / 256, (n - 1) as nat);
        assert(le_bytes(x, n)[j] == le_bytes(x / 256, (n - 1) as nat)[j - 1]);
        let p = vstd::arithmetic::power::pow(256, (j - 1) as nat);
        vstd::arithmetic::power::lemma_pow_positive(256, (j - 1) as nat);
        vstd::arithmetic::power::lemma_pow_adds(256, 1, (j - 1) as nat);
        vstd::arithmetic::power::lemma_pow1(256);
        vstd::arithmetic::div_mod::lemma_div_denominator(x as int, 256, p);
    } else {
        assert(x as int / 1 == x);
    }
}

/// One more byte at the end counts that many times the next power of 256.
pub proof fn values_are_sums_of_digits(b: Seq<u8>, c: u8)
    ensures
        le_value(Seq::empty()) == 0,
        le_value(b.push(c)) == le_value(b) + c * vstd::arithmetic::power::pow(256, b.len()),
        byte_range(b.len()) == vstd::arithmetic::power::pow(256, b.len()),
    decreases b.len(),
{
    vstd::arithmetic::power::lemma_pow0(256);
    let all = b.push(c);
    if b.len() == 0 {
        assert(all.drop_first() =~= Seq::empty());
        assert(le_value(all.drop_first()) == 0);
        assert(c * 1 == c);
    } else {
        let rest = b.drop_first();
        values_are_sums_of_digits(rest, c);
        assert(all.drop_first() =~= rest.push(c));
        let p = vstd::arithmetic::power::pow(256, rest.len());
        vstd::arithmetic::power::lemma_pow_adds(256, 1, rest.len());
        vstd::arithmetic::power::lemma_pow1(256);
        assert(256 * (c * p) == c * (256 * p)) by (nonlinear_arith);
    }
}

/// The two's complement differs from the integer by nothing or by two to the 128,
/// and fits 128 bits; so no two integers share one.
pub proof fn complements_agree_modulo_range(x: i128, y: i128)
    ensures
        twos_complement(x) < 0x1_0000_0000_0000_0000_0000_0000_0000_0000,
        x >= 0 ==> twos_complement(x) == x,
        x < 0 ==> twos_complement(x) - x == 0x1_0000_0000_0000_0000_0000_0000_0000_0000,
        twos_complement(x) == twos_complement(y) ==> x == y,
{
}

} // verus!
