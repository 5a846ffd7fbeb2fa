//! Byte counts as people read them.

use vstd::prelude::*;
use vstd::string::*;

verus! {

/// A digit as text.
pub open spec fn digit(d: nat) -> Seq<char> {
    seq![((48 + d) as u8) as char]
}

/// A number as text.
pub open spec fn decimal(n: nat) -> Seq<char>
    decreases n,
{
    if n < 10 {
        digit(n)
    } else {
        decimal(n / 10) + digit(n % 10)
    }
}

/// The whole number nearest to `n / d`; of two equally near ones, the even one.
pub open spec fn nearest_even(n: nat, d: nat) -> nat {
    let q = n / d;
    let r = n % d;
    if 2 * r < d || (2 * r == d && q % 2 == 0) {
        q
    } else {
        q + 1
    }
}

/// The distance between neighbours among the numbers of 53 significant bits, at `b`.
pub open spec fn spacing(b: nat) -> nat
    decreases b,
{
    if b < 0x20_0000_0000_0000 {
        1
    } else {
        2 * spacing(b / 2)
    }
}

/// `b` rounded to 53 significant bits.
pub open spec fn rounded(b: nat) -> nat {
    if b < 0x20_0000_0000_0000 {
        b
    } else {
        nearest_even(b, spacing(b)) * spacing(b)
    }
}

/// The largest unit that is no more than `b`: its size and its name.
pub open spec fn unit(b: nat) -> (nat, Seq<char>) {
    if b < 0x10_0000 {
        (0x400, seq!['K', 'i', 'B'])
    } else if b < 0x4000_0000 {
        (0x10_0000, seq!['M', 'i', 'B'])
    } else if b < 0x100_0000_0000 {
        (0x4000_0000, seq!['G', 'i', 'B'])
    } else {
        (0x100_0000_0000, seq!['T', 'i', 'B'])
    }
}

/// `b` bytes as text: whole bytes below 1 KiB, else with one decimal, the last
/// digit rounded to the nearest, to an even one where two are equally near.
/// Counts of 2^53 and more are rounded to 53 significant bits first.
pub open spec fn text_of(b: nat) -> Seq<char> {
    if b < 0x400 {
        decimal(b) + seq![' ', 'B']
    } else {
        let tenths = nearest_even(10 * rounded(b), unit(b).0);
        decimal(tenths / 10) + seq!['.'] + digit(tenths % 10) + seq![' '] + unit(b).1
    }
}

/// Writes a digit.
fn push_digit(s: &mut String, d: u64)
    requires
        d < 10,
    ensures
        final(s)@ == old(s)@ + digit(d as nat),
{
    let text: &str = if d == 0 {
        "0"
    } else if d == 1 {
        "1"
    } else if d == 2 {
        "2"
    } else if d == 3 {
        "3"
    } else if d == 4 {
        "4"
    } else if d == 5 {
        "5"
    } else if d == 6 {
        "6"
    } else if d == 7 {
        "7"
    } else if d == 8 {
        "8"
    } else {
        "9"
    };
    proof {
        reveal_strlit("0");
        reveal_strlit("1");
        reveal_strlit("2");
        reveal_strlit("3");
        reveal_strlit("4");
        reveal_strlit("5");
        reveal_strlit("6");
        reveal_strlit("7");
        reveal_strlit("8");
        reveal_strlit("9");
        assert(text@ =~= digit(d as nat));
    }
    s.append(text);
}

/// Writes a number.
fn push_decimal(s: &mut String, n: u64)
    ensures
        final(s)@ == old(s)@ + decimal(n as nat),
    decreases n,
{
    if n >= 10 {
        push_decimal(s, n / 10);
    }
    push_digit(s, n % 10);
    assert(s@ =~= old(s)@ + decimal(n as nat));
}

/// The distance between neighbours among the numbers of 53 significant bits, at `b`.
fn spacing_at(b: u64) -> (r: u64)
    ensures
        r == spacing(b as nat),
        r >= 1,
        b >= 0x10_0000_0000_0000 ==> r * 0x10_0000_0000_0000 <= b,
        b < 0x20_0000_0000_0000 ==> r == 1,
    decreases b,
{
    if b < 0x20_0000_0000_0000 {
        1
    } else {
        2 * spacing_at(b / 2)
    }
}

/// The whole number nearest to `n / d`.
fn nearest(n: u128, d: u128) -> (r: u128)
    requires
        0 < d <= 0x1_0000_0000_0000_0000,
        n <= 0x100_0000_0000_0000_0000,
    ensures
        r == nearest_even(n as nat, d as nat),
        r <= n / d + 1,
{
    let q: u128 = n / d;
    let r: u128 = n % d;
    assert(q <= n) by (nonlinear_arith)
        requires
            q == n / d,
            d > 0,
    ;
    if 2 * r < d || (2 * r == d && q % 2 == 0) {
        q
    } else {
        q + 1
    }
}

/// `b` rounded to 53 significant bits.
fn round(b: u64) -> (r: u128)
    ensures
        r == rounded(b as nat),
        r <= 2 * b,
{
    if b < 0x20_0000_0000_0000 {
        return b as u128;
    }
    let w: u64 = spacing_at(b);
    let steps: u128 = nearest(b as u128, w as u128);
    assert(steps * w <= b + w) by (nonlinear_arith)
        requires
            steps <= b as u128 / w as u128 + 1,
            w >= 1,
    ;
    steps * (w as u128)
}

/// `b` bytes as text.
pub fn human(b: u64) -> (r: String)
    ensures
        r@ == text_of(b as nat),
{
    let mut s: String = String::new();
    proof {
        reveal_strlit(" B");
        reveal_strlit(".");
        reveal_strlit(" KiB");
        reveal_strlit(" MiB");
        reveal_strlit(" GiB");
        reveal_strlit(" TiB");
    }
    if b < 0x400 {
        push_decimal(&mut s, b);
        s.append(" B");
        assert(s@ =~= text_of(b as nat));
        return s;
    }
    let near: u128 = round(b);
    let (size, name): (u128, &str) = if b < 0x10_0000 {
        (0x400, " KiB")
    } else if b < 0x4000_0000 {
        (0x10_0000, " MiB")
    } else if b < 0x100_0000_0000 {
        (0x4000_0000, " GiB")
    } else {
        (0x100_0000_0000, " TiB")
    };
    let tenths: u128 = nearest(10 * near, size);
    assert(tenths <= 0xffff_ffff_ffff_ffff) by (nonlinear_arith)
        requires
            tenths <= (10 * near) / (size as int) + 1,
            size >= 0x400,
            near <= 0x2_0000_0000_0000_0000,
    ;
    push_decimal(&mut s, (tenths / 10) as u64);
    s.append(".");
    push_digit(&mut s, (tenths % 10) as u64);
    s.append(name);
    assert(name@ =~= seq![' '] + unit(b as nat).1);
    assert(s@ =~= text_of(b as nat));
    s
}

/// What is nearest is at most half a unit away, and even where two are.
pub proof fn nearest_is_near(n: nat, d: nat)
    requires
        d > 0,
    ensures
        ({
            let q = nearest_even(n, d);
            &&& 2 * (n - q * d) <= d
            &&& 2 * (q * d - n) <= d
            &&& 2 * (n - q * d) == d || 2 * (q * d - n) == d ==> q % 2 == 0
        }),
{
    let q = n / d;
    vstd::arithmetic::div_mod::lemma_fundamental_div_mod(n as int, d as int);
    vstd::arithmetic::div_mod::lemma_mod_bound(n as int, d as int);
    assert(d * q == q * d) by (nonlinear_arith);
    assert((q + 1) * d == q * d + d) by (nonlinear_arith);
}

/// A number is written as its digits, the tens before the ones.
pub proof fn numbers_are_written_in_tens(n: nat, d: nat)
    requires
        d < 10,
    ensures
        decimal(d) == digit(d),
        n > 0 ==> decimal(10 * n + d) == decimal(n) + digit(d),
        digit(d).len() == 1,
        digit(d)[0] as int == '0' as int + d,
{
    assert((10 * n + d) / 10 == n);
    assert((10 * n + d) % 10 == d);
}

/// Numbers of 53 significant bits lie a power of two apart, so that 2 to the 52
/// up to 2 to the 53 of these steps lead to `b`.
pub proof fn spacing_keeps_53_bits(b: nat)
    ensures
        exists|e: nat| spacing(b) == #[trigger] vstd::arithmetic::power2::pow2(e),
        b < 0x20_0000_0000_0000 ==> spacing(b) == 1,
        b >= 0x20_0000_0000_0000 ==> 0x10_0000_0000_0000 * spacing(b) <= b < 0x20_0000_0000_0000
            * spacing(b),
    decreases b,
{
    if b < 0x20_0000_0000_0000 {
        vstd::arithmetic::power2::lemma2_to64();
        assert(vstd::arithmetic::power2::pow2(0) == 1);
    } else {
        spacing_keeps_53_bits(b / 2);
        let e = choose|e: nat| spacing(b / 2) == #[trigger] vstd::arithmetic::power2::pow2(e);
        vstd::arithmetic::power2::lemma_pow2_unfold(e + 1);
        assert(spacing(b) == vstd::arithmetic::power2::pow2(e + 1));
    }
}

/// Rounding leaves counts below 2 to the 53 as they are and moves others by half
/// the distance of neighbours at most, to a number of 53 significant bits.
pub proof fn rounding_moves_little(b: nat)
    ensures
        b < 0x20_0000_0000_0000 ==> rounded(b) == b,
        2 * (rounded(b) - b) <= spacing(b),
        2 * (b - rounded(b)) <= spacing(b),
        rounded(b) % spacing(b) == 0,
{
    spacing_keeps_53_bits(b);
    let w = spacing(b);
    let e = choose|e: nat| w == #[trigger] vstd::arithmetic::power2::pow2(e);
    vstd::arithmetic::power2::lemma_pow2_pos(e);
    if b >= 0x20_0000_0000_0000 {
        nearest_is_near(b, w);
        vstd::arithmetic::div_mod::lemma_mod_multiples_basic(
            nearest_even(b, w) as int,
            w as int,
        );
    }
}

/// The unit is the largest that is no more than the count, up to the largest that
/// there is; each is 1024 of the one before it.
pub proof fn units_fit_their_counts(b: nat)
    ensures
        b >= 1024 ==> unit(b).0 <= b,
        unit(b).0 < 1024 * 1024 * 1024 * 1024 ==> b < 1024 * unit(b).0,
        unit(b) == (1024nat, seq!['K', 'i', 'B']) || unit(b) == (
            (1024 * 1024) as nat,
            seq!['M', 'i', 'B'],
        ) || unit(b) == ((1024 * 1024 * 1024) as nat, seq!['G', 'i', 'B']) || unit(b) == (
            (1024 * 1024 * 1024 * 1024) as nat,
            seq!['T', 'i', 'B'],
        ),
{
}

/// A count of 1 KiB or more is written with one decimal and its unit; what is
/// written is at most half a tenth of the unit away from the count, as far as 53
/// bits hold it. A smaller count is written out in bytes.
pub proof fn counts_are_written_to_a_tenth(b: nat) -> (tenths: nat)
    ensures
        b < 1024 ==> text_of(b) == decimal(b) + seq![' ', 'B'],
        b >= 1024 ==> text_of(b) == decimal(tenths / 10) + seq!['.'] + digit(tenths % 10) + seq![' ']
            + unit(b).1,
        2 * (10 * rounded(b) - tenths * unit(b).0) <= unit(b).0,
        2 * (tenths * unit(b).0 - 10 * rounded(b)) <= unit(b).0,
{
    let tenths = nearest_even(10 * rounded(b), unit(b).0);
    nearest_is_near(10 * rounded(b), unit(b).0);
    tenths
}

} // verus!
