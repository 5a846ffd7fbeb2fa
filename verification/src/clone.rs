//! What the kernel's answers to clone requests mean.

use crate::codec;
use vstd::prelude::*;

verus! {

/// The outcome of an in-kernel compare-and-clone.
#[derive(Debug, Clone, Copy, PartialEq, Eq)]
pub enum Dedupe {
    /// The ranges matched; this many bytes are now shared.
    Same(u64),
    /// The ranges differ.
    Differs,
    /// The file system cannot do it.
    Unsupported,
}

/// The status of a range that differs.
pub const FILE_DEDUPE_RANGE_DIFFERS: i32 = 1;

/// The error numbers by which a kernel says that it lacks an ioctl.
#[derive(Debug, Clone, Copy, PartialEq, Eq)]
pub struct MissingIoctl {
    pub notty: i32,
    pub opnotsupp: i32,
    pub nosys: i32,
}

impl MissingIoctl {
    /// Whether `errno` is one of them.
    pub open spec fn has(self, errno: int) -> bool {
        errno == self.notty || errno == self.opnotsupp || errno == self.nosys
    }
}

/// Reads `rustix::io::Errno::raw_os_error` of `NOTTY`, `OPNOTSUPP` and `NOSYS`.
/// The numbers depend on the machine, so nothing is said of them.
#[verifier::external_body]
fn missing_ioctl() -> (r: MissingIoctl) {
    MissingIoctl {
        notty: rustix::io::Errno::NOTTY.raw_os_error(),
        opnotsupp: rustix::io::Errno::OPNOTSUPP.raw_os_error(),
        nosys: rustix::io::Errno::NOSYS.raw_os_error(),
    }
}

/// What a FIDEDUPERANGE status means: zero that the ranges matched, one that
/// they differ, a negative error number otherwise.
pub open spec fn outcome(status: i32, bytes: u64, missing: MissingIoctl) -> Result<Dedupe, i32> {
    if status == 0 {
        Ok(Dedupe::Same(bytes))
    } else if status == FILE_DEDUPE_RANGE_DIFFERS {
        Ok(Dedupe::Differs)
    } else if missing.has(-status) {
        Ok(Dedupe::Unsupported)
    } else {
        Err((-status) as i32)
    }
}

/// What a FIDEDUPERANGE status means on a machine with these error numbers.
pub fn outcome_on(status: i32, bytes: u64, missing: &MissingIoctl) -> (r: Result<Dedupe, i32>)
    requires
        -4095 <= status <= 1,
    ensures
        r == outcome(status, bytes, *missing),
{
    if status == 0 {
        Ok(Dedupe::Same(bytes))
    } else if status == FILE_DEDUPE_RANGE_DIFFERS {
        Ok(Dedupe::Differs)
    } else {
        let errno: i32 = -status;
        if errno == missing.notty || errno == missing.opnotsupp || errno == missing.nosys {
            Ok(Dedupe::Unsupported)
        } else {
            Err(errno)
        }
    }
}

/// What a FIDEDUPERANGE status means here. The kernel reports the error of a
/// range in the status, not in the ioctl's return; `bytes` is how many it shared.
pub fn dedupe_status(status: i32, bytes: u64) -> (r: Result<Dedupe, i32>)
    requires
        -4095 <= status <= 1,
    ensures
        exists|missing: MissingIoctl| r == #[trigger] outcome(status, bytes, missing),
        status == 0 ==> r == Ok::<Dedupe, i32>(Dedupe::Same(bytes)),
        status == 1 ==> r == Ok::<Dedupe, i32>(Dedupe::Differs),
        status < 0 ==> r == Ok::<Dedupe, i32>(Dedupe::Unsupported) || r == Err::<Dedupe, i32>(
            (-status) as i32,
        ),
{
    let missing = missing_ioctl();
    outcome_on(status, bytes, &missing)
}

/// Whether FIDEDUPERANGE works, given what became of a real request.
pub fn probe_answer(outcome: Result<Dedupe, i32>) -> (r: Result<bool, i32>)
    ensures
        match outcome {
            Ok(d) => r == Ok::<bool, i32>(d != Dedupe::Unsupported),
            Err(e) => r == Err::<bool, i32>(e),
        },
{
    match outcome {
        Ok(Dedupe::Unsupported) => Ok(false),
        Ok(_) => Ok(true),
        Err(e) => Err(e),
    }
}

/// Bytes of each of the two files of a probe: they get the same block size
/// whatever the record size, so the whole-file request is aligned.
pub const PROBE_LEN: usize = 0x2_0000;

/// Where the probe's contents start from.
pub const PROBE_SEED: u64 = 0x9e37_79b9_7f4a_7c15;

/// The next state of the generator.
pub open spec fn xorshift(x: u64) -> u64 {
    let a = x ^ (x << 13u64);
    let b = a ^ (a >> 7u64);
    b ^ (b << 17u64)
}

/// The state of the generator after `n` steps.
pub open spec fn nth_state(n: nat) -> u64
    decreases n,
{
    if n == 0 {
        PROBE_SEED
    } else {
        xorshift(nth_state((n - 1) as nat))
    }
}

/// The contents of a probe file. They do not compress, so that the blocks land
/// on disk and can be shared.
pub fn probe_data() -> (r: Vec<u8>)
    ensures
        r@.len() == PROBE_LEN,
        r@.len() == 128 * 1024,
        forall|i: int|
            0 <= i < PROBE_LEN / 8 ==> #[trigger] r@.subrange(8 * i, 8 * i + 8) == codec::le_bytes(
                nth_state((i + 1) as nat) as nat,
                8,
            ),
{
    let mut data: Vec<u8> = vec![0u8; PROBE_LEN];
    let mut x: u64 = PROBE_SEED;
    let mut i: usize = 0;
    while i < PROBE_LEN / 8
        invariant
            i <= PROBE_LEN / 8,
            data@.len() == PROBE_LEN,
            x == nth_state(i as nat),
            forall|j: int|
                0 <= j < i ==> #[trigger] data@.subrange(8 * j, 8 * j + 8) == codec::le_bytes(
                    nth_state((j + 1) as nat) as nat,
                    8,
                ),
        decreases PROBE_LEN / 8 - i,
    {
        x = x ^ (x << 13u64);
        x = x ^ (x >> 7u64);
        x = x ^ (x << 17u64);
        let ghost before = data@;
        codec::write_le(data.as_mut_slice(), 8 * i, 8, x as u128);
        proof {
            codec::lemma_le_bytes_len(x as nat, 8);
            assert forall|j: int| 0 <= j < i + 1 implies #[trigger] data@.subrange(8 * j, 8 * j + 8)
                == codec::le_bytes(nth_state((j + 1) as nat) as nat, 8) by {
                if j < i {
                    assert(data@.subrange(8 * j, 8 * j + 8) =~= before.subrange(8 * j, 8 * j + 8));
                } else {
                    assert(data@.subrange(8 * j, 8 * j + 8) =~= codec::le_bytes(x as nat, 8));
                }
            }
        }
        i = i + 1;
    }
    data
}

/// Zero says that the ranges are shared, with the bytes that were, and one that
/// they differ. What is negative is an error: that of a kernel or file system
/// that cannot do it, or any other, which is handed on.
pub proof fn statuses_have_one_meaning(status: i32, bytes: u64, missing: MissingIoctl)
    requires
        -4095 <= status <= 1,
    ensures
        status == 0 ==> outcome(status, bytes, missing) == Ok::<Dedupe, i32>(Dedupe::Same(bytes)),
        status == 1 ==> outcome(status, bytes, missing) == Ok::<Dedupe, i32>(Dedupe::Differs),
        status < 0 ==> ({
            let known = -status == missing.notty || -status == missing.opnotsupp || -status
                == missing.nosys;
            &&& known ==> outcome(status, bytes, missing) == Ok::<Dedupe, i32>(Dedupe::Unsupported)
            &&& !known ==> (outcome(status, bytes, missing) matches Err(e) && e == -status)
        }),
{
}

/// No two states of the generator have the same next state, and a sum of two goes
/// to the sum of theirs.
pub proof fn states_stay_apart(x: u64, y: u64)
    ensures
        xorshift(x) == xorshift(y) ==> x == y,
        xorshift(x ^ y) == xorshift(x) ^ xorshift(y),
{
    let a: u64 = x ^ (x << 13u64);
    let b: u64 = a ^ (a >> 7u64);
    let c: u64 = y ^ (y << 13u64);
    let d: u64 = c ^ (c >> 7u64);
    if xorshift(x) == xorshift(y) {
        assert(b == d) by (bit_vector)
            requires
                b ^ (b << 17u64) == d ^ (d << 17u64),
        ;
        assert(a == c) by (bit_vector)
            requires
                a ^ (a >> 7u64) == c ^ (c >> 7u64),
        ;
        assert(x == y) by (bit_vector)
            requires
                x ^ (x << 13u64) == y ^ (y << 13u64),
        ;
    }
    let s: u64 = x ^ y;
    let e: u64 = s ^ (s << 13u64);
    let f: u64 = e ^ (e >> 7u64);
    assert(e == a ^ c) by (bit_vector)
        requires
            s == x ^ y,
            e == s ^ (s << 13u64),
            a == x ^ (x << 13u64),
            c == y ^ (y << 13u64),
    ;
    assert(f == b ^ d) by (bit_vector)
        requires
            e == a ^ c,
            f == e ^ (e >> 7u64),
            b == a ^ (a >> 7u64),
            d == c ^ (c >> 7u64),
    ;
    assert(f ^ (f << 17u64) == (b ^ (b << 17u64)) ^ (d ^ (d << 17u64))) by (bit_vector)
        requires
            f == b ^ d,
    ;
}

/// No state of the generator is zero, so that no word of a probe file is.
pub proof fn states_are_not_zero(n: nat)
    ensures
        nth_state(n) != 0,
        nth_state(n + 1) == xorshift(nth_state(n)),
    decreases n,
{
    if n > 0 {
        states_are_not_zero((n - 1) as nat);
        let x = nth_state((n - 1) as nat);
        if xorshift(x) == 0 {
            let a: u64 = x ^ (x << 13u64);
            let b: u64 = a ^ (a >> 7u64);
            assert(b == 0) by (bit_vector)
                requires
                    b ^ (b << 17u64) == 0,
            ;
            assert(a == 0) by (bit_vector)
                requires
                    a ^ (a >> 7u64) == 0,
            ;
            assert(x == 0) by (bit_vector)
                requires
                    x ^ (x << 13u64) == 0,
            ;
        }
    }
}

} // verus!
