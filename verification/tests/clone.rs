use rustix::io::Errno;
use zfs_dedup::clone::{
    dedupe_status, outcome_on, probe_answer, probe_data, Dedupe, MissingIoctl, PROBE_LEN,
};

const NUMBERS: MissingIoctl = MissingIoctl { notty: 25, opnotsupp: 95, nosys: 38 };

#[test]
fn status_zero_and_one() {
    assert_eq!(dedupe_status(0, 4096), Ok(Dedupe::Same(4096)));
    assert_eq!(dedupe_status(1, 0), Ok(Dedupe::Differs));
}

#[test]
fn status_of_a_missing_ioctl() {
    for e in [Errno::NOTTY, Errno::OPNOTSUPP, Errno::NOSYS] {
        assert_eq!(dedupe_status(-e.raw_os_error(), 0), Ok(Dedupe::Unsupported));
    }
    for e in [Errno::INVAL, Errno::XDEV, Errno::PERM] {
        assert_eq!(dedupe_status(-e.raw_os_error(), 0), Err(e.raw_os_error()));
    }
}

#[test]
fn status_on_given_numbers() {
    assert_eq!(outcome_on(0, 7, &NUMBERS), Ok(Dedupe::Same(7)));
    assert_eq!(outcome_on(1, 7, &NUMBERS), Ok(Dedupe::Differs));
    assert_eq!(outcome_on(-25, 0, &NUMBERS), Ok(Dedupe::Unsupported));
    assert_eq!(outcome_on(-38, 0, &NUMBERS), Ok(Dedupe::Unsupported));
    assert_eq!(outcome_on(-95, 0, &NUMBERS), Ok(Dedupe::Unsupported));
    assert_eq!(outcome_on(-22, 0, &NUMBERS), Err(22));
    assert_eq!(outcome_on(-4095, 0, &NUMBERS), Err(4095));
}

#[test]
fn any_verdict_means_support() {
    assert_eq!(probe_answer(Ok(Dedupe::Same(131072))), Ok(true));
    assert_eq!(probe_answer(Ok(Dedupe::Differs)), Ok(true));
    assert_eq!(probe_answer(Ok(Dedupe::Unsupported)), Ok(false));
    assert_eq!(probe_answer(Err(28)), Err(28));
}

#[test]
fn probe_contents() {
    let data = probe_data();
    assert_eq!(data.len(), 131072);
    assert_eq!(data.len(), PROBE_LEN);
    let mut x = 0x9e3779b97f4a7c15u64;
    for c in data.chunks_exact(8) {
        x ^= x << 13;
        x ^= x >> 7;
        x ^= x << 17;
        assert_eq!(c, x.to_le_bytes());
    }
}
