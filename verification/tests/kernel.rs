use lib::kernel::{echo, panic_test, Fault};

#[test]
fn echo_writes_back_the_byte() {
    for byte in 0..=255u8 {
        assert_eq!(echo(byte), byte);
    }
}

#[test]
fn panic_test_picks_the_panic() {
    assert_eq!(panic_test(0), Some(Fault::UnwrapNone));
    assert_eq!(panic_test(1), Some(Fault::Unreachable));
    assert_eq!(panic_test(2), Some(Fault::Explicit));
    assert_eq!(panic_test(3), None);
    assert_eq!(panic_test(usize::MAX), None);
}
