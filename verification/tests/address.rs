use guest_mem::GuestAddress;

#[test]
fn offset_returns_raw_value() {
    assert_eq!(GuestAddress(0x1234).offset(), 0x1234);
    assert_eq!(GuestAddress(0).offset(), 0);
    assert_eq!(GuestAddress(u64::MAX).offset(), u64::MAX);
}

#[test]
fn checked_add_in_range() {
    assert_eq!(
        GuestAddress(0x1000).checked_add(0x234),
        Some(GuestAddress(0x1234))
    );
    assert_eq!(
        GuestAddress(u64::MAX - 1).checked_add(1),
        Some(GuestAddress(u64::MAX))
    );
}

#[test]
fn checked_add_overflow_is_signaled() {
    assert_eq!(GuestAddress(u64::MAX).checked_add(1), None);
    assert_eq!(GuestAddress(1).checked_add(u64::MAX), None);
}

#[test]
fn checked_sub_in_range() {
    assert_eq!(
        GuestAddress(0x1234).checked_sub(0x234),
        Some(GuestAddress(0x1000))
    );
    assert_eq!(GuestAddress(5).checked_sub(5), Some(GuestAddress(0)));
}

#[test]
fn checked_sub_underflow_is_signaled() {
    assert_eq!(GuestAddress(0).checked_sub(1), None);
    assert_eq!(GuestAddress(100).checked_sub(101), None);
}

#[test]
fn addresses_are_totally_ordered() {
    let a = GuestAddress(1);
    let b = GuestAddress(2);
    assert!(a < b);
    assert!(b > a);
    assert!(a <= a);
    assert!(a >= a);
    assert!(a == GuestAddress(1));
    assert!(a != b);
}
