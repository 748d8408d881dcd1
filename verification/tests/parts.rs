use twizzler_queue_raw::{QueueEntry, ReceiveFlags, SubmissionFlags};

#[test]
fn entry_keeps_tag_and_payload() {
    let e = QueueEntry::new(17, 4242u64);
    assert_eq!(e.info(), 17);
    assert_eq!(e.get_cmd_slot(), 0);
    assert_eq!(e.item(), 4242);
}

#[test]
fn control_word_is_apart_from_tag_and_payload() {
    let mut e = QueueEntry::new(17, 4242u64);
    e.set_cmd_slot(0x8000_0003);
    assert_eq!(e.get_cmd_slot(), 0x8000_0003);
    assert_eq!(e.info(), 17);
    assert_eq!(e.item(), 4242);
}

#[test]
fn default_entry_is_zero() {
    let e = QueueEntry::<i32>::default();
    assert_eq!(e.get_cmd_slot(), 0);
    assert_eq!(e.info(), 0);
    assert_eq!(e.item(), 0);
}

#[test]
fn submission_flags_are_bits() {
    assert_eq!(SubmissionFlags::empty().bits(), 0);
    assert_eq!(SubmissionFlags::NON_BLOCK.bits(), 1);
    assert_eq!(SubmissionFlags::from_bits_truncate(0), SubmissionFlags::empty());
    assert_eq!(SubmissionFlags::from_bits_truncate(1), SubmissionFlags::NON_BLOCK);
    assert_eq!(SubmissionFlags::from_bits_truncate(6), SubmissionFlags::empty());
    assert_eq!(SubmissionFlags::from_bits_truncate(7), SubmissionFlags::NON_BLOCK);
}

#[test]
fn submission_flags_contain() {
    let none = SubmissionFlags::empty();
    let non_block = SubmissionFlags::NON_BLOCK;
    assert!(none.contains(none));
    assert!(!none.contains(non_block));
    assert!(non_block.contains(none));
    assert!(non_block.contains(non_block));
}

#[test]
fn receive_flags_are_bits() {
    assert_eq!(ReceiveFlags::empty().bits(), 0);
    assert_eq!(ReceiveFlags::NON_BLOCK.bits(), 1);
    assert_eq!(ReceiveFlags::from_bits_truncate(0), ReceiveFlags::empty());
    assert_eq!(ReceiveFlags::from_bits_truncate(1), ReceiveFlags::NON_BLOCK);
    assert_eq!(ReceiveFlags::from_bits_truncate(0xffff_fffe), ReceiveFlags::empty());
}

#[test]
fn receive_flags_contain() {
    let none = ReceiveFlags::empty();
    let non_block = ReceiveFlags::NON_BLOCK;
    assert!(none.contains(none));
    assert!(!none.contains(non_block));
    assert!(non_block.contains(none));
    assert!(non_block.contains(non_block));
}
