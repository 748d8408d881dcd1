use twizzler_queue_raw::{
    QueueEntry, RawQueueHdr, ReceiveFlags, Reception, Reservation, Step, SubmissionFlags,
    SPIN_ATTEMPTS,
};

#[test]
fn len_is_two_to_the_exponent() {
    assert_eq!(RawQueueHdr::new(0, 8).len(), 1);
    assert_eq!(RawQueueHdr::new(4, 8).len(), 16);
    assert_eq!(RawQueueHdr::new(30, 8).len(), 1 << 30);
}

#[test]
fn slot_is_the_offset_modulo_the_capacity() {
    let hdr = RawQueueHdr::new(3, 8);
    assert_eq!(hdr.slot(0), 0);
    assert_eq!(hdr.slot(7), 7);
    assert_eq!(hdr.slot(8), 0);
    assert_eq!(hdr.slot(21), 5);
}

#[test]
fn full_when_a_whole_buffer_ahead() {
    let hdr = RawQueueHdr::new(2, 8);
    assert!(!hdr.is_full(0, 0));
    assert!(!hdr.is_full(3, 0));
    assert!(hdr.is_full(4, 0));
    assert!(hdr.is_full(5, 0));
    assert!(!hdr.is_full(5, 2));
    assert!(hdr.is_full(6, 2));
}

#[test]
fn full_reads_only_the_low_31_bits() {
    let hdr = RawQueueHdr::new(2, 8);
    // The reserved high bit of the head and the waiting flag of the tail do not count.
    assert!(!hdr.is_full(0x8000_0003, 0));
    assert!(hdr.is_full(0x8000_0004, 0));
    assert!(!hdr.is_full(3, 0x8000_0000));
    assert!(hdr.is_full(4, 0x8000_0000));
}

#[test]
fn full_is_counted_round_the_ring() {
    let hdr = RawQueueHdr::new(2, 8);
    // The head has gone round the ring of 2^31 positions, the tail has not yet.
    assert!(!hdr.is_full(0, 0x7fff_ffff));
    assert!(!hdr.is_full(2, 0x7fff_ffff));
    assert!(hdr.is_full(3, 0x7fff_ffff));
    assert!(!hdr.is_full(1, 0x7fff_fffe));
    assert!(hdr.is_full(2, 0x7fff_fffe));
}

#[test]
fn empty_when_bell_and_tail_meet() {
    let hdr = RawQueueHdr::new(2, 8);
    assert!(hdr.is_empty(0, 0));
    assert!(!hdr.is_empty(1, 0));
    assert!(hdr.is_empty(7, 7));
    assert!(hdr.is_empty(0x8000_0005, 5));
    assert!(hdr.is_empty(5, 0x8000_0005));
    assert!(hdr.is_empty(0x1_0000_0000, 0));
    assert!(!hdr.is_empty(0x1_0000_0001, 0));
}

#[test]
fn turn_bit_is_set_on_even_trips() {
    let hdr = RawQueueHdr::new(2, 8);
    assert!(hdr.get_turn(0));
    assert!(hdr.get_turn(3));
    assert!(!hdr.get_turn(4));
    assert!(!hdr.get_turn(7));
    assert!(hdr.get_turn(8));
    assert!(!hdr.get_turn(0x7fff_ffff));
}

#[test]
fn consumer_accepts_the_stamp_of_its_trip() {
    let hdr = RawQueueHdr::new(2, 8);
    let mut set = QueueEntry::new(0, 0u8);
    set.set_cmd_slot(0x8000_0000);
    let clear = QueueEntry::new(0, 0u8);
    // Even trip: the bit must be set.
    assert!(hdr.is_turn(0, &set));
    assert!(!hdr.is_turn(0, &clear));
    assert!(hdr.is_turn(3, &set));
    // Odd trip: the bit must be clear.
    assert!(!hdr.is_turn(4, &set));
    assert!(hdr.is_turn(4, &clear));
    assert!(hdr.is_turn(7, &clear));
    // Even trip again.
    assert!(hdr.is_turn(8, &set));
    assert!(!hdr.is_turn(8, &clear));
}

#[test]
fn new_header_has_nobody_waiting() {
    let hdr = RawQueueHdr::new(2, 8);
    assert!(!hdr.consumer_waiting());
    assert!(!hdr.submitter_waiting());
}

#[test]
fn waiting_flag_is_set_and_cleared() {
    let mut hdr = RawQueueHdr::new(2, 8);
    hdr.consumer_set_waiting(true);
    assert!(hdr.consumer_waiting());
    hdr.consumer_set_waiting(true);
    assert!(hdr.consumer_waiting());
    hdr.consumer_set_waiting(false);
    assert!(!hdr.consumer_waiting());
    hdr.consumer_set_waiting(false);
    assert!(!hdr.consumer_waiting());
}

#[test]
fn waiters_are_counted() {
    let mut hdr = RawQueueHdr::new(2, 8);
    hdr.inc_submit_waiting();
    hdr.inc_submit_waiting();
    assert!(hdr.submitter_waiting());
    hdr.dec_submit_waiting();
    assert!(hdr.submitter_waiting());
    hdr.dec_submit_waiting();
    assert!(!hdr.submitter_waiting());
}

#[test]
fn ring_reports_a_sleeping_consumer() {
    let mut hdr = RawQueueHdr::new(2, 8);
    assert!(!hdr.ring());
    hdr.consumer_set_waiting(true);
    assert!(hdr.ring());
}

#[test]
fn advance_tail_reports_sleeping_producers_and_clears_the_flag() {
    let mut hdr = RawQueueHdr::new(2, 8);
    assert!(!hdr.advance_tail());
    hdr.inc_submit_waiting();
    hdr.consumer_set_waiting(true);
    assert!(hdr.advance_tail());
    assert!(!hdr.consumer_waiting());
}

#[test]
fn reservation_draws_positions_in_order() {
    let mut hdr = RawQueueHdr::new(2, 8);
    for expected in 0..4u32 {
        let mut r = Reservation::new();
        assert_eq!(hdr.reserve_slot(SubmissionFlags::empty(), &mut r), Step::Done(expected));
        assert_eq!(hdr.head(), expected + 1);
    }
}

#[test]
fn refused_reservation_draws_no_position() {
    let mut hdr = RawQueueHdr::new(0, 8);
    let mut first = Reservation::new();
    assert_eq!(hdr.reserve_slot(SubmissionFlags::NON_BLOCK, &mut first), Step::Done(0));
    assert_eq!(hdr.head(), 1);
    let mut second = Reservation::new();
    assert_eq!(hdr.reserve_slot(SubmissionFlags::NON_BLOCK, &mut second), Step::WouldBlock);
    // The header and the producer's state are as they were.
    assert_eq!((hdr.head(), hdr.bell(), hdr.tail()), (1, 0, 0));
    assert!(!hdr.submitter_waiting());
    assert_eq!((second.attempts, second.waiter), (SPIN_ATTEMPTS, false));
    // Once the consumer has moved on, the next reservation draws the position after the
    // last one that was granted.
    hdr.advance_tail();
    assert_eq!(hdr.reserve_slot(SubmissionFlags::NON_BLOCK, &mut second), Step::Done(1));
    assert_eq!(hdr.head(), 2);
}

#[test]
fn waiting_reservation_draws_no_position() {
    let mut hdr = RawQueueHdr::new(0, 8);
    let mut first = Reservation::new();
    assert_eq!(hdr.reserve_slot(SubmissionFlags::empty(), &mut first), Step::Done(0));
    let mut r = Reservation::new();
    for _ in 0..SPIN_ATTEMPTS + 3 {
        let step = hdr.reserve_slot(SubmissionFlags::empty(), &mut r);
        assert!(step == Step::Spin || step == Step::Wait(0));
        assert_eq!(hdr.head(), 1);
    }
}

#[test]
fn reservation_spins_then_sleeps_then_is_granted() {
    let mut hdr = RawQueueHdr::new(0, 8);
    let mut first = Reservation::new();
    assert_eq!(hdr.reserve_slot(SubmissionFlags::empty(), &mut first), Step::Done(0));

    let mut r = Reservation::new();
    for left in (0..SPIN_ATTEMPTS).rev() {
        assert_eq!(hdr.reserve_slot(SubmissionFlags::empty(), &mut r), Step::Spin);
        assert_eq!(r.attempts, left);
        assert!(!hdr.submitter_waiting());
    }
    assert_eq!(hdr.reserve_slot(SubmissionFlags::empty(), &mut r), Step::Wait(0));
    assert!(r.waiter);
    assert!(hdr.submitter_waiting());
    // A second sleepless round counts the producer once only.
    assert_eq!(hdr.reserve_slot(SubmissionFlags::empty(), &mut r), Step::Wait(0));
    hdr.dec_submit_waiting();
    assert!(!hdr.submitter_waiting());
    hdr.inc_submit_waiting();

    assert!(hdr.advance_tail());
    assert_eq!(hdr.reserve_slot(SubmissionFlags::empty(), &mut r), Step::Done(1));
    assert!(!r.waiter);
    assert!(!hdr.submitter_waiting());
}

#[test]
fn ready_round_spins_then_sleeps_then_finds_the_entry() {
    let mut hdr = RawQueueHdr::new(0, 8);
    let mut buf = vec![QueueEntry::new(0, 0u8)];
    let mut w = Reception::new();
    assert_eq!(
        hdr.get_next_ready(ReceiveFlags::NON_BLOCK, &buf, &mut w),
        Step::WouldBlock
    );
    for left in (0..SPIN_ATTEMPTS).rev() {
        assert_eq!(hdr.get_next_ready(ReceiveFlags::empty(), &buf, &mut w), Step::Spin);
        assert_eq!(w.attempts, left);
        assert!(!hdr.consumer_waiting());
    }
    assert_eq!(hdr.get_next_ready(ReceiveFlags::empty(), &buf, &mut w), Step::Wait(0));
    assert!(hdr.consumer_waiting());

    // A stamped slot alone is not enough: the doorbell must have been rung.
    buf[0].set_cmd_slot(0x8000_0000);
    assert_eq!(hdr.get_next_ready(ReceiveFlags::empty(), &buf, &mut w), Step::Wait(0));
    assert!(hdr.ring());
    assert_eq!(hdr.get_next_ready(ReceiveFlags::empty(), &buf, &mut w), Step::Done(0));
    assert!(!hdr.consumer_waiting());
}

#[test]
fn ready_round_wants_the_stamp_as_well_as_the_bell() {
    let mut hdr = RawQueueHdr::new(0, 8);
    let buf = vec![QueueEntry::new(0, 0u8)];
    let mut w = Reception::new();
    hdr.ring();
    assert_eq!(
        hdr.get_next_ready(ReceiveFlags::NON_BLOCK, &buf, &mut w),
        Step::WouldBlock
    );
}

#[test]
fn header_keeps_its_words() {
    let hdr = RawQueueHdr::new(5, 24);
    assert_eq!(hdr.stride(), 24);
    assert_eq!((hdr.head(), hdr.bell(), hdr.tail()), (0, 0, 0));
    let hdr = RawQueueHdr::from_parts(5, 24, 7, 1, 6, 0x8000_0003);
    assert_eq!(hdr.len(), 32);
    assert_eq!(hdr.stride(), 24);
    assert_eq!((hdr.head(), hdr.bell(), hdr.tail()), (7, 6, 0x8000_0003));
    assert!(hdr.consumer_waiting());
    assert!(hdr.submitter_waiting());
}

#[test]
fn counters_go_round() {
    let mut hdr = RawQueueHdr::from_parts(2, 8, u32::MAX, 0, u64::MAX, 0x7fff_ffff);
    let mut r = Reservation::new();
    assert_eq!(hdr.reserve_slot(SubmissionFlags::empty(), &mut r), Step::Done(0x7fff_ffff));
    assert_eq!(hdr.head(), 0);
    hdr.ring();
    assert_eq!(hdr.bell(), 0);
    hdr.advance_tail();
    assert_eq!(hdr.tail(), 0);
    hdr.dec_submit_waiting();
    assert!(hdr.submitter_waiting());
    hdr.inc_submit_waiting();
    assert!(!hdr.submitter_waiting());
}
