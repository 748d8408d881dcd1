use twizzler_queue_raw::{
    QueueEntry, RawQueue, RawQueueHdr, ReceiveError, ReceiveFlags, Reception, Reservation, Step,
    SubmissionError, SubmissionFlags, SPIN_ATTEMPTS,
};

fn fresh(l2len: usize) -> RawQueue<u64> {
    let hdr = RawQueueHdr::new(l2len, std::mem::size_of::<QueueEntry<u64>>());
    RawQueue::new(hdr, vec![QueueEntry::default(); 1 << l2len])
}

fn put(q: &mut RawQueue<u64>, info: u32, data: u64) {
    assert_eq!(q.submit(QueueEntry::new(info, data), SubmissionFlags::NON_BLOCK), Ok(()));
}

fn take(q: &mut RawQueue<u64>) -> (u32, u64) {
    let e = q.receive(ReceiveFlags::NON_BLOCK).unwrap();
    (e.info(), e.item())
}

#[test]
fn entries_come_out_in_order() {
    let mut q = fresh(4);
    for i in 0..10u32 {
        put(&mut q, i, 1000 + i as u64);
    }
    for i in 0..10u32 {
        assert_eq!(take(&mut q), (i, 1000 + i as u64));
    }
    assert_eq!(q.receive(ReceiveFlags::NON_BLOCK).unwrap_err(), ReceiveError::WouldBlock);
}

#[test]
fn round_trip_keeps_tag_and_payload() {
    let mut q = fresh(0);
    put(&mut q, 0xdead_beef, 0x0123_4567_89ab_cdef);
    assert_eq!(take(&mut q), (0xdead_beef, 0x0123_4567_89ab_cdef));
    put(&mut q, 0, 0);
    assert_eq!(take(&mut q), (0, 0));
    put(&mut q, u32::MAX, u64::MAX);
    assert_eq!(take(&mut q), (u32::MAX, u64::MAX));
}

#[test]
fn full_queue_refuses() {
    for l2len in 0..6usize {
        let mut q = fresh(l2len);
        for i in 0..(1u32 << l2len) {
            put(&mut q, i, 0);
        }
        assert_eq!(
            q.submit(QueueEntry::new(99, 0), SubmissionFlags::NON_BLOCK),
            Err(SubmissionError::WouldBlock)
        );
    }
}

#[test]
fn empty_queue_refuses() {
    let mut q = fresh(3);
    assert_eq!(q.receive(ReceiveFlags::NON_BLOCK).unwrap_err(), ReceiveError::WouldBlock);
    put(&mut q, 1, 1);
    assert_eq!(take(&mut q), (1, 1));
    assert_eq!(q.receive(ReceiveFlags::NON_BLOCK).unwrap_err(), ReceiveError::WouldBlock);
}

#[test]
fn order_survives_many_trips_round_the_buffer() {
    let mut q = fresh(2);
    let mut next_in = 0u32;
    let mut next_out = 0u32;
    for cycle in 0..40u32 {
        let burst = 1 + cycle % 4;
        for _ in 0..burst {
            put(&mut q, next_in, next_in as u64 * 3);
            next_in += 1;
        }
        for _ in 0..burst {
            assert_eq!(take(&mut q), (next_out, next_out as u64 * 3));
            next_out += 1;
        }
    }
    assert_eq!(next_out, 100);
}

#[test]
fn order_survives_a_queue_that_stays_partly_filled() {
    let mut q = fresh(3);
    for i in 0..5u32 {
        put(&mut q, i, 0);
    }
    for i in 0..64u32 {
        assert_eq!(take(&mut q), (i, 0));
        put(&mut q, i + 5, 0);
    }
}

#[test]
fn stamp_is_position_and_turn_bit() {
    let mut q = fresh(1);
    let expected = [0x8000_0000u32, 0x8000_0001, 2, 3, 0x8000_0004, 0x8000_0005, 6];
    for stamp in expected {
        put(&mut q, 0, 0);
        let e = q.receive(ReceiveFlags::NON_BLOCK).unwrap();
        assert_eq!(e.get_cmd_slot(), stamp);
    }
}

#[test]
fn blocked_producer_goes_on_after_a_reception() {
    let mut q = fresh(1);
    put(&mut q, 1, 10);
    put(&mut q, 2, 20);

    let mut r = Reservation::new();
    let item = QueueEntry::new(3, 30);
    for _ in 0..SPIN_ATTEMPTS {
        assert_eq!(q.poll_submit(item, SubmissionFlags::empty(), &mut r), Step::Spin);
    }
    assert!(!q.hdr().submitter_waiting());
    assert_eq!(q.poll_submit(item, SubmissionFlags::empty(), &mut r), Step::Wait(0));
    assert!(q.hdr().submitter_waiting());

    let mut w = Reception::new();
    match q.poll_receive(ReceiveFlags::empty(), &mut w) {
        Step::Done((entry, wake)) => {
            assert_eq!((entry.info(), entry.item()), (1, 10));
            assert!(wake);
        }
        _ => panic!("the oldest entry is there"),
    }

    assert_eq!(q.poll_submit(item, SubmissionFlags::empty(), &mut r), Step::Done(false));
    assert!(!q.hdr().submitter_waiting());
    assert_eq!(take(&mut q), (2, 20));
    assert_eq!(take(&mut q), (3, 30));
}

#[test]
fn blocked_consumer_goes_on_after_a_submission() {
    let mut q = fresh(1);
    let mut w = Reception::new();
    for _ in 0..SPIN_ATTEMPTS {
        assert!(matches!(q.poll_receive(ReceiveFlags::empty(), &mut w), Step::Spin));
    }
    assert!(!q.hdr().consumer_waiting());
    assert!(matches!(q.poll_receive(ReceiveFlags::empty(), &mut w), Step::Wait(0)));
    assert!(q.hdr().consumer_waiting());

    let mut r = Reservation::new();
    assert_eq!(
        q.poll_submit(QueueEntry::new(5, 55), SubmissionFlags::empty(), &mut r),
        Step::Done(true)
    );

    match q.poll_receive(ReceiveFlags::empty(), &mut w) {
        Step::Done((entry, wake)) => {
            assert_eq!((entry.info(), entry.item()), (5, 55));
            assert!(!wake);
        }
        _ => panic!("the entry was published"),
    }
    assert!(!q.hdr().consumer_waiting());
}

#[test]
fn poll_submit_gives_up_when_asked_to() {
    let mut q = fresh(0);
    put(&mut q, 1, 1);
    let mut r = Reservation::new();
    assert_eq!(
        q.poll_submit(QueueEntry::new(2, 2), SubmissionFlags::NON_BLOCK, &mut r),
        Step::WouldBlock
    );
    assert_eq!((r.attempts, r.waiter), (SPIN_ATTEMPTS, false));
    assert_eq!((q.hdr().head(), q.hdr().bell(), q.hdr().tail()), (1, 1, 0));
}

#[test]
fn poll_receive_gives_up_when_asked_to() {
    let mut q = fresh(0);
    let mut w = Reception::new();
    assert!(matches!(q.poll_receive(ReceiveFlags::NON_BLOCK, &mut w), Step::WouldBlock));
    assert_eq!(w.attempts, SPIN_ATTEMPTS);
}

#[test]
fn consumer_does_not_overtake_a_late_producer() {
    // Positions 0 and 1 are drawn. The producer of position 1 has written, stamped and rung;
    // the producer of position 0 has not written yet.
    let hdr = RawQueueHdr::from_parts(2, 16, 2, 0, 1, 0);
    let mut buf = vec![QueueEntry::<u64>::default(); 4];
    buf[1] = QueueEntry::new(200, 2);
    buf[1].set_cmd_slot(0x8000_0001);
    let mut q = RawQueue::new(hdr, buf.clone());
    // The doorbell has moved, yet the slot at the tail is not stamped: the consumer waits.
    assert_eq!(q.receive(ReceiveFlags::NON_BLOCK).unwrap_err(), ReceiveError::WouldBlock);
    assert_eq!(q.hdr().tail(), 0);

    // Now the producer of position 0 has written, stamped and rung as well.
    let hdr = RawQueueHdr::from_parts(2, 16, 2, 0, 2, 0);
    buf[0] = QueueEntry::new(100, 1);
    buf[0].set_cmd_slot(0x8000_0000);
    let mut q = RawQueue::new(hdr, buf);
    assert_eq!(take(&mut q), (100, 1));
    assert_eq!(take(&mut q), (200, 2));
}

#[test]
fn refused_submission_reserves_nothing() {
    let mut q = fresh(2);
    for i in 1..=4u32 {
        assert_eq!(q.submit(QueueEntry::new(i, 7), SubmissionFlags::empty()), Ok(()));
    }
    assert_eq!(
        q.submit(QueueEntry::new(5, 7), SubmissionFlags::NON_BLOCK),
        Err(SubmissionError::WouldBlock)
    );
    assert_eq!((q.hdr().head(), q.hdr().bell(), q.hdr().tail()), (4, 4, 0));
    // One slot is freed, and the refused submission has taken none.
    assert_eq!(take(&mut q), (1, 7));
    assert_eq!(q.submit(QueueEntry::new(6, 7), SubmissionFlags::NON_BLOCK), Ok(()));
    assert_eq!(
        q.submit(QueueEntry::new(7, 7), SubmissionFlags::NON_BLOCK),
        Err(SubmissionError::WouldBlock)
    );
    for i in [2u32, 3, 4, 6] {
        assert_eq!(take(&mut q), (i, 7));
    }
    assert_eq!(q.receive(ReceiveFlags::NON_BLOCK).unwrap_err(), ReceiveError::WouldBlock);
}

#[test]
fn refused_submissions_leave_no_gap() {
    let mut q = fresh(2);
    let mut next_in = 0u32;
    let mut next_out = 0u32;
    for round in 0..30u32 {
        // Fill the queue, and then try three times more.
        while q.submit(QueueEntry::new(next_in, 0), SubmissionFlags::NON_BLOCK).is_ok() {
            next_in += 1;
        }
        for _ in 0..3 {
            assert_eq!(
                q.submit(QueueEntry::new(next_in, 0), SubmissionFlags::NON_BLOCK),
                Err(SubmissionError::WouldBlock)
            );
        }
        assert_eq!(next_in - next_out, 4);
        // Every entry that went in comes out, in order.
        for _ in 0..1 + round % 4 {
            assert_eq!(take(&mut q), (next_out, 0));
            next_out += 1;
        }
    }
    while next_out < next_in {
        assert_eq!(take(&mut q), (next_out, 0));
        next_out += 1;
    }
    assert_eq!(q.receive(ReceiveFlags::NON_BLOCK).unwrap_err(), ReceiveError::WouldBlock);
}

#[test]
fn each_producer_keeps_its_order() {
    let mut q = fresh(3);
    let producers = 4u32;
    let items = 50u64;
    let mut sent = vec![0u64; producers as usize];
    let mut seen = vec![0u64; producers as usize];
    let mut waiting = 0u32;
    let mut total = 0u64;
    let mut turn = 0u32;
    while total < producers as u64 * items {
        // Producers take turns in an uneven pattern; the consumer takes some when the queue
        // is full or a producer is done.
        let p = (turn * 7 + turn / 3) % producers;
        turn += 1;
        if sent[p as usize] < items && waiting < 8 {
            put(&mut q, p, sent[p as usize]);
            sent[p as usize] += 1;
            waiting += 1;
            continue;
        }
        let burst = 1 + turn % 5;
        for _ in 0..burst {
            if waiting == 0 {
                break;
            }
            let (from, number) = take(&mut q);
            assert_eq!(number, seen[from as usize]);
            seen[from as usize] += 1;
            waiting -= 1;
            total += 1;
        }
    }
    assert_eq!(total, 200);
    assert_eq!(seen, vec![50, 50, 50, 50]);
    assert_eq!(q.receive(ReceiveFlags::NON_BLOCK).unwrap_err(), ReceiveError::WouldBlock);
}

/// A queue that holds nothing and whose three counters stand two positions before the end of
/// their words, which is also two positions before the end of the ring.
fn near_the_end() -> RawQueue<u64> {
    let hdr = RawQueueHdr::from_parts(
        2,
        std::mem::size_of::<QueueEntry<u64>>(),
        0xffff_fffe,
        0,
        0xffff_ffff_ffff_fffe,
        0x7fff_fffe,
    );
    // The last trip of the ring is an odd one, the first an even one: slots 2 and 3 must not
    // look stamped for the odd trip, slots 0 and 1 not for the even trip.
    let mut buf = vec![QueueEntry::<u64>::default(); 4];
    buf[2].set_cmd_slot(0x8000_0000);
    buf[3].set_cmd_slot(0x8000_0000);
    RawQueue::new(hdr, buf)
}

#[test]
fn order_survives_the_counters_going_round() {
    let mut q = near_the_end();
    assert_eq!(q.receive(ReceiveFlags::NON_BLOCK).unwrap_err(), ReceiveError::WouldBlock);
    for i in 0..4u32 {
        put(&mut q, i, 7);
    }
    assert_eq!(q.hdr().head(), 2);
    assert_eq!(q.hdr().bell(), 2);
    assert_eq!(
        q.submit(QueueEntry::new(9, 9), SubmissionFlags::NON_BLOCK),
        Err(SubmissionError::WouldBlock)
    );
    let stamps = [0x7fff_fffeu32, 0x7fff_ffff, 0x8000_0000, 0x8000_0001];
    for i in 0..4u32 {
        let e = q.receive(ReceiveFlags::NON_BLOCK).unwrap();
        assert_eq!((e.info(), e.item()), (i, 7));
        assert_eq!(e.get_cmd_slot(), stamps[i as usize]);
    }
    assert_eq!(q.hdr().tail(), 2);
}

#[test]
fn queue_works_on_across_the_end_of_the_ring() {
    let hdr = RawQueueHdr::from_parts(1, 16, 0x7fff_ffff, 0, 0x7fff_ffff, 0x7fff_ffff);
    // Position 2^31 - 1 lies on the last, odd trip, in slot 1, which must not look stamped
    // for an odd trip. Slot 0 is read next, at position 0 of the first trip, and must not
    // look stamped for an even one.
    let mut buf = vec![QueueEntry::<u64>::default(); 2];
    buf[1].set_cmd_slot(0x8000_0000);
    let mut q = RawQueue::new(hdr, buf);
    for i in 0..50u32 {
        put(&mut q, i, i as u64);
        if i % 2 == 1 {
            assert_eq!(take(&mut q), (i - 1, (i - 1) as u64));
            assert_eq!(take(&mut q), (i, i as u64));
        }
    }
    assert_eq!(q.hdr().tail(), 49);
    assert_eq!(q.hdr().head(), 0x8000_0031);
}
