use twizzler_queue_raw::{
    QueueEntry, RawQueue, RawQueueHdr, ReceiveError, ReceiveFlags, SubmissionError,
    SubmissionFlags,
};

fn queue(l2len: usize) -> RawQueue<i32> {
    let qh = RawQueueHdr::new(l2len, std::mem::size_of::<QueueEntry<u32>>());
    let buffer = vec![QueueEntry::<i32>::default(); 1 << l2len];
    RawQueue::new(qh, buffer)
}

#[test]
fn it_works() {
    let result = 2 + 2;
    assert_eq!(result, 4);
}

#[test]
fn it_transmits() {
    let mut q = queue(4);

    for i in 0..100 {
        let res = q.submit(QueueEntry::new(i as u32, i * 10), SubmissionFlags::empty());
        assert_eq!(res, Ok(()));
        let res = q.receive(ReceiveFlags::empty());
        assert!(res.is_ok());
        assert_eq!(res.unwrap().info(), i as u32);
        assert_eq!(res.unwrap().item(), i * 10);
    }
}

#[test]
fn it_fills() {
    let mut q = queue(2);

    let res = q.submit(QueueEntry::new(1, 7), SubmissionFlags::empty());
    assert_eq!(res, Ok(()));
    let res = q.submit(QueueEntry::new(2, 7), SubmissionFlags::empty());
    assert_eq!(res, Ok(()));
    let res = q.submit(QueueEntry::new(3, 7), SubmissionFlags::empty());
    assert_eq!(res, Ok(()));
    let res = q.submit(QueueEntry::new(4, 7), SubmissionFlags::empty());
    assert_eq!(res, Ok(()));
    let res = q.submit(QueueEntry::new(1, 7), SubmissionFlags::NON_BLOCK);
    assert_eq!(res, Err(SubmissionError::WouldBlock));
}

#[test]
fn it_nonblock_receives() {
    let mut q = queue(4);

    let res = q.submit(QueueEntry::new(1, 7), SubmissionFlags::empty());
    assert_eq!(res, Ok(()));
    let res = q.receive(ReceiveFlags::empty());
    assert!(res.is_ok());
    assert_eq!(res.unwrap().info(), 1);
    assert_eq!(res.unwrap().item(), 7);
    let res = q.receive(ReceiveFlags::NON_BLOCK);
    assert_eq!(res.unwrap_err(), ReceiveError::WouldBlock);
}
