use crossbeam_channel::{Receiver, TryRecvError};
use std::collections::HashMap;
use turbopipe::{Closing, Delivery, Frame, Submission, TurboPipe, Work};

/// The receiving ends of the writers' queues, by destination: the tests play
/// the writers and drain them by hand.
type Sinks = HashMap<i32, Receiver<Frame>>;

fn into_sinks(sinks: &mut Sinks) -> impl FnOnce(Receiver<Frame>, i32) + '_ {
    move |rx, file| {
        sinks.insert(file, rx);
    }
}

/// Plays a reader: takes the next work item from the shared queue, copies
/// its region out of `memory` and hands the copy over.
fn read_next(
    engine: &mut TurboPipe<()>,
    queue: &Receiver<Work>,
    memory: &HashMap<usize, Vec<u8>>,
) -> Delivery {
    let work = queue.try_recv().expect("a work item is queued");
    let region = &memory[&work.data];
    engine.deliver(work, region[..work.size].to_vec())
}

/// Plays a writer: appends to `sink` every frame that its queue holds.
fn drain(frames: &Receiver<Frame>, sink: &mut Vec<u8>) {
    while let Ok(frame) = frames.try_recv() {
        sink.extend_from_slice(&frame);
    }
}

#[test]
fn one_payload_reaches_its_destination() {
    let (mut engine, queue) = TurboPipe::<()>::new();
    let mut sinks = Sinks::new();
    let mut memory = HashMap::new();
    memory.insert(0x1000usize, b"AAAA".to_vec());

    assert_eq!(engine.pipe(0x1000, 4, 7, into_sinks(&mut sinks)), Submission::Queued);
    assert!(!engine.sync());
    assert_eq!(read_next(&mut engine, &queue, &memory), Delivery::Forwarded);
    assert!(engine.sync());

    let mut received = Vec::new();
    drain(&sinks[&7], &mut received);
    assert_eq!(received, b"AAAA".to_vec());
}

#[test]
fn a_thousand_frames_arrive_in_submission_order() {
    let (mut engine, queue) = TurboPipe::<()>::new();
    let mut sinks = Sinks::new();
    let mut memory = HashMap::new();
    let scratch: usize = 0x2000;
    let mut expected = Vec::new();

    for i in 0..1000u32 {
        let mut payload = vec![0u8; 16];
        payload[..4].copy_from_slice(&i.to_be_bytes());
        payload[15] = (i % 251) as u8;
        expected.extend_from_slice(&payload);
        memory.insert(scratch, payload);

        assert_eq!(engine.pipe(scratch, 16, 3, into_sinks(&mut sinks)), Submission::Queued);
        assert_eq!(read_next(&mut engine, &queue, &memory), Delivery::Forwarded);
        assert!(engine.sync());
    }

    assert_eq!(sinks.len(), 1);
    let mut received = Vec::new();
    drain(&sinks[&3], &mut received);
    assert_eq!(received.len(), 16_000);
    assert_eq!(received, expected);
}

#[test]
fn close_waits_for_every_copy_and_ends_the_writer() {
    let (mut engine, queue) = TurboPipe::<i32>::new();
    let mut kept: Option<Receiver<Frame>> = None;
    let mut memory = HashMap::new();
    memory.insert(0x10usize, b"one".to_vec());
    memory.insert(0x20usize, b"two".to_vec());
    memory.insert(0x30usize, b"three".to_vec());

    assert_eq!(
        engine.pipe(0x10, 3, 5, |rx, file| {
            kept = Some(rx);
            file + 100
        }),
        Submission::Queued
    );
    assert_eq!(engine.pipe(0x20, 3, 5, |_, _| -1), Submission::Queued);
    assert_eq!(engine.pipe(0x30, 5, 5, |_, _| -1), Submission::Queued);
    let frames = kept.expect("the first submission created the writer");

    for _ in 0..3 {
        assert!(matches!(engine.close(5), Closing::Busy));
        let work = queue.try_recv().unwrap();
        let copy = memory[&work.data][..work.size].to_vec();
        assert_eq!(engine.deliver(work, copy), Delivery::Forwarded);
    }

    // The handle is the one that the first spawn returned.
    assert!(matches!(engine.close(5), Closing::Closed(Some(105))));

    // Everything reached the writer's queue, in order, and the queue is
    // closed: the writer ends after the last frame.
    assert_eq!(frames.try_recv(), Ok(b"one".to_vec()));
    assert_eq!(frames.try_recv(), Ok(b"two".to_vec()));
    assert_eq!(frames.try_recv(), Ok(b"three".to_vec()));
    assert_eq!(frames.try_recv(), Err(TryRecvError::Disconnected));

    // No writer is left for the destination.
    assert!(matches!(engine.close(5), Closing::Closed(None)));
    let late = Work { data: 0x40, size: 0, file: 5 };
    assert_eq!(engine.deliver(late, Vec::new()), Delivery::Discarded);
}

#[test]
fn large_payloads_to_two_destinations_do_not_wait_for_each_other() {
    let (mut engine, queue) = TurboPipe::<()>::new();
    let mut sinks = Sinks::new();
    let mut memory = HashMap::new();
    let size: usize = (1 << 20) + 17;
    let first: Vec<u8> = (0..size).map(|i| (i % 253) as u8).collect();
    let second: Vec<u8> = (0..size).map(|i| (i % 241) as u8 ^ 0x5a).collect();
    memory.insert(0x10_0000usize, first.clone());
    memory.insert(0x90_0000usize, second.clone());

    // The writer of destination 1 never gets to write: nobody drains it
    // until the end.
    assert_eq!(engine.pipe(0x10_0000, size, 1, into_sinks(&mut sinks)), Submission::Queued);
    assert_eq!(engine.pipe(0x90_0000, size, 2, into_sinks(&mut sinks)), Submission::Queued);
    assert_eq!(read_next(&mut engine, &queue, &memory), Delivery::Forwarded);
    assert_eq!(read_next(&mut engine, &queue, &memory), Delivery::Forwarded);
    assert!(engine.sync());

    let mut at_two = Vec::new();
    drain(&sinks[&2], &mut at_two);
    assert_eq!(at_two, second);

    // A second round to destination 2 goes through while destination 1 is
    // still stalled.
    assert_eq!(engine.pipe(0x90_0000, size, 2, into_sinks(&mut sinks)), Submission::Queued);
    assert_eq!(read_next(&mut engine, &queue, &memory), Delivery::Forwarded);
    assert!(matches!(engine.close(2), Closing::Closed(Some(()))));
    let mut again = Vec::new();
    drain(&sinks[&2], &mut again);
    assert_eq!(again, second);

    let mut at_one = Vec::new();
    drain(&sinks[&1], &mut at_one);
    assert_eq!(at_one, first);
}

#[test]
fn frames_arrive_in_the_order_of_completion_not_of_submission() {
    let (mut engine, queue) = TurboPipe::<()>::new();
    let mut sinks = Sinks::new();

    assert_eq!(engine.pipe(0xa0, 1, 9, into_sinks(&mut sinks)), Submission::Queued);
    assert_eq!(engine.pipe(0xb0, 1, 9, into_sinks(&mut sinks)), Submission::Queued);

    // Two readers each take one item; the second one finishes first.
    let early = queue.try_recv().unwrap();
    let late = queue.try_recv().unwrap();
    assert_eq!(early.data, 0xa0);
    assert_eq!(late.data, 0xb0);
    assert_eq!(engine.deliver(late, b"B".to_vec()), Delivery::Forwarded);
    assert_eq!(engine.deliver(early, b"A".to_vec()), Delivery::Forwarded);

    let mut received = Vec::new();
    drain(&sinks[&9], &mut received);
    assert_eq!(received, b"BA".to_vec());
}

#[test]
fn the_barrier_is_reached_once_nothing_awaits_its_copy() {
    let (mut engine, queue) = TurboPipe::<()>::new();
    let mut sinks = Sinks::new();
    assert!(engine.sync());

    assert_eq!(engine.pipe(0x100, 2, 1, into_sinks(&mut sinks)), Submission::Queued);
    assert_eq!(engine.pipe(0x200, 2, 2, into_sinks(&mut sinks)), Submission::Queued);
    assert!(!engine.sync());

    let a = queue.try_recv().unwrap();
    assert_eq!(engine.deliver(a, b"aa".to_vec()), Delivery::Forwarded);
    assert!(!engine.sync());
    let b = queue.try_recv().unwrap();
    assert_eq!(engine.deliver(b, b"bb".to_vec()), Delivery::Forwarded);

    // Reached: the shared queue holds nothing, so no region is read again.
    assert!(engine.sync());
    assert_eq!(queue.try_recv(), Err(TryRecvError::Empty));
}

#[test]
fn a_busy_address_is_not_submitted_twice() {
    let (mut engine, queue) = TurboPipe::<()>::new();
    let mut sinks = Sinks::new();

    assert_eq!(engine.pipe(0x500, 8, 1, into_sinks(&mut sinks)), Submission::Queued);
    // The same address again, even for another destination and length.
    assert_eq!(engine.pipe(0x500, 8, 1, into_sinks(&mut sinks)), Submission::Busy);
    assert_eq!(engine.pipe(0x500, 4, 2, into_sinks(&mut sinks)), Submission::Busy);
    // The attempt that had to wait still gave its destination a writer.
    assert!(sinks.contains_key(&2));

    // Only the first one is on the queue.
    let work = queue.try_recv().unwrap();
    assert_eq!(work, Work { data: 0x500, size: 8, file: 1 });
    assert_eq!(queue.try_recv(), Err(TryRecvError::Empty));

    assert_eq!(engine.deliver(work, vec![1; 8]), Delivery::Forwarded);
    assert_eq!(engine.pipe(0x500, 4, 2, into_sinks(&mut sinks)), Submission::Queued);
    let next = queue.try_recv().unwrap();
    assert_eq!(next, Work { data: 0x500, size: 4, file: 2 });
}
