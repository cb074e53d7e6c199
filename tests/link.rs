use std::collections::VecDeque;

use haiku::errors::ErrorKind;
use haiku::kernel::Port;
use haiku::link::{LinkReceiver, LinkSender, Position, LINK_CODE};

fn mock_port() -> Port {
    Port::from_raw(100, true)
}

#[test]
fn test_link_sender_receiver_behaviour() {
    let mut sender = LinkSender::new(mock_port());
    let mut receiver = LinkReceiver::new(mock_port());
    let mut port: VecDeque<Vec<u8>> = VecDeque::new();

    // Scenario 1
    sender.start_message(99, 0).unwrap();
    sender.attach(&(-1 as i32)).unwrap();
    let test_string = "this is a test string";
    sender.attach_string(test_string).unwrap();
    assert_eq!(sender.position(), 41);
    sender.end_message(true).unwrap();
    let comparison: Vec<u8> = vec!(41, 0, 0, 0, 99, 0, 0, 0, 1, 0, 0, 0, 255, 255, 255, 255, 21, 0, 0, 0, 116, 104, 105, 115, 32, 105, 115, 32, 97, 32, 116, 101, 115, 116, 32, 115, 116, 114, 105, 110, 103);
    assert_eq!(sender.buffer(), &comparison);
    sender.flush(true).unwrap();
    assert_eq!(sender.position(), 0);
    port.extend(sender.take_frames());

    let frame = port.pop_front().unwrap();
    assert!(receiver.fetch(LINK_CODE, frame).is_ok());
    assert_eq!(receiver.buffer(), &comparison);
    assert_eq!(receiver.position(), Position::Start(0));

    let (code, size, needs_reply) = receiver.get_next_message_from_buffer().unwrap();
    assert_eq!(size, 41);
    assert_eq!(code, 99);
    assert_eq!(needs_reply, true);
    assert_eq!(receiver.position(), Position::Inside(12, 41));
    let data_1 = receiver.read::<i32>(165).unwrap(); // the size parameter is ignored, since i32 is fixed size
    assert_eq!(data_1, -1);
    let data_2 = receiver.read_string().unwrap();
    assert_eq!(data_2, test_string);
    assert_eq!(receiver.position(), Position::Inside(41, 41));
    assert!(receiver.get_next_message_from_buffer().is_none());
    assert_eq!(receiver.position(), Position::Empty);

    // Scenario 2
    sender.start_message(100, 0).unwrap();
    sender.flush(false).unwrap();
    let comparison: Vec<u8> = vec!(12, 0, 0, 0, 100, 0, 0, 0, 0, 0, 0, 0);
    assert_eq!(&sender.buffer()[0..12], comparison.as_slice());
    assert_eq!(sender.position(), 0);
    port.extend(sender.take_frames());

    // Scenario 3
    sender.start_message(101, 0).unwrap();
    sender.start_message(102, 2020).unwrap();
    assert_eq!(sender.position(), 12);
    port.extend(sender.take_frames());

    // Receiver check (scenario 2 + 3)
    let mut count: u32 = 100;
    loop {
        let frame = if receiver.needs_fetch() {
            port.pop_front().map(|data| (LINK_CODE, data))
        } else {
            None
        };
        let (code, _size, reply) = match receiver.get_next_message(frame) {
            Some(header) => header,
            None => break,
        };
        assert_eq!(count, code);
        assert_eq!(reply, false);
        count += 1;
        if code == 101 {
            sender.flush(false).unwrap();
            port.extend(sender.take_frames());
        }
    }
    assert_eq!(count, 103);
}

#[test]
fn batch_flushes_before_crossing_the_watermark() {
    let mut sender = LinkSender::new(mock_port());
    sender.start_message(1, 0).unwrap();
    sender.flush(false).unwrap();
    sender.start_message(2, 0).unwrap();
    sender.flush(false).unwrap();
    assert_eq!(sender.take_frames().len(), 2);
    sender.start_message(3, 0).unwrap();
    sender.start_message(4, 0).unwrap();
    assert_eq!(sender.position(), 24);
    sender.start_message(5, 3000).unwrap();
    assert_eq!(sender.position(), 12);
    let frames = sender.take_frames();
    assert_eq!(frames.len(), 1);
    assert_eq!(frames[0], vec![12, 0, 0, 0, 3, 0, 0, 0, 0, 0, 0, 0, 12, 0, 0, 0, 4, 0, 0, 0, 0, 0, 0, 0]);
}

#[test]
fn sender_refuses_bad_attachments() {
    let mut sender = LinkSender::new(mock_port());
    assert_eq!(sender.attach(&1u32).unwrap_err().kind(), ErrorKind::InvalidInput);
    sender.start_message(7, 0).unwrap();
    let long = "x".repeat(4097);
    assert_eq!(sender.attach_string(&long).unwrap_err().kind(), ErrorKind::InvalidInput);
    assert_eq!(sender.position(), 12);
    sender.cancel_message();
    assert_eq!(sender.position(), 0);
    assert_eq!(sender.get_port_id(), 100);
    sender.set_port(Port::from_raw(7, false));
    assert_eq!(sender.get_port_id(), 7);
}

#[test]
fn receiver_checks_frames_and_bounds() {
    let mut receiver = LinkReceiver::new(mock_port());
    assert_eq!(receiver.read::<i32>(0).unwrap_err().kind(), ErrorKind::NotAllowed);
    assert_eq!(receiver.fetch(7, vec![1, 2, 3]).unwrap_err().kind(), ErrorKind::InvalidData);
    assert_eq!(receiver.position(), Position::Empty);
    // a call of 16 bytes holding one u32
    let frame = vec![16, 0, 0, 0, 5, 0, 0, 0, 0, 0, 0, 0, 9, 0, 0, 0];
    receiver.fetch(LINK_CODE, frame).unwrap();
    assert_eq!(receiver.read::<i32>(0).unwrap_err().kind(), ErrorKind::NotAllowed);
    assert_eq!(receiver.get_next_message_from_buffer(), Some((5, 16, false)));
    assert_eq!(receiver.read::<u64>(0).unwrap_err().kind(), ErrorKind::InvalidData);
    assert_eq!(receiver.read::<u32>(0).unwrap(), 9);
    assert_eq!(receiver.read_string().unwrap_err().kind(), ErrorKind::InvalidData);
    // a header whose size runs past the frame
    receiver.fetch(LINK_CODE, vec![99, 0, 0, 0, 5, 0, 0, 0, 0, 0, 0, 0]).unwrap();
    assert_eq!(receiver.get_next_message_from_buffer(), None);
    assert_eq!(receiver.position(), Position::Empty);
    assert_eq!(receiver.get_port_id(), 100);
}

#[test]
fn frames_stay_until_written() {
    let mut sender = LinkSender::new(mock_port());
    sender.start_message(1, 0).unwrap();
    sender.flush(false).unwrap();
    sender.start_message(2, 0).unwrap();
    sender.flush(false).unwrap();
    assert_eq!(sender.frame_count(), 2);
    assert_eq!(sender.first_frame(), vec![12, 0, 0, 0, 1, 0, 0, 0, 0, 0, 0, 0]);
    // a failed write leaves the frame in place
    assert_eq!(sender.frame_count(), 2);
    sender.frame_written();
    assert_eq!(sender.first_frame(), vec![12, 0, 0, 0, 2, 0, 0, 0, 0, 0, 0, 0]);
    sender.frame_written();
    assert_eq!(sender.frame_count(), 0);
}
