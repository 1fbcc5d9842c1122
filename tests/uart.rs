use fsk_modem::uart::{RxFramer, RxState, UartRx, UartTx};

fn frame(byte: u8, sps: usize) -> Vec<u8> {
    let mut tx = UartTx::new(sps);
    tx.put_byte(byte);
    let mut buf = vec![0u8; 10 * sps];
    tx.get_samples(&mut buf);
    buf
}

#[test]
fn transmit_0x55_gives_alternating_symbols() {
    let buf = frame(0x55, 160);
    assert_eq!(buf.len(), 1600);
    for (i, &s) in buf.iter().enumerate() {
        let expected = if (i / 160) % 2 == 0 { 0 } else { 1 };
        assert_eq!(s, expected, "sample {}", i);
    }
}

#[test]
fn receive_0x55_at_160_samples_per_symbol() {
    let buf = frame(0x55, 160);
    let mut rx = RxFramer::new(160);
    assert_eq!(rx.push_samples(&buf), vec![0x55]);
    assert_eq!(rx.state(), RxState::Idle);
}

#[test]
fn receive_0x55_through_channel() {
    let buf = frame(0x55, 160);
    let (to, from) = crossbeam_channel::unbounded();
    let mut rx = UartRx::new(160, to);
    assert_eq!(rx.put_samples(&buf), 0);
    assert_eq!(from.try_recv(), Ok(0x55));
    assert!(from.try_recv().is_err());
    assert_eq!(rx.state(), RxState::Idle);
}

#[test]
fn refused_delivery_is_counted() {
    let buf = frame(0xA7, 160);
    let (to, from) = crossbeam_channel::unbounded();
    drop(from);
    let mut rx = UartRx::new(160, to);
    assert_eq!(rx.put_samples(&buf), 1);
    assert_eq!(rx.state(), RxState::Idle);

    let (to, _from) = crossbeam_channel::bounded(0);
    let mut rx = UartRx::new(160, to);
    assert_eq!(rx.put_samples(&buf), 1);
}

#[test]
fn every_byte_round_trips() {
    for sps in [80usize, 100, 160] {
        for b in 0..=255u8 {
            let buf = frame(b, sps);
            let mut rx = RxFramer::new(sps);
            assert_eq!(rx.push_samples(&buf), vec![b], "byte {} at {}", b, sps);
        }
    }
}

#[test]
fn consecutive_frames_round_trip() {
    let mut tx = UartTx::new(120);
    let msg = b"Hello, modem";
    for &b in msg.iter() {
        tx.put_byte(b);
    }
    let mut rx = RxFramer::new(120);
    let mut got = Vec::new();
    // drained in chunks that do not line up with symbols
    for _ in 0..(msg.len() * 1200 / 97 + 2) {
        let mut buf = vec![0u8; 97];
        tx.get_samples(&mut buf);
        got.extend(rx.push_samples(&buf));
    }
    assert_eq!(got, msg.to_vec());
}

#[test]
fn split_buffers_match_one_buffer() {
    let buf = frame(0x3C, 90);
    let mut whole = RxFramer::new(90);
    let a = whole.push_samples(&buf);
    let mut parts = RxFramer::new(90);
    let mut b = parts.push_samples(&buf[..333]);
    b.extend(parts.push_samples(&buf[333..]));
    assert_eq!(a, b);
    assert_eq!(a, vec![0x3C]);
}

#[test]
fn empty_and_idle_input_yield_nothing() {
    let mut rx = RxFramer::new(160);
    assert!(rx.push_samples(&[]).is_empty());
    assert_eq!(rx.state(), RxState::Idle);
    for n in [1usize, 29, 30, 31, 1000, 5000] {
        let ones = vec![1u8; n];
        assert!(rx.push_samples(&ones).is_empty());
        assert_eq!(rx.state(), RxState::Idle);
    }
    let (to, from) = crossbeam_channel::unbounded();
    let mut rx = UartRx::new(160, to);
    assert_eq!(rx.put_samples(&vec![1u8; 4000]), 0);
    assert!(from.try_recv().is_err());
    assert_eq!(rx.state(), RxState::Idle);
}

#[test]
fn short_low_glitch_is_not_a_start_bit() {
    let mut line = vec![1u8; 100];
    line.extend(vec![0u8; 29]);
    line.extend(vec![1u8; 2000]);
    let mut rx = RxFramer::new(160);
    assert!(rx.push_samples(&line).is_empty());
    assert_eq!(rx.state(), RxState::Idle);
}

#[test]
fn start_edge_after_thirty_low_samples() {
    let mut line = vec![1u8; 40];
    line.extend(vec![0u8; 29]);
    let mut rx = RxFramer::new(160);
    rx.push_samples(&line);
    assert_eq!(rx.state(), RxState::Idle);
    rx.push_samples(&[0]);
    assert_eq!(rx.state(), RxState::MidBit);
    rx.push_samples(&vec![0u8; 49]);
    assert_eq!(rx.state(), RxState::MidBit);
    rx.push_samples(&[0]);
    assert_eq!(rx.state(), RxState::Receiving);
}

#[test]
fn stop_bit_level_is_not_checked() {
    let mut buf = frame(0x81, 160);
    for s in buf[1440..].iter_mut() {
        *s = 0;
    }
    let mut rx = RxFramer::new(160);
    assert_eq!(rx.push_samples(&buf), vec![0x81]);
}

#[test]
fn data_sample_is_masked_to_one_bit() {
    let buf: Vec<u8> = frame(0x0F, 100).iter().map(|&s| if s == 1 { 3 } else { 0 }).collect();
    let mut rx = RxFramer::new(100);
    assert_eq!(rx.push_samples(&buf), vec![0x0F]);
}

#[test]
fn underrun_pads_with_idle_level() {
    let mut tx = UartTx::new(2);
    tx.put_byte(0x01);
    let mut buf = vec![7u8; 25];
    tx.get_samples(&mut buf);
    let expected: Vec<u8> = vec![
        0, 0, 1, 1, 0, 0, 0, 0, 0, 0, 0, 0, 0, 0, 0, 0, 0, 0, 1, 1, 1, 1, 1, 1, 1,
    ];
    assert_eq!(buf, expected);
    let mut more = vec![9u8; 4];
    tx.get_samples(&mut more);
    assert_eq!(more, vec![1, 1, 1, 1]);
}

#[test]
fn partial_drain_keeps_the_rest() {
    let mut tx = UartTx::new(3);
    tx.put_byte(0xFF);
    let mut a = vec![5u8; 4];
    tx.get_samples(&mut a);
    assert_eq!(a, vec![0, 0, 0, 1]);
    let mut b = vec![5u8; 26];
    tx.get_samples(&mut b);
    assert_eq!(b, vec![1u8; 26]);
    let mut empty: [u8; 0] = [];
    tx.get_samples(&mut empty);
}
