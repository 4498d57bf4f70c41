use salebot::chain::{Block, ChainSegment, Log, Receipt, Transaction};
use salebot::decode::{decode_chain_into_events, decode_log, swap_event_topic, PoolEvent, SwapEvent};
use salebot::publish::{Action, PublishError, SegmentRun};
use salebot::record::{serialize_swap_event, swap_record};

fn word_i128(v: i128) -> Vec<u8> {
    let fill = if v < 0 { 0xff } else { 0x00 };
    let mut w = vec![fill; 16];
    w.extend_from_slice(&v.to_be_bytes());
    w
}

fn word_u128(v: u128) -> Vec<u8> {
    let mut w = vec![0u8; 16];
    w.extend_from_slice(&v.to_be_bytes());
    w
}

fn address_topic(byte: u8) -> Vec<u8> {
    let mut w = vec![0u8; 12];
    w.extend_from_slice(&[byte; 20]);
    w
}

fn swap_data(amount0: i128, amount1: i128, liquidity: u128, tick: i32) -> Vec<u8> {
    let mut d = word_i128(amount0);
    d.extend(word_i128(amount1));
    d.extend(word_u128(1u128 << 96));
    d.extend(word_u128(liquidity));
    d.extend(word_i128(tick as i128));
    d
}

fn swap_log(sender: u8, recipient: u8, amount0: i128, amount1: i128, liquidity: u128) -> Log {
    Log {
        address: vec![0x11; 20],
        topics: vec![swap_event_topic(), address_topic(sender), address_topic(recipient)],
        data: swap_data(amount0, amount1, liquidity, -5),
    }
}

fn other_log() -> Log {
    let mut topic = swap_event_topic();
    topic[0] ^= 0x01;
    Log {
        address: vec![0x22; 20],
        topics: vec![topic, address_topic(0xaa), address_topic(0xbb)],
        data: swap_data(1, 2, 3, 4),
    }
}

fn block(timestamp: u64, receipts: Vec<Vec<Log>>) -> Block {
    let transactions = (0..receipts.len()).map(|i| Transaction { hash: vec![i as u8; 32] }).collect();
    Block {
        timestamp,
        transactions,
        receipts: receipts.into_iter().map(|logs| Receipt { logs }).collect(),
    }
}

fn hex(byte: u8) -> String {
    format!("0x{}", format!("{:02x}", byte).repeat(20))
}

fn record(amount0: &str, amount1: &str, liquidity: u128, sender: u8, recipient: u8, timestamp: u64) -> String {
    format!(
        "{{\"address\":\"{}\",\"amount0\":\"{}\",\"amount1\":\"{}\",\"liquidity\":\"{}\",\"recipient\":\"{}\",\"sender\":\"{}\",\"timestamp\":{}}}",
        hex(0x11), amount0, amount1, liquidity, hex(recipient), hex(sender), timestamp
    )
}

/// Runs segments in order against a queue that fails at the given append,
/// returning what was appended and the error that stopped the processing.
fn run_segments(segments: &[ChainSegment], fail_at: Option<usize>) -> (Vec<String>, Option<PublishError>) {
    let mut queue = Vec::new();
    let mut attempts = 0;
    for segment in segments {
        let mut run = SegmentRun::new(segment);
        loop {
            match run.next_action(segment) {
                Action::Append(text) => {
                    let ok = fail_at != Some(attempts);
                    attempts += 1;
                    if ok {
                        queue.push(text);
                    }
                    run.append_result(ok);
                }
                Action::Finished => break,
                Action::Abort(e) => return (queue, Some(e)),
            }
        }
    }
    (queue, None)
}

#[test]
fn swap_topic_is_signature_hash() {
    let expected = "c42079f94a6350d7e6235f29174924f928cc2ac818eb64fed8004e115fbcca67";
    let got: String = swap_event_topic().iter().map(|b| format!("{:02x}", b)).collect();
    assert_eq!(got, expected);
}

#[test]
fn scenario_one_swap_and_one_foreign_log() {
    let segment = ChainSegment {
        blocks: vec![block(1_700_000_000, vec![vec![swap_log(0xaa, 0xbb, 100, -50, 10), other_log()]])],
    };
    let (queue, err) = run_segments(&[segment], None);
    assert_eq!(err, None);
    assert_eq!(queue.len(), 1);
    assert_eq!(queue[0], record("100", "-50", 10, 0xaa, 0xbb, 1_700_000_000));
    assert!(queue[0].contains("\"timestamp\":1700000000"));
    assert!(queue[0].contains(&format!("\"sender\":\"{}\"", hex(0xaa))));
}

#[test]
fn scenario_no_logs() {
    let segment = ChainSegment { blocks: vec![block(5, vec![vec![], vec![]]), block(6, vec![])] };
    assert!(decode_chain_into_events(&segment).is_empty());
    let (queue, err) = run_segments(&[segment], None);
    assert!(queue.is_empty());
    assert_eq!(err, None);
}

#[test]
fn scenario_append_failure_stops_processing() {
    let first = ChainSegment {
        blocks: vec![block(
            7,
            vec![vec![swap_log(1, 2, 1, -1, 1), swap_log(3, 4, 2, -2, 2), swap_log(5, 6, 3, -3, 3)]],
        )],
    };
    let second = ChainSegment { blocks: vec![block(8, vec![vec![swap_log(7, 8, 4, -4, 4)]])] };
    let (queue, err) = run_segments(&[first, second], Some(1));
    assert_eq!(err, Some(PublishError::QueueAppend));
    assert_eq!(queue, vec![record("1", "-1", 1, 1, 2, 7)]);
}

#[test]
fn failed_run_only_aborts() {
    let segment = ChainSegment {
        blocks: vec![block(7, vec![vec![swap_log(1, 2, 1, -1, 1), swap_log(3, 4, 2, -2, 2)]])],
    };
    let mut run = SegmentRun::new(&segment);
    assert!(matches!(run.next_action(&segment), Action::Append(_)));
    run.append_result(false);
    assert!(matches!(run.next_action(&segment), Action::Abort(PublishError::QueueAppend)));
    assert!(matches!(run.next_action(&segment), Action::Abort(PublishError::QueueAppend)));
    assert_eq!(run.next, 1);
}

#[test]
fn decode_order_is_block_transaction_log() {
    let segment = ChainSegment {
        blocks: vec![
            block(1, vec![vec![swap_log(1, 1, 1, 1, 1), other_log(), swap_log(2, 2, 2, 2, 2)], vec![swap_log(3, 3, 3, 3, 3)]]),
            block(2, vec![vec![]]),
            block(3, vec![vec![other_log()], vec![swap_log(4, 4, 4, 4, 4)]]),
        ],
    };
    let events = decode_chain_into_events(&segment);
    let positions: Vec<(usize, usize, usize)> = events.iter().map(|e| (e.block, e.transaction, e.log)).collect();
    assert_eq!(positions, vec![(0, 0, 0), (0, 0, 2), (0, 1, 0), (2, 1, 0)]);
    let liquidities: Vec<u128> = events
        .iter()
        .map(|e| match &e.event {
            PoolEvent::Swap(s) => s.liquidity,
        })
        .collect();
    assert_eq!(liquidities, vec![1, 2, 3, 4]);
}

#[test]
fn decode_is_repeatable() {
    let segment = ChainSegment {
        blocks: vec![block(1, vec![vec![swap_log(1, 2, 3, 4, 5), other_log()], vec![swap_log(6, 7, 8, 9, 10)]])],
    };
    let a = decode_chain_into_events(&segment);
    let b = decode_chain_into_events(&segment);
    assert_eq!(a.len(), b.len());
    for (x, y) in a.iter().zip(b.iter()) {
        assert_eq!((x.block, x.transaction, x.log), (y.block, y.transaction, y.log));
        let (PoolEvent::Swap(sx), PoolEvent::Swap(sy)) = (&x.event, &y.event);
        assert_eq!((&sx.sender, &sx.recipient, &sx.amount0, &sx.amount1, sx.liquidity), (&sy.sender, &sy.recipient, &sy.amount0, &sy.amount1, sy.liquidity));
    }
}

#[test]
fn foreign_topic_is_skipped() {
    let topic = swap_event_topic();
    assert!(decode_log(&other_log(), &topic).is_none());
    let no_topics = Log { address: vec![0x11; 20], topics: vec![], data: swap_data(1, 1, 1, 1) };
    assert!(decode_log(&no_topics, &topic).is_none());
}

#[test]
fn missing_indexed_topic_is_skipped() {
    let mut log = swap_log(1, 2, 3, 4, 5);
    log.topics.pop();
    assert!(decode_log(&log, &swap_event_topic()).is_none());
}

#[test]
fn extra_topic_is_skipped() {
    let mut log = swap_log(1, 2, 3, 4, 5);
    log.topics.push(address_topic(9));
    assert!(decode_log(&log, &swap_event_topic()).is_none());
    let segment = ChainSegment { blocks: vec![block(1, vec![vec![log, swap_log(6, 7, 8, 9, 10)]])] };
    let events = decode_chain_into_events(&segment);
    assert_eq!(events.len(), 1);
    assert_eq!((events[0].block, events[0].transaction, events[0].log), (0, 0, 1));
}

#[test]
fn malformed_payloads_are_skipped() {
    let topic = swap_event_topic();
    let mut short = swap_log(1, 2, 3, 4, 5);
    short.data.truncate(159);
    assert!(decode_log(&short, &topic).is_none());
    let mut long = swap_log(1, 2, 3, 4, 5);
    long.data.push(0);
    assert!(decode_log(&long, &topic).is_none());
    let mut wide_price = swap_log(1, 2, 3, 4, 5);
    wide_price.data[70] = 1;
    assert!(decode_log(&wide_price, &topic).is_none());
    let mut wide_liquidity = swap_log(1, 2, 3, 4, 5);
    wide_liquidity.data[100] = 1;
    assert!(decode_log(&wide_liquidity, &topic).is_none());
    let mut bad_tick = swap_log(1, 2, 3, 4, 5);
    bad_tick.data[130] = 0;
    assert!(decode_log(&bad_tick, &topic).is_none());
    let segment = ChainSegment { blocks: vec![block(1, vec![vec![short, long, wide_price, wide_liquidity, bad_tick]])] };
    assert!(decode_chain_into_events(&segment).is_empty());
}

#[test]
fn swap_fields_are_decoded() {
    let log = swap_log(0xaa, 0xbb, 100, -50, 10);
    match decode_log(&log, &swap_event_topic()) {
        Some(PoolEvent::Swap(s)) => {
            assert_eq!(s.sender, vec![0xaa; 20]);
            assert_eq!(s.recipient, vec![0xbb; 20]);
            assert_eq!(s.amount0, word_i128(100));
            assert_eq!(s.amount1, word_i128(-50));
            assert_eq!(s.liquidity, 10);
        }
        None => panic!("the swap log did not decode"),
    }
}

#[test]
fn record_timestamp_is_the_block_timestamp() {
    let b = block(1_234_567, vec![vec![swap_log(1, 2, 3, -4, 5)]]);
    let log = &b.receipts[0].logs[0];
    let Some(PoolEvent::Swap(swap)) = decode_log(log, &swap_event_topic()) else { panic!("no swap") };
    let r = swap_record(log, &swap, &b);
    assert_eq!(r.timestamp, 1_234_567);
    assert_eq!(r.address, hex(0x11));
    assert_eq!(r.sender, hex(1));
    assert_eq!(r.recipient, hex(2));
    assert_eq!(r.amount0, "3");
    assert_eq!(r.amount1, "-4");
    assert_eq!(r.liquidity, "5");
}

#[test]
fn extreme_amounts_are_written_in_decimal() {
    let mut max = vec![0xffu8; 32];
    max[0] = 0x7f;
    let mut min = vec![0u8; 32];
    min[0] = 0x80;
    let swap = SwapEvent { sender: vec![0; 20], recipient: vec![0xff; 20], amount0: max, amount1: min, liquidity: u128::MAX };
    let b = block(0, vec![]);
    let log = Log { address: vec![0xab; 20], topics: vec![], data: vec![] };
    let text = serialize_swap_event(&log, &swap, &b).unwrap();
    assert_eq!(
        text,
        format!(
            "{{\"address\":\"0x{}\",\"amount0\":\"57896044618658097711785492504343953926634992332820282019728792003956564819967\",\"amount1\":\"-57896044618658097711785492504343953926634992332820282019728792003956564819968\",\"liquidity\":\"340282366920938463463374607431768211455\",\"recipient\":\"0x{}\",\"sender\":\"0x{}\",\"timestamp\":0}}",
            "ab".repeat(20),
            "ff".repeat(20),
            "00".repeat(20)
        )
    );
}

#[test]
fn liquidity_beyond_u64_is_written() {
    let big = (u64::MAX as u128) + 1;
    let b = block(9, vec![vec![swap_log(1, 2, 3, 4, big)]]);
    let log = &b.receipts[0].logs[0];
    let Some(PoolEvent::Swap(swap)) = decode_log(log, &swap_event_topic()) else { panic!("no swap") };
    let expected = record("3", "4", big, 1, 2, 9);
    assert!(expected.contains("\"liquidity\":\"18446744073709551616\""));
    assert_eq!(serialize_swap_event(log, &swap, &b), Ok(expected.clone()));
    let segment = ChainSegment { blocks: vec![b] };
    let (queue, err) = run_segments(&[segment], None);
    assert_eq!(queue, vec![expected]);
    assert_eq!(err, None);
}

#[test]
fn removing_an_undecodable_log_keeps_the_other_events() {
    let with = ChainSegment {
        blocks: vec![block(1, vec![vec![swap_log(1, 1, 1, 1, 1), other_log(), swap_log(2, 2, 2, 2, 2)]])],
    };
    let without = ChainSegment {
        blocks: vec![block(1, vec![vec![swap_log(1, 1, 1, 1, 1), swap_log(2, 2, 2, 2, 2)]])],
    };
    let a = decode_chain_into_events(&with);
    let b = decode_chain_into_events(&without);
    let pos = |v: &Vec<salebot::decode::DecodedLog>| -> Vec<(usize, usize, usize, u128)> {
        v.iter()
            .map(|e| match &e.event {
                PoolEvent::Swap(s) => (e.block, e.transaction, e.log, s.liquidity),
            })
            .collect()
    };
    assert_eq!(pos(&a), vec![(0, 0, 0, 1), (0, 0, 2, 2)]);
    assert_eq!(pos(&b), vec![(0, 0, 0, 1), (0, 0, 1, 2)]);
}
