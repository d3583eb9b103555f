use rustxxx::blocks::staggered_fill_levels;
use rustxxx::store::MessageStore;
use rustxxx::sync::data_symbol_lines;
use rustxxx::units::TimeStamp;

#[test]
fn store_keeps_each_codeword_once() {
    let mut store: MessageStore<u32> = MessageStore::new();
    assert!(store.insert(vec![1, 2, 3], TimeStamp(5), 7));
    assert!(!store.insert(vec![1, 2, 3], TimeStamp(9), 8));
    assert!(store.insert(vec![1, 2, 4], TimeStamp(9), 8));
    assert!(!store.insert(vec![], TimeStamp(9), 8));
    assert_eq!(store.len(), 2);
    assert!(store.contains(&[1, 2, 3]));
    assert!(!store.contains(&[1, 2]));
    assert_eq!(store.get(0).time_stamp, TimeStamp(5));
    assert_eq!(store.get(0).details, 7);
    assert!(!store.get(0).delivered);
}

#[test]
fn store_delivers_once_and_expires_stale() {
    let mut store: MessageStore<u32> = MessageStore::new();
    assert!(store.insert(vec![0xAA], TimeStamp(10), 1));
    assert!(store.stale_all_delivered(TimeStamp(10), 316));
    let first = store.deliver_and_expire(TimeStamp(10), 316);
    assert_eq!(first.len(), 1);
    assert_eq!(first[0].codeword, vec![0xAA]);
    assert!(first[0].delivered);
    assert_eq!(first[0].details, 1);

    assert!(store.insert(vec![0xBB], TimeStamp(400), 2));
    // the first message is now older than one frame: 10 + 316 < 500
    assert!(store.stale_all_delivered(TimeStamp(500), 316));
    let second = store.deliver_and_expire(TimeStamp(500), 316);
    assert_eq!(second.len(), 1);
    assert_eq!(second[0].codeword, vec![0xBB]);
    assert_eq!(store.len(), 1);
    assert!(store.contains(&[0xBB]));
    assert!(!store.contains(&[0xAA]));

    // delivered already: nothing new comes out
    let third = store.deliver_and_expire(TimeStamp(500), 316);
    assert!(third.is_empty());
    assert_eq!(store.len(), 1);
}

#[test]
fn store_reports_undelivered_stale_message() {
    let mut store: MessageStore<u32> = MessageStore::new();
    assert!(store.insert(vec![0x01], TimeStamp(0), 3));
    assert!(!store.stale_all_delivered(TimeStamp(317), 316));
    assert!(store.stale_all_delivered(TimeStamp(316), 316));
}

#[test]
fn decoder_reads_data_symbol_lines() {
    let lines = data_symbol_lines(0, 4, 58);
    assert_eq!(lines.len(), 58);
    assert_eq!(lines[0], 28);
    assert_eq!(lines[28], 140);
    assert_eq!(lines[29], 172);
    assert_eq!(lines[57], 284);
    let shifted = data_symbol_lines(3, 1, 58);
    assert_eq!(shifted[0], 10);
    assert_eq!(shifted[57], 74);
}

#[test]
fn input_blocks_start_staggered() {
    // 12000 samples/s, 6.25 baud, 2 bins per tone: 3840-sample blocks, one every 480 samples
    let levels = staggered_fill_levels(3840, 480);
    assert_eq!(levels, vec![3840, 3360, 2880, 2400, 1920, 1440, 960, 480]);
    assert_eq!(staggered_fill_levels(100, 30), vec![90, 60, 30]);
    assert!(staggered_fill_levels(10, 30).is_empty());
}

#[test]
fn store_delivers_each_kept_message_once_across_rounds() {
    let mut store: MessageStore<u32> = MessageStore::new();
    assert!(store.insert(vec![1], TimeStamp(100), 1));
    let round1 = store.deliver_and_expire(TimeStamp(100), 316);
    assert_eq!(round1.len(), 1);
    // decoded again while still held: refused
    assert!(!store.insert(vec![1], TimeStamp(104), 1));
    assert!(store.insert(vec![2], TimeStamp(104), 2));
    assert!(store.insert(vec![3], TimeStamp(104), 3));
    let round2 = store.deliver_and_expire(TimeStamp(108), 316);
    let keys: Vec<Vec<u8>> = round2.iter().map(|m| m.codeword.clone()).collect();
    assert_eq!(keys, vec![vec![2], vec![3]]);
}
