use crossbeam_channel::{unbounded, Receiver, RecvError, RecvTimeoutError, TryRecvError};
use ordered_stream::lookup::MAX_ENTRIES;
use ordered_stream::ordered_stream::{interrupted, len_round, Round, Squeeze};
use ordered_stream::OrderedStream;
use std::str;
use std::time::{Duration, Instant};

type Msg<T> = (u64, Vec<T>);

// The loops that wait on the channel, as the library's users write them around its
// verified steps.

/// One more entry would overflow the `IntMap` entry count computation: panic, as the table does.
fn ensure_room<T: Clone>(os: &OrderedStream<T>) {
    if os.len() >= MAX_ENTRIES {
        panic!("attempt to multiply with overflow");
    }
}

/// Where one more message would overflow the count, panic as the count does.
fn ensure_count(cnt: usize) {
    if cnt == usize::MAX {
        panic!("attempt to add with overflow");
    }
}

/// Receives until message `p` arrives (or `p` needs no receiving at all).
fn read_to_pos_with<T: Clone, E>(
    os: &mut OrderedStream<T>,
    p: u64,
    mut recv: impl FnMut(&Receiver<Msg<T>>) -> Result<Msg<T>, E>,
) -> Result<bool, E> {
    if let Some(b) = os.read_to_pos_ready(p) {
        return Ok(b);
    }
    let rx = os.incoming().clone();
    loop {
        let msg = recv(&rx)?;
        ensure_room(os);
        if let Some(b) = os.read_to_pos_accept(p, msg) {
            return Ok(b);
        }
    }
}

/// Gathers `len` elements, receiving whenever the message at the cursor is missing.
fn squeeze_with<T: Clone, E>(
    os: &mut OrderedStream<T>,
    len: usize,
    mut read: impl FnMut(&mut OrderedStream<T>) -> Result<bool, E>,
) -> Result<Vec<T>, Option<E>> {
    let mut buf: Vec<T> = Vec::with_capacity(len);
    let mut rem = len;
    loop {
        match os.drain_cache(buf, rem) {
            Squeeze::Done(v) => return Ok(v),
            Squeeze::Broken => panic!("message at the cursor cannot be consumed"),
            Squeeze::Pending(b, r) => match read(os) {
                Ok(_) => {
                    buf = b;
                    rem = r;
                }
                Err(e) => return interrupted(b, e),
            },
        }
    }
}

/// Takes the message at the cursor, receiving up to it when it is missing.
fn current_with<T: Clone, E>(
    os: &mut OrderedStream<T>,
    mut read: impl FnMut(&mut OrderedStream<T>) -> Result<bool, E>,
) -> Result<Vec<T>, Option<E>> {
    let i = os.pos();
    if i == u64::MAX && os.chk_lookup(i) {
        panic!("attempt to add with overflow");
    }
    if let Some(v) = os.take_current() {
        return Ok(v);
    }
    let r = read(os);
    if let Ok(true) = r {
        if i == u64::MAX {
            panic!("attempt to add with overflow");
        }
        if !os.chk_lookup(i) {
            panic!("called `Option::unwrap()` on a `None` value");
        }
    }
    os.current_after_read(r)
}

/// Caches what arrives until `cache_round` or `timed_round` ends the loop.
fn cache_with<T: Clone, E>(
    os: &mut OrderedStream<T>,
    mut recv: impl FnMut(&Receiver<Msg<T>>) -> Result<Msg<T>, E>,
    mut elapsed: Option<impl FnMut() -> bool>,
) -> Result<usize, E> {
    let rx = os.incoming().clone();
    let mut cnt = 0;
    loop {
        let got = recv(&rx);
        if got.is_ok() {
            ensure_room(os);
            ensure_count(cnt);
        }
        let round = match elapsed.as_mut() {
            Some(up) => os.timed_round(cnt, got, up()),
            None => os.cache_round(cnt, got),
        };
        match round {
            Round::Continue(c) => cnt = c,
            Round::Finish(r) => return r,
        }
    }
}

fn read_to_seq_pos<T: Clone>(os: &mut OrderedStream<T>) -> Result<bool, RecvError> {
    let p = os.pos();
    read_to_pos_with(os, p, |rx| rx.recv())
}

fn read_to_seq_pos_timeout<T: Clone>(
    os: &mut OrderedStream<T>,
    d: Duration,
) -> Result<bool, RecvTimeoutError> {
    let p = os.pos();
    read_to_pos_with(os, p, |rx| rx.recv_timeout(d))
}

fn retrieve<T: Clone>(os: &mut OrderedStream<T>, n: u64) -> Result<Option<Vec<T>>, RecvError> {
    read_to_pos_with(os, n, |rx| rx.recv())?;
    Ok(os.retrieve_received(n))
}

fn squeeze<T: Clone>(os: &mut OrderedStream<T>, len: usize) -> Result<Vec<T>, Option<RecvError>> {
    squeeze_with(os, len, |os| read_to_seq_pos(os))
}

fn squeeze_timeout<T: Clone>(
    os: &mut OrderedStream<T>,
    len: usize,
    d: Duration,
) -> Result<Vec<T>, Option<RecvTimeoutError>> {
    squeeze_with(os, len, |os| read_to_seq_pos_timeout(os, d))
}

fn current<T: Clone>(os: &mut OrderedStream<T>) -> Result<Vec<T>, Option<RecvError>> {
    current_with(os, |os| read_to_seq_pos(os))
}

fn current_timeout<T: Clone>(
    os: &mut OrderedStream<T>,
    d: Duration,
) -> Result<Vec<T>, Option<RecvTimeoutError>> {
    current_with(os, |os| read_to_seq_pos_timeout(os, d))
}

fn sop<T: Clone>(os: &mut OrderedStream<T>) -> Result<usize, TryRecvError> {
    cache_with(os, |rx| rx.try_recv(), None::<fn() -> bool>)
}

fn read_for_duration<T: Clone>(os: &mut OrderedStream<T>, d: Duration) -> Result<usize, TryRecvError> {
    let timer = Instant::now();
    cache_with(os, |rx| rx.try_recv(), Some(|| timer.elapsed() >= d))
}

fn read_into(os: &mut OrderedStream<u8>, buff: &mut [u8]) -> Result<usize, ()> {
    match squeeze(os, buff.len()) {
        Ok(v) => {
            buff[..v.len()].copy_from_slice(&v);
            Ok(v.len())
        }
        Err(_) => Err(()),
    }
}

// End-to-end scenarios: messages sent out of order or in blocks, read back in order.

fn abc() {
    let (tx, rx) = unbounded();
    let mut os = OrderedStream::with_capacity_recvr(64, rx);
    let mut seq = 25;
    for num in 0..26u8 {
        let v = vec![(num + 97), (num + 97)];
        tx.send((seq as u64, v)).unwrap();
        seq -= 1;
    }
    let mut last = 0u8;
    let mut check = false;
    loop {
        match squeeze_timeout(&mut os, 1, Duration::from_millis(1)) {
            Ok(x) => {
                assert_eq!(x.len(), 1);
                if check {
                    assert_eq!(last, x[0]);
                }
                last = x[0];
                check = !check;
            }
            Err(e) => match e {
                Some(_) => break,
                None => continue,
            },
        }
    }
}

fn abc_blocks() {
    let (tx, rx) = unbounded();
    let mut os = OrderedStream::with_capacity_recvr(64, rx);
    let test = b"abcdefghijklmnopqrstuvwxyz";
    let should_one = b"abcdefghijklmnopqrstuvwxyzabcdefghijklm";
    let should_two = b"nopqrstuvwxyzabcdefghijklmnopqrstuvwxyz";
    assert_eq!(should_one.len(), 39);
    assert_eq!(should_two.len(), 39);
    let mut msg = Vec::with_capacity(26);
    msg.extend_from_slice(test);
    for num in 0..3 {
        tx.send((num, msg.clone())).unwrap();
    }
    let mut one = Vec::with_capacity(39);
    let mut two = Vec::with_capacity(39);
    let mut cnt = 0;
    loop {
        match squeeze_timeout(&mut os, 39, Duration::from_millis(1)) {
            Ok(x) => {
                assert_eq!(x.len(), 39);
                if cnt == 0 {
                    one.extend_from_slice(&x);
                } else if cnt == 1 {
                    two.extend_from_slice(&x);
                }
            }
            Err(error) => match error {
                Some(_) => break,
                None => continue,
            },
        }
        cnt += 1;
    }
    assert_eq!(one[..], should_one[..]);
    assert_eq!(two[..], should_two[..]);
}

fn lgmsg_smblock() {
    let (tx, rx) = unbounded();
    let mut os = OrderedStream::with_capacity_recvr(4, rx);
    let msg = vec![97u8; 32 * 1024 * 1024];
    for i in 0u64..4 {
        tx.send((i, msg.clone())).unwrap();
    }
    loop {
        match squeeze_timeout(&mut os, 7 * 1024 * 1024, Duration::from_millis(4)) {
            Ok(x) => assert!(x.len() <= 7 * 1024 * 1024),
            Err(error) => match error {
                Some(_) => break,
                None => continue,
            },
        }
    }
}

fn smmsg_lgblock() {
    let (tx, rx) = unbounded();
    let mut os = OrderedStream::with_capacity_recvr(64 * 1024, rx);
    let msg = vec![97u8; 1350];
    for i in 0u64..64 * 1024 {
        tx.send((i, msg.clone())).unwrap();
    }
    loop {
        match squeeze_timeout(&mut os, 32 * 1024 * 1024, Duration::from_millis(4)) {
            Ok(x) => assert!(x.len() <= 32 * 1024 * 1024),
            Err(error) => match error {
                Some(_) => break,
                None => continue,
            },
        }
    }
}

fn msg_iter() {
    let (tx, rx) = unbounded();
    let mut os = OrderedStream::with_capacity_recvr(16, rx);
    let msg = vec![97u8; 1350];
    for i in 0u64..16 {
        tx.send((i, msg.clone())).unwrap();
    }
    loop {
        match current_timeout(&mut os, Duration::from_micros(3)) {
            Ok(x) => assert_eq!(x.len(), 1350),
            Err(e) => match e {
                Some(_) => break,
                None => continue,
            },
        }
    }
}

fn iteration() {
    let (tx, rx) = unbounded();
    let mut os = OrderedStream::with_capacity_recvr(16, rx);
    let msg = vec![97u8; 1350];
    for i in 0u64..16 {
        tx.send((i, msg.clone())).unwrap();
    }
    drop(tx);
    let mut n = 0;
    while let Ok(m) = current(&mut os) {
        assert_eq!(m.len(), 1350);
        let _ = str::from_utf8(&m[..2]).unwrap_or("no");
        n += 1;
    }
    assert_eq!(n, 16);
}

fn enumeriterate() {
    let (tx, rx) = unbounded();
    let mut os = OrderedStream::with_capacity_recvr(16, rx);
    let msg = vec![97u8; 1350];
    for i in 0u64..16 {
        tx.send((i, msg.clone())).unwrap();
    }
    drop(tx);
    let mut expected = 0u64;
    loop {
        let i = os.pos();
        match current(&mut os) {
            Ok(m) => {
                assert_eq!(i, expected);
                assert_eq!(m.len(), 1350);
                expected += 1;
            }
            Err(_) => break,
        }
    }
    assert_eq!(expected, 16);
}

fn chunking() {
    let (tx, rx) = unbounded();
    let mut os = OrderedStream::with_capacity_recvr(16, rx);
    let msg = vec![97u8; 1350];
    for i in 0u64..16 {
        tx.send((i, msg.clone())).unwrap();
    }
    drop(tx);
    let mut total = 0;
    while let Ok(m) = squeeze(&mut os, 1024) {
        assert!(m.len() <= 1024);
        total += m.len();
    }
    assert_eq!(total, 16 * 1350);
}

fn strings() {
    let msg_one: Vec<char> = "hello ".to_string().chars().collect();
    let msg_two: Vec<char> = "there".to_string().chars().collect();
    let mut b = true;
    let (tx, rx) = unbounded();
    let mut os: OrderedStream<char> = OrderedStream::with_capacity_recvr(128, rx);
    for i in 0..100 {
        if b {
            tx.send((i, msg_one.clone())).expect("no");
        } else {
            tx.send((i, msg_two.clone())).expect("no");
        }
        b = !b;
    }
    drop(tx);
    let test_against = "hello therehello there";
    let mut chunks = 0;
    while let Ok(msg) = squeeze(&mut os, 22) {
        let m: String = msg.iter().collect();
        assert_eq!(&m, test_against);
        chunks += 1;
    }
    assert_eq!(chunks, 25);
}

fn yewsixfours() {
    let msg_one: Vec<u64> = vec![1, 2, 3, 4, 5];
    let msg_two: Vec<u64> = vec![6, 7, 8, 9, 10];
    let mut b = true;
    let (tx, rx) = unbounded();
    let mut os: OrderedStream<u64> = OrderedStream::with_capacity_recvr(128, rx);
    for i in 0..100 {
        if b {
            tx.send((i, msg_one.clone())).expect("no");
        } else {
            tx.send((i, msg_two.clone())).expect("no");
        }
        b = !b;
    }
    drop(tx);
    let test_against = vec![1, 2, 3, 4, 5, 6, 7, 8, 9, 10];
    let mut chunks = 0;
    while let Ok(msg) = squeeze(&mut os, 10) {
        assert_eq!(msg, test_against);
        chunks += 1;
    }
    assert_eq!(chunks, 50);
}

fn read_test() {
    let msg_one: Vec<u8> = vec![1, 2, 3, 4, 5];
    let msg_two: Vec<u8> = vec![6, 7, 8, 9, 10];
    let mut b = true;
    let (tx, rx) = unbounded();
    let mut os: OrderedStream<u8> = OrderedStream::with_capacity_recvr(128, rx);
    for i in 0..100 {
        if b {
            tx.send((i, msg_one.clone())).expect("no");
        } else {
            tx.send((i, msg_two.clone())).expect("no");
        }
        b = !b;
    }
    drop(tx);
    let test_against = vec![1, 2, 3, 4, 5, 6, 7, 8, 9, 10];
    let mut buffer = vec![0u8; 10];
    while let Ok(_) = read_into(&mut os, &mut buffer) {
        assert_eq!(buffer, test_against);
    }
}

#[test]
fn test_all() {
    abc();
    lgmsg_smblock();
    smmsg_lgblock();
    msg_iter();
    abc_blocks();
    iteration();
    chunking();
    enumeriterate();
    strings();
    yewsixfours();
    read_test();
}

// Properties of the verified steps, on concrete values.

fn stream<T: Clone>() -> (crossbeam_channel::Sender<Msg<T>>, OrderedStream<T>) {
    let (tx, rx) = unbounded();
    (tx, OrderedStream::with_recvr(rx))
}

#[test]
fn add_item_keeps_the_first_message_under_a_number() {
    let (_tx, mut os) = stream::<u8>();
    assert!(os.is_empty());
    assert!(os.add_item((3, vec![1, 2])));
    assert!(!os.add_item((3, vec![9])));
    assert!(os.add_item_sep(4, vec![5]));
    assert_eq!(os.len(), 2);
    assert!(os.chk_lookup(3));
    assert!(!os.chk_lookup(5));
    assert_eq!(os.rm_item(3).unwrap().into_inner(), vec![1, 2]);
    assert!(os.rm_item(3).is_none());
    assert_eq!(os.len(), 1);
    assert!(os.chk_lookup(4));
}

#[test]
fn items_move_between_slots_without_getting_lost() {
    let (_tx, mut os) = stream::<u32>();
    for i in 0u64..10 {
        assert!(os.add_item((i, vec![i as u32; (i + 1) as usize])));
    }
    assert!(os.rm_item(0).is_some());
    assert!(os.rm_item(5).is_some());
    assert!(os.rm_item(9).is_some());
    for i in [1u64, 2, 3, 4, 6, 7, 8] {
        assert_eq!(os.get_item(i).unwrap().len(), (i + 1) as usize);
    }
    assert_eq!(os.len(), 7);
}

#[test]
fn offsets_and_in_place_changes() {
    let (_tx, mut os) = stream::<u8>();
    assert!(os.add_item_sep_offset(0, vec![1, 2, 3, 4], 1));
    assert!(os.add_item_offset((1, vec![5, 6, 7]), 2));
    assert_eq!(os.get_item(0).unwrap()[..], [2u8, 3, 4]);
    os.get_item(0).unwrap().inc_offset(2).unwrap();
    assert_eq!(os.get_item(0).unwrap()[..], [4u8]);
    assert!(os.get_item(2).is_none());
    assert_eq!(os.size(), 2);
}

#[test]
fn size_counts_the_run_from_zero() {
    let (_tx, mut os) = stream::<u8>();
    assert_eq!(os.size(), 0);
    os.add_item((0, vec![1, 2, 3]));
    os.add_item((1, vec![4]));
    os.add_item((3, vec![5, 6, 7, 8]));
    assert_eq!(os.size(), 4);
    os.add_item((2, vec![]));
    assert_eq!(os.size(), 8);
}

#[test]
fn take_current_hands_out_in_order() {
    let (_tx, mut os) = stream::<u8>();
    os.add_item((1, vec![2]));
    assert!(os.take_current().is_none());
    assert_eq!(os.pos(), 0);
    os.add_item_offset((0, vec![0, 1]), 1);
    assert_eq!(os.take_current(), Some(vec![1]));
    assert_eq!(os.take_current(), Some(vec![2]));
    assert_eq!(os.pos(), 2);
    os.increment();
    assert_eq!(os.pos(), 3);
}

#[test]
fn read_to_pos_stops_early_behind_or_on_a_cached_number() {
    let (_tx, mut os) = stream::<u8>();
    os.add_item((0, vec![1]));
    os.add_item((1, vec![2]));
    assert_eq!(os.take_current(), Some(vec![1]));
    assert_eq!(os.read_to_pos_ready(0), Some(false));
    assert_eq!(os.read_to_pos_ready(1), Some(false));
    assert_eq!(os.read_to_pos_ready(2), None);
    assert_eq!(os.read_to_pos_accept(2, (5, vec![9])), None);
    assert_eq!(os.read_to_pos_accept(2, (5, vec![9])), None);
    assert_eq!(os.read_to_pos_accept(5, (5, vec![9])), Some(false));
    assert_eq!(os.read_to_pos_accept(2, (2, vec![3])), Some(true));
    assert!(os.chk_lookup(2));
}

#[test]
fn current_after_read_and_retrieve_received() {
    let (_tx, mut os) = stream::<u8>();
    assert_eq!(os.current_after_read::<u8>(Ok(false)), Err(None));
    assert_eq!(os.current_after_read::<u8>(Err(7)), Err(Some(7)));
    os.add_item((0, vec![4, 5]));
    assert_eq!(os.current_after_read::<u8>(Ok(true)), Ok(vec![4, 5]));
    assert_eq!(os.pos(), 1);
    os.add_item((9, vec![6]));
    assert_eq!(os.retrieve_received(8), None);
    assert!(os.chk_lookup(9));
    assert_eq!(os.retrieve_received(9), Some(vec![6]));
    assert!(!os.chk_lookup(9));
}

#[test]
fn read_msgs_caches_what_arrives() {
    let (tx, mut os) = stream::<u8>();
    tx.send((1, vec![1, 1])).unwrap();
    tx.send((0, vec![0, 0, 0])).unwrap();
    assert_eq!(os.queue_len(), 2);
    let (n, e) = os.read_msgs(2);
    assert_eq!(n, 5);
    assert!(e.is_none());
    assert_eq!(os.len(), 2);
    tx.send((2, vec![2])).unwrap();
    drop(tx);
    let (n, e) = os.read_msgs(5);
    assert_eq!(n, 1);
    assert_eq!(e, Some(RecvError));
    assert_eq!(os.len(), 3);
}

#[test]
fn set_recv_switches_channels() {
    let (_tx, mut os) = stream::<u8>();
    os.add_item((0, vec![1]));
    let (tx2, rx2) = unbounded();
    tx2.send((1, vec![2])).unwrap();
    os.set_recv(rx2);
    assert_eq!(os.queue_len(), 1);
    os.read_msgs(1);
    assert_eq!(os.len(), 2);
}

#[test]
fn drain_cache_spans_messages_and_keeps_the_rest() {
    let (_tx, mut os) = stream::<u8>();
    os.add_item((0, vec![1, 2, 3]));
    os.add_item((1, vec![4, 5, 6]));
    match os.drain_cache(Vec::new(), 4) {
        Squeeze::Done(v) => assert_eq!(v, vec![1, 2, 3, 4]),
        _ => panic!("expected a full chunk"),
    }
    assert_eq!(os.pos(), 1);
    assert_eq!(os.get_item(1).unwrap().offset(), 1);
    match os.drain_cache(Vec::new(), 2) {
        Squeeze::Done(v) => assert_eq!(v, vec![5, 6]),
        _ => panic!("expected a full chunk"),
    }
    assert_eq!(os.pos(), 2);
    assert!(os.is_empty());
}

#[test]
fn drain_cache_waits_for_a_missing_message() {
    let (_tx, mut os) = stream::<u8>();
    os.add_item((0, vec![1, 2]));
    os.add_item((2, vec![5]));
    match os.drain_cache(vec![9], 4) {
        Squeeze::Pending(v, rem) => {
            assert_eq!(v, vec![9, 1, 2]);
            assert_eq!(rem, 2);
        }
        _ => panic!("expected to wait for message 1"),
    }
    assert_eq!(os.pos(), 1);
    os.add_item((1, vec![3]));
    match os.drain_cache(vec![9, 1, 2], 2) {
        Squeeze::Done(v) => assert_eq!(v, vec![9, 1, 2, 3, 5]),
        _ => panic!("expected a full chunk"),
    }
}

#[test]
fn drain_cache_reports_an_offset_past_the_end() {
    let (_tx, mut os) = stream::<u8>();
    os.add_item_offset((0, vec![1]), 5);
    match os.drain_cache(Vec::new(), 1) {
        Squeeze::Broken => {}
        _ => panic!("expected a broken message"),
    }
}

#[test]
fn drain_cache_skips_empty_messages() {
    let (_tx, mut os) = stream::<u8>();
    os.add_item((0, vec![]));
    os.add_item_offset((1, vec![7, 7]), 2);
    os.add_item((2, vec![8]));
    match os.drain_cache(Vec::new(), 1) {
        Squeeze::Done(v) => assert_eq!(v, vec![8]),
        _ => panic!("expected a full chunk"),
    }
    assert_eq!(os.pos(), 3);
    assert!(os.is_empty());
}

#[test]
fn interrupted_keeps_what_was_gathered() {
    assert_eq!(interrupted(Vec::<u8>::new(), 3), Err(Some(3)));
    assert_eq!(interrupted(vec![1u8], 3), Ok(vec![1]));
}

#[test]
fn chunks_concatenate_to_the_ordered_stream() {
    let (tx, rx) = unbounded();
    let mut os: OrderedStream<u16> = OrderedStream::with_capacity_recvr(8, rx);
    let mut expected = Vec::new();
    for i in 0u64..20 {
        for j in 0..(i % 4) {
            expected.push((i * 10 + j) as u16);
        }
    }
    for i in (0u64..20).rev() {
        tx.send((i, (0..(i % 4)).map(|j| (i * 10 + j) as u16).collect())).unwrap();
    }
    drop(tx);
    let mut got = Vec::new();
    while let Ok(chunk) = squeeze(&mut os, 7) {
        got.extend_from_slice(&chunk);
    }
    assert_eq!(got, expected);
}

#[test]
fn current_after_a_partial_squeeze_gives_the_rest() {
    let (tx, rx) = unbounded();
    let mut os = OrderedStream::<u8>::with_recvr(rx);
    tx.send((0, vec![1, 2, 3, 4, 5])).unwrap();
    drop(tx);
    assert_eq!(squeeze(&mut os, 2), Ok(vec![1, 2]));
    assert_eq!(current(&mut os), Ok(vec![3, 4, 5]));
    assert_eq!(os.pos(), 1);
}

#[test]
fn retrieve_takes_a_cached_message() {
    let (_tx, rx) = unbounded();
    let mut os = OrderedStream::<u8>::with_recvr(rx);
    os.add_item((3, vec![7]));
    assert_eq!(retrieve(&mut os, 3), Ok(Some(vec![7])));
    assert!(!os.chk_lookup(3));
}

#[test]
fn retrieve_reads_up_to_the_number() {
    let (tx, rx) = unbounded();
    let mut os = OrderedStream::<u8>::with_recvr(rx);
    tx.send((4, vec![1])).unwrap();
    tx.send((2, vec![9, 9])).unwrap();
    assert_eq!(retrieve(&mut os, 2), Ok(Some(vec![9, 9])));
    assert!(os.chk_lookup(4));
    drop(tx);
    assert_eq!(retrieve(&mut os, 7), Err(RecvError));
}

#[test]
fn squeeze_returns_short_only_when_the_channel_closes() {
    let (tx, rx) = unbounded();
    let mut os = OrderedStream::<u8>::with_recvr(rx);
    tx.send((0, vec![1, 2])).unwrap();
    drop(tx);
    assert_eq!(squeeze(&mut os, 3), Ok(vec![1, 2]));
    assert_eq!(squeeze(&mut os, 3), Err(Some(RecvError)));
    assert_eq!(os.pos(), 1);
}

#[test]
fn squeeze_and_squeeze_timeout_agree_on_a_closed_channel() {
    let send = |tx: &crossbeam_channel::Sender<Msg<u8>>| {
        tx.send((1, vec![3, 4, 5])).unwrap();
        tx.send((0, vec![1, 2])).unwrap();
    };
    let (tx1, rx1) = unbounded();
    let (tx2, rx2) = unbounded();
    send(&tx1);
    send(&tx2);
    drop(tx1);
    drop(tx2);
    let mut a = OrderedStream::<u8>::with_recvr(rx1);
    let mut b = OrderedStream::<u8>::with_recvr(rx2);
    assert_eq!(squeeze(&mut a, 4), Ok(vec![1, 2, 3, 4]));
    assert_eq!(squeeze_timeout(&mut b, 4, Duration::from_millis(5)), Ok(vec![1, 2, 3, 4]));
    assert_eq!(squeeze(&mut a, 4), Ok(vec![5]));
    assert_eq!(squeeze_timeout(&mut b, 4, Duration::from_millis(5)), Ok(vec![5]));
    assert_eq!(squeeze(&mut a, 1), Err(Some(RecvError)));
    assert_eq!(
        squeeze_timeout(&mut b, 1, Duration::from_millis(5)),
        Err(Some(RecvTimeoutError::Disconnected))
    );
}

#[test]
fn split_squeezes_give_what_one_squeeze_gives() {
    let (tx1, rx1) = unbounded();
    let (tx2, rx2) = unbounded();
    for tx in [&tx1, &tx2] {
        tx.send((2, vec![6, 7])).unwrap();
        tx.send((0, vec![1, 2, 3])).unwrap();
        tx.send((1, vec![4, 5])).unwrap();
    }
    drop(tx1);
    drop(tx2);
    let mut a = OrderedStream::<u8>::with_recvr(rx1);
    let mut b = OrderedStream::<u8>::with_recvr(rx2);
    let mut x = squeeze(&mut a, 2).unwrap();
    x.extend(squeeze(&mut a, 3).unwrap());
    assert_eq!(x, squeeze(&mut b, 5).unwrap());
    assert_eq!(squeeze(&mut a, 9), squeeze(&mut b, 9));
}

#[test]
fn read_skips_an_empty_message_then_fails_on_a_closed_channel() {
    let (tx, rx) = unbounded();
    let mut os = OrderedStream::<u8>::with_recvr(rx);
    tx.send((0, vec![])).unwrap();
    tx.send((5, vec![1])).unwrap();
    drop(tx);
    let mut b = vec![0u8; 3];
    assert!(read_into(&mut os, &mut b).is_err());
    assert_eq!(b, vec![0, 0, 0]);
    assert_eq!(os.pos(), 1);
    assert!(os.chk_lookup(5));
}

#[test]
fn drain_cache_never_asks_the_channel() {
    let (tx, rx) = unbounded();
    let mut os = OrderedStream::<u8>::with_recvr(rx);
    match os.drain_cache(Vec::new(), 2) {
        Squeeze::Pending(v, r) => {
            assert!(v.is_empty());
            assert_eq!(r, 2);
        }
        _ => panic!("expected to wait"),
    }
    tx.send((0, vec![1])).unwrap();
    os.add_item((0, vec![1, 2, 3]));
    match os.drain_cache(Vec::new(), 2) {
        Squeeze::Done(v) => assert_eq!(v, vec![1, 2]),
        _ => panic!("expected a full chunk"),
    }
}

#[test]
fn accept_msg_counts_and_caches() {
    let (_tx, rx) = unbounded();
    let mut os = OrderedStream::<u8>::with_recvr(rx);
    assert_eq!(os.accept_msg((1, vec![1, 2]), 3), 5);
    assert_eq!(os.accept_msg((1, vec![7]), 5), 6);
    assert_eq!(os.accept_msg((2, vec![4]), usize::MAX), 0);
    assert_eq!(os.rm_item(1).unwrap().into_inner(), vec![1, 2]);
    assert!(os.chk_lookup(2));
}

#[test]
fn cache_rounds_count_and_choose_the_result() {
    let (_tx, rx) = unbounded();
    let mut os = OrderedStream::<u8>::with_recvr(rx);
    match os.cache_round::<u8>(0, Ok((0, vec![1]))) {
        Round::Continue(c) => assert_eq!(c, 1),
        _ => panic!("expected to go on"),
    }
    assert!(os.chk_lookup(0));
    match os.cache_round(1, Err(9u8)) {
        Round::Finish(r) => assert_eq!(r, Ok(1)),
        _ => panic!("expected to stop"),
    }
    match os.cache_round(0, Err(9u8)) {
        Round::Finish(r) => assert_eq!(r, Err(9)),
        _ => panic!("expected to stop"),
    }
    match os.timed_round::<u8>(2, Ok((5, vec![1])), true) {
        Round::Finish(r) => assert_eq!(r, Ok(3)),
        _ => panic!("expected to stop"),
    }
    match os.timed_round(2, Err(9u8), false) {
        Round::Continue(c) => assert_eq!(c, 2),
        _ => panic!("expected to go on"),
    }
    match os.timed_round(0, Err(9u8), true) {
        Round::Finish(r) => assert_eq!(r, Err(9)),
        _ => panic!("expected to stop"),
    }
    match len_round(4, (3, None)) {
        Round::Continue(t) => assert_eq!(t, 7),
        _ => panic!("expected to go on"),
    }
    match len_round(4, (0, Some(RecvError))) {
        Round::Finish(r) => assert_eq!(r, (4, Some(RecvError))),
        _ => panic!("expected to stop"),
    }
}

#[test]
fn sop_caches_everything_waiting() {
    let (tx, rx) = unbounded();
    let mut os = OrderedStream::<u8>::with_recvr(rx);
    assert_eq!(sop(&mut os), Err(TryRecvError::Empty));
    tx.send((1, vec![1])).unwrap();
    tx.send((0, vec![0])).unwrap();
    assert_eq!(sop(&mut os), Ok(2));
    assert_eq!(os.len(), 2);
    tx.send((2, vec![2])).unwrap();
    assert_eq!(read_for_duration(&mut os, Duration::from_millis(0)), Ok(1));
    assert_eq!(os.len(), 3);
    assert!(MAX_ENTRIES > 3);
}
