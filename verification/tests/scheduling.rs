use std::collections::VecDeque;

use lib::addr::{Addr, AddrHeap, UNMEASURED_DUR};
use lib::orders::{get_order_download, get_order_probe};
use lib::scheduler::{ResponseContent, Scheduler, NUM_THREADS};
use lib::torrent::TorrentResponse;

fn addr(a: &str, dur: u128) -> Addr {
    Addr { address: a.to_string(), dur }
}

fn strings(v: &[&str]) -> VecDeque<String> {
    v.iter().map(|s| s.to_string()).collect()
}

#[test]
fn heap_gives_fastest_first_and_earliest_among_equals() {
    let mut h = AddrHeap::new();
    h.push(addr("slow", 300));
    h.push(addr("fast1", 100));
    h.push(addr("fast2", 100));
    h.push(addr("mid", 200));
    let order: Vec<String> = std::iter::from_fn(|| h.pop()).map(|a| a.address).collect();
    assert_eq!(order, vec!["fast1", "fast2", "mid", "slow"]);
    assert_eq!(h.len(), 0);
}

#[test]
fn download_uses_fastest_measured_peer() {
    let mut known = strings(&["k1", "k2"]);
    let mut unmeasured: VecDeque<Addr> = vec![addr("u1", UNMEASURED_DUR)].into();
    let mut heap = AddrHeap::new();
    heap.push(addr("m1", 50));
    heap.push(addr("m2", 20));
    let mut pending: VecDeque<usize> = vec![4, 5, 6].into();
    let o = get_order_download(&mut known, &mut unmeasured, &mut heap, &mut pending);
    assert_eq!(o.addr, "m2");
    assert_eq!(o.blocks, Some(vec![4]));
    assert_eq!(pending, VecDeque::from(vec![5, 6]));
    assert_eq!(heap.len(), 1);
    assert_eq!(unmeasured.len(), 1);
}

#[test]
fn download_falls_back_to_unmeasured_then_known() {
    let mut known = strings(&["k1", "k2"]);
    let mut unmeasured: VecDeque<Addr> = vec![addr("u1", UNMEASURED_DUR)].into();
    let mut heap = AddrHeap::new();
    let mut pending: VecDeque<usize> = VecDeque::new();
    let o = get_order_download(&mut known, &mut unmeasured, &mut heap, &mut pending);
    assert_eq!(o.addr, "u1");
    assert_eq!(o.blocks, Some(vec![]));
    let o = get_order_download(&mut known, &mut unmeasured, &mut heap, &mut pending);
    assert_eq!(o.addr, "k1");
    assert_eq!(o.blocks, None);
    assert_eq!(known, strings(&["k2", "k1"]));
    let o = get_order_download(&mut known, &mut unmeasured, &mut heap, &mut pending);
    assert_eq!(o.addr, "k2");
    assert_eq!(known, strings(&["k1", "k2"]));
}

#[test]
fn probe_prefers_unmeasured_then_cycles_known() {
    let mut known = strings(&["k1", "k2", "k3"]);
    let mut unmeasured: VecDeque<Addr> = vec![addr("u1", UNMEASURED_DUR)].into();
    let mut heap = AddrHeap::new();
    heap.push(addr("m1", 5));
    let mut pending: VecDeque<usize> = vec![9].into();
    let o = get_order_probe(&mut known, &mut unmeasured, &mut heap, &mut pending);
    assert_eq!(o.addr, "u1");
    assert_eq!(o.blocks, Some(vec![9]));
    let o = get_order_probe(&mut known, &mut unmeasured, &mut heap, &mut pending);
    assert_eq!(o.addr, "k1");
    assert_eq!(o.blocks, None);
    assert_eq!(known, strings(&["k2", "k3", "k1"]));
    assert_eq!(heap.len(), 1);
}

#[test]
fn probe_downloads_once_enough_addresses_are_known() {
    let mut known = strings(&["a", "b", "c", "d", "e", "f"]);
    let mut unmeasured: VecDeque<Addr> = VecDeque::new();
    let mut heap = AddrHeap::new();
    heap.push(addr("m1", 5));
    let mut pending: VecDeque<usize> = vec![1, 2].into();
    let o = get_order_probe(&mut known, &mut unmeasured, &mut heap, &mut pending);
    assert_eq!(o.addr, "m1");
    assert_eq!(o.blocks, Some(vec![1]));
    assert_eq!(known, strings(&["a", "b", "c", "d", "e", "f"]));
}

fn start(num_blocks: usize) -> Scheduler {
    let t = TorrentResponse {
        num_blocks,
        file_size: num_blocks * 10,
        addr1: "a:1".to_string(),
        addr2: "b:2".to_string(),
    };
    Scheduler::new(&t, "s:0".to_string())
}

#[test]
fn first_dispatch_hands_out_every_worker() {
    let mut s = start(3);
    let sent = s.dispatch();
    let view: Vec<(usize, String, Option<Vec<usize>>)> =
        sent.into_iter().map(|(i, o)| (i, o.addr, o.blocks)).collect();
    assert_eq!(
        view,
        vec![
            (0, "a:1".to_string(), Some(vec![0])),
            (1, "b:2".to_string(), Some(vec![1])),
            (2, "a:1".to_string(), None),
            (3, "b:2".to_string(), None),
            (4, "s:0".to_string(), None),
        ]
    );
    assert_eq!(NUM_THREADS, 5);
    assert!(!s.is_finished());
    assert!(s.expects_blocks(0));
    assert!(!s.expects_blocks(2));
    assert!(!s.expects_blocks(7));
    assert!(s.dispatch().is_empty());
}

#[test]
fn download_runs_to_the_end() {
    let mut s = start(2);
    let sent = s.dispatch();
    assert_eq!(sent.len(), 2);
    s.handle_response(0, 100, ResponseContent::BlocksFilled(vec![0]));
    assert!(!s.is_finished());
    s.handle_response(1, 80, ResponseContent::BlocksFilled(vec![1]));
    assert!(s.is_finished());
    assert!(s.dispatch().is_empty());
}

#[test]
fn failed_blocks_are_handed_out_again() {
    let mut s = start(2);
    s.dispatch();
    s.handle_response(0, 40, ResponseContent::BlocksFilled(vec![0]));
    s.handle_response(1, 100, ResponseContent::BlocksFilled(vec![]));
    assert!(!s.is_finished());
    let sent = s.dispatch();
    let view: Vec<(usize, String, Option<Vec<usize>>)> =
        sent.into_iter().map(|(i, o)| (i, o.addr, o.blocks)).collect();
    assert_eq!(
        view,
        vec![(0, "a:1".to_string(), None), (1, "a:1".to_string(), Some(vec![1]))]
    );
}

#[test]
fn no_block_order_without_a_peer_to_ask() {
    let mut s = start(2);
    s.dispatch();
    s.handle_response(1, 100, ResponseContent::BlocksFilled(vec![]));
    let sent = s.dispatch();
    let view: Vec<(usize, String)> = sent
        .into_iter()
        .map(|(i, o)| {
            assert!(o.blocks.is_none());
            (i, o.addr)
        })
        .collect();
    assert_eq!(
        view,
        vec![
            (1, "a:1".to_string()),
            (2, "b:2".to_string()),
            (3, "s:0".to_string()),
            (4, "a:1".to_string()),
        ]
    );
}

#[test]
fn measured_peer_serves_the_next_download() {
    let mut s = start(4);
    s.dispatch();
    s.handle_response(1, 70, ResponseContent::BlocksFilled(vec![1]));
    let sent = s.dispatch();
    assert_eq!(sent.len(), 1);
    assert_eq!(sent[0].0, 1);
    assert_eq!(sent[0].1.addr, "b:2");
    assert_eq!(sent[0].1.blocks, Some(vec![2]));
}

#[test]
fn tracker_reply_adds_new_peers_once() {
    let mut s = start(5);
    s.dispatch();
    let reply = TorrentResponse {
        num_blocks: 5,
        file_size: 50,
        addr1: "c:3".to_string(),
        addr2: "a:1".to_string(),
    };
    s.handle_response(2, 0, ResponseContent::Torrent(Some(reply)));
    s.handle_response(0, 10, ResponseContent::BlocksFilled(vec![0]));
    let sent = s.dispatch();
    assert_eq!(sent.len(), 2);
    assert_eq!(sent[0].0, 0);
    assert_eq!(sent[0].1.addr, "c:3");
    assert_eq!(sent[0].1.blocks, Some(vec![2]));
    assert_eq!(sent[1].0, 2);
    assert_eq!(sent[1].1.addr, "a:1");
    assert_eq!(sent[1].1.blocks, Some(vec![3]));
}

#[test]
fn failed_tracker_reply_only_frees_the_worker() {
    let mut s = start(3);
    s.dispatch();
    s.handle_response(3, 0, ResponseContent::Torrent(None));
    let sent = s.dispatch();
    assert_eq!(sent.len(), 1);
    assert_eq!(sent[0].0, 3);
    assert_eq!(sent[0].1.addr, "a:1");
    assert_eq!(sent[0].1.blocks, None);
}

#[test]
fn empty_file_is_finished_at_once() {
    let mut s = start(0);
    assert!(s.is_finished());
    assert!(s.dispatch().is_empty());
}

#[test]
fn unmeasured_duration_is_the_longest_duration() {
    assert_eq!(UNMEASURED_DUR, std::time::Duration::MAX.as_nanos());
}
