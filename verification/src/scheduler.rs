use std::collections::{HashSet, VecDeque};
use vstd::prelude::*;

use crate::addr::{
    copy_blocks, first_fastest, Addr, AddrHeap, AddrView, Order, OrderView, UNMEASURED_DUR,
};
use crate::orders::{
    download_step, get_order_download, get_order_probe, order_size, pools_of, probe_step, Pools,
};
use crate::tally::{
    block_range, lemma_occurrences_concat, lemma_occurrences_contains, lemma_occurrences_filter,
    lemma_occurrences_range, lemma_occurrences_split, lemma_range_contains, lemma_outstanding_idle,
    lemma_outstanding_update, occurrences, order_blocks, outstanding,
};
use crate::torrent::{TorrentResponse, TorrentView};

verus! {

broadcast use vstd::std_specs::hash::group_hash_axioms;

/// How many workers fetch at once; worker 0 is the probing one.
pub const NUM_THREADS: usize = 5;

/// What a worker reports when it finishes an order.
pub enum ResponseContent {
    /// The blocks it fetched, in the order it fetched them.
    BlocksFilled(Vec<usize>),
    /// The tracker's description of the file, if it could be had.
    Torrent(Option<TorrentResponse>),
}

/// What a [`ResponseContent`] stands for.
pub enum ResponseView {
    BlocksFilled(Seq<usize>),
    Torrent(Option<TorrentView>),
}

impl View for ResponseContent {
    type V = ResponseView;

    open spec fn view(&self) -> ResponseView {
        match self {
            ResponseContent::BlocksFilled(v) => ResponseView::BlocksFilled(v@),
            ResponseContent::Torrent(t) => ResponseView::Torrent(
                match t {
                    Some(r) => Some(r@),
                    None => None,
                },
            ),
        }
    }
}

/// The whole state of the download: the pools orders are drawn from, the
/// blocks still missing and the order each worker holds.
#[verifier::ext_equal]
pub struct SchedulerView {
    pub pools: Pools,
    pub missing: Set<usize>,
    pub orders: Seq<Option<OrderView>>,
    pub num_blocks: nat,
}

pub open spec fn opt_order_view(o: Option<Order>) -> Option<OrderView> {
    match o {
        Some(ord) => Some(ord@),
        None => None,
    }
}

pub open spec fn order_views(s: Seq<Option<Order>>) -> Seq<Option<OrderView>> {
    s.map_values(|o: Option<Order>| opt_order_view(o))
}

/// The decisions of the download loop: which order each worker gets and
/// what each worker's report changes.
pub struct Scheduler {
    known_addrs: VecDeque<String>,
    un_measured_addrs: VecDeque<Addr>,
    addr_heap: AddrHeap,
    not_downloaded_blocks: HashSet<usize>,
    non_pending_blocks: VecDeque<usize>,
    thread_orders: Vec<Option<Order>>,
    num_blocks: usize,
}

impl View for Scheduler {
    type V = SchedulerView;

    closed spec fn view(&self) -> SchedulerView {
        SchedulerView {
            pools: pools_of(
                self.known_addrs,
                self.un_measured_addrs,
                self.addr_heap,
                self.non_pending_blocks,
            ),
            missing: self.not_downloaded_blocks@,
            orders: order_views(self.thread_orders@),
            num_blocks: self.num_blocks as nat,
        }
    }
}

/// The shape every scheduler state keeps: one slot per worker, at least one
/// known address, and a finite set of missing blocks, all in range.
pub open spec fn is_wf(v: SchedulerView) -> bool {
    &&& v.orders.len() == NUM_THREADS
    &&& v.pools.known.len() > 0
    &&& v.missing.finite()
    &&& forall|b: usize| v.missing.contains(b) ==> b < v.num_blocks
}

/// How many times the state holds block `b`: queued, or in an outstanding order.
pub open spec fn holdings(v: SchedulerView, b: usize) -> nat {
    occurrences(v.pools.pending, b) + outstanding(v.orders, b)
}

/// Every missing block is held exactly once (queued or being fetched by
/// exactly one worker), and no block that is no longer missing is held.
pub open spec fn blocks_accounted(v: SchedulerView) -> bool {
    forall|b: usize|
        #[trigger] holdings(v, b) == if v.missing.contains(b) {
            1nat
        } else {
            0nat
        }
}

/// The state the download starts in: the tracker's two peers and the
/// tracker itself known, its two peers unmeasured, every block missing and
/// queued in order, every worker idle.
pub open spec fn initial_view(
    addr1: Seq<char>,
    addr2: Seq<char>,
    server: Seq<char>,
    num_blocks: nat,
) -> SchedulerView {
    SchedulerView {
        pools: Pools {
            known: seq![addr1, addr2, server],
            unmeasured: seq![
                AddrView { address: addr1, dur: UNMEASURED_DUR },
                AddrView { address: addr2, dur: UNMEASURED_DUR },
            ],
            measured: Seq::empty(),
            pending: block_range(num_blocks),
        },
        missing: block_range(num_blocks).to_set(),
        orders: Seq::new(NUM_THREADS as nat, |i: int| None),
        num_blocks,
    }
}

/// Hands orders out to the idle workers from worker `i` on, while blocks
/// are queued: the probing order to worker 0, downloading orders to the
/// others. Gives the state after, and the orders handed out with their
/// workers.
pub open spec fn dispatch_from(v: SchedulerView, i: nat) -> (SchedulerView, Seq<(usize, OrderView)>)
    decreases NUM_THREADS - i,
{
    if i >= NUM_THREADS {
        (v, Seq::empty())
    } else if v.orders[i as int] is None && v.pools.pending.len() > 0 {
        let step = if i == 0 {
            probe_step(v.pools)
        } else {
            download_step(v.pools)
        };
        let next = dispatch_from(
            SchedulerView { pools: step.0, orders: v.orders.update(i as int, Some(step.1)), ..v },
            i + 1,
        );
        (next.0, seq![(i as usize, step.1)] + next.1)
    } else {
        dispatch_from(v, i + 1)
    }
}

/// The pools after hearing of address `a`: a new address joins the front
/// of the known addresses and the back of the unmeasured peers.
pub open spec fn learn(p: Pools, a: Seq<char>) -> Pools {
    if p.known.contains(a) {
        p
    } else {
        Pools {
            known: seq![a] + p.known,
            unmeasured: p.unmeasured.push(AddrView { address: a, dur: UNMEASURED_DUR }),
            ..p
        }
    }
}

/// The state after worker `t` reports `r` after `elapsed` nanoseconds.
/// Fetched blocks are no longer missing. A worker that fetched as many
/// blocks as it was asked for joins the measured peers with the time it
/// took; otherwise the blocks of its order that are still missing are
/// queued again. A tracker reply adds the peers it names. The worker is
/// idle afterwards.
pub open spec fn after_response(v: SchedulerView, t: int, elapsed: u128, r: ResponseView) -> SchedulerView {
    let cleared = v.orders.update(t, None);
    match r {
        ResponseView::BlocksFilled(filled) => {
            let o = v.orders[t].unwrap();
            let ob = o.blocks.unwrap();
            let missing = v.missing.difference(filled.to_set());
            if filled.len() == ob.len() {
                SchedulerView {
                    pools: Pools {
                        measured: v.pools.measured.push(AddrView { address: o.addr, dur: elapsed }),
                        ..v.pools
                    },
                    missing,
                    orders: cleared,
                    ..v
                }
            } else {
                SchedulerView {
                    pools: Pools {
                        pending: v.pools.pending + ob.filter(|b: usize| missing.contains(b)),
                        ..v.pools
                    },
                    missing,
                    orders: cleared,
                    ..v
                }
            }
        },
        ResponseView::Torrent(None) => SchedulerView { orders: cleared, ..v },
        ResponseView::Torrent(Some(tv)) => SchedulerView {
            pools: learn(learn(v.pools, tv.addr1), tv.addr2),
            orders: cleared,
            ..v
        },
    }
}

/// The report is one that worker `t` can make for the order it holds: the
/// blocks it fetched are a prefix of those it was asked for, and a tracker
/// reply comes from a worker that was not fetching blocks.
pub open spec fn consistent_reply(v: SchedulerView, t: int, r: ResponseView) -> bool {
    match r {
        ResponseView::BlocksFilled(filled) => v.orders[t] matches Some(o) && o.blocks matches Some(
            ob,
        ) && filled.len() <= ob.len() && filled == ob.take(filled.len() as int),
        ResponseView::Torrent(_) => order_blocks(v.orders[t]).len() == 0,
    }
}


/// Drawing one order keeps the known addresses (in number and as a set),
/// never lengthens the queue, and moves queued blocks into the order
/// without losing or copying any.
pub proof fn lemma_step_conserves(p: Pools, s: (Pools, OrderView))
    requires
        p.known.len() > 0,
        s == probe_step(p) || s == download_step(p),
    ensures
        ({
            &&& s.0.known.len() == p.known.len()
            &&& s.0.known.to_set() == p.known.to_set()
            &&& s.0.pending.len() <= p.pending.len()
            &&& forall|b: usize|
                #[trigger] occurrences(s.0.pending, b) + occurrences(order_blocks(Some(s.1)), b)
                    == occurrences(p.pending, b)
        }),
{
    let k = order_size(p.pending);
    assert forall|b: usize|
        #[trigger] occurrences(p.pending.skip(k), b) + occurrences(p.pending.take(k), b)
            == occurrences(p.pending, b) by {
        lemma_occurrences_split(p.pending, k, b);
    }
    let rotated = p.known.drop_first().push(p.known[0]);
    assert(rotated.to_set() =~= p.known.to_set()) by {
        assert forall|a: Seq<char>| p.known.contains(a) implies rotated.contains(a) by {
            let j = choose|j: int| 0 <= j < p.known.len() && p.known[j] == a;
            if j == 0 {
                assert(rotated[rotated.len() - 1] == a);
            } else {
                assert(rotated[j - 1] == a);
            }
        }
        assert forall|a: Seq<char>| rotated.contains(a) implies p.known.contains(a) by {
            let j = choose|j: int| 0 <= j < rotated.len() && rotated[j] == a;
            if j == rotated.len() - 1 {
                assert(p.known[0] == a);
            } else {
                assert(p.known[j + 1] == a);
            }
        }
    }
    assert forall|b: usize| #[trigger] occurrences(Seq::<usize>::empty(), b) == 0 by {}
}

/// Handing orders out keeps the state's shape, the set of known addresses
/// and the block accounting; it leaves the workers before `i` alone; and
/// when blocks are still queued afterwards, every worker from `i` on holds
/// an order.
pub proof fn lemma_dispatch(v: SchedulerView, i: nat)
    requires
        is_wf(v),
        i <= NUM_THREADS,
    ensures
        ({
            let r = dispatch_from(v, i).0;
            &&& is_wf(r)
            &&& r.missing == v.missing
            &&& r.num_blocks == v.num_blocks
            &&& r.pools.known.to_set() == v.pools.known.to_set()
            &&& r.pools.pending.len() <= v.pools.pending.len()
            &&& blocks_accounted(v) ==> blocks_accounted(r)
            &&& forall|j: int| 0 <= j < i ==> r.orders[j] == v.orders[j]
            &&& r.pools.pending.len() > 0 ==> forall|j: int| i <= j < NUM_THREADS ==> r.orders[j] is Some
        }),
    decreases NUM_THREADS - i,
{
    if i < NUM_THREADS {
        if v.orders[i as int] is None && v.pools.pending.len() > 0 {
            let step = if i == 0 {
                probe_step(v.pools)
            } else {
                download_step(v.pools)
            };
            lemma_step_conserves(v.pools, step);
            let v2 = SchedulerView {
                pools: step.0,
                orders: v.orders.update(i as int, Some(step.1)),
                ..v
            };
            if blocks_accounted(v) {
                assert forall|b: usize| #[trigger]
                    holdings(v2, b) == if v2.missing.contains(b) {
                        1nat
                    } else {
                        0nat
                    } by {
                    lemma_outstanding_update(v.orders, i as int, Some(step.1), b);
                    assert(occurrences(order_blocks(v.orders[i as int]), b) == 0);
                    assert(occurrences(step.0.pending, b) + occurrences(order_blocks(Some(step.1)), b)
                        == occurrences(v.pools.pending, b));
                    assert(holdings(v, b) == if v.missing.contains(b) {
                        1nat
                    } else {
                        0nat
                    });
                }
            }
            lemma_dispatch(v2, i + 1);
        } else {
            lemma_dispatch(v, i + 1);
        }
    }
}


proof fn lemma_learn(p: Pools, a: Seq<char>)
    requires
        p.known.len() > 0,
    ensures
        learn(p, a).known.len() > 0,
        learn(p, a).known.contains(a),
        p.known.to_set().subset_of(learn(p, a).known.to_set()),
        learn(p, a).pending == p.pending,
{
    let q = learn(p, a);
    if !p.known.contains(a) {
        assert(q.known[0] == a);
        assert forall|x: Seq<char>| p.known.contains(x) implies q.known.contains(x) by {
            let j = choose|j: int| 0 <= j < p.known.len() && p.known[j] == x;
            assert(q.known[j + 1] == x);
        }
    }
}

proof fn lemma_filled_accounted(v: SchedulerView, t: int, elapsed: u128, filled: Seq<usize>)
    requires
        is_wf(v),
        0 <= t < NUM_THREADS,
        blocks_accounted(v),
        consistent_reply(v, t, ResponseView::BlocksFilled(filled)),
    ensures
        blocks_accounted(after_response(v, t, elapsed, ResponseView::BlocksFilled(filled))),
{
    let a = after_response(v, t, elapsed, ResponseView::BlocksFilled(filled));
    let cleared = v.orders.update(t, None);
    let o = v.orders[t].unwrap();
    let ob = o.blocks.unwrap();
    let missing = v.missing.difference(filled.to_set());
    assert forall|b: usize| #[trigger]
        holdings(a, b) == if a.missing.contains(b) {
            1nat
        } else {
            0nat
        } by {
        assert(holdings(v, b) == if v.missing.contains(b) {
            1nat
        } else {
            0nat
        });
        lemma_outstanding_update(v.orders, t, None, b);
        assert(occurrences(order_blocks(None), b) == 0);
        assert(outstanding(cleared, b) + occurrences(ob, b) == outstanding(v.orders, b));
        lemma_occurrences_contains(ob, b);
        lemma_occurrences_contains(filled, b);
        if filled.contains(b) {
            let j = choose|j: int| 0 <= j < filled.len() && filled[j] == b;
            assert(ob[j] == filled[j]);
            assert(ob.contains(b));
        }
        if filled.len() == ob.len() {
            assert(filled =~= ob);
        } else {
            let keep = |x: usize| missing.contains(x);
            lemma_occurrences_concat(v.pools.pending, ob.filter(keep), b);
            lemma_occurrences_filter(ob, keep, b);
        }
    }
}

/// A worker's report keeps the state's shape, only ever shrinks the set of
/// missing blocks, never forgets a known address, and, when the report is
/// one the worker can make for its order, keeps every missing block held
/// exactly once.
pub proof fn lemma_response(v: SchedulerView, t: int, elapsed: u128, r: ResponseView)
    requires
        is_wf(v),
        0 <= t < NUM_THREADS,
        r is BlocksFilled ==> (v.orders[t] matches Some(o) && o.blocks is Some),
    ensures
        ({
            let a = after_response(v, t, elapsed, r);
            &&& is_wf(a)
            &&& a.num_blocks == v.num_blocks
            &&& a.missing.subset_of(v.missing)
            &&& v.pools.known.to_set().subset_of(a.pools.known.to_set())
            &&& blocks_accounted(v) && consistent_reply(v, t, r) ==> blocks_accounted(a)
        }),
{
    let a = after_response(v, t, elapsed, r);
    match r {
        ResponseView::BlocksFilled(filled) => {
            if blocks_accounted(v) && consistent_reply(v, t, r) {
                lemma_filled_accounted(v, t, elapsed, filled);
            }
        },
        ResponseView::Torrent(reply) => {
            if let Some(tv) = reply {
                lemma_learn(v.pools, tv.addr1);
                lemma_learn(learn(v.pools, tv.addr1), tv.addr2);
            }
            assert(a.pools.pending == v.pools.pending);
            if blocks_accounted(v) && consistent_reply(v, t, r) {
                assert forall|b: usize| #[trigger]
                    holdings(a, b) == if a.missing.contains(b) {
                        1nat
                    } else {
                        0nat
                    } by {
                    assert(holdings(v, b) == if v.missing.contains(b) {
                        1nat
                    } else {
                        0nat
                    });
                    assert(order_blocks(v.orders[t]) =~= Seq::<usize>::empty());
                    assert(occurrences(order_blocks(v.orders[t]), b) == 0);
                    lemma_outstanding_update(v.orders, t, None, b);
                    assert(occurrences(order_blocks(None), b) == 0);
                }
            }
        },
    }
}


/// Worker `t` holds an order for blocks.
pub open spec fn fetching_blocks(v: SchedulerView, t: int) -> bool {
    match v.orders[t] {
        Some(o) => o.blocks is Some,
        None => false,
    }
}

/// In a well-formed state that holds every missing block once, every block
/// an order asks for is a block of the file, so a worker's report on it is
/// one the scheduler can take (see `crate::block::lemma_filled_is_prefix`).
pub proof fn lemma_orders_in_range(v: SchedulerView, t: int, b: usize)
    requires
        is_wf(v),
        blocks_accounted(v),
        0 <= t < NUM_THREADS,
        order_blocks(v.orders[t]).contains(b),
    ensures
        b < v.num_blocks,
        v.missing.contains(b),
{
    lemma_outstanding_update(v.orders, t, None, b);
    lemma_occurrences_contains(order_blocks(v.orders[t]), b);
    assert(occurrences(order_blocks(None), b) == 0);
    assert(holdings(v, b) == if v.missing.contains(b) {
        1nat
    } else {
        0nat
    });
}

/// The address of the order worker `t` holds.
pub open spec fn order_addr(v: SchedulerView, t: int) -> Seq<char> {
    v.orders[t].unwrap().addr
}

/// A worker that fetched every block of its order joins the measured peers
/// with exactly the time it took; the peers measured before stay, in order.
pub proof fn lemma_full_report_records_time(
    v: SchedulerView,
    t: int,
    elapsed: u128,
    filled: Seq<usize>,
)
    requires
        0 <= t < NUM_THREADS,
        fetching_blocks(v, t),
        filled.len() == order_blocks(v.orders[t]).len(),
    ensures
        after_response(v, t, elapsed, ResponseView::BlocksFilled(filled)).pools.measured
            == v.pools.measured.push(AddrView { address: order_addr(v, t), dur: elapsed }),
{
}

/// Of two peers that each served a whole order, starting from no measured
/// peer, the next downloading order goes to the one that took less time,
/// whichever reported first.
pub proof fn lemma_faster_peer_serves_next(
    v: SchedulerView,
    i: int,
    ti: u128,
    fi: Seq<usize>,
    j: int,
    tj: u128,
    fj: Seq<usize>,
)
    requires
        is_wf(v),
        v.pools.measured.len() == 0,
        0 <= i < NUM_THREADS,
        0 <= j < NUM_THREADS,
        i != j,
        fetching_blocks(v, i),
        fetching_blocks(v, j),
        fi.len() == order_blocks(v.orders[i]).len(),
        fj.len() == order_blocks(v.orders[j]).len(),
    ensures
        ({
            let a = after_response(
                after_response(v, i, ti, ResponseView::BlocksFilled(fi)),
                j,
                tj,
                ResponseView::BlocksFilled(fj),
            );
            &&& tj < ti ==> download_step(a.pools).1.addr == order_addr(v, j)
            &&& ti < tj ==> download_step(a.pools).1.addr == order_addr(v, i)
        }),
{
    let v1 = after_response(v, i, ti, ResponseView::BlocksFilled(fi));
    lemma_full_report_records_time(v, i, ti, fi);
    assert(v1.orders[j] == v.orders[j]);
    lemma_full_report_records_time(v1, j, tj, fj);
    let a = after_response(v1, j, tj, ResponseView::BlocksFilled(fj));
    let m = a.pools.measured;
    assert(m =~= seq![
        AddrView { address: order_addr(v, i), dur: ti },
        AddrView { address: order_addr(v, j), dur: tj },
    ]);
    assert(m.drop_last() =~= seq![AddrView { address: order_addr(v, i), dur: ti }]);
    assert(first_fastest(m.drop_last()) == 0);
}

/// A tracker reply makes both peers it names known, and every one of them
/// that was not known before an unmeasured peer; nothing known is lost, and
/// the blocks, the measured peers and the queue are untouched.
pub proof fn lemma_tracker_reply_learns_peers(v: SchedulerView, t: int, elapsed: u128, tv: TorrentView)
    requires
        is_wf(v),
        0 <= t < NUM_THREADS,
    ensures
        ({
            let a = after_response(v, t, elapsed, ResponseView::Torrent(Some(tv)));
            &&& a.pools.known.contains(tv.addr1)
            &&& a.pools.known.contains(tv.addr2)
            &&& v.pools.known.to_set().subset_of(a.pools.known.to_set())
            &&& !v.pools.known.contains(tv.addr1) ==> a.pools.unmeasured.contains(
                AddrView { address: tv.addr1, dur: UNMEASURED_DUR },
            )
            &&& !v.pools.known.contains(tv.addr2) ==> a.pools.unmeasured.contains(
                AddrView { address: tv.addr2, dur: UNMEASURED_DUR },
            )
            &&& a.pools.measured == v.pools.measured
            &&& a.pools.pending == v.pools.pending
            &&& a.missing == v.missing
        }),
{
    let p1 = learn(v.pools, tv.addr1);
    let p2 = learn(p1, tv.addr2);
    lemma_learn(v.pools, tv.addr1);
    lemma_learn(p1, tv.addr2);
    assert(p1.known.to_set().contains(tv.addr1));
    assert(p2.known.to_set().contains(tv.addr1));
    if !v.pools.known.contains(tv.addr1) {
        let u = AddrView { address: tv.addr1, dur: UNMEASURED_DUR };
        assert(p1.unmeasured[p1.unmeasured.len() - 1] == u);
        if !p1.known.contains(tv.addr2) {
            assert(p2.unmeasured[p1.unmeasured.len() - 1] == u);
        }
    }
    if !v.pools.known.contains(tv.addr2) {
        let u = AddrView { address: tv.addr2, dur: UNMEASURED_DUR };
        if p1.known.contains(tv.addr2) {
            assert(tv.addr2 == tv.addr1);
            assert(p1.unmeasured[p1.unmeasured.len() - 1] == u);
        } else {
            assert(p2.unmeasured[p2.unmeasured.len() - 1] == u);
        }
    }
}

/// A tracker reply that names only peers already known changes no pool:
/// a known peer is never added again nor probed again as unmeasured.
pub proof fn lemma_known_peers_not_relearned(v: SchedulerView, t: int, elapsed: u128, tv: TorrentView)
    requires
        v.pools.known.contains(tv.addr1),
        v.pools.known.contains(tv.addr2),
    ensures
        after_response(v, t, elapsed, ResponseView::Torrent(Some(tv))).pools == v.pools,
{
}

/// Learning from tracker replies keeps the known addresses free of repeats.
pub proof fn lemma_known_stays_distinct(v: SchedulerView, t: int, elapsed: u128, r: ResponseView)
    requires
        v.pools.known.no_duplicates(),
        0 <= t < NUM_THREADS,
        r is BlocksFilled ==> fetching_blocks(v, t),
    ensures
        after_response(v, t, elapsed, r).pools.known.no_duplicates(),
{
    if let ResponseView::Torrent(Some(tv)) = r {
        lemma_learn_distinct(v.pools, tv.addr1);
        lemma_learn_distinct(learn(v.pools, tv.addr1), tv.addr2);
    }
}

proof fn lemma_learn_distinct(p: Pools, a: Seq<char>)
    requires
        p.known.no_duplicates(),
    ensures
        learn(p, a).known.no_duplicates(),
{
    if !p.known.contains(a) {
        let k = learn(p, a).known;
        assert forall|x: int, y: int| 0 <= x < k.len() && 0 <= y < k.len() && x != y implies k[x]
            != k[y] by {
            if x == 0 && y > 0 {
                assert(k[y] == p.known[y - 1]);
            } else if y == 0 && x > 0 {
                assert(k[x] == p.known[x - 1]);
            } else if x > 0 && y > 0 {
                assert(k[x] == p.known[x - 1]);
                assert(k[y] == p.known[y - 1]);
            }
        }
    }
}

/// The orders handed out, as values.
pub open spec fn sent_views(s: Seq<(usize, Order)>) -> Seq<(usize, OrderView)> {
    s.map_values(|p: (usize, Order)| (p.0, p.1@))
}

/// The starting state is well formed and holds every block exactly once.
pub proof fn lemma_initial(addr1: Seq<char>, addr2: Seq<char>, server: Seq<char>, num_blocks: usize)
    ensures
        is_wf(initial_view(addr1, addr2, server, num_blocks as nat)),
        blocks_accounted(initial_view(addr1, addr2, server, num_blocks as nat)),
{
    let v = initial_view(addr1, addr2, server, num_blocks as nat);
    let r = block_range(num_blocks as nat);
    vstd::seq_lib::seq_to_set_is_finite(r);
    assert forall|b: usize| v.missing.contains(b) implies b < v.num_blocks by {
        lemma_range_contains(num_blocks as nat, b);
    }
    assert forall|b: usize| #[trigger]
        holdings(v, b) == if v.missing.contains(b) {
            1nat
        } else {
            0nat
        } by {
        lemma_occurrences_range(num_blocks as nat, b);
        lemma_outstanding_idle(v.orders, b);
        lemma_range_contains(num_blocks as nat, b);
    }
}

impl Scheduler {
    /// The scheduler at the start of a download, from the tracker's first
    /// reply and the tracker's own address (see [`initial_view`]).
    pub fn new(torrent: &TorrentResponse, server_addr: String) -> (s: Scheduler)
        ensures
            s@ == initial_view(torrent.addr1@, torrent.addr2@, server_addr@, torrent.num_blocks as nat),
            is_wf(s@),
            blocks_accounted(s@),
    {
        let mut known_addrs: VecDeque<String> = VecDeque::new();
        known_addrs.push_back(torrent.addr1.clone());
        known_addrs.push_back(torrent.addr2.clone());
        known_addrs.push_back(server_addr);
        let mut un_measured_addrs: VecDeque<Addr> = VecDeque::new();
        un_measured_addrs.push_back(Addr { address: torrent.addr1.clone(), dur: UNMEASURED_DUR });
        un_measured_addrs.push_back(Addr { address: torrent.addr2.clone(), dur: UNMEASURED_DUR });
        let n = torrent.num_blocks;
        let mut not_downloaded_blocks: HashSet<usize> = HashSet::new();
        let mut non_pending_blocks: VecDeque<usize> = VecDeque::new();
        let mut i: usize = 0;
        while i < n
            invariant
                i <= n,
                not_downloaded_blocks@ == block_range(i as nat).to_set(),
                non_pending_blocks@ == block_range(i as nat),
            decreases n - i,
        {
            not_downloaded_blocks.insert(i);
            non_pending_blocks.push_back(i);
            proof {
                assert(block_range(i as nat + 1) =~= block_range(i as nat).push(i));
                assert(block_range(i as nat + 1).to_set() =~= block_range(i as nat).to_set().insert(i)) by {
                    assert forall|b: usize| true implies (block_range(i as nat + 1).contains(b) <==> block_range(i as nat).to_set().insert(i).contains(b)) by {
                        lemma_range_contains(i as nat + 1, b);
                        lemma_range_contains(i as nat, b);
                    }
                }
            }
            i = i + 1;
        }
        let mut thread_orders: Vec<Option<Order>> = Vec::new();
        let mut j: usize = 0;
        while j < NUM_THREADS
            invariant
                j <= NUM_THREADS,
                thread_orders@.len() == j,
                forall|k: int| 0 <= k < j ==> thread_orders@[k] is None,
            decreases NUM_THREADS - j,
        {
            thread_orders.push(None);
            j = j + 1;
        }
        let s = Scheduler {
            known_addrs,
            un_measured_addrs,
            addr_heap: AddrHeap::new(),
            not_downloaded_blocks,
            non_pending_blocks,
            thread_orders,
            num_blocks: n,
        };
        proof {
            let v = initial_view(torrent.addr1@, torrent.addr2@, server_addr@, n as nat);
            assert(s@.pools.known =~= v.pools.known);
            assert(s@.pools.unmeasured =~= v.pools.unmeasured);
            assert(s@.pools.measured =~= v.pools.measured);
            assert(s@.orders =~= v.orders);
            lemma_initial(torrent.addr1@, torrent.addr2@, server_addr@, n);
        }
        s
    }

    /// Whether every block has been fetched.
    pub fn is_finished(&self) -> (r: bool)
        requires
            is_wf(self@),
        ensures
            r == (self@.missing == Set::<usize>::empty()),
    {
        let r = self.not_downloaded_blocks.len() == 0;
        proof {
            vstd::set_lib::lemma_set_empty_equivalency_len(self@.missing);
        }
        r
    }

    /// Whether worker `thread_num` exists and holds an order for blocks,
    /// the only order it can report fetched blocks for.
    pub fn expects_blocks(&self, thread_num: usize) -> (r: bool)
        requires
            is_wf(self@),
        ensures
            r == (thread_num < NUM_THREADS && fetching_blocks(self@, thread_num as int)),
    {
        if thread_num >= NUM_THREADS {
            return false;
        }
        match &self.thread_orders[thread_num] {
            Some(o) => o.blocks.is_some(),
            None => false,
        }
    }

    /// Hands an order to every idle worker while blocks are queued (see
    /// [`dispatch_from`]), and gives back each order handed out with its
    /// worker.
    pub fn dispatch(&mut self) -> (sent: Vec<(usize, Order)>)
        requires
            is_wf(old(self)@),
        ensures
            final(self)@ == dispatch_from(old(self)@, 0).0,
            sent_views(sent@) == dispatch_from(old(self)@, 0).1,
            is_wf(final(self)@),
            blocks_accounted(old(self)@) ==> blocks_accounted(final(self)@),
            final(self)@.pools.pending.len() > 0 ==> forall|j: int|
                0 <= j < NUM_THREADS ==> final(self)@.orders[j] is Some,
    {
        proof {
            lemma_dispatch(self@, 0);
        }
        let mut sent: Vec<(usize, Order)> = Vec::new();
        let mut i: usize = 0;
        while i < NUM_THREADS
            invariant
                i <= NUM_THREADS,
                is_wf(self@),
                self.thread_orders@.len() == NUM_THREADS,
                dispatch_from(old(self)@, 0).0 == dispatch_from(self@, i as nat).0,
                dispatch_from(old(self)@, 0).1 == sent_views(sent@) + dispatch_from(self@, i as nat).1,
            decreases NUM_THREADS - i,
        {
            let ghost before = self@;
            if self.thread_orders[i].is_none() && self.non_pending_blocks.len() > 0 {
                let new_order = if i == 0 {
                    get_order_probe(
                        &mut self.known_addrs,
                        &mut self.un_measured_addrs,
                        &mut self.addr_heap,
                        &mut self.non_pending_blocks,
                    )
                } else {
                    get_order_download(
                        &mut self.known_addrs,
                        &mut self.un_measured_addrs,
                        &mut self.addr_heap,
                        &mut self.non_pending_blocks,
                    )
                };
                let copy = new_order.duplicate();
                self.thread_orders.set(i, Some(new_order));
                sent.push((i, copy));
                proof {
                    let step = if i == 0 {
                        probe_step(before.pools)
                    } else {
                        download_step(before.pools)
                    };
                    lemma_step_conserves(before.pools, step);
                    assert(self@.orders =~= before.orders.update(i as int, Some(step.1)));
                    assert(self@ =~= SchedulerView {
                        pools: step.0,
                        orders: before.orders.update(i as int, Some(step.1)),
                        ..before
                    });
                    assert(sent_views(sent@) =~= sent_views(sent@.drop_last()).push((i, step.1)));
                    assert(sent_views(sent@) + dispatch_from(self@, i as nat + 1).1 =~= sent_views(
                        sent@.drop_last(),
                    ) + dispatch_from(before, i as nat).1);
                }
            }
            i = i + 1;
        }
        sent
    }

    /// Whether `addr` is among the known addresses.
    fn knows(&self, addr: &String) -> (r: bool)
        ensures
            r == self@.pools.known.contains(addr@),
    {
        let n = self.known_addrs.len();
        let mut i: usize = 0;
        while i < n
            invariant
                n == self.known_addrs@.len(),
                i <= n,
                forall|j: int| 0 <= j < i ==> self@.pools.known[j] != addr@,
            decreases n - i,
        {
            if self.known_addrs[i] == *addr {
                assert(self@.pools.known[i as int] == addr@);
                return true;
            }
            i = i + 1;
        }
        false
    }

    /// Adds `addr` to the known addresses and the unmeasured peers, unless
    /// it is known already (see [`learn`]).
    fn learn_address(&mut self, addr: &String)
        ensures
            final(self)@ == (SchedulerView { pools: learn(old(self)@.pools, addr@), ..old(self)@ }),
    {
        if !self.knows(addr) {
            self.un_measured_addrs.push_back(Addr { address: addr.clone(), dur: UNMEASURED_DUR });
            self.known_addrs.push_front(addr.clone());
            assert(self@.pools.known =~= seq![addr@] + old(self)@.pools.known);
            assert(self@.pools.unmeasured =~= old(self)@.pools.unmeasured.push(
                AddrView { address: addr@, dur: UNMEASURED_DUR },
            ));
        }
    }

    /// Takes in worker `thread_num`'s report, made `elapsed` nanoseconds
    /// after its order was handed out (see [`after_response`]).
    pub fn handle_response(&mut self, thread_num: usize, elapsed: u128, response: ResponseContent)
        requires
            is_wf(old(self)@),
            thread_num < NUM_THREADS,
            (response is BlocksFilled) ==> fetching_blocks(old(self)@, thread_num as int),
        ensures
            final(self)@ == after_response(old(self)@, thread_num as int, elapsed, response@),
            is_wf(final(self)@),
            blocks_accounted(old(self)@) && consistent_reply(
                old(self)@,
                thread_num as int,
                response@,
            ) ==> blocks_accounted(final(self)@),
    {
        proof {
            lemma_response(self@, thread_num as int, elapsed, response@);
        }
        match response {
            ResponseContent::BlocksFilled(blocks_filled) => {
                let ghost missing0 = self@.missing;
                let mut k: usize = 0;
                while k < blocks_filled.len()
                    invariant
                        k <= blocks_filled@.len(),
                        self@ == (SchedulerView {
                            missing: missing0.difference(blocks_filled@.take(k as int).to_set()),
                            ..old(self)@
                        }),
                    decreases blocks_filled.len() - k,
                {
                    self.not_downloaded_blocks.remove(&blocks_filled[k]);
                    proof {
                        assert(blocks_filled@.take(k as int + 1) =~= blocks_filled@.take(
                            k as int,
                        ).push(blocks_filled@[k as int]));
                        let t0 = blocks_filled@.take(k as int);
                        let t1 = blocks_filled@.take(k as int + 1);
                        assert forall|x: usize| t1.contains(x) <==> (t0.contains(x) || x
                            == blocks_filled@[k as int]) by {
                            if t1.contains(x) {
                                let j = choose|j: int| 0 <= j < t1.len() && t1[j] == x;
                                if j < k {
                                    assert(t0[j] == x);
                                }
                            }
                            if t0.contains(x) {
                                let j = choose|j: int| 0 <= j < t0.len() && t0[j] == x;
                                assert(t1[j] == x);
                            }
                            if x == blocks_filled@[k as int] {
                                assert(t1[k as int] == x);
                            }
                        }
                        assert(missing0.difference(blocks_filled@.take(k as int + 1).to_set())
                            =~= missing0.difference(
                            blocks_filled@.take(k as int).to_set(),
                        ).remove(blocks_filled@[k as int]));
                    }
                    k = k + 1;
                }
                assert(blocks_filled@.take(blocks_filled@.len() as int) =~= blocks_filled@);
                let order = self.thread_orders[thread_num].as_ref().unwrap();
                let addr = order.addr.clone();
                let order_blocks = copy_blocks(order.blocks.as_ref().unwrap());
                if blocks_filled.len() == order_blocks.len() {
                    self.addr_heap.push(Addr { address: addr, dur: elapsed });
                } else {
                    let ghost keep = |x: usize| self@.missing.contains(x);
                    let ghost pending0 = self@.pools.pending;
                    let mut j: usize = 0;
                    while j < order_blocks.len()
                        invariant
                            j <= order_blocks@.len(),
                            self@ == (SchedulerView {
                                pools: Pools {
                                    pending: pending0 + order_blocks@.take(j as int).filter(keep),
                                    ..old(self)@.pools
                                },
                                missing: missing0.difference(blocks_filled@.to_set()),
                                ..old(self)@
                            }),
                            keep == (|x: usize| self@.missing.contains(x)),
                        decreases order_blocks.len() - j,
                    {
                        let block = order_blocks[j];
                        proof {
                            assert(order_blocks@.take(j as int + 1) =~= order_blocks@.take(
                                j as int,
                            ).push(block));
                            order_blocks@.take(j as int).lemma_filter_push(block, keep);
                        }
                        if self.not_downloaded_blocks.contains(&block) {
                            self.non_pending_blocks.push_back(block);
                        }
                        j = j + 1;
                    }
                    assert(order_blocks@.take(order_blocks@.len() as int) =~= order_blocks@);
                }
                self.thread_orders.set(thread_num, None);
                assert(self@.orders =~= old(self)@.orders.update(thread_num as int, None));
            },
            ResponseContent::Torrent(torrent_res) => {
                if let Some(torrent_res) = torrent_res {
                    self.learn_address(&torrent_res.addr1);
                    self.learn_address(&torrent_res.addr2);
                }
                self.thread_orders.set(thread_num, None);
                assert(self@.orders =~= old(self)@.orders.update(thread_num as int, None));
            },
        }
    }
}

} // verus!
