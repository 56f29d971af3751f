use std::collections::VecDeque;
use vstd::prelude::*;

use crate::addr::{
    addr_views, first_fastest, lemma_first_fastest, string_views, Addr, AddrHeap, AddrView, Order, OrderView,
};

verus! {

/// The most blocks one order asks a peer for.
pub const BLOCKS_PER_ORDER: usize = 1;

/// While fewer addresses than this are known, the probing worker asks a
/// known peer for the torrent description (to learn more peers).
pub const KNOWN_ADDRS_WANTED: usize = 6;

/// The four pools an order is drawn from.
#[verifier::ext_equal]
pub struct Pools {
    /// Every address heard of, in the order they are cycled through.
    pub known: Seq<Seq<char>>,
    /// Peers no block has been fetched from yet, oldest first.
    pub unmeasured: Seq<AddrView>,
    /// Peers that served a whole order, with the time it took.
    pub measured: Seq<AddrView>,
    /// Blocks that are missing and that no worker is fetching, oldest first.
    pub pending: Seq<usize>,
}

pub open spec fn pools_of(
    known: VecDeque<String>,
    unmeasured: VecDeque<Addr>,
    measured: AddrHeap,
    pending: VecDeque<usize>,
) -> Pools {
    Pools {
        known: string_views(known@),
        unmeasured: addr_views(unmeasured@),
        measured: measured@,
        pending: pending@,
    }
}

/// How many of the pending blocks the next order takes.
pub open spec fn order_size(pending: Seq<usize>) -> int {
    if pending.len() < BLOCKS_PER_ORDER {
        pending.len() as int
    } else {
        BLOCKS_PER_ORDER as int
    }
}

/// An order of the first pending blocks for `addr`, and the pools it leaves.
pub open spec fn block_order(p: Pools, addr: Seq<char>) -> (Pools, OrderView) {
    let k = order_size(p.pending);
    (
        Pools { pending: p.pending.skip(k), ..p },
        OrderView { addr, blocks: Some(p.pending.take(k)) },
    )
}

/// The order a downloading worker gets: blocks from the fastest measured
/// peer; failing that, blocks from the oldest unmeasured peer; failing
/// that, the torrent description from the first known address, which
/// moves to the back so that the next such order asks the next address.
pub open spec fn download_step(p: Pools) -> (Pools, OrderView) {
    if p.measured.len() > 0 {
        let i = first_fastest(p.measured);
        block_order(Pools { measured: p.measured.remove(i), ..p }, p.measured[i].address)
    } else if p.unmeasured.len() > 0 {
        block_order(Pools { unmeasured: p.unmeasured.drop_first(), ..p }, p.unmeasured[0].address)
    } else {
        (
            Pools { known: p.known.drop_first().push(p.known[0]), ..p },
            OrderView { addr: p.known[0], blocks: None },
        )
    }
}

/// The order the probing worker gets: blocks from the oldest unmeasured
/// peer; failing that, while few addresses are known, the torrent
/// description from the first known address, which moves to the back;
/// failing that, what a downloading worker would get.
pub open spec fn probe_step(p: Pools) -> (Pools, OrderView) {
    if p.unmeasured.len() > 0 {
        block_order(Pools { unmeasured: p.unmeasured.drop_first(), ..p }, p.unmeasured[0].address)
    } else if p.known.len() < KNOWN_ADDRS_WANTED {
        (
            Pools { known: p.known.drop_first().push(p.known[0]), ..p },
            OrderView { addr: p.known[0], blocks: None },
        )
    } else {
        download_step(p)
    }
}

/// Takes the blocks of the next order from the front of `non_pending_blocks`.
fn take_order_blocks(non_pending_blocks: &mut VecDeque<usize>) -> (blocks: Vec<usize>)
    ensures
        blocks@ == old(non_pending_blocks)@.take(order_size(old(non_pending_blocks)@)),
        final(non_pending_blocks)@ == old(non_pending_blocks)@.skip(
            order_size(old(non_pending_blocks)@),
        ),
{
    let ghost start = non_pending_blocks@;
    let mut blocks: Vec<usize> = Vec::new();
    let mut i: usize = 0;
    while i < BLOCKS_PER_ORDER
        invariant
            i <= BLOCKS_PER_ORDER,
            blocks@.len() == (if i < start.len() { i as int } else { start.len() as int }),
            blocks@ == start.take(blocks@.len() as int),
            non_pending_blocks@ == start.skip(blocks@.len() as int),
        decreases BLOCKS_PER_ORDER - i,
    {
        if let Some(block) = non_pending_blocks.pop_front() {
            proof {
                assert(start.take(blocks@.len() as int + 1) =~= start.take(blocks@.len() as int).push(
                    block,
                ));
                assert(start.skip(blocks@.len() as int + 1) =~= start.skip(
                    blocks@.len() as int,
                ).subrange(1, start.skip(blocks@.len() as int).len() as int));
            }
            blocks.push(block);
        }
        i = i + 1;
    }
    blocks
}

/// Draws the order for a downloading worker (see [`download_step`]).
pub fn get_order_download(
    known_addrs: &mut VecDeque<String>,
    un_measured_addrs: &mut VecDeque<Addr>,
    addr_heap: &mut AddrHeap,
    non_pending_blocks: &mut VecDeque<usize>,
) -> (order: Order)
    requires
        old(addr_heap)@.len() > 0 || old(un_measured_addrs)@.len() > 0 || old(known_addrs)@.len()
            > 0,
    ensures
        (
            pools_of(
                *final(known_addrs),
                *final(un_measured_addrs),
                *final(addr_heap),
                *final(non_pending_blocks),
            ),
            order@,
        ) == download_step(
            pools_of(
                *old(known_addrs),
                *old(un_measured_addrs),
                *old(addr_heap),
                *old(non_pending_blocks),
            ),
        ),
{
    if let Some(addr) = addr_heap.pop() {
        let blocks = take_order_blocks(non_pending_blocks);
        return Order { addr: addr.address, blocks: Some(blocks) };
    }
    if let Some(addr) = un_measured_addrs.pop_front() {
        let blocks = take_order_blocks(non_pending_blocks);
        assert(addr_views(un_measured_addrs@) =~= addr_views(old(un_measured_addrs)@).drop_first());
        return Order { addr: addr.address, blocks: Some(blocks) };
    }
    let ret_addr = known_addrs.pop_front().unwrap();
    known_addrs.push_back(ret_addr.clone());
    assert(string_views(known_addrs@) =~= string_views(old(known_addrs)@).drop_first().push(
        string_views(old(known_addrs)@)[0],
    ));
    Order { addr: ret_addr, blocks: None }
}

/// Draws the order for the probing worker (see [`probe_step`]).
pub fn get_order_probe(
    known_addrs: &mut VecDeque<String>,
    un_measured_addrs: &mut VecDeque<Addr>,
    addr_heap: &mut AddrHeap,
    non_pending_blocks: &mut VecDeque<usize>,
) -> (order: Order)
    requires
        old(un_measured_addrs)@.len() > 0 || old(known_addrs)@.len() > 0,
    ensures
        (
            pools_of(
                *final(known_addrs),
                *final(un_measured_addrs),
                *final(addr_heap),
                *final(non_pending_blocks),
            ),
            order@,
        ) == probe_step(
            pools_of(
                *old(known_addrs),
                *old(un_measured_addrs),
                *old(addr_heap),
                *old(non_pending_blocks),
            ),
        ),
{
    if let Some(addr) = un_measured_addrs.pop_front() {
        let blocks = take_order_blocks(non_pending_blocks);
        assert(addr_views(un_measured_addrs@) =~= addr_views(old(un_measured_addrs)@).drop_first());
        return Order { addr: addr.address, blocks: Some(blocks) };
    }
    if known_addrs.len() < KNOWN_ADDRS_WANTED {
        let ret_addr = known_addrs.pop_front().unwrap();
        known_addrs.push_back(ret_addr.clone());
        assert(string_views(known_addrs@) =~= string_views(old(known_addrs)@).drop_first().push(
            string_views(old(known_addrs)@)[0],
        ));
        return Order { addr: ret_addr, blocks: None };
    }
    get_order_download(known_addrs, un_measured_addrs, addr_heap, non_pending_blocks)
}


/// A downloading worker is sent to a measured peer whose last order took no
/// longer than any other measured peer's, whenever there is one; and no
/// order takes more than [`BLOCKS_PER_ORDER`] blocks, the first queued.
pub proof fn lemma_download_asks_fastest(p: Pools)
    ensures
        p.measured.len() > 0 ==> exists|i: int|
            0 <= i < p.measured.len() && download_step(p).1.addr == p.measured[i].address
                && forall|j: int| 0 <= j < p.measured.len() ==> p.measured[i].dur <= #[trigger] p.measured[j].dur,
        download_step(p).1.blocks matches Some(b) ==> b.len() <= BLOCKS_PER_ORDER && b
            == p.pending.take(b.len() as int),
{
    if p.measured.len() > 0 {
        lemma_first_fastest(p.measured);
        let i = first_fastest(p.measured);
        assert(download_step(p).1.addr == p.measured[i].address);
    }
}

} // verus!
