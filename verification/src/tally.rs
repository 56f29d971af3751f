use vstd::prelude::*;

use crate::addr::OrderView;

verus! {

/// How many times block `b` occurs in `s`.
pub open spec fn occurrences(s: Seq<usize>, b: usize) -> nat
    decreases s.len(),
{
    if s.len() == 0 {
        0
    } else {
        occurrences(s.drop_last(), b) + if s.last() == b {
            1nat
        } else {
            0nat
        }
    }
}

/// The blocks an outstanding order is fetching (none for a torrent request
/// or an idle worker).
pub open spec fn order_blocks(o: Option<OrderView>) -> Seq<usize> {
    match o {
        Some(ov) => match ov.blocks {
            Some(bs) => bs,
            None => Seq::empty(),
        },
        None => Seq::empty(),
    }
}

/// How many times block `b` occurs among the blocks of all outstanding orders.
pub open spec fn outstanding(orders: Seq<Option<OrderView>>, b: usize) -> nat
    decreases orders.len(),
{
    if orders.len() == 0 {
        0
    } else {
        outstanding(orders.drop_last(), b) + occurrences(order_blocks(orders.last()), b)
    }
}

pub proof fn lemma_occurrences_push(s: Seq<usize>, x: usize, b: usize)
    ensures
        occurrences(s.push(x), b) == occurrences(s, b) + if x == b {
            1nat
        } else {
            0nat
        },
{
    assert(s.push(x).drop_last() =~= s);
}

pub proof fn lemma_occurrences_concat(a: Seq<usize>, c: Seq<usize>, b: usize)
    ensures
        occurrences(a + c, b) == occurrences(a, b) + occurrences(c, b),
    decreases c.len(),
{
    if c.len() == 0 {
        assert(a + c =~= a);
    } else {
        lemma_occurrences_concat(a, c.drop_last(), b);
        assert((a + c).drop_last() =~= a + c.drop_last());
        assert((a + c).last() == c.last());
    }
}

pub proof fn lemma_occurrences_split(s: Seq<usize>, k: int, b: usize)
    requires
        0 <= k <= s.len(),
    ensures
        occurrences(s.take(k), b) + occurrences(s.skip(k), b) == occurrences(s, b),
{
    lemma_occurrences_concat(s.take(k), s.skip(k), b);
    assert(s.take(k) + s.skip(k) =~= s);
}

pub proof fn lemma_occurrences_contains(s: Seq<usize>, b: usize)
    ensures
        occurrences(s, b) > 0 <==> s.contains(b),
    decreases s.len(),
{
    if s.len() > 0 {
        let t = s.drop_last();
        lemma_occurrences_contains(t, b);
        if t.contains(b) {
            let j = choose|j: int| 0 <= j < t.len() && t[j] == b;
            assert(s[j] == b);
        }
        if s.contains(b) {
            let j = choose|j: int| 0 <= j < s.len() && s[j] == b;
            if j < t.len() {
                assert(t[j] == b);
            }
        }
    }
}

pub proof fn lemma_occurrences_filter(s: Seq<usize>, p: spec_fn(usize) -> bool, b: usize)
    ensures
        occurrences(s.filter(p), b) == if p(b) {
            occurrences(s, b)
        } else {
            0
        },
    decreases s.len(),
{
    reveal(Seq::filter);
    if s.len() > 0 {
        lemma_occurrences_filter(s.drop_last(), p, b);
        if p(s.last()) {
            lemma_occurrences_push(s.drop_last().filter(p), s.last(), b);
        }
    }
}

/// The blocks `0, 1, .., n - 1`, in order.
pub open spec fn block_range(n: nat) -> Seq<usize> {
    Seq::new(n, |i: int| i as usize)
}

pub proof fn lemma_range_contains(n: nat, b: usize)
    requires
        n <= usize::MAX + 1,
    ensures
        block_range(n).contains(b) <==> b < n,
{
    if b < n {
        assert(block_range(n)[b as int] == b);
    }
    if block_range(n).contains(b) {
        let j = choose|j: int| 0 <= j < n && #[trigger] block_range(n)[j] == b;
        assert(j as usize == b);
    }
}

pub proof fn lemma_occurrences_range(n: nat, b: usize)
    requires
        n <= usize::MAX + 1,
    ensures
        occurrences(block_range(n), b) == if b < n {
            1nat
        } else {
            0nat
        },
    decreases n,
{
    if n > 0 {
        lemma_occurrences_range((n - 1) as nat, b);
        assert(block_range(n).drop_last() =~= block_range((n - 1) as nat));
    }
}

pub proof fn lemma_outstanding_update(
    orders: Seq<Option<OrderView>>,
    i: int,
    x: Option<OrderView>,
    b: usize,
)
    requires
        0 <= i < orders.len(),
    ensures
        outstanding(orders.update(i, x), b) + occurrences(order_blocks(orders[i]), b)
            == outstanding(orders, b) + occurrences(order_blocks(x), b),
    decreases orders.len(),
{
    let u = orders.update(i, x);
    if i == orders.len() - 1 {
        assert(u.drop_last() =~= orders.drop_last());
    } else {
        lemma_outstanding_update(orders.drop_last(), i, x, b);
        assert(u.drop_last() =~= orders.drop_last().update(i, x));
    }
}

pub proof fn lemma_outstanding_idle(orders: Seq<Option<OrderView>>, b: usize)
    requires
        forall|i: int| 0 <= i < orders.len() ==> orders[i] is None,
    ensures
        outstanding(orders, b) == 0,
    decreases orders.len(),
{
    if orders.len() > 0 {
        lemma_outstanding_idle(orders.drop_last(), b);
        assert(occurrences(Seq::<usize>::empty(), b) == 0);
    }
}

} // verus!
