use vstd::prelude::*;

verus! {

/// How long an address that has never served a block is taken to need:
/// the longest duration there is, in nanoseconds.
pub const UNMEASURED_DUR: u128 = 18446744073709551615999999999u128;

/// A peer together with the time (in nanoseconds) its last order took.
pub struct Addr {
    pub address: String,
    pub dur: u128,
}

/// What an [`Addr`] stands for: its address text and its duration.
pub struct AddrView {
    pub address: Seq<char>,
    pub dur: u128,
}

impl View for Addr {
    type V = AddrView;

    open spec fn view(&self) -> AddrView {
        AddrView { address: self.address@, dur: self.dur }
    }
}

/// The addresses of a sequence of peers, as values.
pub open spec fn addr_views(s: Seq<Addr>) -> Seq<AddrView> {
    s.map_values(|a: Addr| a@)
}

/// The text of a sequence of strings.
pub open spec fn string_views(s: Seq<String>) -> Seq<Seq<char>> {
    s.map_values(|a: String| a@)
}

/// Work handed to one worker: the peer to ask, and either the blocks to
/// fetch from it or, when `blocks` is `None`, a request for the torrent
/// description (which also names further peers).
pub struct Order {
    pub addr: String,
    pub blocks: Option<Vec<usize>>,
}

/// What an [`Order`] stands for.
pub struct OrderView {
    pub addr: Seq<char>,
    pub blocks: Option<Seq<usize>>,
}

impl View for Order {
    type V = OrderView;

    open spec fn view(&self) -> OrderView {
        OrderView {
            addr: self.addr@,
            blocks: match self.blocks {
                Some(b) => Some(b@),
                None => None,
            },
        }
    }
}

/// A copy of `v`, element by element.
pub fn copy_blocks(v: &Vec<usize>) -> (r: Vec<usize>)
    ensures
        r@ == v@,
{
    let mut r: Vec<usize> = Vec::new();
    let mut i: usize = 0;
    while i < v.len()
        invariant
            i <= v.len(),
            r@ == v@.take(i as int),
        decreases v.len() - i,
    {
        r.push(v[i]);
        i = i + 1;
        assert(r@ =~= v@.take(i as int));
    }
    assert(v@.take(v.len() as int) =~= v@);
    r
}

impl Order {
    /// A copy of this order.
    pub fn duplicate(&self) -> (r: Order)
        ensures
            r@ == self@,
    {
        let blocks = match &self.blocks {
            Some(b) => Some(copy_blocks(b)),
            None => None,
        };
        Order { addr: self.addr.clone(), blocks }
    }
}

/// The index of the first peer of `s` whose duration is the least.
pub open spec fn first_fastest(s: Seq<AddrView>) -> int
    decreases s.len(),
{
    if s.len() <= 1 {
        0
    } else {
        let k = first_fastest(s.drop_last());
        if s.last().dur < s[k].dur {
            s.len() - 1
        } else {
            k
        }
    }
}

/// `first_fastest` names a peer of least duration, and no earlier peer
/// is as fast.
pub proof fn lemma_first_fastest(s: Seq<AddrView>)
    requires
        s.len() > 0,
    ensures
        0 <= first_fastest(s) < s.len(),
        forall|j: int| 0 <= j < s.len() ==> s[first_fastest(s)].dur <= #[trigger] s[j].dur,
        forall|j: int| 0 <= j < first_fastest(s) ==> s[first_fastest(s)].dur < #[trigger] s[j].dur,
    decreases s.len(),
{
    if s.len() > 1 {
        let t = s.drop_last();
        lemma_first_fastest(t);
        let k = first_fastest(t);
        assert forall|j: int| 0 <= j < t.len() implies t[j] == s[j] by {}
        assert(t[k] == s[k]);
        if s.last().dur < s[k].dur {
            assert forall|j: int| 0 <= j < s.len() implies s[s.len() - 1].dur <= #[trigger] s[j].dur by {
                if j < t.len() {
                    assert(t[k].dur <= t[j].dur);
                }
            }
            assert forall|j: int| 0 <= j < s.len() - 1 implies s[s.len() - 1].dur < #[trigger] s[j].dur by {
                assert(t[k].dur <= t[j].dur);
            }
        } else {
            assert forall|j: int| 0 <= j < s.len() implies s[k].dur <= #[trigger] s[j].dur by {
                if j < t.len() {
                    assert(t[k].dur <= t[j].dur);
                }
            }
            assert forall|j: int| 0 <= j < k implies s[k].dur < #[trigger] s[j].dur by {
                assert(t[k].dur < t[j].dur);
            }
        }
    }
}

/// The measured peers, fastest first out. Among peers of equal duration
/// the one that came in first leaves first.
pub struct AddrHeap {
    items: Vec<Addr>,
}

impl View for AddrHeap {
    type V = Seq<AddrView>;

    closed spec fn view(&self) -> Seq<AddrView> {
        addr_views(self.items@)
    }
}

impl AddrHeap {
    pub fn new() -> (h: AddrHeap)
        ensures
            h@ == Seq::<AddrView>::empty(),
    {
        let h = AddrHeap { items: Vec::new() };
        assert(h@ =~= Seq::<AddrView>::empty());
        h
    }

    pub fn len(&self) -> (n: usize)
        ensures
            n == self@.len(),
    {
        self.items.len()
    }

    pub fn push(&mut self, a: Addr)
        ensures
            final(self)@ == old(self)@.push(a@),
    {
        self.items.push(a);
        assert(self@ =~= old(self)@.push(a@));
    }

    /// Takes out the fastest peer: `None` when there is none.
    pub fn pop(&mut self) -> (r: Option<Addr>)
        ensures
            old(self)@.len() == 0 ==> r is None && final(self)@ == old(self)@,
            old(self)@.len() > 0 ==> (r matches Some(a) && a@ == old(self)@[first_fastest(old(self)@)]
                && final(self)@ == old(self)@.remove(first_fastest(old(self)@))),
    {
        let n = self.items.len();
        if n == 0 {
            return None;
        }
        let mut best: usize = 0;
        let mut j: usize = 1;
        while j < n
            invariant
                n == self.items.len(),
                n == self@.len(),
                1 <= j <= n,
                best < j,
                best as int == first_fastest(self@.take(j as int)),
                self@ == old(self)@,
            decreases n - j,
        {
            proof {
                assert(self@.take(j as int + 1).drop_last() =~= self@.take(j as int));
                assert(self@.take(j as int)[best as int] == self@[best as int]);
            }
            if self.items[j].dur < self.items[best].dur {
                best = j;
            }
            j = j + 1;
        }
        proof {
            assert(self@.take(n as int) =~= self@);
        }
        let a = self.items.remove(best);
        assert(self@ =~= old(self)@.remove(best as int));
        Some(a)
    }
}

} // verus!
