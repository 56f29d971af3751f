use vstd::prelude::*;
use vstd::utf8::{decode_utf8, valid_utf8};

use crate::digits::{digits_value, get_nums_in_line, usize_range};
use crate::text::{
    is_text, lemma_positions_of, lemma_positions_prefix, lemma_positions_skip_free, positions_of,
    text_of,
};
use crate::torrent::NEWLINE;

verus! {

/// A peer's reply to a block request opens with this many lines; the
/// block's bytes follow the last of them.
pub const HEADER_LINES: usize = 4;

/// A reply whose first byte is this (`4`, as in a 404 status) refuses the
/// request.
pub const REFUSAL_MARK: u8 = 52u8;

/// The largest value the end of a block may have (the reply's header
/// arithmetic is done in 32-bit signed integers).
pub const MAX_BLOCK_END: usize = 2147483647usize;

/// The reply holds all its header lines.
pub open spec fn header_complete(r: Seq<u8>) -> bool {
    positions_of(r, NEWLINE).len() >= HEADER_LINES
}

/// The header's third line, which gives the block's size: the bytes
/// between the newline that ends the second line and the one that ends the
/// third. (Whether the newline before them is counted in changes neither the
/// number its digits spell nor whether it is valid UTF-8.)
pub open spec fn size_line(r: Seq<u8>) -> Seq<u8> {
    r.subrange(positions_of(r, NEWLINE)[1] + 1, positions_of(r, NEWLINE)[2] as int)
}

/// The block size the header declares (wrapping like `usize`).
pub open spec fn declared_size(r: Seq<u8>) -> nat {
    digits_value(decode_utf8(size_line(r))) % usize_range()
}

/// Where the block starts: right after the header's last newline.
pub open spec fn body_start(r: Seq<u8>) -> int {
    positions_of(r, NEWLINE)[3] + 1
}

/// The position of the block's last byte.
pub open spec fn body_end(r: Seq<u8>) -> int {
    positions_of(r, NEWLINE)[3] + declared_size(r)
}

/// The header is one a block can follow: the reply is no refusal, the size
/// line is text, and the block's end fits the header arithmetic.
pub open spec fn header_ok(r: Seq<u8>) -> bool {
    &&& r[0] != REFUSAL_MARK
    &&& valid_utf8(size_line(r))
    &&& body_end(r) <= MAX_BLOCK_END
}

/// The block that reply `r` delivers once reading stops: the declared
/// number of bytes right after the header, if the reply holds all of them.
pub open spec fn block_of_reply(r: Seq<u8>) -> Option<Seq<u8>> {
    if header_complete(r) && header_ok(r) && r.len() >= body_end(r) + 1 {
        Some(r.subrange(body_start(r), body_end(r) + 1))
    } else {
        None
    }
}

/// What to do after a read: read more, or stop with the block (or none).
pub enum ReadStep {
    More,
    Done(Option<Vec<u8>>),
}

/// What a [`ReadStep`] stands for: `None` to read more.
pub open spec fn read_step_view(s: ReadStep) -> Option<Option<Seq<u8>>> {
    match s {
        ReadStep::More => None,
        ReadStep::Done(None) => Some(None),
        ReadStep::Done(Some(b)) => Some(Some(b@)),
    }
}

/// The decision after reading `chunk` (empty at the end of the stream) on
/// top of `received`. With the whole header in: a bad header ends with no
/// block; once the reply reaches the position of the block's last byte,
/// reading stops and the block is cut out (which needs that byte too);
/// the end of the stream before that gives no block. Before
/// the header is complete, the end of the stream or a refusal gives no
/// block. Otherwise reading goes on.
pub open spec fn chunk_outcome(received: Seq<u8>, chunk: Seq<u8>) -> Option<Option<Seq<u8>>> {
    let r = received + chunk;
    if header_complete(r) {
        if !header_ok(r) {
            Some(None)
        } else if body_end(r) <= r.len() {
            Some(block_of_reply(r))
        } else if chunk.len() == 0 {
            Some(None)
        } else {
            None
        }
    } else if chunk.len() == 0 {
        Some(None)
    } else if r[0] == REFUSAL_MARK {
        Some(None)
    } else {
        None
    }
}

/// Reads one peer's reply to a block request, chunk by chunk.
pub struct BlockReader {
    buf: Vec<u8>,
    newlines: Vec<usize>,
}

impl View for BlockReader {
    type V = Seq<u8>;

    /// Every byte received so far.
    closed spec fn view(&self) -> Seq<u8> {
        self.buf@
    }
}

impl BlockReader {
    /// The reader keeps the positions of the newlines it has received.
    pub closed spec fn wf(&self) -> bool {
        self.newlines@ == positions_of(self.buf@, NEWLINE)
    }

    pub fn new() -> (r: BlockReader)
        ensures
            r@ == Seq::<u8>::empty(),
            r.wf(),
    {
        BlockReader { buf: Vec::new(), newlines: Vec::new() }
    }

    /// The block's start and end if the header is good.
    fn header(&self) -> (r: Option<(usize, usize)>)
        requires
            self.wf(),
            header_complete(self@),
        ensures
            r is Some <==> header_ok(self@),
            r matches Some(p) ==> p.0 == body_start(self@) && p.1 == body_end(self@),
    {
        let n = self.buf.len();
        proof {
            lemma_positions_of(self.buf@, NEWLINE);
            assert(positions_of(self.buf@, NEWLINE)[1] < positions_of(self.buf@, NEWLINE)[2]);
            assert(positions_of(self.buf@, NEWLINE)[3] < n);
            assert(positions_of(self.buf@, NEWLINE)[0] < n);
        }
        if self.buf[0] == REFUSAL_MARK {
            return None;
        }
        let from = self.newlines[1] + 1;
        let to = self.newlines[2];
        let last = self.newlines[3];
        if !is_text(self.buf.as_slice(), from, to) {
            return None;
        }
        let size = get_nums_in_line(text_of(self.buf.as_slice(), from, to));
        if size > MAX_BLOCK_END || last > MAX_BLOCK_END - size {
            return None;
        }
        Some((last + 1, last + size))
    }

    /// The block, once reading has stopped (see [`block_of_reply`]).
    pub fn finish(&self) -> (r: Option<Vec<u8>>)
        requires
            self.wf(),
        ensures
            match r {
                Some(b) => block_of_reply(self@) == Some(b@),
                None => block_of_reply(self@) is None,
            },
    {
        if self.newlines.len() < HEADER_LINES {
            return None;
        }
        match self.header() {
            Some((start, end)) => {
                if self.buf.len() > end {
                    let body = vstd::slice::slice_subrange(self.buf.as_slice(), start, end + 1);
                    Some(vstd::slice::slice_to_vec(body))
                } else {
                    None
                }
            },
            None => None,
        }
    }

    /// Takes in the next chunk of the reply (an empty one at the end of
    /// the stream) and decides (see [`chunk_outcome`]).
    pub fn on_chunk(&mut self, chunk: &[u8]) -> (step: ReadStep)
        requires
            old(self).wf(),
        ensures
            final(self).wf(),
            final(self)@ == old(self)@ + chunk@,
            read_step_view(step) == chunk_outcome(old(self)@, chunk@),
    {
        let mut i: usize = 0;
        while i < chunk.len()
            invariant
                i <= chunk@.len(),
                self.buf@ == old(self)@ + chunk@.take(i as int),
                self.newlines@ == positions_of(self.buf@, NEWLINE),
            decreases chunk.len() - i,
        {
            let byte = chunk[i];
            let pos = self.buf.len();
            proof {
                assert((self.buf@.push(byte)).drop_last() =~= self.buf@);
            }
            if byte == NEWLINE {
                self.newlines.push(pos);
            }
            self.buf.push(byte);
            i = i + 1;
            assert(self.buf@ =~= old(self)@ + chunk@.take(i as int));
        }
        assert(chunk@.take(chunk@.len() as int) =~= chunk@);
        if self.newlines.len() >= HEADER_LINES {
            match self.header() {
                None => {
                    return ReadStep::Done(None);
                },
                Some((_start, end)) => {
                    if end <= self.buf.len() {
                        return ReadStep::Done(self.finish());
                    }
                },
            }
        }
        if chunk.len() == 0 {
            return ReadStep::Done(None);
        }
        if self.buf[0] == REFUSAL_MARK {
            return ReadStep::Done(None);
        }
        ReadStep::More
    }
}


/// A header line: text that holds no newline.
pub open spec fn is_line(l: Seq<u8>) -> bool {
    !l.contains(NEWLINE)
}

/// The reply made of four header lines and a body.
pub open spec fn reply_of(l0: Seq<u8>, l1: Seq<u8>, l2: Seq<u8>, l3: Seq<u8>, body: Seq<u8>) -> Seq<u8> {
    l0 + seq![NEWLINE] + l1 + seq![NEWLINE] + l2 + seq![NEWLINE] + l3 + seq![NEWLINE] + body
}

/// Counting the newline before the size line in changes nothing: the bytes
/// are valid UTF-8 either both ways or neither, and spell the same number.
pub proof fn lemma_size_line_newline(t: Seq<u8>)
    ensures
        valid_utf8(seq![NEWLINE] + t) == valid_utf8(t),
        valid_utf8(t) ==> digits_value(decode_utf8(seq![NEWLINE] + t)) == digits_value(
            decode_utf8(t),
        ),
{
    let b = seq![NEWLINE] + t;
    assert((10u8 & 0x7Fu8) == 10u8) by (bit_vector);
    assert(b[0] == 10u8);
    assert(vstd::utf8::decode_first_codepoint(b) == 10u32);
    assert(vstd::utf8::pop_first_scalar(b) =~= t);
    if valid_utf8(t) {
        let c = (10u32) as char;
        assert(decode_utf8(b) =~= seq![c] + decode_utf8(t));
        assert(c == '\n') by {
            vstd::utf8::char_u32_cast('\n', 10u32);
        }
        crate::digits::lemma_digits_skip_front(c, decode_utf8(t));
    }
}

proof fn lemma_line_positions(a: Seq<u8>, l: Seq<u8>)
    requires
        is_line(l),
    ensures
        positions_of(a + l + seq![NEWLINE], NEWLINE) == positions_of(a, NEWLINE).push(
            (a.len() + l.len()) as usize,
        ),
{
    lemma_positions_skip_free(a, l, NEWLINE);
    assert((a + l + seq![NEWLINE]).drop_last() =~= a + l);
}

/// The block size comes from the header's third line alone: whatever the
/// first, second and fourth lines say, a reply whose third line spells `n`
/// and whose body holds at least `n` bytes is read, in one chunk, as exactly
/// the first `n` bytes of its body.
pub proof fn lemma_size_from_third_line(
    l0: Seq<u8>,
    l1: Seq<u8>,
    l2: Seq<u8>,
    l3: Seq<u8>,
    body: Seq<u8>,
)
    requires
        is_line(l0),
        is_line(l1),
        is_line(l2),
        is_line(l3),
        valid_utf8(l2),
        l0.len() > 0 ==> l0[0] != REFUSAL_MARK,
        reply_of(l0, l1, l2, l3, body).len() <= usize::MAX,
        l0.len() + l1.len() + l2.len() + l3.len() + 3 + digits_value(decode_utf8(l2))
            % usize_range() <= MAX_BLOCK_END,
        body.len() >= digits_value(decode_utf8(l2)) % usize_range(),
    ensures
        chunk_outcome(Seq::empty(), reply_of(l0, l1, l2, l3, body)) == Some(
            Some(body.take((digits_value(decode_utf8(l2)) % usize_range()) as int)),
        ),
{
    let n = digits_value(decode_utf8(l2)) % usize_range();
    let h1 = l0 + seq![NEWLINE];
    let h2 = h1 + l1 + seq![NEWLINE];
    let h3 = h2 + l2 + seq![NEWLINE];
    let h4 = h3 + l3 + seq![NEWLINE];
    let r = reply_of(l0, l1, l2, l3, body);
    assert(r =~= h4 + body);
    assert(Seq::<u8>::empty() + r =~= r);
    lemma_line_positions(Seq::empty(), l0);
    assert(Seq::<u8>::empty() + l0 + seq![NEWLINE] =~= h1);
    lemma_line_positions(h1, l1);
    lemma_line_positions(h2, l2);
    lemma_line_positions(h3, l3);
    let p = positions_of(h4, NEWLINE);
    assert(positions_of(Seq::<u8>::empty(), NEWLINE) =~= Seq::<usize>::empty());
    assert(p.len() == 4);
    lemma_positions_prefix(h4, body, NEWLINE);
    let q = positions_of(r, NEWLINE);
    assert(q[0] == p[0]);
    assert(q[1] == p[1]);
    assert(q[2] == p[2]);
    assert(q[3] == p[3]);
    assert(p[1] == h2.len() - 1);
    assert(p[2] == h3.len() - 1);
    assert(p[3] == h4.len() - 1);
    assert(header_complete(r));
    assert(size_line(r) =~= l2);
    assert(declared_size(r) == n);
    assert(r[0] != REFUSAL_MARK);
    assert(header_ok(r));
    assert(r.subrange(body_start(r), body_end(r) + 1) =~= body.take(n as int));
}

/// A delivered block is exactly as long as its header declares, and is
/// the bytes right after the header.
pub proof fn lemma_block_is_declared_body(r: Seq<u8>)
    requires
        block_of_reply(r) is Some,
    ensures
        block_of_reply(r).unwrap().len() == declared_size(r),
        block_of_reply(r).unwrap() == r.subrange(body_start(r), body_start(r) + declared_size(r)),
{
}

/// A reply that opens with the refusal mark never delivers a block, however
/// it goes on.
pub proof fn lemma_refusal_gives_no_block(received: Seq<u8>, chunk: Seq<u8>)
    requires
        (received + chunk).len() > 0,
        (received + chunk)[0] == REFUSAL_MARK,
    ensures
        block_of_reply(received + chunk) is None,
        !(chunk_outcome(received, chunk) matches Some(Some(_))),
{
}

/// The blocks worker fetched when it fetched the first `fetched` blocks it
/// was asked for: those of them that are blocks of the file.
pub open spec fn blocks_filled(block_nums: Seq<usize>, fetched: int, num_blocks: nat) -> Seq<usize> {
    block_nums.take(fetched).filter(|b: usize| b < num_blocks)
}

/// The progress of fetching an order's blocks one after another from one
/// peer, stopping at the first failure.
pub struct BlockFetch {
    block_nums: Vec<usize>,
    num_blocks: usize,
    fetched: usize,
    stopped: bool,
    filled: Vec<usize>,
}

/// What a [`BlockFetch`] stands for: the blocks asked for, how many of them
/// have been fetched, whether a failure stopped the fetching, and the
/// blocks filled so far.
pub struct FetchView {
    pub block_nums: Seq<usize>,
    pub num_blocks: nat,
    pub fetched: nat,
    pub stopped: bool,
    pub filled: Seq<usize>,
}

impl View for BlockFetch {
    type V = FetchView;

    closed spec fn view(&self) -> FetchView {
        FetchView {
            block_nums: self.block_nums@,
            num_blocks: self.num_blocks as nat,
            fetched: self.fetched as nat,
            stopped: self.stopped,
            filled: self.filled@,
        }
    }
}

/// The fetch has not run past its blocks and has filled what it fetched.
pub open spec fn fetch_wf(v: FetchView) -> bool {
    &&& v.fetched <= v.block_nums.len()
    &&& v.filled == blocks_filled(v.block_nums, v.fetched as int, v.num_blocks)
}

impl BlockFetch {
    /// Starts fetching `block_nums` of a file of `num_blocks` blocks.
    pub fn new(block_nums: Vec<usize>, num_blocks: usize) -> (f: BlockFetch)
        ensures
            f@ == (FetchView {
                block_nums: block_nums@,
                num_blocks: num_blocks as nat,
                fetched: 0,
                stopped: false,
                filled: Seq::empty(),
            }),
            fetch_wf(f@),
    {
        let f = BlockFetch { block_nums, num_blocks, fetched: 0, stopped: false, filled: Vec::new() };
        proof {
            reveal(Seq::filter);
            assert(f@.block_nums.take(0) =~= Seq::<usize>::empty());
        }
        f
    }

    /// The block to fetch next, if any: none once a fetch failed or every
    /// block was fetched.
    pub fn next_block(&self) -> (r: Option<usize>)
        requires
            fetch_wf(self@),
        ensures
            r == (if self@.stopped || self@.fetched >= self@.block_nums.len() {
                None
            } else {
                Some(self@.block_nums[self@.fetched as int])
            }),
    {
        if self.stopped || self.fetched >= self.block_nums.len() {
            None
        } else {
            Some(self.block_nums[self.fetched])
        }
    }

    /// Records whether the block [`Self::next_block`] named was fetched:
    /// a fetched block of the file is filled; a failure stops the fetching.
    /// Says whether the block was filled, that is, whether it has a place
    /// in the file to be stored in.
    pub fn record(&mut self, got: bool) -> (filled: bool)
        requires
            fetch_wf(old(self)@),
            !old(self)@.stopped,
            old(self)@.fetched < old(self)@.block_nums.len(),
        ensures
            fetch_wf(final(self)@),
            filled == (got && old(self)@.block_nums[old(self)@.fetched as int]
                < old(self)@.num_blocks),
            final(self)@ == (if got {
                FetchView { fetched: old(self)@.fetched + 1, ..old(self)@ }.with_filled()
            } else {
                FetchView { stopped: true, ..old(self)@ }
            }),
    {
        if got {
            let _len = self.block_nums.len();
            let block = self.block_nums[self.fetched];
            proof {
                let s = self@.block_nums;
                let k = self@.fetched as int;
                assert(s.take(k + 1) =~= s.take(k).push(block));
                s.take(k).lemma_filter_push(block, |b: usize| b < self@.num_blocks);
            }
            let filled = block < self.num_blocks;
            if filled {
                self.filled.push(block);
            }
            self.fetched = self.fetched + 1;
            filled
        } else {
            self.stopped = true;
            false
        }
    }

    /// The blocks filled.
    pub fn into_filled(self) -> (r: Vec<usize>)
        ensures
            r@ == self@.filled,
    {
        self.filled
    }
}

impl FetchView {
    /// The same progress with the filled blocks made to match it.
    pub open spec fn with_filled(self) -> FetchView {
        FetchView {
            filled: blocks_filled(self.block_nums, self.fetched as int, self.num_blocks),
            ..self
        }
    }
}

/// When every block asked for is a block of the file, the blocks filled are
/// the first ones asked for, in order: the report the scheduler can take.
pub proof fn lemma_filled_is_prefix(block_nums: Seq<usize>, fetched: int, num_blocks: nat)
    requires
        0 <= fetched <= block_nums.len(),
        forall|i: int| 0 <= i < block_nums.len() ==> #[trigger] block_nums[i] < num_blocks,
    ensures
        blocks_filled(block_nums, fetched, num_blocks) == block_nums.take(fetched),
    decreases fetched,
{
    reveal(Seq::filter);
    if fetched > 0 {
        lemma_filled_is_prefix(block_nums, fetched - 1, num_blocks);
        let t = block_nums.take(fetched);
        assert(t.drop_last() =~= block_nums.take(fetched - 1));
        assert(t.last() == block_nums[fetched - 1]);
    } else {
        assert(block_nums.take(0) =~= Seq::<usize>::empty());
    }
}

} // verus!
