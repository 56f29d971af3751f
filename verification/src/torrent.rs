use vstd::prelude::*;
use vstd::string::StringExecFns;
use vstd::utf8::{decode_utf8, valid_utf8};

use crate::digits::{digits_value, get_nums_in_line, usize_range};
use crate::text::{
    all_white, find_all, is_text, is_white_space, lemma_positions_of, lemma_trimmed_ends,
    lemma_trimmed_ignores_padding, positions_of, text_of, trim, trimmed,
};

verus! {

/// What the tracker says of a file: how many blocks and bytes it has and
/// two peers that serve it.
pub struct TorrentResponse {
    pub num_blocks: usize,
    pub file_size: usize,
    pub addr1: String,
    pub addr2: String,
}

/// What a [`TorrentResponse`] stands for.
pub struct TorrentView {
    pub num_blocks: usize,
    pub file_size: usize,
    pub addr1: Seq<char>,
    pub addr2: Seq<char>,
}

impl View for TorrentResponse {
    type V = TorrentView;

    open spec fn view(&self) -> TorrentView {
        TorrentView {
            num_blocks: self.num_blocks,
            file_size: self.file_size,
            addr1: self.addr1@,
            addr2: self.addr2@,
        }
    }
}


/// The byte that ends a line.
pub const NEWLINE: u8 = 10u8;

/// The byte that ends a field's name.
pub const COLON: u8 = 58u8;

/// A tracker reply has this many lines, each a name, a colon and a value:
/// the block count, the file size, and the address and port of two peers.
pub const TORRENT_LINES: usize = 6;

/// Where the value of line `k` starts: at its colon for the two counts,
/// just after it for the addresses and ports.
pub open spec fn field_start(buf: Seq<u8>, k: int) -> int {
    let c = positions_of(buf, COLON)[k] as int;
    if k < 2 {
        c
    } else {
        c + 1
    }
}

/// Where the value of line `k` ends: at its newline.
pub open spec fn field_end(buf: Seq<u8>, k: int) -> int {
    positions_of(buf, NEWLINE)[k] as int
}

pub open spec fn field_bytes(buf: Seq<u8>, k: int) -> Seq<u8> {
    buf.subrange(field_start(buf, k), field_end(buf, k))
}

pub open spec fn field_text(buf: Seq<u8>, k: int) -> Seq<char> {
    decode_utf8(field_bytes(buf, k))
}

/// The reply has exactly as many newlines and colons as a tracker reply.
pub open spec fn has_torrent_shape(buf: Seq<u8>) -> bool {
    &&& positions_of(buf, NEWLINE).len() == TORRENT_LINES
    &&& positions_of(buf, COLON).len() == TORRENT_LINES
}

/// Every value of a reply of that shape lies after its colon and is valid
/// UTF-8 (a reply of another shape needs nothing).
pub open spec fn torrent_fields_decodable(buf: Seq<u8>) -> bool {
    has_torrent_shape(buf) ==> forall|k: int| 0 <= k < TORRENT_LINES ==> #[trigger] field_ok(buf, k)
}

/// The value of line `k` lies after its colon and is valid UTF-8.
pub open spec fn field_ok(buf: Seq<u8>, k: int) -> bool {
    field_start(buf, k) <= field_end(buf, k) && valid_utf8(field_bytes(buf, k))
}

/// `host` and `port`, trimmed, joined by a colon.
pub open spec fn peer_address(host: Seq<char>, port: Seq<char>) -> Seq<char> {
    trimmed(host) + seq![':'] + trimmed(port)
}

/// What a tracker reply says: `None` unless it has the shape of one; else
/// the numbers in its first two values (wrapping like `usize`) and the two
/// peers `host:port` from the other four.
pub open spec fn torrent_reply(buf: Seq<u8>) -> Option<TorrentView> {
    if !has_torrent_shape(buf) {
        None
    } else {
        Some(
            TorrentView {
                num_blocks: (digits_value(field_text(buf, 0)) % usize_range()) as usize,
                file_size: (digits_value(field_text(buf, 1)) % usize_range()) as usize,
                addr1: peer_address(field_text(buf, 2), field_text(buf, 3)),
                addr2: peer_address(field_text(buf, 4), field_text(buf, 5)),
            },
        )
    }
}

/// A peer address neither starts nor ends with white space, whatever
/// white space surrounds the host and port it is made of.
pub proof fn lemma_peer_address_ends(host: Seq<char>, port: Seq<char>)
    ensures
        peer_address(host, port).len() > 0,
        !is_white_space(peer_address(host, port)[0]),
        !is_white_space(peer_address(host, port).last()),
{
    lemma_trimmed_ends(host);
    lemma_trimmed_ends(port);
    let a = peer_address(host, port);
    let h = trimmed(host);
    let q = trimmed(port);
    assert(a[h.len() as int] == ':');
    if h.len() > 0 {
        assert(a[0] == h[0]);
    }
    if q.len() > 0 {
        assert(a.last() == q.last());
    }
}

/// White space added or removed around a host or a port does not change
/// the peer address made of them.
pub proof fn lemma_peer_address_ignores_padding(
    w1: Seq<char>,
    host: Seq<char>,
    w2: Seq<char>,
    w3: Seq<char>,
    port: Seq<char>,
    w4: Seq<char>,
)
    requires
        all_white(w1),
        all_white(w2),
        all_white(w3),
        all_white(w4),
    ensures
        peer_address(w1 + host + w2, w3 + port + w4) == peer_address(host, port),
{
    lemma_trimmed_ignores_padding(w1, host, w2);
    lemma_trimmed_ignores_padding(w3, port, w4);
}

/// Both peer addresses a tracker reply gives are `host:port` with no white
/// space at either end.
pub proof fn lemma_reply_addresses_trimmed(buf: Seq<u8>)
    requires
        torrent_reply(buf) is Some,
    ensures
        ({
            let t = torrent_reply(buf).unwrap();
            &&& t.addr1.len() > 0 && !is_white_space(t.addr1[0]) && !is_white_space(t.addr1.last())
            &&& t.addr2.len() > 0 && !is_white_space(t.addr2[0]) && !is_white_space(t.addr2.last())
        }),
{
    lemma_peer_address_ends(field_text(buf, 2), field_text(buf, 3));
    lemma_peer_address_ends(field_text(buf, 4), field_text(buf, 5));
}

fn field_range(buff: &[u8], newlines: &Vec<usize>, cols: &Vec<usize>, k: usize) -> (r: (usize, usize))
    requires
        k < TORRENT_LINES,
        has_torrent_shape(buff@),
        newlines@ == positions_of(buff@, NEWLINE),
        cols@ == positions_of(buff@, COLON),
    ensures
        r.0 == field_start(buff@, k as int),
        r.1 == field_end(buff@, k as int),
        r.0 <= buff@.len(),
        r.1 <= buff@.len(),
{
    let _len = buff.len();
    proof {
        lemma_positions_of(buff@, NEWLINE);
        lemma_positions_of(buff@, COLON);
        assert(positions_of(buff@, NEWLINE)[k as int] < buff@.len());
        assert(positions_of(buff@, COLON)[k as int] < buff@.len());
    }
    let start = if k < 2 {
        cols[k]
    } else {
        cols[k] + 1
    };
    (start, newlines[k])
}

/// Whether the values of `buff` can be read (see [`torrent_fields_decodable`]).
pub fn torrent_reply_decodable(buff: &[u8]) -> (r: bool)
    ensures
        r == torrent_fields_decodable(buff@),
{
    let newlines = find_all(buff, NEWLINE);
    let cols = find_all(buff, COLON);
    if newlines.len() != TORRENT_LINES || cols.len() != TORRENT_LINES {
        return true;
    }
    let mut k: usize = 0;
    while k < TORRENT_LINES
        invariant
            k <= TORRENT_LINES,
            has_torrent_shape(buff@),
            newlines@ == positions_of(buff@, NEWLINE),
            cols@ == positions_of(buff@, COLON),
            forall|j: int| 0 <= j < k ==> #[trigger] field_ok(buff@, j),
        decreases TORRENT_LINES - k,
    {
        let (start, end) = field_range(buff, &newlines, &cols, k);
        if start > end || !is_text(buff, start, end) {
            assert(!field_ok(buff@, k as int));
            return false;
        }
        assert(field_ok(buff@, k as int));
        k = k + 1;
    }
    true
}

/// Joins `host` and `port` by a colon, each trimmed.
fn join_peer(host: &str, port: &str) -> (r: String)
    ensures
        r@ == peer_address(host@, port@),
{
    let mut r = String::new();
    r.append(trim(host));
    proof {
        reveal_strlit(":");
    }
    r.append(":");
    r.append(trim(port));
    assert(r@ =~= peer_address(host@, port@));
    r
}

/// Reads a tracker reply held in `buff` (see [`torrent_reply`]).
pub fn parse_torrent_reply(buff: &[u8]) -> (r: Option<TorrentResponse>)
    requires
        torrent_fields_decodable(buff@),
    ensures
        match r {
            Some(t) => torrent_reply(buff@) == Some(t@),
            None => torrent_reply(buff@) is None,
        },
{
    let newlines = find_all(buff, NEWLINE);
    let cols = find_all(buff, COLON);
    if newlines.len() != TORRENT_LINES || cols.len() != TORRENT_LINES {
        return None;
    }
    let (s0, e0) = field_range(buff, &newlines, &cols, 0);
    let (s1, e1) = field_range(buff, &newlines, &cols, 1);
    let (s2, e2) = field_range(buff, &newlines, &cols, 2);
    let (s3, e3) = field_range(buff, &newlines, &cols, 3);
    let (s4, e4) = field_range(buff, &newlines, &cols, 4);
    let (s5, e5) = field_range(buff, &newlines, &cols, 5);
    proof {
        assert(field_ok(buff@, 0));
        assert(field_ok(buff@, 1));
        assert(field_ok(buff@, 2));
        assert(field_ok(buff@, 3));
        assert(field_ok(buff@, 4));
        assert(field_ok(buff@, 5));
    }
    let num_blocks = get_nums_in_line(text_of(buff, s0, e0));
    let file_size = get_nums_in_line(text_of(buff, s1, e1));
    let addr1 = join_peer(text_of(buff, s2, e2), text_of(buff, s3, e3));
    let addr2 = join_peer(text_of(buff, s4, e4), text_of(buff, s5, e5));
    Some(TorrentResponse { num_blocks, file_size, addr1, addr2 })
}

/// How many times the first request to the tracker is tried.
pub const INIT_MSG_ATTEMPTS: usize = 100;

/// What to do after an attempt to reach the tracker at start-up.
pub enum InitStep {
    /// The tracker answered; the download can start.
    Ready(TorrentResponse),
    /// Ask the tracker again.
    Retry,
    /// Every attempt failed; the download cannot start.
    GiveUp,
}

/// Decides after attempt number `attempt` (counting from 0) to reach the
/// tracker, which gave `response`: an answer is taken at once; a failure
/// is followed by another attempt until [`INIT_MSG_ATTEMPTS`] have been
/// made, and then by giving up.
pub fn init_torrent_msg(attempt: usize, response: Option<TorrentResponse>) -> (step: InitStep)
    ensures
        match response {
            Some(t) => step matches InitStep::Ready(r) && r@ == t@,
            None => if attempt + 1 >= INIT_MSG_ATTEMPTS {
                step is GiveUp
            } else {
                step is Retry
            },
        },
{
    match response {
        Some(t) => InitStep::Ready(t),
        None => if attempt >= INIT_MSG_ATTEMPTS - 1 {
            InitStep::GiveUp
        } else {
            InitStep::Retry
        },
    }
}

} // verus!
