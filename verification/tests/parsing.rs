use lib::block::{BlockFetch, BlockReader, ReadStep};
use lib::digits::get_nums_in_line;
use lib::requests::{block_request, decimal, torrent_request};
use lib::text::trim;
use lib::torrent::{
    init_torrent_msg, parse_torrent_reply, torrent_reply_decodable, InitStep, TorrentResponse,
};

fn padded(text: &[u8]) -> Vec<u8> {
    let mut buf = text.to_vec();
    buf.resize(2048, 0);
    buf
}

#[test]
fn nums_in_line_reads_digits_only() {
    assert_eq!(get_nums_in_line("size: 1234"), 1234);
    assert_eq!(get_nums_in_line("a1b2c3"), 123);
    assert_eq!(get_nums_in_line(""), 0);
    assert_eq!(get_nums_in_line("no digits"), 0);
    assert_eq!(get_nums_in_line("007"), 7);
}

#[test]
fn nums_in_line_skips_non_ascii_digits() {
    assert_eq!(get_nums_in_line("\u{0663}4\u{00B2}"), 4);
}

#[test]
fn nums_in_line_wraps_like_usize() {
    let big = format!("{}", (usize::MAX as u128) + 1);
    assert_eq!(get_nums_in_line(&big), 0);
    let max = format!("{}", usize::MAX);
    assert_eq!(get_nums_in_line(&max), usize::MAX);
}

#[test]
fn decimal_matches_display() {
    for n in [0usize, 7, 10, 99, 100, 1234567, usize::MAX] {
        assert_eq!(decimal(n), n.to_string().into_bytes());
    }
}

#[test]
fn decimal_reads_back() {
    for n in [0usize, 5, 42, 90210, usize::MAX] {
        let text = String::from_utf8(decimal(n)).unwrap();
        assert_eq!(get_nums_in_line(&text), n);
    }
}

#[test]
fn torrent_request_frames_name() {
    assert_eq!(torrent_request("movie.mkv"), b"GET movie.mkv.torrent\n".to_vec());
    assert_eq!(torrent_request("\u{e9}"), "GET \u{e9}.torrent\n".as_bytes().to_vec());
}

#[test]
fn block_request_frames_name_and_number() {
    assert_eq!(block_request("movie.mkv", 42), b"GET movie.mkv:42\n".to_vec());
    assert_eq!(block_request("f", 0), b"GET f:0\n".to_vec());
}

const REPLY: &[u8] =
    b"num_blocks: 3\nfile_size: 3000\nip1: 127.0.0.1\nport1: 8001\nip2:  10.0.0.2 \nport2:8002\n";

#[test]
fn torrent_reply_is_parsed() {
    let buf = padded(REPLY);
    assert!(torrent_reply_decodable(&buf));
    let t = parse_torrent_reply(&buf).unwrap();
    assert_eq!(t.num_blocks, 3);
    assert_eq!(t.file_size, 3000);
    assert_eq!(t.addr1, "127.0.0.1:8001");
    assert_eq!(t.addr2, "10.0.0.2:8002");
}

#[test]
fn torrent_reply_of_wrong_shape_is_refused() {
    let short = padded(b"num_blocks: 3\nfile_size: 3000\n");
    assert!(torrent_reply_decodable(&short));
    assert!(parse_torrent_reply(&short).is_none());
    let extra = padded(b"a: 1\nb: 2\nc: x\nd: 1\ne: y\nf: 2\ng: 3\n");
    assert!(parse_torrent_reply(&extra).is_none());
    let empty = vec![0u8; 2048];
    assert!(parse_torrent_reply(&empty).is_none());
}

#[test]
fn torrent_reply_with_bad_text_is_not_decodable() {
    let mut bad = REPLY.to_vec();
    bad[40] = 0xff;
    assert!(!torrent_reply_decodable(&padded(&bad)));
}

#[test]
fn torrent_reply_with_value_before_colon_is_not_decodable() {
    let buf = padded(b"a\n: 1\nb: 2\nc: x\nd: 1\ne: y:\n");
    assert!(!torrent_reply_decodable(&buf));
}

fn response(addr1: &str) -> TorrentResponse {
    TorrentResponse { num_blocks: 1, file_size: 10, addr1: addr1.to_string(), addr2: "b:2".to_string() }
}

#[test]
fn init_takes_first_answer() {
    match init_torrent_msg(5, Some(response("a:1"))) {
        InitStep::Ready(t) => assert_eq!(t.addr1, "a:1"),
        _ => panic!("expected an answer"),
    }
}

#[test]
fn init_retries_then_gives_up() {
    assert!(matches!(init_torrent_msg(0, None), InitStep::Retry));
    assert!(matches!(init_torrent_msg(98, None), InitStep::Retry));
    assert!(matches!(init_torrent_msg(99, None), InitStep::GiveUp));
}

const BLOCK_REPLY: &[u8] = b"HTTP 200\nfile: f\nsize: 5\n\nhello";

fn done(step: ReadStep) -> Option<Vec<u8>> {
    match step {
        ReadStep::Done(b) => b,
        ReadStep::More => panic!("expected the reader to stop"),
    }
}

#[test]
fn block_reply_in_one_chunk() {
    let mut r = BlockReader::new();
    assert_eq!(done(r.on_chunk(BLOCK_REPLY)), Some(b"hello".to_vec()));
}

#[test]
fn block_reply_in_pieces() {
    let mut r = BlockReader::new();
    assert!(matches!(r.on_chunk(b"HTTP 200\nfil"), ReadStep::More));
    assert!(matches!(r.on_chunk(b"e: f\nsize: 5\n\nhe"), ReadStep::More));
    assert_eq!(done(r.on_chunk(b"llo")), Some(b"hello".to_vec()));
}

#[test]
fn block_reply_stops_one_byte_short() {
    let mut r = BlockReader::new();
    assert_eq!(done(r.on_chunk(&BLOCK_REPLY[..BLOCK_REPLY.len() - 1])), None);
}

#[test]
fn block_reply_refused() {
    let mut r = BlockReader::new();
    assert_eq!(done(r.on_chunk(b"404 Not Found")), None);
}

#[test]
fn block_reply_ends_early() {
    let mut r = BlockReader::new();
    assert!(matches!(r.on_chunk(b"HTTP 200\nfile: f\n"), ReadStep::More));
    assert_eq!(done(r.on_chunk(b"")), None);
    let mut r = BlockReader::new();
    assert!(matches!(r.on_chunk(b"HTTP 200\nfile: f\nsize: 9\n\nhel"), ReadStep::More));
    assert_eq!(done(r.on_chunk(b"")), None);
}

#[test]
fn block_reply_read_error_gives_what_arrived() {
    let mut r = BlockReader::new();
    assert!(matches!(r.on_chunk(b"HTTP 200\nfile: f\nsize: 2\n"), ReadStep::More));
    assert_eq!(r.finish(), None);
}

#[test]
fn block_reply_with_bad_size_text() {
    let mut r = BlockReader::new();
    assert_eq!(done(r.on_chunk(b"HTTP 200\nfile: f\nsize: \xff5\n\nhello")), None);
}

#[test]
fn block_reply_with_huge_size() {
    let mut r = BlockReader::new();
    assert_eq!(done(r.on_chunk(b"HTTP 200\nfile: f\nsize: 3000000000\n\nhello")), None);
}

#[test]
fn fetch_stops_at_first_failure() {
    let mut f = BlockFetch::new(vec![3, 7, 1, 2], 5);
    assert_eq!(f.next_block(), Some(3));
    assert!(f.record(true));
    assert_eq!(f.next_block(), Some(7));
    assert!(!f.record(true));
    assert_eq!(f.next_block(), Some(1));
    assert!(!f.record(false));
    assert_eq!(f.next_block(), None);
    assert_eq!(f.into_filled(), vec![3]);
}

#[test]
fn fetch_of_every_block() {
    let mut f = BlockFetch::new(vec![0, 1], 2);
    while let Some(_) = f.next_block() {
        assert!(f.record(true));
    }
    assert_eq!(f.into_filled(), vec![0, 1]);
}

#[test]
fn trim_matches_std_on_every_char() {
    for code in 0u32..0x11_0000 {
        if let Some(c) = char::from_u32(code) {
            let alone = c.to_string();
            assert_eq!(trim(&alone), alone.trim());
        }
    }
}

#[test]
fn trim_strips_both_ends() {
    assert_eq!(trim(" 10.0.0.1"), "10.0.0.1");
    assert_eq!(trim("\u{a0}\t host \u{3000}\n"), "host");
    assert_eq!(trim("a b"), "a b");
    assert_eq!(trim("   "), "");
    assert_eq!(trim(""), "");
}
