use vstd::prelude::*;

use crate::digits::{digit_value, digits_value};
use vstd::utf8::encode_utf8;

verus! {

/// The bytes of `GET ` that open every request.
pub open spec fn get_prefix() -> Seq<u8> {
    seq![71u8, 69u8, 84u8, 32u8]
}

/// The decimal spelling of `n` in ASCII digits, without leading zeros.
pub open spec fn decimal_bytes(n: nat) -> Seq<u8>
    decreases n,
{
    if n < 10 {
        seq![(48 + n) as u8]
    } else {
        decimal_bytes(n / 10).push((48 + n % 10) as u8)
    }
}

/// The characters that ASCII bytes stand for.
pub open spec fn ascii_chars(bytes: Seq<u8>) -> Seq<char> {
    bytes.map_values(|b: u8| b as char)
}

/// The request for the torrent description of the file called `name`:
/// `GET <name>.torrent` and a newline.
pub open spec fn torrent_request_bytes(name: Seq<u8>) -> Seq<u8> {
    get_prefix() + name + seq![46u8, 116u8, 111u8, 114u8, 114u8, 101u8, 110u8, 116u8, 10u8]
}

/// The request for block `block_num` of the file called `name`:
/// `GET <name>:<block_num>` and a newline.
pub open spec fn block_request_bytes(name: Seq<u8>, block_num: nat) -> Seq<u8> {
    get_prefix() + name + seq![58u8] + decimal_bytes(block_num) + seq![10u8]
}

/// Appends `bytes` to `out`.
fn push_all(out: &mut Vec<u8>, bytes: &[u8])
    ensures
        final(out)@ == old(out)@ + bytes@,
{
    let mut i: usize = 0;
    while i < bytes.len()
        invariant
            i <= bytes@.len(),
            out@ == old(out)@ + bytes@.take(i as int),
        decreases bytes.len() - i,
    {
        out.push(bytes[i]);
        i = i + 1;
        assert(out@ =~= old(out)@ + bytes@.take(i as int));
    }
    assert(bytes@.take(bytes@.len() as int) =~= bytes@);
}

/// The decimal spelling of `n`, as `usize`'s `Display` writes it.
pub fn decimal(n: usize) -> (r: Vec<u8>)
    ensures
        r@ == decimal_bytes(n as nat),
    decreases n,
{
    if n < 10 {
        let mut r: Vec<u8> = Vec::new();
        r.push(48u8 + (n as u8));
        assert(r@ =~= decimal_bytes(n as nat));
        r
    } else {
        let mut r = decimal(n / 10);
        r.push(48u8 + ((n % 10) as u8));
        r
    }
}

fn push_get_prefix(out: &mut Vec<u8>)
    ensures
        final(out)@ == old(out)@ + get_prefix(),
{
    out.push(71u8);
    out.push(69u8);
    out.push(84u8);
    out.push(32u8);
    assert(out@ =~= old(out)@ + get_prefix());
}

/// The bytes of the request for the torrent description of `file_name`.
pub fn torrent_request(file_name: &str) -> (r: Vec<u8>)
    ensures
        r@ == torrent_request_bytes(encode_utf8(file_name@)),
{
    let mut r: Vec<u8> = Vec::new();
    push_get_prefix(&mut r);
    push_all(&mut r, file_name.as_bytes());
    let ghost before_suffix = r@;
    r.push(46u8);
    r.push(116u8);
    r.push(111u8);
    r.push(114u8);
    r.push(114u8);
    r.push(101u8);
    r.push(110u8);
    r.push(116u8);
    r.push(10u8);
    assert(r@ =~= torrent_request_bytes(encode_utf8(file_name@)));
    r
}

/// The bytes of the request for block `block_num` of `file_name`.
pub fn block_request(file_name: &str, block_num: usize) -> (r: Vec<u8>)
    ensures
        r@ == block_request_bytes(encode_utf8(file_name@), block_num as nat),
{
    let mut r: Vec<u8> = Vec::new();
    push_get_prefix(&mut r);
    push_all(&mut r, file_name.as_bytes());
    r.push(58u8);
    let digits = decimal(block_num);
    push_all(&mut r, digits.as_slice());
    r.push(10u8);
    assert(r@ =~= block_request_bytes(encode_utf8(file_name@), block_num as nat));
    r
}

/// Reading back the number a request spells gives that number: the digits
/// [`decimal`] writes are the digits [`crate::digits::get_nums_in_line`]
/// reads.
pub proof fn lemma_decimal_read_back(n: nat)
    ensures
        digits_value(ascii_chars(decimal_bytes(n))) == n,
    decreases n,
{
    if n < 10 {
        let c = ((48 + n) as u8) as char;
        assert(ascii_chars(decimal_bytes(n)) =~= seq![c]);
        assert(seq![c].drop_last() =~= Seq::<char>::empty());
        assert(digit_value(c) == Some(n));
        assert(ascii_chars(decimal_bytes(n)).last() == c);
        assert(digits_value(ascii_chars(decimal_bytes(n)).drop_last()) == 0);
        assert(digits_value(ascii_chars(decimal_bytes(n))) == n);
    } else {
        lemma_decimal_read_back(n / 10);
        let c = ((48 + n % 10) as u8) as char;
        assert(ascii_chars(decimal_bytes(n)) =~= ascii_chars(decimal_bytes(n / 10)).push(c));
        assert(ascii_chars(decimal_bytes(n)).drop_last() =~= ascii_chars(decimal_bytes(n / 10)));
        assert(digit_value(c) == Some(n % 10));
        let s = ascii_chars(decimal_bytes(n));
        assert(s.last() == c);
        assert(digits_value(s) == digits_value(s.drop_last()) * 10 + n % 10);
        vstd::arithmetic::div_mod::lemma_fundamental_div_mod(n as int, 10);
        assert(digits_value(s.drop_last()) == n / 10);
        assert((n / 10) * 10 == 10 * (n / 10)) by (nonlinear_arith);
        assert(digits_value(s) == n);
    }
}

} // verus!
