use vstd::prelude::*;
use vstd::utf8::{decode_utf8, encode_utf8, valid_utf8};

verus! {

/// Whether `c` has the Unicode `White_Space` property, which is what
/// `char::is_whitespace` and `str::trim` go by.
pub open spec fn is_white_space(c: char) -> bool {
    ||| ('\u{9}' <= c && c <= '\u{d}')
    ||| c == ' '
    ||| c == '\u{85}'
    ||| c == '\u{a0}'
    ||| c == '\u{1680}'
    ||| ('\u{2000}' <= c && c <= '\u{200a}')
    ||| c == '\u{2028}'
    ||| c == '\u{2029}'
    ||| c == '\u{202f}'
    ||| c == '\u{205f}'
    ||| c == '\u{3000}'
}

/// `s` without its leading white space.
pub open spec fn trim_front(s: Seq<char>) -> Seq<char>
    decreases s.len(),
{
    if s.len() > 0 && is_white_space(s[0]) {
        trim_front(s.drop_first())
    } else {
        s
    }
}

/// `s` without its trailing white space.
pub open spec fn trim_back(s: Seq<char>) -> Seq<char>
    decreases s.len(),
{
    if s.len() > 0 && is_white_space(s.last()) {
        trim_back(s.drop_last())
    } else {
        s
    }
}

/// What `str::trim` makes of a string: the same text without its leading
/// and trailing white space.
pub open spec fn trimmed(s: Seq<char>) -> Seq<char> {
    trim_back(trim_front(s))
}

/// Calls `std::str::from_utf8`. Claims that it succeeds exactly on valid
/// UTF-8, and that the text it gives back is encoded by those very bytes.
#[verifier::external_body]
pub(crate) fn utf8_str<'a>(bytes: &'a [u8]) -> (r: Option<&'a str>)
    ensures
        r is Some <==> valid_utf8(bytes@),
        r matches Some(s) ==> encode_utf8(s@) == bytes@,
{
    match std::str::from_utf8(bytes) {
        Ok(s) => Some(s),
        Err(_) => None,
    }
}

/// Every character of `w` is white space.
pub open spec fn all_white(w: Seq<char>) -> bool {
    forall|i: int| 0 <= i < w.len() ==> is_white_space(#[trigger] w[i])
}

/// Trimming the front drops a run of white space and keeps the rest, which
/// starts with no white space.
pub proof fn lemma_trim_front_shape(s: Seq<char>) -> (k: int)
    ensures
        0 <= k <= s.len(),
        trim_front(s) == s.subrange(k, s.len() as int),
        all_white(s.subrange(0, k)),
        k < s.len() ==> !is_white_space(s[k]),
    decreases s.len(),
{
    if s.len() > 0 && is_white_space(s[0]) {
        let k1 = lemma_trim_front_shape(s.drop_first());
        assert(s.drop_first().subrange(k1, s.len() - 1) =~= s.subrange(k1 + 1, s.len() as int));
        assert forall|i: int| 0 <= i < k1 + 1 implies is_white_space(#[trigger] s.subrange(0, k1 + 1)[i]) by {
            if i > 0 {
                assert(s.subrange(0, k1 + 1)[i] == s.drop_first().subrange(0, k1)[i - 1]);
            }
        }
        k1 + 1
    } else {
        assert(s.subrange(0, s.len() as int) =~= s);
        0
    }
}

/// Trimming the back drops a run of white space and keeps the rest, which
/// ends with no white space.
pub proof fn lemma_trim_back_shape(s: Seq<char>) -> (k: int)
    ensures
        0 <= k <= s.len(),
        trim_back(s) == s.subrange(0, k),
        all_white(s.subrange(k, s.len() as int)),
        k > 0 ==> !is_white_space(s[k - 1]),
    decreases s.len(),
{
    if s.len() > 0 && is_white_space(s.last()) {
        let k1 = lemma_trim_back_shape(s.drop_last());
        assert(s.drop_last().subrange(0, k1) =~= s.subrange(0, k1));
        assert forall|i: int| 0 <= i < s.len() - k1 implies is_white_space(#[trigger] s.subrange(k1, s.len() as int)[i]) by {
            if i < s.len() - 1 - k1 {
                assert(s.subrange(k1, s.len() as int)[i] == s.drop_last().subrange(k1, s.len() - 1)[i]);
            }
        }
        k1
    } else {
        assert(s.subrange(0, s.len() as int) =~= s);
        s.len() as int
    }
}

/// Trimmed text neither starts nor ends with white space.
pub proof fn lemma_trimmed_ends(s: Seq<char>)
    ensures
        trimmed(s).len() > 0 ==> !is_white_space(trimmed(s)[0]) && !is_white_space(
            trimmed(s).last(),
        ),
{
    let a = lemma_trim_front_shape(s);
    let t = trim_front(s);
    let b = lemma_trim_back_shape(t);
    if trimmed(s).len() > 0 {
        assert(trimmed(s)[0] == t[0]);
        assert(t[0] == s[a]);
        assert(trimmed(s).last() == t[b - 1]);
    }
}

/// White space around text does not change what trimming leaves.
pub proof fn lemma_trimmed_ignores_padding(w1: Seq<char>, x: Seq<char>, w2: Seq<char>)
    requires
        all_white(w1),
        all_white(w2),
    ensures
        trimmed(w1 + x + w2) == trimmed(x),
    decreases w1.len(),
{
    if w1.len() > 0 {
        assert((w1 + x + w2)[0] == w1[0]);
        assert((w1 + x + w2).drop_first() =~= w1.drop_first() + x + w2);
        assert(all_white(w1.drop_first())) by {
            assert forall|i: int| 0 <= i < w1.drop_first().len() implies is_white_space(#[trigger] w1.drop_first()[i]) by {
                assert(w1.drop_first()[i] == w1[i + 1]);
            }
        }
        lemma_trimmed_ignores_padding(w1.drop_first(), x, w2);
    } else {
        assert(w1 + x + w2 =~= x + w2);
        lemma_trim_front_append_white(x, w2);
        lemma_trim_back_append_white(trim_front(x), w2);
        if trim_front(x).len() == 0 {
            lemma_trim_front_white(w2);
            assert(trim_front(x) + w2 =~= w2);
        }
    }
}

/// Trimming the front of text followed by white space.
proof fn lemma_trim_front_append_white(x: Seq<char>, w: Seq<char>)
    requires
        all_white(w),
    ensures
        trim_front(x + w) == if trim_front(x).len() > 0 {
            trim_front(x) + w
        } else {
            trim_front(w)
        },
    decreases x.len(),
{
    if x.len() == 0 {
        assert(x + w =~= w);
        assert(trim_front(x).len() == 0);
    } else {
        assert((x + w)[0] == x[0]);
        assert((x + w).drop_first() =~= x.drop_first() + w);
        if is_white_space(x[0]) {
            lemma_trim_front_append_white(x.drop_first(), w);
        }
    }
}

proof fn lemma_trim_front_white(w: Seq<char>)
    requires
        all_white(w),
    ensures
        trim_front(w).len() == 0,
    decreases w.len(),
{
    if w.len() > 0 {
        assert(is_white_space(w[0]));
        assert(all_white(w.drop_first())) by {
            assert forall|i: int| 0 <= i < w.drop_first().len() implies is_white_space(#[trigger] w.drop_first()[i]) by {
                assert(w.drop_first()[i] == w[i + 1]);
            }
        }
        lemma_trim_front_white(w.drop_first());
    }
}

proof fn lemma_trim_back_append_white(x: Seq<char>, w: Seq<char>)
    requires
        all_white(w),
    ensures
        trim_back(x + w) == trim_back(x),
    decreases w.len(),
{
    if w.len() == 0 {
        assert(x + w =~= x);
    } else {
        assert((x + w).last() == w.last());
        assert(is_white_space(w[w.len() - 1]));
        assert((x + w).drop_last() =~= x + w.drop_last());
        assert(all_white(w.drop_last())) by {
            assert forall|i: int| 0 <= i < w.drop_last().len() implies is_white_space(#[trigger] w.drop_last()[i]) by {
                assert(w.drop_last()[i] == w[i]);
            }
        }
        lemma_trim_back_append_white(x, w.drop_last());
    }
}

fn white_space(c: char) -> (r: bool)
    ensures
        r == is_white_space(c),
{
    ('\u{9}' <= c && c <= '\u{d}') || c == ' ' || c == '\u{85}' || c == '\u{a0}' || c
        == '\u{1680}' || ('\u{2000}' <= c && c <= '\u{200a}') || c == '\u{2028}' || c
        == '\u{2029}' || c == '\u{202f}' || c == '\u{205f}' || c == '\u{3000}'
}

/// `s` without its leading and trailing white space, as `str::trim` gives it.
pub fn trim<'a>(s: &'a str) -> (r: &'a str)
    ensures
        r@ == trimmed(s@),
{
    let n = s.unicode_len();
    let mut i: usize = 0;
    assert(s@.subrange(0, n as int) =~= s@);
    while i < n && white_space(s.get_char(i))
        invariant
            n == s@.len(),
            i <= n,
            trim_front(s@) == trim_front(s@.subrange(i as int, n as int)),
        decreases n - i,
    {
        assert(s@.subrange(i as int, n as int).drop_first() =~= s@.subrange(i as int + 1, n as int));
        i = i + 1;
    }
    let mut j: usize = n;
    while j > i && white_space(s.get_char(j - 1))
        invariant
            n == s@.len(),
            i <= j <= n,
            trim_back(s@.subrange(i as int, n as int)) == trim_back(s@.subrange(i as int, j as int)),
        decreases j,
    {
        assert(s@.subrange(i as int, j as int).drop_last() =~= s@.subrange(i as int, j as int - 1));
        j = j - 1;
    }
    proof {
        assert(trim_front(s@.subrange(i as int, n as int)) == s@.subrange(i as int, n as int));
        assert(trim_back(s@.subrange(i as int, j as int)) == s@.subrange(i as int, j as int));
    }
    s.substring_char(i, j)
}

/// The text of `bytes[start..end]`, which must be valid UTF-8.
pub(crate) fn text_of<'a>(bytes: &'a [u8], start: usize, end: usize) -> (r: &'a str)
    requires
        start <= end <= bytes@.len(),
        valid_utf8(bytes@.subrange(start as int, end as int)),
    ensures
        r@ == decode_utf8(bytes@.subrange(start as int, end as int)),
{
    let part = vstd::slice::slice_subrange(bytes, start, end);
    let r = utf8_str(part).unwrap();
    proof {
        vstd::utf8::encode_utf8_decode_utf8(r@);
    }
    r
}

/// Whether `bytes[start..end]` is valid UTF-8.
pub(crate) fn is_text(bytes: &[u8], start: usize, end: usize) -> (r: bool)
    requires
        start <= end <= bytes@.len(),
    ensures
        r == valid_utf8(bytes@.subrange(start as int, end as int)),
{
    utf8_str(vstd::slice::slice_subrange(bytes, start, end)).is_some()
}

/// The positions in `buf` at which `byte` stands, in order.
pub open spec fn positions_of(buf: Seq<u8>, byte: u8) -> Seq<usize>
    decreases buf.len(),
{
    if buf.len() == 0 {
        Seq::empty()
    } else if buf.last() == byte {
        positions_of(buf.drop_last(), byte).push((buf.len() - 1) as usize)
    } else {
        positions_of(buf.drop_last(), byte)
    }
}

/// Every position found lies inside `buf` and holds `byte`, and they rise.
pub proof fn lemma_positions_of(buf: Seq<u8>, byte: u8)
    requires
        buf.len() <= usize::MAX,
    ensures
        forall|i: int|
            0 <= i < positions_of(buf, byte).len() ==> #[trigger] positions_of(buf, byte)[i]
                < buf.len() && buf[positions_of(buf, byte)[i] as int] == byte,
        forall|i: int, j: int|
            0 <= i < j < positions_of(buf, byte).len() ==> #[trigger] positions_of(buf, byte)[i]
                < #[trigger] positions_of(buf, byte)[j],
    decreases buf.len(),
{
    if buf.len() > 0 {
        let t = buf.drop_last();
        lemma_positions_of(t, byte);
        let p = positions_of(buf, byte);
        let q = positions_of(t, byte);
        assert forall|i: int| 0 <= i < p.len() implies #[trigger] p[i] < buf.len() && buf[p[i] as int]
            == byte by {
            if i < q.len() {
                assert(p[i] == q[i]);
                assert(t[q[i] as int] == buf[q[i] as int]);
            }
        }
        assert forall|i: int, j: int| 0 <= i < j < p.len() implies #[trigger] p[i] < #[trigger] p[j] by {
            assert(p[i] == q[i]);
            if j < q.len() {
                assert(p[j] == q[j]);
            }
        }
    }
}

/// Bytes other than `byte` add no position.
pub proof fn lemma_positions_skip_free(a: Seq<u8>, l: Seq<u8>, byte: u8)
    requires
        !l.contains(byte),
    ensures
        positions_of(a + l, byte) == positions_of(a, byte),
    decreases l.len(),
{
    if l.len() == 0 {
        assert(a + l =~= a);
    } else {
        lemma_positions_skip_free(a, l.drop_last(), byte);
        assert((a + l).drop_last() =~= a + l.drop_last());
        assert((a + l).last() == l[l.len() - 1]);
        assert(!l.drop_last().contains(byte)) by {
            if l.drop_last().contains(byte) {
                let j = choose|j: int| 0 <= j < l.drop_last().len() && l.drop_last()[j] == byte;
                assert(l[j] == byte);
            }
        }
    }
}

/// Appending bytes keeps the positions found so far, in front.
pub proof fn lemma_positions_prefix(a: Seq<u8>, b: Seq<u8>, byte: u8)
    ensures
        positions_of(a, byte).len() <= positions_of(a + b, byte).len(),
        forall|i: int|
            0 <= i < positions_of(a, byte).len() ==> #[trigger] positions_of(a + b, byte)[i]
                == positions_of(a, byte)[i],
    decreases b.len(),
{
    if b.len() == 0 {
        assert(a + b =~= a);
    } else {
        lemma_positions_prefix(a, b.drop_last(), byte);
        assert((a + b).drop_last() =~= a + b.drop_last());
    }
}

/// Scans `buf` for the positions of `byte`.
pub(crate) fn find_all(buf: &[u8], byte: u8) -> (r: Vec<usize>)
    ensures
        r@ == positions_of(buf@, byte),
{
    let mut r: Vec<usize> = Vec::new();
    let mut i: usize = 0;
    while i < buf.len()
        invariant
            i <= buf@.len(),
            r@ == positions_of(buf@.take(i as int), byte),
        decreases buf.len() - i,
    {
        assert(buf@.take(i as int + 1).drop_last() =~= buf@.take(i as int));
        if buf[i] == byte {
            r.push(i);
        }
        i = i + 1;
    }
    assert(buf@.take(buf@.len() as int) =~= buf@);
    r
}

} // verus!
