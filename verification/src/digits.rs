use vstd::prelude::*;

verus! {

broadcast use vstd::arithmetic::div_mod::group_div_basics;

/// The value of `c` as a base-ten digit, as `char::to_digit(10)` gives it.
pub open spec fn digit_value(c: char) -> Option<nat> {
    if '0' <= c && c <= '9' {
        Some((c as u32 - '0' as u32) as nat)
    } else {
        None
    }
}

/// The number spelt by the decimal digits of `s`, read left to right,
/// with every other character skipped.
pub open spec fn digits_value(s: Seq<char>) -> nat
    decreases s.len(),
{
    if s.len() == 0 {
        0
    } else {
        match digit_value(s.last()) {
            Some(d) => digits_value(s.drop_last()) * 10 + d,
            None => digits_value(s.drop_last()),
        }
    }
}

/// A character that is no digit, put in front, changes no number.
pub proof fn lemma_digits_skip_front(c: char, s: Seq<char>)
    requires
        digit_value(c) is None,
    ensures
        digits_value(seq![c] + s) == digits_value(s),
    decreases s.len(),
{
    if s.len() == 0 {
        assert(seq![c] + s =~= seq![c]);
        assert(seq![c].drop_last() =~= Seq::<char>::empty());
        assert(seq![c].len() == 1);
        assert(seq![c].last() == c);
        assert(digits_value(Seq::<char>::empty()) == 0);
    } else {
        lemma_digits_skip_front(c, s.drop_last());
        assert((seq![c] + s).drop_last() =~= seq![c] + s.drop_last());
        assert((seq![c] + s).last() == s.last());
    }
}

/// The number of values a `usize` can hold.
pub open spec fn usize_range() -> nat {
    (usize::MAX as nat) + 1
}

proof fn lemma_step_mod(v: nat, d: nat, size: usize)
    requires
        size as nat == v % usize_range(),
        d < 10,
    ensures
        vstd::wrapping::usize_specs::wrapping_add(
            vstd::wrapping::usize_specs::wrapping_mul(size, 10),
            d as usize,
        ) as nat == (v * 10 + d) % usize_range(),
{
    let m = usize_range() as int;
    vstd::arithmetic::div_mod::lemma_mul_mod_noop_left(v as int, 10, m);
    vstd::arithmetic::div_mod::lemma_add_mod_noop((v * 10) as int, d as int, m);
    vstd::arithmetic::div_mod::lemma_small_mod(d, m as nat);
    let x = ((size as nat) * 10) % (m as nat);
    vstd::arithmetic::div_mod::lemma_mod_twice((x + d) as int, m);
    assert(x < m);
    if x + d >= m {
        vstd::arithmetic::div_mod::lemma_mod_add_multiples_vanish((x + d - m) as int, m);
        vstd::arithmetic::div_mod::lemma_small_mod((x + d - m) as nat, m as nat);
    } else {
        vstd::arithmetic::div_mod::lemma_small_mod((x + d) as nat, m as nat);
    }
}

/// Reads the number that the decimal digits of `line` spell, skipping every
/// other character. Like the machine arithmetic it is written with, the
/// result wraps around at the width of `usize`.
pub fn get_nums_in_line(line: &str) -> (size: usize)
    ensures
        size as nat == digits_value(line@) % usize_range(),
{
    let n = line.unicode_len();
    let mut size: usize = 0;
    let mut i: usize = 0;
    proof {
        assert(line@.take(0) =~= Seq::<char>::empty());
        vstd::arithmetic::div_mod::lemma_small_mod(0, usize_range());
    }
    while i < n
        invariant
            n == line@.len(),
            i <= n,
            size as nat == digits_value(line@.take(i as int)) % usize_range(),
        decreases n - i,
    {
        let c = line.get_char(i);
        assert(line@.take(i as int + 1).drop_last() == line@.take(i as int));
        if '0' <= c && c <= '9' {
            let d: u32 = (c as u32) - ('0' as u32);
            proof {
                lemma_step_mod(digits_value(line@.take(i as int)), d as nat, size);
            }
            size = size.wrapping_mul(10).wrapping_add(d as usize);
        }
        i = i + 1;
    }
    assert(line@.take(n as int) == line@);
    size
}

} // verus!
