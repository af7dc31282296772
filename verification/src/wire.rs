//! Big-endian numbers in byte buffers.
use vstd::arithmetic::power;
use vstd::prelude::*;

verus! {

/// The lowest `n` bytes of `v`, most significant first.
pub open spec fn be(v: nat, n: nat) -> Seq<u8>
    decreases n,
{
    if n == 0 {
        Seq::empty()
    } else {
        be(v / 256, (n - 1) as nat).push((v % 256) as u8)
    }
}

/// The number that a byte sequence stands for, most significant byte first.
pub open spec fn be_value(s: Seq<u8>) -> nat
    decreases s.len(),
{
    if s.len() == 0 {
        0
    } else {
        be_value(s.drop_last()) * 256 + s.last() as nat
    }
}

pub broadcast proof fn lemma_be_len(v: nat, n: nat)
    ensures
        (#[trigger] be(v, n)).len() == n,
    decreases n,
{
    if n > 0 {
        lemma_be_len(v / 256, (n - 1) as nat);
    }
}

proof fn lemma_be_value_bound(s: Seq<u8>)
    ensures
        be_value(s) < power::pow(256, s.len()),
    decreases s.len(),
{
    reveal(power::pow);
    if s.len() > 0 {
        lemma_be_value_bound(s.drop_last());
        let p = power::pow(256, (s.len() - 1) as nat);
        assert(power::pow(256, s.len()) == 256 * p);
    }
}

/// A number that fits in `n` bytes reads back from them.
pub proof fn law_be_round_trip(v: nat, n: nat)
    requires
        v < power::pow(256, n),
    ensures
        be(v, n).len() == n,
        be_value(be(v, n)) == v,
    decreases n,
{
    reveal(power::pow);
    if n > 0 {
        let m = (n - 1) as nat;
        assert(power::pow(256, n) == 256 * power::pow(256, m));
        law_be_round_trip(v / 256, m);
        assert(be(v, n).drop_last() =~= be(v / 256, m));
    }
}

/// The round trip for the widths in use.
pub proof fn lemma_be_widths()
    ensures
        power::pow(256, 2) == 0x1_0000,
        power::pow(256, 4) == 0x1_0000_0000,
        power::pow(256, 16) == u128::MAX + 1,
{
    reveal_with_fuel(power::pow, 17);
}

/// Appends the lowest `n` bytes of `v`, most significant first.
pub fn put_be(buf: &mut Vec<u8>, v: u128, n: usize)
    ensures
        final(buf)@ == old(buf)@ + be(v as nat, n as nat),
    decreases n,
{
    if n > 0 {
        put_be(buf, v / 256, n - 1);
        buf.push((v % 256) as u8);
        proof {
            assert(buf@ =~= old(buf)@ + be(v as nat, n as nat));
        }
    } else {
        proof {
            assert(buf@ =~= old(buf)@ + be(v as nat, n as nat));
        }
    }
}

/// Reads the `n` bytes at `at` as a number.
pub fn get_be(data: &[u8], at: usize, n: usize) -> (v: u128)
    requires
        at + n <= data@.len(),
        n <= 16,
    ensures
        v == be_value(data@.subrange(at as int, at + n)),
        v < power::pow(256, n as nat),
{
    let mut v: u128 = 0;
    let mut i: usize = 0;
    proof {
        assert(data@.subrange(at as int, at as int) =~= Seq::empty());
    }
    while i < n
        invariant
            i <= n <= 16,
            at + n <= data.len(),
            v == be_value(data@.subrange(at as int, at + i)),
        decreases n - i,
    {
        let ghost next = data@.subrange(at as int, at + i + 1);
        proof {
            assert(next.drop_last() =~= data@.subrange(at as int, at + i));
            lemma_be_value_bound(next);
            lemma_be_widths();
            power::lemma_pow_increases(256, (i + 1) as nat, 16);
        }
        v = v * 256 + data[at + i] as u128;
        i += 1;
    }
    proof {
        lemma_be_value_bound(data@.subrange(at as int, at + n));
    }
    v
}

}
