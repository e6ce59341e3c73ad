//! Byte strings: big-endian integers, appending, slicing and comparison.

use vstd::prelude::*;

verus! {

/// The `n` low bytes of `x`, most significant byte first.
pub open spec fn be(x: nat, n: nat) -> Seq<u8>
    decreases n,
{
    if n == 0 {
        Seq::empty()
    } else {
        be(x / 256, (n - 1) as nat).push((x % 256) as u8)
    }
}

/// The number that the bytes `s` denote, most significant byte first.
pub open spec fn be_value(s: Seq<u8>) -> nat
    decreases s.len(),
{
    if s.len() == 0 {
        0
    } else {
        be_value(s.drop_last()) * 256 + s.last() as nat
    }
}

/// One more than the largest number that fits in `n` bytes.
pub open spec fn byte_bound(n: nat) -> nat
    decreases n,
{
    if n == 0 {
        1
    } else {
        byte_bound((n - 1) as nat) * 256
    }
}

/// The bounds of the integer widths that the wire formats use.
pub proof fn lemma_byte_bounds()
    ensures
        byte_bound(1) == 0x100,
        byte_bound(2) == 0x1_0000,
        byte_bound(4) == 0x1_0000_0000,
        byte_bound(8) == 0x1_0000_0000_0000_0000,
        byte_bound(16) == 0x1_0000_0000_0000_0000 * 0x1_0000_0000_0000_0000,
{
    reveal_with_fuel(byte_bound, 17);
}

/// An encoding has the width that was asked for.
pub broadcast proof fn lemma_be_len(x: nat, n: nat)
    ensures
        #[trigger] be(x, n).len() == n,
    decreases n,
{
    if n > 0 {
        lemma_be_len(x / 256, (n - 1) as nat);
    }
}

/// Reading back an encoded number yields the number, if it fits.
pub proof fn lemma_be_round_trip(x: nat, n: nat)
    requires
        x < byte_bound(n),
    ensures
        be_value(be(x, n)) == x,
    decreases n,
{
    if n > 0 {
        lemma_be_round_trip(x / 256, (n - 1) as nat);
        assert(be(x, n).drop_last() =~= be(x / 256, (n - 1) as nat));
    }
}

/// Encoding the number that some bytes denote yields those bytes.
pub proof fn lemma_be_value_round_trip(s: Seq<u8>)
    ensures
        be(be_value(s), s.len()) == s,
        be_value(s) < byte_bound(s.len()),
    decreases s.len(),
{
    if s.len() > 0 {
        lemma_be_value_round_trip(s.drop_last());
        let x: nat = be_value(s);
        assert(x / 256 == be_value(s.drop_last()));
        assert(x % 256 == s.last() as nat);
        assert(be(x, s.len()) =~= s);
    }
}

/// Appends the `n` low bytes of `x`, most significant byte first.
pub fn put_be(out: &mut Vec<u8>, x: u64, n: usize)
    ensures
        final(out)@ == old(out)@ + be(x as nat, n as nat),
    decreases n,
{
    if n > 0 {
        put_be(out, x / 256, n - 1);
        out.push((x % 256) as u8);
        proof {
            assert(be(x as nat, n as nat) =~= be((x / 256) as nat, (n - 1) as nat).push(
                (x % 256) as u8,
            ));
        }
    }
    assert(out@ =~= old(out)@ + be(x as nat, n as nat));
}

/// Reads `n` bytes of `buf` from `at` on as a big-endian number.
pub fn get_be(buf: &[u8], at: usize, n: usize) -> (x: u64)
    requires
        n <= 8,
        at + n <= buf@.len(),
    ensures
        x == be_value(buf@.subrange(at as int, at + n)),
        x < byte_bound(n as nat),
{
    let end: usize = buf.len();
    let mut x: u64 = 0;
    let mut i: usize = 0;
    while i < n
        invariant
            n <= 8,
            at + n <= end,
            end == buf@.len(),
            i <= n,
            x == be_value(buf@.subrange(at as int, at + i)),
            x < byte_bound(i as nat),
        decreases n - i,
    {
        proof {
            reveal_with_fuel(byte_bound, 9);
            assert(buf@.subrange(at as int, at + i + 1).drop_last() =~= buf@.subrange(
                at as int,
                at + i,
            ));
            assert(byte_bound((i + 1) as nat) == byte_bound(i as nat) * 256);
        }
        x = x * 256 + buf[at + i] as u64;
        i = i + 1;
    }
    x
}

/// Appends the bytes of `src`.
pub fn put_bytes(out: &mut Vec<u8>, src: &[u8])
    ensures
        final(out)@ == old(out)@ + src@,
{
    out.extend_from_slice(src);
    assert(out@ =~= old(out)@ + src@);
}

/// A fresh copy of `src[from..to]`.
pub fn copy_range(src: &[u8], from: usize, to: usize) -> (out: Vec<u8>)
    requires
        from <= to <= src@.len(),
    ensures
        out@ == src@.subrange(from as int, to as int),
{
    let part: &[u8] = vstd::slice::slice_subrange(src, from, to);
    vstd::slice::slice_to_vec(part)
}

/// Whether two byte strings are equal.
pub fn bytes_equal(a: &[u8], b: &[u8]) -> (equal: bool)
    ensures
        equal == (a@ == b@),
{
    if a.len() != b.len() {
        return false;
    }
    let mut i: usize = 0;
    while i < a.len()
        invariant
            a@.len() == b@.len(),
            i <= a@.len(),
            forall|j: int| 0 <= j < i ==> a@[j] == b@[j],
        decreases a@.len() - i,
    {
        if a[i] != b[i] {
            return false;
        }
        i = i + 1;
    }
    assert(a@ =~= b@);
    true
}

/// What byte `i` of an encoding is: the digit of its place to the base of 256, the most
/// significant first.
pub proof fn law_bytes_are_digits(x: nat, n: nat, i: int)
    requires
        0 <= i < n,
    ensures
        be(x, n).len() == n,
        be(x, n)[i] == (x / byte_bound((n - 1 - i) as nat)) % 256,
    decreases n,
{
    lemma_be_len(x, n);
    lemma_be_len(x / 256, (n - 1) as nat);
    if i == n - 1 {
        assert(byte_bound(0) == 1);
        assert(x / 1 == x);
    } else {
        law_bytes_are_digits(x / 256, (n - 1) as nat, i);
        let below = byte_bound((n - 2 - i) as nat);
        lemma_bound_is_positive((n - 2 - i) as nat);
        assert(byte_bound((n - 1 - i) as nat) == below * 256);
        vstd::arithmetic::div_mod::lemma_div_denominator(x as int, 256, below as int);
        assert(256 * below == below * 256);
    }
}

/// Bounds are positive.
proof fn lemma_bound_is_positive(n: nat)
    ensures
        byte_bound(n) > 0,
    decreases n,
{
    if n > 0 {
        lemma_bound_is_positive((n - 1) as nat);
    }
}

/// Two bytes as a number: the first counts 256 times.
pub proof fn law_two_bytes(s: Seq<u8>, at: int)
    requires
        0 <= at,
        at + 2 <= s.len(),
    ensures
        be_value(s.subrange(at, at + 2)) == 256 * s[at] + s[at + 1],
{
    let two = s.subrange(at, at + 2);
    reveal_with_fuel(be_value, 3);
    assert(two.drop_last().drop_last() =~= Seq::<u8>::empty());
    assert(two.drop_last().last() == s[at]);
    assert(two.last() == s[at + 1]);
}

/// A number read from bytes is that of the first ones, times 256 for each one behind, and
/// that of the others.
pub proof fn law_values_add_up(first: Seq<u8>, behind: Seq<u8>)
    ensures
        be_value(first + behind) == be_value(first) * byte_bound(behind.len()) + be_value(behind),
    decreases behind.len(),
{
    if behind.len() == 0 {
        assert(first + behind =~= first);
        assert(be_value(first) * 1 == be_value(first));
        assert(byte_bound(0) == 1);
    } else {
        let rest = behind.drop_last();
        law_values_add_up(first, rest);
        assert(byte_bound(behind.len()) == byte_bound(rest.len()) * 256);
        assert((first + behind).drop_last() =~= first + rest);
        let x = be_value(first);
        let b = byte_bound(rest.len());
        assert((x * b + be_value(rest)) * 256 == x * (b * 256) + be_value(rest) * 256)
            by (nonlinear_arith);
    }
}

/// Copies and comparisons do what their names say.
pub proof fn law_copies_and_comparisons(
    src: &[u8],
    from: usize,
    to: usize,
    out: Vec<u8>,
    a: &[u8],
    b: &[u8],
    equal: bool,
)
    requires
        from <= to <= src@.len(),
        call_ensures(copy_range, (src, from, to), out),
        call_ensures(bytes_equal, (a, b), equal),
    ensures
        out@.len() == to - from,
        forall|i: int| 0 <= i < out@.len() ==> out@[i] == src@[from + i],
        equal <==> a@.len() == b@.len() && forall|i: int| 0 <= i < a@.len() ==> a@[i] == b@[i],
{
    if a@.len() == b@.len() && forall|i: int| 0 <= i < a@.len() ==> a@[i] == b@[i] {
        assert(a@ =~= b@);
    }
}

/// Appending leaves what was there, and a number that is appended is read back.
pub proof fn law_appended_numbers_are_read_back(out: &mut Vec<u8>, x: u64, n: usize)
    requires
        x < byte_bound(n as nat),
        call_ensures(put_be, (out, x, n), ()),
    ensures
        final(out)@.len() == old(out)@.len() + n,
        final(out)@.take(old(out)@.len() as int) == old(out)@,
        be_value(final(out)@.skip(old(out)@.len() as int)) == x,
{
    lemma_be_len(x as nat, n as nat);
    lemma_be_round_trip(x as nat, n as nat);
    assert(final(out)@.take(old(out)@.len() as int) =~= old(out)@);
    assert(final(out)@.skip(old(out)@.len() as int) =~= be(x as nat, n as nat));
}

} // verus!
