//! Self-terminating base-128 unsigned integers: seven bits per byte, least
//! significant group first, the high bit set on every byte but the last.

use vstd::prelude::*;

verus! {

/// The longest encoding that is read: enough for any 64-bit value.
pub const MAX_VARINT_LEN: usize = 10;

/// The encoding of `n`.
pub open spec fn spec_encode_varint(n: nat) -> Seq<u8>
    decreases n,
{
    if n < 128 {
        seq![n as u8]
    } else {
        seq![(n % 128 + 128) as u8] + spec_encode_varint(n / 128)
    }
}

/// The value of the encoding that starts `s` and the number of bytes it takes,
/// if one ends within the first `limit` bytes of `s`.
pub open spec fn spec_decode_groups(s: Seq<u8>, limit: nat) -> Option<(nat, nat)>
    decreases limit,
{
    if limit == 0 || s.len() == 0 {
        None
    } else if s[0] < 128 {
        Some((s[0] as nat, 1))
    } else {
        match spec_decode_groups(s.skip(1), (limit - 1) as nat) {
            Some((v, n)) => Some(((s[0] - 128) as nat + 128 * v, n + 1)),
            None => None,
        }
    }
}

/// The 64-bit value that starts `s` and the length of its encoding. There is
/// none where `s` ends before the encoding does, where the encoding is longer
/// than `MAX_VARINT_LEN` bytes, or where the value does not fit in 64 bits.
pub open spec fn spec_decode_varint(s: Seq<u8>) -> Option<(u64, nat)> {
    match spec_decode_groups(s, MAX_VARINT_LEN as nat) {
        Some((v, n)) => if v <= u64::MAX {
            Some((v as u64, n))
        } else {
            None
        },
        None => None,
    }
}

/// 128 to the power `k`.
pub open spec fn pow128(k: nat) -> nat
    decreases k,
{
    if k == 0 {
        1
    } else {
        128 * pow128((k - 1) as nat)
    }
}

proof fn lemma_pow128_monotonic(i: nat, j: nat)
    requires
        i <= j,
    ensures
        pow128(i) <= pow128(j),
        pow128(i) >= 1,
    decreases j,
{
    if i < j {
        lemma_pow128_monotonic(i, (j - 1) as nat);
    } else if i > 0 {
        lemma_pow128_monotonic((i - 1) as nat, (j - 1) as nat);
    }
}

proof fn lemma_pow128_ten()
    ensures
        pow128(10) == 0x40_0000_0000_0000_0000,
        pow128(10) > u64::MAX,
{
    reveal_with_fuel(pow128, 11);
}

/// An encoding is never empty, and a value below `128^k` takes at most `k`
/// bytes.
pub proof fn lemma_encode_varint_len(n: nat, k: nat)
    requires
        n < pow128(k),
    ensures
        1 <= spec_encode_varint(n).len(),
        k >= 1 ==> spec_encode_varint(n).len() <= k,
    decreases n,
{
    if n >= 128 {
        if k >= 1 {
            assert(n / 128 < pow128((k - 1) as nat));
            lemma_encode_varint_len(n / 128, (k - 1) as nat);
            if k == 1 {
                assert(pow128(1) == 128) by {
                    reveal_with_fuel(pow128, 2);
                }
            }
        } else {
            lemma_pow128_monotonic(0, 1);
            lemma_encode_varint_len(n / 128, 0);
        }
    }
}

/// Reading back what `spec_encode_varint` wrote gives the value and the
/// length, whatever follows the encoding.
pub proof fn lemma_decode_groups_of_encode(n: nat, rest: Seq<u8>, limit: nat)
    requires
        n < pow128(limit),
        limit >= 1,
    ensures
        spec_decode_groups(spec_encode_varint(n) + rest, limit) == Some(
            (n, spec_encode_varint(n).len()),
        ),
    decreases n,
{
    let enc = spec_encode_varint(n);
    let s = enc + rest;
    if n < 128 {
        assert(s[0] == n as u8);
    } else {
        let tail = spec_encode_varint(n / 128);
        assert(pow128(1) == 128) by {
            reveal_with_fuel(pow128, 2);
        }
        assert(limit >= 2);
        assert(n / 128 < pow128((limit - 1) as nat));
        assert(s[0] == (n % 128 + 128) as u8);
        assert(s.skip(1) =~= tail + rest);
        lemma_decode_groups_of_encode(n / 128, rest, (limit - 1) as nat);
    }
}

/// Law: decoding the encoding of a 64-bit value gives the value back, and
/// stops where the encoding ends.
pub proof fn lemma_decode_varint_of_encode(n: u64, rest: Seq<u8>)
    ensures
        spec_decode_varint(spec_encode_varint(n as nat) + rest) == Some(
            (n, spec_encode_varint(n as nat).len()),
        ),
        1 <= spec_encode_varint(n as nat).len() <= MAX_VARINT_LEN,
{
    lemma_pow128_ten();
    lemma_encode_varint_len(n as nat, 10);
    lemma_decode_groups_of_encode(n as nat, rest, 10);
}

/// The bytes behind an encoding do not matter: two sequences that agree on
/// the bytes of the encoding decode alike.
pub proof fn lemma_decode_groups_prefix(a: Seq<u8>, b: Seq<u8>, limit: nat)
    requires
        spec_decode_groups(a, limit) is Some,
        ({
            let n = spec_decode_groups(a, limit).unwrap().1;
            b.len() >= n && b.subrange(0, n as int) == a.subrange(0, n as int)
        }),
    ensures
        spec_decode_groups(b, limit) == spec_decode_groups(a, limit),
    decreases limit,
{
    lemma_decode_groups_len(a, limit);
    let n = spec_decode_groups(a, limit).unwrap().1;
    assert(a.subrange(0, n as int)[0] == a[0]);
    assert(b.subrange(0, n as int)[0] == b[0]);
    if a[0] >= 128 {
        let m = spec_decode_groups(a.skip(1), (limit - 1) as nat).unwrap().1;
        lemma_decode_groups_len(a.skip(1), (limit - 1) as nat);
        assert(b.skip(1).subrange(0, m as int) =~= b.subrange(0, n as int).skip(1));
        assert(a.skip(1).subrange(0, m as int) =~= a.subrange(0, n as int).skip(1));
        lemma_decode_groups_prefix(a.skip(1), b.skip(1), (limit - 1) as nat);
    }
}

/// An encoding that is read lies within the sequence and within the limit.
pub proof fn lemma_decode_groups_len(s: Seq<u8>, limit: nat)
    requires
        spec_decode_groups(s, limit) is Some,
    ensures
        1 <= spec_decode_groups(s, limit).unwrap().1 <= s.len(),
        spec_decode_groups(s, limit).unwrap().1 <= limit,
    decreases limit,
{
    if s[0] >= 128 {
        lemma_decode_groups_len(s.skip(1), (limit - 1) as nat);
    }
}

/// A 64-bit encoding that is read lies within the sequence, and is at most
/// `MAX_VARINT_LEN` bytes long.
pub proof fn lemma_decode_varint_len(s: Seq<u8>)
    requires
        spec_decode_varint(s) is Some,
    ensures
        1 <= spec_decode_varint(s).unwrap().1 <= MAX_VARINT_LEN,
        spec_decode_varint(s).unwrap().1 <= s.len(),
{
    lemma_decode_groups_len(s, 10);
}

/// Two sequences that agree on the bytes of a 64-bit encoding decode alike.
pub proof fn lemma_decode_varint_prefix(a: Seq<u8>, b: Seq<u8>)
    requires
        spec_decode_varint(a) is Some,
        ({
            let n = spec_decode_varint(a).unwrap().1;
            b.len() >= n && b.subrange(0, n as int) == a.subrange(0, n as int)
        }),
    ensures
        spec_decode_varint(b) == spec_decode_varint(a),
{
    lemma_decode_groups_prefix(a, b, 10);
}

/// Appends the encoding of `n` to `out`.
pub fn encode_varint(n: u64, out: &mut Vec<u8>)
    ensures
        final(out)@ == old(out)@ + spec_encode_varint(n as nat),
{
    let mut rest: u64 = n;
    while rest >= 128
        invariant
            out@ + spec_encode_varint(rest as nat) == old(out)@ + spec_encode_varint(n as nat),
        decreases rest,
    {
        let group: u8 = (rest % 128 + 128) as u8;
        proof {
            let tail = spec_encode_varint((rest / 128) as nat);
            assert(spec_encode_varint(rest as nat) == seq![group] + tail);
            assert(out@.push(group) + tail =~= out@ + (seq![group] + tail));
        }
        out.push(group);
        rest = rest / 128;
    }
    proof {
        assert(out@.push(rest as u8) =~= out@ + spec_encode_varint(rest as nat));
    }
    out.push(rest as u8);
}

/// What reading on from byte `i` adds to the groups read so far.
spec fn resume(o: Option<(nat, nat)>, acc: nat, mult: nat, i: nat) -> Option<(nat, nat)> {
    match o {
        Some((v, n)) => Some((acc + mult * v, n + i)),
        None => None,
    }
}

/// Reads the 64-bit value that starts `buf`, and says how many bytes it took.
pub fn decode_varint(buf: &[u8]) -> (res: Option<(u64, usize)>)
    ensures
        match res {
            Some((v, n)) => spec_decode_varint(buf@) == Some((v, n as nat)),
            None => spec_decode_varint(buf@) is None,
        },
{
    let mut i: usize = 0;
    let mut acc: u128 = 0;
    let mut mult: u128 = 1;
    proof {
        assert(buf@.skip(0) =~= buf@);
        lemma_pow128_ten();
    }
    while i < buf.len() && i < MAX_VARINT_LEN
        invariant
            i <= MAX_VARINT_LEN,
            i <= buf.len(),
            mult == pow128(i as nat),
            acc < mult,
            pow128(10) == 0x40_0000_0000_0000_0000,
            spec_decode_groups(buf@, 10) == resume(
                spec_decode_groups(buf@.skip(i as int), (10 - i) as nat),
                acc as nat,
                mult as nat,
                i as nat,
            ),
        decreases MAX_VARINT_LEN - i,
    {
        let b: u8 = buf[i];
        proof {
            lemma_pow128_monotonic(i as nat, 9);
            lemma_pow128_monotonic((i + 1) as nat, 10);
            assert(buf@.skip(i as int)[0] == b);
            assert(buf@.skip(i as int).skip(1) =~= buf@.skip(i + 1));
            assert(mult * 128 <= 0x40_0000_0000_0000_0000);
        }
        if b < 128 {
            proof {
                assert(mult * b <= mult * 128) by (nonlinear_arith)
                    requires
                        b <= 128,
                        mult >= 0,
                ;
            }
            let v: u128 = acc + mult * (b as u128);
            if v <= u64::MAX as u128 {
                return Some((v as u64, i + 1));
            } else {
                return None;
            }
        }
        let group: u128 = (b - 128) as u128;
        proof {
            let o = spec_decode_groups(buf@.skip(i + 1), (10 - i - 1) as nat);
            assert(mult * group <= mult * 127) by (nonlinear_arith)
                requires
                    group <= 127,
                    mult >= 0,
            ;
            if o is Some {
                let v = o.unwrap().0;
                assert(acc + mult * (group + 128 * v) == (acc + mult * group) + (mult * 128) * v)
                    by (nonlinear_arith);
            }
        }
        acc = acc + mult * group;
        mult = mult * 128;
        i = i + 1;
    }
    None
}

} // verus!
