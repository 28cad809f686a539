//! The length header of an element: short form, or long form with one to
//! four big-endian octets.
use vstd::prelude::*;
use crate::error::{DecodeError, EncodeError};

verus! {

/// `256` to the power `k`.
pub open spec fn pow256(k: nat) -> nat
    decreases k,
{
    if k == 0 {
        1
    } else {
        256 * pow256((k - 1) as nat)
    }
}

/// The number that a run of big-endian octets spells.
pub open spec fn be_value(b: Seq<u8>) -> nat
    decreases b.len(),
{
    if b.len() == 0 {
        0
    } else {
        be_value(b.drop_last()) * 256 + b.last() as nat
    }
}

/// The shortest run of big-endian octets that spells `n` (empty for zero).
pub open spec fn be_min(n: nat) -> Seq<u8>
    decreases n,
{
    if n == 0 {
        Seq::empty()
    } else {
        be_min(n / 256).push((n % 256) as u8)
    }
}

/// `u` as exactly `k` big-endian octets (its value modulo `256^k`).
pub open spec fn be_fixed(u: nat, k: nat) -> Seq<u8>
    decreases k,
{
    if k == 0 {
        Seq::empty()
    } else {
        be_fixed(u / 256, (k - 1) as nat).push((u % 256) as u8)
    }
}

/// Appends `u` as exactly `k` big-endian octets.
pub fn push_be_fixed(out: &mut Vec<u8>, u: u128, k: usize)
    ensures
        final(out)@ == old(out)@ + be_fixed(u as nat, k as nat),
    decreases k,
{
    if k > 0 {
        push_be_fixed(out, u / 256, k - 1);
        out.push((u % 256) as u8);
    }
    assert(final(out)@ =~= old(out)@ + be_fixed(u as nat, k as nat));
}

/// What a length header at the start of `data` declares: the content
/// length and the size of the header itself.
pub open spec fn length_header(data: Seq<u8>) -> Result<(nat, nat), DecodeError> {
    if data.len() == 0 {
        Err(DecodeError::UnexpectedEnd)
    } else if data[0] < 128 {
        Ok((data[0] as nat, 1))
    } else {
        let k = data[0] - 128;
        if k == 0 || k > 4 {
            Err(DecodeError::InvalidLengthEncoding)
        } else if data.len() < 1 + k {
            Err(DecodeError::UnexpectedEnd)
        } else {
            Ok((be_value(data.subrange(1, 1 + k)), (1 + k) as nat))
        }
    }
}

/// The canonical length header for a content of `n` bytes.
pub open spec fn length_octets(n: nat) -> Seq<u8> {
    if n < 128 {
        seq![n as u8]
    } else {
        seq![(128 + be_min(n).len()) as u8] + be_min(n)
    }
}

pub proof fn lemma_pow256_values()
    ensures
        pow256(1) == 256,
        pow256(2) == 65536,
        pow256(3) == 16777216,
        pow256(4) == 4294967296,
        pow256(7) == 72057594037927936,
        pow256(8) == 18446744073709551616,
{
    assert(pow256(0) == 1);
    assert(pow256(1) == 256);
    assert(pow256(2) == 65536);
    assert(pow256(3) == 16777216);
    assert(pow256(4) == 4294967296);
    assert(pow256(5) == 1099511627776);
    assert(pow256(6) == 281474976710656);
    assert(pow256(7) == 72057594037927936);
    assert(pow256(8) == 18446744073709551616);
}

pub proof fn lemma_be_value_bound(b: Seq<u8>)
    ensures
        be_value(b) < pow256(b.len()),
    decreases b.len(),
{
    if b.len() > 0 {
        lemma_be_value_bound(b.drop_last());
        let p = pow256((b.len() - 1) as nat);
        let v = be_value(b.drop_last());
        let l = b.last() as nat;
        assert(v * 256 + l < 256 * p) by (nonlinear_arith)
            requires
                v < p,
                l < 256,
        ;
    }
}

pub proof fn lemma_be_min(n: nat)
    ensures
        be_value(be_min(n)) == n,
        n > 0 ==> be_min(n).len() > 0,
        forall|k: nat| n < #[trigger] pow256(k) ==> be_min(n).len() <= k,
    decreases n,
{
    if n > 0 {
        lemma_be_min(n / 256);
        assert(be_min(n).drop_last() == be_min(n / 256));
        assert forall|k: nat| n < #[trigger] pow256(k) implies be_min(n).len() <= k by {
            if k == 0 {
            } else {
                assert(n / 256 < pow256((k - 1) as nat));
            }
        }
    }
}

/// Reads the length header at the start of `data`.
pub fn parse_length(data: &[u8]) -> (r: Result<(usize, usize), DecodeError>)
    ensures
        match length_header(data@) {
            Ok((n, h)) => r == Ok::<(usize, usize), DecodeError>((n as usize, h as usize)),
            Err(e) => r == Err::<(usize, usize), DecodeError>(e),
        },
        r is Ok ==> r->Ok_0.0 <= u32::MAX && 1 <= r->Ok_0.1 <= 5 && length_header(data@) == Ok::<
            (nat, nat),
            DecodeError,
        >((r->Ok_0.0 as nat, r->Ok_0.1 as nat)),
{
    if data.len() == 0 {
        return Err(DecodeError::UnexpectedEnd);
    }
    let first = data[0];
    if first < 128 {
        return Ok((first as usize, 1));
    }
    let k = (first - 128) as usize;
    if k == 0 || k > 4 {
        return Err(DecodeError::InvalidLengthEncoding);
    }
    if data.len() < 1 + k {
        return Err(DecodeError::UnexpectedEnd);
    }
    let mut length: u64 = 0;
    let mut i: usize = 0;
    while i < k
        invariant
            1 <= k <= 4,
            1 + k <= data.len(),
            i <= k,
            length == be_value(data@.subrange(1, 1 + i as int)),
            length < pow256(i as nat),
        decreases k - i,
    {
        let ghost prev = data@.subrange(1, 1 + i as int);
        proof {
            assert(data@.subrange(1, 2 + i as int).drop_last() == prev);
            lemma_be_value_bound(data@.subrange(1, 2 + i as int));
            lemma_pow256_values();
            assert(length < 16777216) by {
                if i == 0 {
                    assert(pow256(0) == 1);
                } else if i == 1 {
                } else if i == 2 {
                } else {
                }
            }
        }
        length = length * 256 + data[1 + i] as u64;
        i = i + 1;
    }
    proof {
        lemma_pow256_values();
    }
    Ok((length as usize, 1 + k))
}

/// Appends the shortest big-endian octets of `n`.
fn push_be_min(out: &mut Vec<u8>, n: u64)
    ensures
        final(out)@ == old(out)@ + be_min(n as nat),
    decreases n,
{
    if n > 0 {
        push_be_min(out, n / 256);
        out.push((n % 256) as u8);
        assert(final(out)@ =~= old(out)@ + be_min(n as nat));
    } else {
        assert(final(out)@ =~= old(out)@ + be_min(n as nat));
    }
}

/// The canonical length header for a content of `length` bytes: one byte
/// below 128, otherwise `0x80` plus the count of big-endian octets that follow.
pub fn encode_length(length: usize) -> (r: Result<Vec<u8>, EncodeError>)
    ensures
        r is Ok,
        r->Ok_0@ == length_octets(length as nat),
{
    if length < 128 {
        return Ok(vec![length as u8]);
    }
    let mut octets: Vec<u8> = Vec::new();
    push_be_min(&mut octets, length as u64);
    proof {
        lemma_be_min(length as nat);
        lemma_pow256_values();
        assert(octets@ =~= be_min(length as nat));
    }
    let mut r: Vec<u8> = vec![(128 + octets.len()) as u8];
    r.append(&mut octets);
    assert(r@ =~= length_octets(length as nat));
    Ok(r)
}

/// Length header bijection: for every length that fits in four octets,
/// reading back the canonical header, followed by anything, gives the length
/// and the header's size.
pub proof fn lemma_length_round_trip(n: nat, rest: Seq<u8>)
    requires
        n < pow256(4),
    ensures
        length_header(length_octets(n) + rest) == Ok::<(nat, nat), DecodeError>(
            (n, length_octets(n).len()),
        ),
{
    let h = length_octets(n) + rest;
    if n >= 128 {
        lemma_be_min(n);
        assert(h.subrange(1, 1 + be_min(n).len() as int) =~= be_min(n));
    }
}

} // verus!
