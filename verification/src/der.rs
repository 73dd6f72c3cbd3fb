//! The DER primitive layer: definite-length tag-length-value framing.
//!
//! `tlv` is the encoding function; `parse_tlv` is the matching parser. Both
//! directions are related by `lemma_parse_tlv_of_tlv` (parsing an encoding
//! gives back tag, content and remainder) and `lemma_parse_tlv_sound` (a
//! successful parse consumes exactly one encoding). Lengths of 2^64 or more
//! are rejected by the parser: they cannot describe content held in memory.

use vstd::prelude::*;

verus! {

/// The value of a big-endian base-256 digit string.
pub open spec fn be_val(s: Seq<u8>) -> nat
    decreases s.len(),
{
    if s.len() == 0 {
        0
    } else {
        (be_val(s.drop_last()) * 256 + s.last()) as nat
    }
}

/// The minimal big-endian base-256 digit string of `n` (empty for zero).
pub open spec fn be_bytes(n: nat) -> Seq<u8>
    decreases n,
{
    if n == 0 {
        Seq::empty()
    } else {
        be_bytes(n / 256).push((n % 256) as u8)
    }
}

/// 256 to the power `k`.
pub open spec fn pow256(k: nat) -> nat
    decreases k,
{
    if k == 0 {
        1
    } else {
        256 * pow256((k - 1) as nat)
    }
}

/// The DER definite-length encoding of a content length.
pub open spec fn len_bytes(n: nat) -> Seq<u8> {
    if n < 128 {
        seq![n as u8]
    } else {
        seq![(128 + be_bytes(n).len()) as u8] + be_bytes(n)
    }
}

/// One DER value: tag byte, length bytes, content bytes.
pub open spec fn tlv(tag: u8, c: Seq<u8>) -> Seq<u8> {
    seq![tag] + len_bytes(c.len() as nat) + c
}

/// Parses a definite length at the front of `s`: the length and the remainder.
pub open spec fn parse_len(s: Seq<u8>) -> Option<(nat, Seq<u8>)> {
    if s.len() == 0 {
        None
    } else if s[0] < 128 {
        Some((s[0] as nat, s.skip(1)))
    } else {
        let k = (s[0] - 128) as int;
        if k == 0 || k > 8 || s.len() < 1 + k {
            None
        } else {
            let d = s.subrange(1, 1 + k);
            if d[0] == 0 || be_val(d) < 128 || be_val(d) > usize::MAX {
                None
            } else {
                Some((be_val(d), s.skip(1 + k)))
            }
        }
    }
}

/// Parses one DER value at the front of `s`: tag, content, remainder.
pub open spec fn parse_tlv(s: Seq<u8>) -> Option<(u8, Seq<u8>, Seq<u8>)> {
    if s.len() == 0 {
        None
    } else {
        match parse_len(s.skip(1)) {
            None => None,
            Some((n, r)) => {
                if r.len() < n {
                    None
                } else {
                    Some((s[0], r.take(n as int), r.skip(n as int)))
                }
            },
        }
    }
}

pub proof fn lemma_be_val_of_bytes(n: nat)
    ensures
        be_val(be_bytes(n)) == n,
    decreases n,
{
    if n > 0 {
        lemma_be_val_of_bytes(n / 256);
        let b = be_bytes(n);
        assert(b.drop_last() =~= be_bytes(n / 256));
    }
}

pub proof fn lemma_be_bytes_first(n: nat)
    requires
        n > 0,
    ensures
        be_bytes(n).len() >= 1,
        be_bytes(n)[0] != 0,
    decreases n,
{
    assert(be_bytes(n) == be_bytes(n / 256).push((n % 256) as u8));
    if n >= 256 {
        lemma_be_bytes_first(n / 256);
        assert(be_bytes(n)[0] == be_bytes(n / 256)[0]);
    } else {
        assert(n / 256 == 0 && n % 256 == n);
        assert(be_bytes(n) =~= seq![n as u8]);
    }
}

pub proof fn lemma_be_bytes_of_val(d: Seq<u8>)
    requires
        d.len() > 0,
        d[0] != 0,
    ensures
        be_bytes(be_val(d)) == d,
        be_val(d) > 0,
    decreases d.len(),
{
    let n = be_val(d);
    if d.len() == 1 {
        assert(d.drop_last() =~= Seq::<u8>::empty());
        assert(be_val(Seq::<u8>::empty()) == 0);
        assert(n == d[0]);
        assert(n / 256 == 0 && n % 256 == n);
        assert(be_bytes(n) == be_bytes(n / 256).push((n % 256) as u8));
        assert(be_bytes(0nat) =~= Seq::<u8>::empty());
        assert(be_bytes(n) =~= d);
    } else {
        let front = d.drop_last();
        lemma_be_bytes_of_val(front);
        let a = be_val(front);
        assert(n == a * 256 + d.last());
        assert(n / 256 == a && n % 256 == d.last()) by (nonlinear_arith)
            requires
                n == a * 256 + d.last(),
                0 <= d.last() < 256,
        ;
        assert(be_bytes(n) =~= front.push((n % 256) as u8));
        assert(be_bytes(n) =~= d);
    }
}

pub proof fn lemma_be_val_bound(d: Seq<u8>)
    ensures
        be_val(d) < pow256(d.len() as nat),
    decreases d.len(),
{
    if d.len() > 0 {
        let front = d.drop_last();
        lemma_be_val_bound(front);
        let a = be_val(front);
        let p = pow256(front.len() as nat);
        assert(a * 256 + d.last() < p * 256) by (nonlinear_arith)
            requires
                a < p,
                0 <= d.last() < 256,
        ;
        assert(pow256(d.len() as nat) == 256 * p);
    }
}

pub proof fn lemma_be_bytes_len(n: nat, k: nat)
    requires
        n < pow256(k),
    ensures
        be_bytes(n).len() <= k,
    decreases k,
{
    if n > 0 {
        assert(k > 0);
        assert(n / 256 < pow256((k - 1) as nat)) by (nonlinear_arith)
            requires
                n < 256 * pow256((k - 1) as nat),
        ;
        lemma_be_bytes_len(n / 256, (k - 1) as nat);
    }
}

/// 2^64 written as a power of 256.
pub proof fn lemma_pow256_8()
    ensures
        pow256(8) == 0x1_0000_0000_0000_0000,
{
    assert(pow256(0) == 1);
    assert(pow256(1) == 256);
    assert(pow256(2) == 0x1_0000);
    assert(pow256(3) == 0x100_0000);
    assert(pow256(4) == 0x1_0000_0000);
    assert(pow256(5) == 0x100_0000_0000);
    assert(pow256(6) == 0x1_0000_0000_0000);
    assert(pow256(7) == 0x100_0000_0000_0000);
    assert(pow256(8) == 0x1_0000_0000_0000_0000);
}

pub proof fn lemma_parse_len_of_len_bytes(n: nat, rest: Seq<u8>)
    requires
        n <= usize::MAX,
    ensures
        parse_len(len_bytes(n) + rest) == Some((n, rest)),
{
    let s = len_bytes(n) + rest;
    if n < 128 {
        assert(s[0] == n as u8);
        assert(s.skip(1) =~= rest);
    } else {
        let bb = be_bytes(n);
        lemma_be_bytes_first(n);
        lemma_pow256_8();
        lemma_be_bytes_len(n, 8);
        let k = bb.len() as int;
        assert(s[0] == (128 + k) as u8);
        assert((s[0] - 128) as int == k);
        assert(s.len() == 1 + k + rest.len());
        let d = s.subrange(1, 1 + k);
        assert(d =~= bb);
        lemma_be_val_of_bytes(n);
        assert(s.skip(1 + k) =~= rest);
    }
}

pub proof fn lemma_parse_len_sound(s: Seq<u8>)
    requires
        parse_len(s) is Some,
    ensures
        parse_len(s) matches Some((n, rest)) ==> {
            &&& s == len_bytes(n) + rest
            &&& rest.len() < s.len()
            &&& n < pow256(8)
        },
{
    let (n, rest) = parse_len(s).unwrap();
    if s[0] < 128 {
        assert(s =~= len_bytes(n) + rest);
        assert(pow256(0) == 1);
        lemma_pow256_8();
        assert(n < pow256(8)) by {
            assert(n < 128);
        }
    } else {
        let k = (s[0] - 128) as int;
        let d = s.subrange(1, 1 + k);
        lemma_be_bytes_of_val(d);
        lemma_be_val_bound(d);
        lemma_pow256_8();
        assert(pow256(d.len() as nat) <= pow256(8)) by {
            lemma_pow256_mono(d.len() as nat, 8);
        }
        assert(len_bytes(n) == seq![(128 + k) as u8] + d);
        assert(s =~= len_bytes(n) + rest);
    }
}

pub proof fn lemma_pow256_mono(a: nat, b: nat)
    requires
        a <= b,
    ensures
        pow256(a) <= pow256(b),
    decreases b,
{
    if a < b {
        lemma_pow256_mono(a, (b - 1) as nat);
        assert(pow256((b - 1) as nat) <= 256 * pow256((b - 1) as nat)) by (nonlinear_arith)
            requires
                pow256((b - 1) as nat) >= 0,
        ;
    }
}

pub proof fn lemma_parse_tlv_of_tlv(tag: u8, c: Seq<u8>, rest: Seq<u8>)
    requires
        c.len() <= usize::MAX,
    ensures
        parse_tlv(tlv(tag, c) + rest) == Some((tag, c, rest)),
{
    let s = tlv(tag, c) + rest;
    assert(s.len() > 0);
    assert(s[0] == tag);
    assert(s.skip(1) =~= len_bytes(c.len() as nat) + (c + rest));
    lemma_parse_len_of_len_bytes(c.len() as nat, c + rest);
    let r = (c + rest);
    assert(r.take(c.len() as int) =~= c);
    assert(r.skip(c.len() as int) =~= rest);
}

pub proof fn lemma_parse_tlv_sound(s: Seq<u8>)
    requires
        parse_tlv(s) is Some,
    ensures
        parse_tlv(s) matches Some((t, c, rest)) ==> {
            &&& s == tlv(t, c) + rest
            &&& rest.len() + c.len() + 2 <= s.len()
            &&& c.len() < pow256(8)
        },
{
    let (t, c, rest) = parse_tlv(s).unwrap();
    let (n, r) = parse_len(s.skip(1)).unwrap();
    lemma_parse_len_sound(s.skip(1));
    assert(r =~= c + rest);
    assert(s =~= seq![s[0]] + s.skip(1));
    assert(s =~= tlv(t, c) + rest);
    assert(len_bytes(n).len() >= 1);
}

/// Appends the big-endian digit string of `n`.
pub fn push_be(out: &mut Vec<u8>, n: u64)
    ensures
        final(out)@ == old(out)@ + be_bytes(n as nat),
    decreases n,
{
    if n == 0 {
        assert(out@ =~= out@ + be_bytes(0));
    } else {
        push_be(out, n / 256);
        out.push((n % 256) as u8);
        assert(out@ =~= old(out)@ + be_bytes(n as nat));
    }
}

/// The number of big-endian digits of `n`.
pub fn be_len(n: u64) -> (k: usize)
    ensures
        k == be_bytes(n as nat).len(),
        k <= 8,
{
    proof {
        lemma_pow256_8();
        assert((n as nat) < pow256(8));
        lemma_be_bytes_len(n as nat, 8);
    }
    let mut m = n;
    let mut k: usize = 0;
    while m > 0
        invariant
            be_bytes(n as nat).len() == k + be_bytes(m as nat).len(),
            k <= be_bytes(n as nat).len(),
            be_bytes(n as nat).len() <= 8,
        decreases m,
    {
        m = m / 256;
        k = k + 1;
    }
    k
}

/// Appends the DER length encoding of `n`.
pub fn push_len(out: &mut Vec<u8>, n: usize)
    ensures
        final(out)@ == old(out)@ + len_bytes(n as nat),
{
    if n < 128 {
        out.push(n as u8);
        assert(out@ =~= old(out)@ + len_bytes(n as nat));
    } else {
        let k = be_len(n as u64);
        out.push(128 + k as u8);
        push_be(out, n as u64);
        assert(out@ =~= old(out)@ + len_bytes(n as nat));
    }
}

/// Wraps content bytes in a DER tag-length-value envelope.
pub fn wrap_tlv(tag: u8, content: Vec<u8>) -> (r: Vec<u8>)
    ensures
        r@ == tlv(tag, content@),
{
    let ghost orig = content@;
    let mut out: Vec<u8> = Vec::new();
    out.push(tag);
    push_len(&mut out, content.len());
    let mut c = content;
    out.append(&mut c);
    proof {
        assert(out@ =~= tlv(tag, orig));
    }
    out
}

/// Reads a definite length at index `i`; on success the length and the index
/// just past the length bytes.
pub fn read_len(input: &[u8], i: usize) -> (r: Result<(usize, usize), ()>)
    requires
        i <= input@.len(),
    ensures
        (r matches Ok((n, j)) ==> i < j <= input@.len() && parse_len(input@.skip(i as int))
            == Some((n as nat, input@.skip(j as int)))),
        r is Err ==> parse_len(input@.skip(i as int)) is None,
{
    let ghost s = input@.skip(i as int);
    if i >= input.len() {
        return Err(());
    }
    let b0 = input[i];
    proof {
        assert(s[0] == input@[i as int]);
    }
    if b0 < 128 {
        proof {
            assert(s.skip(1) =~= input@.skip(i + 1));
        }
        Ok((b0 as usize, i + 1))
    } else {
        let k = (b0 - 128) as usize;
        if k == 0 || k > 8 || input.len() - i < 1 + k {
            return Err(());
        }
        let ghost d = s.subrange(1, 1 + k as int);
        proof {
            assert(d =~= input@.subrange(i + 1, i + 1 + k));
        }
        if input[i + 1] == 0 {
            return Err(());
        }
        let mut n: u128 = 0;
        let mut t: usize = 0;
        while t < k
            invariant
                t <= k,
                k <= 8,
                i + 1 + k <= input@.len(),
                input@.len() <= usize::MAX,
                d == input@.subrange(i + 1, i + 1 + k),
                n as nat == be_val(d.take(t as int)),
                n < pow256(t as nat),
            decreases k - t,
        {
            proof {
                lemma_pow256_8();
                lemma_pow256_mono((t + 1) as nat, 8);
                assert(n * 256 + 256 <= pow256(t as nat) * 256) by (nonlinear_arith)
                    requires
                        n < pow256(t as nat),
                ;
                assert(pow256((t + 1) as nat) == 256 * pow256(t as nat));
                assert(d.take(t + 1).drop_last() =~= d.take(t as int));
            }
            let b = input[i + 1 + t];
            n = n * 256 + (b as u128);
            t = t + 1;
            proof {
                assert(d.take(t as int).last() == d[t - 1]);
            }
        }
        proof {
            assert(d.take(k as int) =~= d);
        }
        if n < 128 || n > usize::MAX as u128 {
            return Err(());
        }
        proof {
            assert(s.skip(1 + k as int) =~= input@.skip(i + 1 + k));
        }
        Ok((n as usize, i + 1 + k))
    }
}

/// Reads one DER value at index `i`; on success the tag and the bounds of the
/// content bytes.
pub fn read_tlv(input: &[u8], i: usize) -> (r: Result<(u8, usize, usize), ()>)
    requires
        i <= input@.len(),
    ensures
        (r matches Ok((tag, cs, ce)) ==> i < cs <= ce <= input@.len() && parse_tlv(
            input@.skip(i as int),
        ) == Some((tag, input@.subrange(cs as int, ce as int), input@.skip(ce as int)))),
        r is Err ==> parse_tlv(input@.skip(i as int)) is None,
{
    let ghost s = input@.skip(i as int);
    if i >= input.len() {
        return Err(());
    }
    let tag = input[i];
    proof {
        assert(s[0] == input@[i as int]);
        assert(s.skip(1) =~= input@.skip(i + 1));
    }
    let (n, j) = match read_len(input, i + 1) {
        Ok(v) => v,
        Err(()) => {
            return Err(());
        },
    };
    if input.len() - j < n {
        return Err(());
    }
    proof {
        let r = input@.skip(j as int);
        assert(r.take(n as int) =~= input@.subrange(j as int, j + n));
        assert(r.skip(n as int) =~= input@.skip(j + n));
    }
    Ok((tag, j, j + n))
}

} // verus!
