//! Fixed-width little-endian integers, as bincode writes them.
use vstd::prelude::*;

verus! {

/// `256` to the power `k`.
pub open spec fn pow256(k: nat) -> nat
    decreases k,
{
    if k == 0 {
        1
    } else {
        256 * pow256((k - 1) as nat)
    }
}

/// The `k` lowest bytes of `n`, least significant first.
pub open spec fn le_bytes(n: nat, k: nat) -> Seq<u8>
    decreases k,
{
    if k == 0 {
        Seq::empty()
    } else {
        seq![(n % 256) as u8] + le_bytes(n / 256, (k - 1) as nat)
    }
}

/// The number that `s` spells, least significant byte first.
pub open spec fn le_value(s: Seq<u8>) -> nat
    decreases s.len(),
{
    if s.len() == 0 {
        0
    } else {
        s[0] as nat + 256 * le_value(s.drop_first())
    }
}

/// Reading back the bytes of a number that fits in them gives the number.
pub proof fn lemma_le_round_trip(n: nat, k: nat)
    requires
        n < pow256(k),
    ensures
        le_bytes(n, k).len() == k,
        le_value(le_bytes(n, k)) == n,
    decreases k,
{
    if k > 0 {
        let p = pow256((k - 1) as nat);
        assert(n / 256 < p) by (nonlinear_arith)
            requires
                n < 256 * p,
        ;
        lemma_le_round_trip(n / 256, (k - 1) as nat);
        let s = le_bytes(n, k);
        assert(s.drop_first() =~= le_bytes(n / 256, (k - 1) as nat));
        assert(n == n % 256 + 256 * (n / 256)) by (nonlinear_arith);
    }
}

/// Every `u64` fits in eight bytes.
pub proof fn lemma_u64_fits(n: u64)
    ensures
        (n as nat) < pow256(8),
{
    reveal_with_fuel(pow256, 9);
}

/// Relies on `bincode::serialize`: with its default options integers have a fixed
/// width, so a `u64` becomes its eight bytes, least significant first; the output
/// goes to a `Vec` with no size limit, which cannot fail.
#[verifier::external_body]
pub(crate) fn serialize_u64(n: u64) -> (r: Result<Vec<u8>, String>)
    ensures
        r is Ok,
        r matches Ok(v) ==> v@ == le_bytes(n as nat, 8),
{
    bincode::serialize(&n).map_err(|e| e.to_string())
}

/// Relies on `bincode::deserialize`: with its default options a `u64` is read from
/// the first eight bytes, least significant first; fewer bytes is an error, and
/// trailing bytes are allowed.
#[verifier::external_body]
pub(crate) fn deserialize_u64(b: &[u8]) -> (r: Result<u64, String>)
    ensures
        b@.len() >= 8 <==> r is Ok,
        r matches Ok(v) ==> v as nat == le_value(b@.subrange(0, 8)),
{
    bincode::deserialize::<u64>(b).map_err(|e| e.to_string())
}

/// A number spelled by bytes is below `256` to the power of their count.
pub proof fn lemma_le_value_bound(s: Seq<u8>)
    ensures
        le_value(s) < pow256(s.len()),
    decreases s.len(),
{
    if s.len() > 0 {
        let t = s.drop_first();
        lemma_le_value_bound(t);
        let v = le_value(t);
        let p = pow256(t.len());
        let b = s[0] as nat;
        assert(b + 256 * v < 256 * p) by (nonlinear_arith)
            requires
                b < 256,
                v < p,
        ;
    }
}

/// The four bytes of `v`, least significant first: how bincode writes a `u32`,
/// such as the case number of an enum.
pub fn encode_u32(v: u32) -> (r: Vec<u8>)
    ensures
        r@ == le_bytes(v as nat, 4),
{
    let mut out: Vec<u8> = Vec::new();
    let mut rest: u32 = v;
    let mut k: usize = 0;
    while k < 4
        invariant
            0 <= k <= 4,
            out@ + le_bytes(rest as nat, (4 - k) as nat) == le_bytes(v as nat, 4),
        decreases 4 - k,
    {
        let ghost before = out@;
        out.push((rest % 256) as u8);
        proof {
            let m = (4 - k) as nat;
            assert(le_bytes(rest as nat, m) == seq![(rest as nat % 256) as u8] + le_bytes(
                rest as nat / 256,
                (m - 1) as nat,
            ));
            assert(out@ + le_bytes(rest as nat / 256, (m - 1) as nat) =~= before + le_bytes(
                rest as nat,
                m,
            ));
        }
        rest = rest / 256;
        k = k + 1;
    }
    assert(out@ + le_bytes(rest as nat, 0) =~= out@);
    out
}

/// The `u32` that the first four bytes of `b` spell, least significant first;
/// none when `b` is shorter.
pub fn decode_u32(b: &[u8]) -> (r: Option<u32>)
    ensures
        b@.len() >= 4 <==> r is Some,
        r matches Some(v) ==> v as nat == le_value(b@.subrange(0, 4)),
{
    if b.len() < 4 {
        return None;
    }
    let ghost s = b@.subrange(0, 4);
    let mut acc: u64 = 0;
    let mut k: usize = 4;
    while k > 0
        invariant
            0 <= k <= 4,
            b@.len() >= 4,
            s == b@.subrange(0, 4),
            acc as nat == le_value(s.subrange(k as int, 4)),
        decreases k,
    {
        proof {
            lemma_le_value_bound(s.subrange(k as int, 4));
            reveal_with_fuel(pow256, 5);
            assert(s.subrange(k - 1, 4).drop_first() =~= s.subrange(k as int, 4));
        }
        acc = acc * 256 + b[k - 1] as u64;
        k = k - 1;
    }
    assert(s.subrange(0, 4) =~= s);
    proof {
        lemma_le_value_bound(s);
        reveal_with_fuel(pow256, 5);
    }
    Some(acc as u32)
}

/// Reading back the four bytes of a `u32` gives it back.
pub proof fn lemma_u32_round_trip(v: u32)
    ensures
        le_value(le_bytes(v as nat, 4)) == v,
        le_bytes(v as nat, 4).len() == 4,
{
    reveal_with_fuel(pow256, 5);
    lemma_le_round_trip(v as nat, 4);
}

/// Appends the bytes of `src` to `dst`.
pub fn append_bytes(dst: &mut Vec<u8>, src: &[u8])
    ensures
        final(dst)@ == old(dst)@ + src@,
{
    let mut i: usize = 0;
    while i < src.len()
        invariant
            0 <= i <= src@.len(),
            dst@ == old(dst)@ + src@.subrange(0, i as int),
        decreases src@.len() - i,
    {
        dst.push(src[i]);
        i = i + 1;
        assert(src@.subrange(0, i as int) =~= src@.subrange(0, (i - 1) as int).push(src@[i - 1]));
    }
    assert(src@.subrange(0, i as int) =~= src@);
}

} // verus!
