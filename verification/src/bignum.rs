//! Unsigned integers wider than a machine word, held as little-endian
//! 32-bit limbs, with exact products, differences and comparisons.

use vstd::prelude::*;

verus! {

/// The limb base, `2^32`.
pub open spec fn limb_base() -> nat {
    0x1_0000_0000
}

/// `2^(32 n)`: the weight of limb `n`.
pub open spec fn radix(n: nat) -> nat
    decreases n,
{
    if n == 0 {
        1
    } else {
        limb_base() * radix((n - 1) as nat)
    }
}

/// The number that the little-endian limbs `s` stand for.
pub open spec fn limbs_value(s: Seq<u32>) -> nat
    decreases s.len(),
{
    if s.len() == 0 {
        0
    } else {
        limbs_value(s.drop_last()) + (s.last() as nat) * radix((s.len() - 1) as nat)
    }
}

proof fn lemma_radix_pos(n: nat)
    ensures
        radix(n) >= 1,
    decreases n,
{
    if n > 0 {
        lemma_radix_pos((n - 1) as nat);
        assert(limb_base() * radix((n - 1) as nat) >= 1) by (nonlinear_arith)
            requires
                radix((n - 1) as nat) >= 1,
                limb_base() == 0x1_0000_0000,
        ;
    }
}

/// Limb weights multiply.
proof fn lemma_radix_add(a: nat, b: nat)
    ensures
        radix(a + b) == radix(a) * radix(b),
    decreases a,
{
    if a > 0 {
        lemma_radix_add((a - 1) as nat, b);
        let p = radix((a - 1) as nat);
        let q = radix(b);
        assert(((a - 1) as nat + b) as nat == (a + b - 1) as nat);
        assert(radix(a + b) == limb_base() * radix((a + b - 1) as nat));
        assert(radix(a) == limb_base() * p);
        assert(limb_base() * (p * q) == (limb_base() * p) * q) by (nonlinear_arith);
    } else {
        assert(radix(0) == 1);
        assert(a + b == b);
    }
}

/// Limbs `s` stand for less than `2^(32 · len)`.
proof fn lemma_value_bound(s: Seq<u32>)
    ensures
        limbs_value(s) < radix(s.len()),
    decreases s.len(),
{
    if s.len() > 0 {
        let n = (s.len() - 1) as nat;
        lemma_value_bound(s.drop_last());
        let r = radix(n);
        assert(limbs_value(s.drop_last()) + (s.last() as nat) * r < limb_base() * r) by (
        nonlinear_arith)
            requires
                limbs_value(s.drop_last()) < r,
                s.last() < limb_base(),
                limb_base() == 0x1_0000_0000,
        ;
    }
}

/// Appending a limb adds it at the next weight.
proof fn lemma_value_push(s: Seq<u32>, v: u32)
    ensures
        limbs_value(s.push(v)) == limbs_value(s) + (v as nat) * radix(s.len()),
{
    assert(s.push(v).drop_last() =~= s);
}

/// The first `i + 1` limbs are the first `i` plus limb `i` at its weight.
proof fn lemma_value_take(s: Seq<u32>, i: int)
    requires
        0 <= i < s.len(),
    ensures
        limbs_value(s.take(i + 1)) == limbs_value(s.take(i)) + (s[i] as nat) * radix(i as nat),
{
    assert(s.take(i + 1) =~= s.take(i).push(s[i]));
    lemma_value_push(s.take(i), s[i]);
}

/// Replacing limb `k` changes the value by the difference at its weight.
proof fn lemma_value_update(s: Seq<u32>, k: int, v: u32)
    requires
        0 <= k < s.len(),
    ensures
        limbs_value(s.update(k, v)) + (s[k] as nat) * radix(k as nat) == limbs_value(s) + (v as nat)
            * radix(k as nat),
    decreases s.len(),
{
    let n = s.len() - 1;
    if k == n {
        assert(s.update(k, v).drop_last() =~= s.drop_last());
    } else {
        assert(s.update(k, v).drop_last() =~= s.drop_last().update(k, v));
        lemma_value_update(s.drop_last(), k, v);
    }
}

/// Limbs that agree from index `i` up differ in value as their first `i`
/// limbs do.
proof fn lemma_value_high_equal(a: Seq<u32>, b: Seq<u32>, i: int)
    requires
        a.len() == b.len(),
        0 <= i <= a.len(),
        forall|k: int| i <= k < a.len() ==> a[k] == b[k],
    ensures
        limbs_value(a) - limbs_value(b) == limbs_value(a.take(i)) - limbs_value(b.take(i)),
    decreases a.len(),
{
    if i == a.len() {
        assert(a.take(i) =~= a);
        assert(b.take(i) =~= b);
    } else {
        assert(a.last() == b[b.len() - 1]);
        lemma_value_high_equal(a.drop_last(), b.drop_last(), i);
        assert(a.drop_last().take(i) =~= a.take(i));
        assert(b.drop_last().take(i) =~= b.take(i));
    }
}

/// `n` zero limbs.
fn zero_limbs(n: usize) -> (out: Vec<u32>)
    ensures
        out.len() == n,
        forall|k: int| 0 <= k < n ==> out@[k] == 0,
        limbs_value(out@) == 0,
{
    let mut out: Vec<u32> = Vec::new();
    let mut i: usize = 0;
    while i < n
        invariant
            0 <= i <= n,
            out.len() == i,
            forall|k: int| 0 <= k < i ==> out@[k] == 0,
            limbs_value(out@) == 0,
        decreases n - i,
    {
        proof {
            lemma_value_push(out@, 0);
        }
        out.push(0);
        i = i + 1;
    }
    out
}

/// The four limbs of a `u128`.
pub fn limbs_of_u128(x: u128) -> (out: Vec<u32>)
    ensures
        out.len() == 4,
        limbs_value(out@) == x,
{
    let mut out: Vec<u32> = Vec::new();
    let mut rest: u128 = x;
    let mut i: usize = 0;
    proof {
        assert(radix(0) == 1);
        assert(limbs_value(out@) == 0);
    }
    while i < 4
        invariant
            0 <= i <= 4,
            out.len() == i,
            limbs_value(out@) + rest * radix(i as nat) == x,
        decreases 4 - i,
    {
        let q = rest / 0x1_0000_0000;
        let r = rest % 0x1_0000_0000;
        proof {
            lemma_value_push(out@, r as u32);
            let ri = radix(i as nat);
            assert(rest == q * 0x1_0000_0000 + r);
            assert(rest * ri == (r as nat) * ri + q * (0x1_0000_0000 * ri)) by (nonlinear_arith)
                requires
                    rest == q * 0x1_0000_0000 + r,
            ;
            assert(radix((i + 1) as nat) == limb_base() * ri);
        }
        out.push(r as u32);
        rest = q;
        i = i + 1;
    }
    proof {
        reveal_with_fuel(radix, 5);
        assert(radix(4) == 0x1_0000_0000_0000_0000_0000_0000_0000_0000);
        assert(rest == 0) by (nonlinear_arith)
            requires
                limbs_value(out@) + rest * radix(4) == x,
                x < 0x1_0000_0000_0000_0000_0000_0000_0000_0000,
                radix(4) == 0x1_0000_0000_0000_0000_0000_0000_0000_0000,
        ;
    }
    out
}

/// The exact product of two limb numbers, with `a.len() + b.len()` limbs.
pub fn mul_limbs(a: &Vec<u32>, b: &Vec<u32>) -> (out: Vec<u32>)
    requires
        a.len() + b.len() <= usize::MAX,
    ensures
        out.len() == a.len() + b.len(),
        limbs_value(out@) == limbs_value(a@) * limbs_value(b@),
{
    let la = a.len();
    let lb = b.len();
    let mut out = zero_limbs(la + lb);
    let mut j: usize = 0;
    proof {
        assert(limbs_value(b@.take(0)) == 0);
        assert(limbs_value(a@) * 0 == 0);
    }
    while j < lb
        invariant
            0 <= j <= lb,
            la == a.len(),
            lb == b.len(),
            la + lb <= usize::MAX,
            out.len() == la + lb,
            forall|k: int| j + la <= k < la + lb ==> out@[k] == 0,
            limbs_value(out@) == limbs_value(a@) * limbs_value(b@.take(j as int)),
        decreases lb - j,
    {
        let bj = b[j];
        let mut carry: u64 = 0;
        let mut i: usize = 0;
        proof {
            assert(limbs_value(a@.take(0)) == 0);
            assert(0 * bj * radix(j as nat) == 0);
            assert(0 * radix(j as nat) == 0);
        }
        while i < la
            invariant
                0 <= i <= la,
                0 <= j < lb,
                la == a.len(),
                lb == b.len(),
                la + lb <= usize::MAX,
                bj == b@[j as int],
                out.len() == la + lb,
                carry < 0x1_0000_0000,
                forall|k: int| j + la <= k < la + lb ==> out@[k] == 0,
                limbs_value(out@) + carry * radix((i + j) as nat) == limbs_value(a@) * limbs_value(
                    b@.take(j as int),
                ) + limbs_value(a@.take(i as int)) * bj * radix(j as nat),
            decreases la - i,
        {
            let k = i + j;
            let old_limb = out[k];
            let ai = a[i];
            proof {
                assert((ai as int) * (bj as int) <= 0xffff_ffff * 0xffff_ffff) by (nonlinear_arith)
                    requires
                        ai <= 0xffff_ffff,
                        bj <= 0xffff_ffff,
                ;
            }
            let t: u64 = old_limb as u64 + (ai as u64) * (bj as u64) + carry;
            let lo = (t % 0x1_0000_0000) as u32;
            let hi = t / 0x1_0000_0000;
            proof {
                let rk = radix(k as nat);
                let ri = radix(i as nat);
                let rj = radix(j as nat);
                lemma_value_update(out@, k as int, lo);
                lemma_value_take(a@, i as int);
                lemma_radix_add(i as nat, j as nat);
                assert((i + j) as nat == (i as nat + j as nat));
                assert(radix((k + 1) as nat) == limb_base() * rk);
                assert(t == hi * 0x1_0000_0000 + lo);
                assert(hi < 0x1_0000_0000);
                assert(rk == ri * rj);
                assert((lo as nat) * rk + hi * (limb_base() * rk) == t * rk) by (nonlinear_arith)
                    requires
                        t == hi * 0x1_0000_0000 + lo,
                        limb_base() == 0x1_0000_0000,
                ;
                assert(t * rk == (old_limb as nat) * rk + (ai as nat) * bj * (ri * rj) + carry * rk)
                    by (nonlinear_arith)
                    requires
                        t == old_limb + ai * bj + carry,
                        rk == ri * rj,
                ;
                assert(limbs_value(a@.take(i as int)) * bj * rj + (ai as nat) * bj * (ri * rj)
                    == (limbs_value(a@.take(i as int)) + (ai as nat) * ri) * bj * rj)
                    by (nonlinear_arith);
            }
            out.set(k, lo);
            carry = hi;
            i = i + 1;
        }
        proof {
            let k = (la + j) as int;
            assert(a@.take(la as int) =~= a@);
            lemma_value_update(out@, k, carry as u32);
            lemma_value_take(b@, j as int);
            assert(limbs_value(a@) * limbs_value(b@.take(j as int)) + limbs_value(a@) * bj * radix(
                j as nat,
            ) == limbs_value(a@) * (limbs_value(b@.take(j as int)) + (bj as nat) * radix(j as nat)))
                by (nonlinear_arith);
        }
        out.set(la + j, carry as u32);
        proof {
            assert forall|k: int| j + 1 + la <= k < la + lb implies out@[k] == 0 by {}
        }
        j = j + 1;
    }
    proof {
        assert(b@.take(lb as int) =~= b@);
    }
    out
}

/// Compares two limb numbers of one length: `1` when the first is
/// larger, `-1` when smaller, `0` when equal.
pub fn compare_limbs(a: &Vec<u32>, b: &Vec<u32>) -> (c: i8)
    requires
        a.len() == b.len(),
    ensures
        c == 1 <==> limbs_value(a@) > limbs_value(b@),
        c == 0 <==> limbs_value(a@) == limbs_value(b@),
        c == -1 <==> limbs_value(a@) < limbs_value(b@),
{
    let mut i: usize = a.len();
    while i > 0
        invariant
            0 <= i <= a.len(),
            a.len() == b.len(),
            forall|k: int| i <= k < a.len() ==> a@[k] == b@[k],
        decreases i,
    {
        let x = a[i - 1];
        let y = b[i - 1];
        if x != y {
            proof {
                let m = (i - 1) as int;
                lemma_value_high_equal(a@, b@, i as int);
                lemma_value_take(a@, m);
                lemma_value_take(b@, m);
                lemma_value_bound(a@.take(m));
                lemma_value_bound(b@.take(m));
                let r = radix(m as nat);
                if x > y {
                    assert((x as nat) * r >= (y as nat) * r + r) by (nonlinear_arith)
                        requires
                            x >= y + 1,
                            r >= 0,
                    ;
                } else {
                    assert((y as nat) * r >= (x as nat) * r + r) by (nonlinear_arith)
                        requires
                            y >= x + 1,
                            r >= 0,
                    ;
                }
            }
            if x > y {
                return 1;
            } else {
                return -1;
            }
        }
        i = i - 1;
    }
    proof {
        assert(a@ =~= b@);
    }
    0
}

/// The difference of two limb numbers of one length, the first no
/// smaller than the second.
pub fn sub_limbs(a: &Vec<u32>, b: &Vec<u32>) -> (out: Vec<u32>)
    requires
        a.len() == b.len(),
        limbs_value(a@) >= limbs_value(b@),
    ensures
        out.len() == a.len(),
        limbs_value(out@) == limbs_value(a@) - limbs_value(b@),
{
    let n = a.len();
    let mut out: Vec<u32> = Vec::new();
    let mut borrow: u64 = 0;
    let mut i: usize = 0;
    while i < n
        invariant
            0 <= i <= n,
            n == a.len(),
            n == b.len(),
            out.len() == i,
            borrow <= 1,
            limbs_value(out@) - borrow * radix(i as nat) == limbs_value(a@.take(i as int))
                - limbs_value(b@.take(i as int)),
        decreases n - i,
    {
        let x = a[i] as u64;
        let y = b[i] as u64 + borrow;
        let (v, nb): (u32, u64) = if x >= y {
            ((x - y) as u32, 0)
        } else {
            ((x + 0x1_0000_0000 - y) as u32, 1)
        };
        proof {
            let ri = radix(i as nat);
            lemma_value_push(out@, v);
            lemma_value_take(a@, i as int);
            lemma_value_take(b@, i as int);
            assert(radix((i + 1) as nat) == limb_base() * ri);
            assert((v as int) - nb * 0x1_0000_0000 == (a@[i as int] as int) - (b@[i as int] as int)
                - borrow);
            assert((v as int) * ri - nb * (limb_base() * ri) == ((a@[i as int] as int) - (
            b@[i as int] as int) - borrow) * ri) by (nonlinear_arith)
                requires
                    (v as int) - nb * 0x1_0000_0000 == (a@[i as int] as int) - (b@[i as int] as int)
                        - borrow,
                    limb_base() == 0x1_0000_0000,
            ;
            assert(((a@[i as int] as int) - (b@[i as int] as int) - borrow) * ri == (a@[i as int]
                as int) * ri - (b@[i as int] as int) * ri - borrow * ri) by (nonlinear_arith);
        }
        out.push(v);
        borrow = nb;
        i = i + 1;
    }
    proof {
        assert(a@.take(n as int) =~= a@);
        assert(b@.take(n as int) =~= b@);
        lemma_value_bound(out@);
        if borrow == 1 {
            assert(limbs_value(out@) - radix(n as nat) < 0);
        }
    }
    out
}

} // verus!
