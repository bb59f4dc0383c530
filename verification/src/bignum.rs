//! Unbounded natural numbers as little-endian base-2^32 limbs: just enough
//! arithmetic to compare exact similarity fractions of strings of any length.
use vstd::prelude::*;

verus! {

/// `2^(32 k)`.
pub open spec fn pow32(k: nat) -> nat
    decreases k,
{
    if k == 0 {
        1
    } else {
        4294967296 * pow32((k - 1) as nat)
    }
}

/// The number the limbs `s` stand for, least significant first.
pub open spec fn big_val(s: Seq<u32>) -> nat
    decreases s.len(),
{
    if s.len() == 0 {
        0
    } else {
        s[0] as nat + 4294967296 * big_val(s.drop_first())
    }
}

/// Product of the factors.
pub open spec fn prod(f: Seq<u64>) -> nat
    decreases f.len(),
{
    if f.len() == 0 {
        1
    } else {
        prod(f.drop_last()) * (f.last() as nat)
    }
}

/// Sum over `terms` of the product of each.
pub open spec fn sum_prods(terms: Seq<Seq<u64>>) -> nat
    decreases terms.len(),
{
    if terms.len() == 0 {
        0
    } else {
        sum_prods(terms.drop_last()) + prod(terms.last())
    }
}

/// The factors of every term.
pub open spec fn terms_view(v: Seq<Vec<u64>>) -> Seq<Seq<u64>> {
    v.map_values(|t: Vec<u64>| t@)
}

pub proof fn lemma_pow32_pos(k: nat)
    ensures
        pow32(k) > 0,
    decreases k,
{
    if k > 0 {
        lemma_pow32_pos((k - 1) as nat);
    }
}

/// Appending a limb adds it at the next power.
pub proof fn lemma_val_push(s: Seq<u32>, x: u32)
    ensures
        big_val(s.push(x)) == big_val(s) + x * pow32(s.len()),
    decreases s.len(),
{
    let t = s.push(x);
    if s.len() == 0 {
        assert(t.drop_first() =~= Seq::<u32>::empty());
        assert(t[0] == x);
        assert(big_val(t.drop_first()) == 0);
        assert(pow32(0) == 1);
    } else {
        assert(t.drop_first() =~= s.drop_first().push(x));
        assert(t[0] == s[0]);
        lemma_val_push(s.drop_first(), x);
        let v = big_val(s.drop_first());
        let p = pow32((s.len() - 1) as nat);
        assert(pow32(s.len()) == 4294967296 * p);
        assert(big_val(t) == s[0] + 4294967296 * big_val(t.drop_first()));
        assert(big_val(s) == s[0] + 4294967296 * v);
        assert(4294967296 * (v + x * p) == 4294967296 * v + x * (4294967296 * p)) by (nonlinear_arith);
    }
}

/// The limbs stand for less than the next power.
pub proof fn lemma_val_bound(s: Seq<u32>)
    ensures
        big_val(s) < pow32(s.len()),
    decreases s.len(),
{
    if s.len() > 0 {
        lemma_val_bound(s.drop_first());
        let v = big_val(s.drop_first());
        let p = pow32((s.len() - 1) as nat);
        assert(s[0] + 4294967296 * v < 4294967296 * p) by (nonlinear_arith)
            requires
                v < p,
                s[0] < 4294967296,
        ;
    }
}

proof fn lemma_two_limbs(s: Seq<u32>)
    requires
        s.len() == 2,
    ensures
        big_val(s) == s[0] + 4294967296 * s[1],
{
    assert(s.drop_first().drop_first() =~= Seq::<u32>::empty());
    assert(big_val(s.drop_first().drop_first()) == 0);
    assert(s.drop_first()[0] == s[1]);
    assert(big_val(s.drop_first()) == s[1]);
}

proof fn lemma_take_push(s: Seq<u32>, i: int)
    requires
        0 <= i < s.len(),
    ensures
        big_val(s.take(i + 1)) == big_val(s.take(i)) + s[i] * pow32(i as nat),
{
    assert(s.take(i + 1) =~= s.take(i).push(s[i]));
    lemma_val_push(s.take(i), s[i]);
}

/// `x` as limbs.
pub fn big_from(x: u64) -> (r: Vec<u32>)
    ensures
        big_val(r@) == x,
        r@.len() == 2,
{
    let lo: u64 = x & 0xffff_ffff;
    let hi: u64 = x >> 32;
    assert(lo < 4294967296 && hi < 4294967296 && x == lo + 4294967296 * hi) by (bit_vector)
        requires
            lo == x & 0xffff_ffff,
            hi == x >> 32,
    ;
    let mut r: Vec<u32> = Vec::new();
    r.push(lo as u32);
    r.push(hi as u32);
    proof {
        let l = lo as u32;
        let h = hi as u32;
        assert(r@ =~= seq![l, h]);
        assert(r@.drop_first() =~= seq![h]);
        assert(r@.drop_first().drop_first() =~= Seq::<u32>::empty());
        assert(big_val(r@.drop_first().drop_first()) == 0);
        assert(big_val(r@.drop_first()) == h);
        assert(big_val(r@) == l + 4294967296 * h);
    }
    r
}

/// `a * x`.
pub fn big_mul(a: &Vec<u32>, x: u64) -> (r: Vec<u32>)
    ensures
        big_val(r@) == big_val(a@) * x,
{
    let mut out: Vec<u32> = Vec::new();
    let mut carry: u64 = 0;
    let mut i: usize = 0;
    assert(a@.take(0) =~= Seq::<u32>::empty());
    assert(out@ =~= Seq::<u32>::empty());
    assert(big_val(a@.take(0)) == 0);
    assert(big_val(out@) == 0);
    while i < a.len()
        invariant
            i <= a@.len(),
            out@.len() == i,
            big_val(out@) + carry * pow32(i as nat) == big_val(a@.take(i as int)) * x,
        decreases a@.len() - i,
    {
        let ai = a[i];
        assert((ai as u128) * (x as u128) <= 0xffff_ffff * 0xffff_ffff_ffff_ffff) by (nonlinear_arith)
            requires
                ai <= 0xffff_ffff,
                x <= 0xffff_ffff_ffff_ffff,
        ;
        let prod: u128 = (ai as u128) * (x as u128) + (carry as u128);
        let digit: u128 = prod % 4294967296;
        let next: u128 = prod / 4294967296;
        assert(next < 0x1_0000_0000_0000_0000) by (nonlinear_arith)
            requires
                next == prod / 4294967296,
                prod <= 0xffff_ffff * 0xffff_ffff_ffff_ffff + 0xffff_ffff_ffff_ffff,
        ;
        let ghost before = out@;
        let ghost p = pow32(i as nat);
        out.push(digit as u32);
        proof {
            lemma_val_push(before, digit as u32);
            lemma_take_push(a@, i as int);
            assert(pow32((i + 1) as nat) == 4294967296 * p);
            let va = big_val(a@.take(i as int));
            assert(prod == digit + 4294967296 * next);
            assert(big_val(before) + digit * p + next * (4294967296 * p) == (va + ai * p) * x) by (nonlinear_arith)
                requires
                    big_val(before) + carry * p == va * x,
                    prod == digit + 4294967296 * next,
                    prod == ai * x + carry,
            ;
        }
        carry = next as u64;
        i += 1;
    }
    assert(a@.take(a@.len() as int) =~= a@);
    let tail = big_from(carry);
    let ghost before = out@;
    let ghost n = out@.len();
    out.push(tail[0]);
    out.push(tail[1]);
    proof {
        lemma_val_push(before, tail@[0]);
        lemma_val_push(before.push(tail@[0]), tail@[1]);
        assert(before.push(tail@[0]).push(tail@[1]) =~= out@);
        lemma_two_limbs(tail@);
        assert(pow32(n + 1) == 4294967296 * pow32(n));
        let p = pow32(n);
        assert(tail@[0] * p + tail@[1] * (4294967296 * p) == (tail@[0] + 4294967296 * tail@[1]) * p) by (nonlinear_arith);
    }
    out
}

/// `s` with zero limbs appended up to `n`: the same number.
fn pad(s: &Vec<u32>, n: usize) -> (r: Vec<u32>)
    ensures
        big_val(r@) == big_val(s@),
        r@.len() == if s@.len() < n { n as nat } else { s@.len() },
{
    let mut r = s.clone();
    assert(r@ == s@);
    while r.len() < n
        invariant
            big_val(r@) == big_val(s@),
            r@.len() >= s@.len(),
            r@.len() <= if s@.len() < n { n as nat } else { s@.len() },
        decreases n - r@.len(),
    {
        let ghost before = r@;
        r.push(0);
        proof {
            lemma_val_push(before, 0);
        }
    }
    r
}

/// `a + b`.
pub fn big_add(a: &Vec<u32>, b: &Vec<u32>) -> (r: Vec<u32>)
    ensures
        big_val(r@) == big_val(a@) + big_val(b@),
{
    let n = if a.len() < b.len() {
        b.len()
    } else {
        a.len()
    };
    let x = pad(a, n);
    let y = pad(b, n);
    let mut out: Vec<u32> = Vec::new();
    let mut carry: u64 = 0;
    let mut i: usize = 0;
    assert(x@.take(0) =~= Seq::<u32>::empty());
    assert(y@.take(0) =~= Seq::<u32>::empty());
    assert(out@ =~= Seq::<u32>::empty());
    while i < n
        invariant
            x@.len() == n,
            y@.len() == n,
            i <= n,
            out@.len() == i,
            carry <= 1,
            big_val(out@) + carry * pow32(i as nat) == big_val(x@.take(i as int)) + big_val(y@.take(i as int)),
        decreases n - i,
    {
        let s: u64 = (x[i] as u64) + (y[i] as u64) + carry;
        let digit: u64 = s % 4294967296;
        let next: u64 = s / 4294967296;
        let ghost before = out@;
        let ghost p = pow32(i as nat);
        out.push(digit as u32);
        proof {
            lemma_val_push(before, digit as u32);
            lemma_take_push(x@, i as int);
            lemma_take_push(y@, i as int);
            assert(pow32((i + 1) as nat) == 4294967296 * p);
            assert(s == digit + 4294967296 * next);
            assert(digit * p + next * (4294967296 * p) == (x@[i as int] + y@[i as int] + carry) * p) by (nonlinear_arith)
                requires
                    s == digit + 4294967296 * next,
                    s == x@[i as int] + y@[i as int] + carry,
            ;
            assert((x@[i as int] + y@[i as int] + carry) * p == x@[i as int] * p + y@[i as int] * p + carry * p)
                by (nonlinear_arith);
        }
        carry = next;
        i += 1;
    }
    assert(x@.take(n as int) =~= x@);
    assert(y@.take(n as int) =~= y@);
    let ghost before = out@;
    out.push(carry as u32);
    proof {
        lemma_val_push(before, carry as u32);
    }
    out
}

/// Whether `a < b`.
pub fn big_lt(a: &Vec<u32>, b: &Vec<u32>) -> (r: bool)
    ensures
        r == (big_val(a@) < big_val(b@)),
{
    let n = if a.len() < b.len() {
        b.len()
    } else {
        a.len()
    };
    let x = pad(a, n);
    let y = pad(b, n);
    let mut borrow: u64 = 0;
    let mut i: usize = 0;
    let ghost mut d: int = 0;
    assert(x@.take(0) =~= Seq::<u32>::empty());
    assert(y@.take(0) =~= Seq::<u32>::empty());
    while i < n
        invariant
            x@.len() == n,
            y@.len() == n,
            i <= n,
            borrow <= 1,
            0 <= d < pow32(i as nat),
            big_val(x@.take(i as int)) - big_val(y@.take(i as int)) == d - borrow * pow32(i as nat),
        decreases n - i,
    {
        let xi = x[i] as u64;
        let yi = y[i] as u64;
        let digit: u64;
        let next: u64;
        if xi >= yi + borrow {
            digit = xi - yi - borrow;
            next = 0;
        } else {
            digit = xi + 4294967296 - yi - borrow;
            next = 1;
        }
        proof {
            let p = pow32(i as nat);
            lemma_take_push(x@, i as int);
            lemma_take_push(y@, i as int);
            assert(pow32((i + 1) as nat) == 4294967296 * p);
            assert(digit < 4294967296);
            assert(digit == xi - yi - borrow + 4294967296 * next);
            assert(d + digit * p < 4294967296 * p) by (nonlinear_arith)
                requires
                    d < p,
                    digit < 4294967296,
                    d >= 0,
            ;
            assert(d + digit * p >= 0) by (nonlinear_arith)
                requires
                    d >= 0,
                    p > 0,
                    digit >= 0,
            ;
            assert((xi - yi) * p == digit * p + borrow * p - next * (4294967296 * p)) by (nonlinear_arith)
                requires
                    digit == xi - yi - borrow + 4294967296 * next,
            ;
            assert(x@[i as int] * p - y@[i as int] * p == (xi - yi) * p) by (nonlinear_arith)
                requires
                    xi == x@[i as int],
                    yi == y@[i as int],
            ;
            d = d + digit * p;
        }
        borrow = next;
        i += 1;
    }
    assert(x@.take(n as int) =~= x@);
    assert(y@.take(n as int) =~= y@);
    borrow == 1
}

/// The product of `f`, times `big_val(a)`.
pub fn big_mul_all(a: &Vec<u32>, f: &Vec<u64>) -> (r: Vec<u32>)
    ensures
        big_val(r@) == big_val(a@) * prod(f@),
{
    let mut acc = a.clone();
    let mut i: usize = 0;
    assert(f@.take(0) =~= Seq::<u64>::empty());
    while i < f.len()
        invariant
            i <= f@.len(),
            big_val(acc@) == big_val(a@) * prod(f@.take(i as int)),
        decreases f@.len() - i,
    {
        let ghost before = big_val(acc@);
        acc = big_mul(&acc, f[i]);
        proof {
            assert(f@.take(i + 1).drop_last() =~= f@.take(i as int));
            assert(f@.take(i + 1).last() == f@[i as int]);
            let pa = prod(f@.take(i as int));
            assert(big_val(a@) * pa * f@[i as int] == big_val(a@) * (pa * f@[i as int])) by (nonlinear_arith);
        }
        i += 1;
    }
    assert(f@.take(f@.len() as int) =~= f@);
    acc
}

/// `sum_prods(terms) * prod(extra)`.
pub fn big_sum_prods(terms: &Vec<Vec<u64>>, extra: &Vec<u64>) -> (r: Vec<u32>)
    ensures
        big_val(r@) == sum_prods(terms_view(terms@)) * prod(extra@),
{
    let ghost tv = terms_view(terms@);
    let mut acc = big_from(0);
    let one = big_from(1);
    let mut i: usize = 0;
    assert(tv.take(0) =~= Seq::<Seq<u64>>::empty());
    assert(sum_prods(tv.take(0)) == 0);
    assert(0 * prod(extra@) == 0) by (nonlinear_arith);
    while i < terms.len()
        invariant
            i <= terms@.len(),
            tv == terms_view(terms@),
            big_val(one@) == 1,
            big_val(acc@) == sum_prods(tv.take(i as int)) * prod(extra@),
        decreases terms@.len() - i,
    {
        let p1 = big_mul_all(&one, &terms[i]);
        let p2 = big_mul_all(&p1, extra);
        acc = big_add(&acc, &p2);
        proof {
            assert(tv.take(i + 1).drop_last() =~= tv.take(i as int));
            assert(tv.take(i + 1).last() == terms@[i as int]@);
            let s = sum_prods(tv.take(i as int));
            let q = prod(terms@[i as int]@);
            let e = prod(extra@);
            assert(s * e + q * e == (s + q) * e) by (nonlinear_arith);
        }
        i += 1;
    }
    assert(tv.take(terms@.len() as int) =~= tv);
    acc
}

} // verus!
