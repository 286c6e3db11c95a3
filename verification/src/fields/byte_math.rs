use vstd::prelude::*;

verus! {

/// 256 to the power `n`.
pub open spec fn pow256(n: nat) -> nat
    decreases n,
{
    if n == 0 {
        1
    } else {
        256 * pow256((n - 1) as nat)
    }
}

/// The number whose little-endian base-256 digits are `s`.
pub open spec fn le_to_nat(s: Seq<u8>) -> nat
    decreases s.len(),
{
    if s.len() == 0 {
        0
    } else {
        s[0] as nat + 256 * le_to_nat(s.drop_first())
    }
}

/// The number whose big-endian base-256 digits are `s`.
pub open spec fn be_to_nat(s: Seq<u8>) -> nat
    decreases s.len(),
{
    if s.len() == 0 {
        0
    } else {
        be_to_nat(s.drop_last()) * 256 + s.last() as nat
    }
}

/// The `k` lowest little-endian base-256 digits of `n`.
pub open spec fn nat_to_le(n: nat, k: nat) -> Seq<u8> {
    Seq::new(k, |i: int| ((n / pow256(i as nat)) % 256) as u8)
}

/// The `k` lowest base-256 digits of `n`, most significant first.
pub open spec fn nat_to_be(n: nat, k: nat) -> Seq<u8> {
    Seq::new(k, |i: int| ((n / pow256((k - 1 - i) as nat)) % 256) as u8)
}

pub proof fn lemma_pow256_pos(n: nat)
    ensures
        pow256(n) >= 1,
    decreases n,
{
    if n > 0 {
        lemma_pow256_pos((n - 1) as nat);
    }
}

pub proof fn lemma_pow256_values()
    ensures
        pow256(7) == 0x100000000000000,
        pow256(8) == 0x10000000000000000,
{
    reveal_with_fuel(pow256, 9);
}

/// Zero bytes stand for zero.
pub proof fn lemma_le_to_nat_zeros(k: nat)
    ensures
        le_to_nat(Seq::new(k, |i: int| 0u8)) == 0,
    decreases k,
{
    if k > 0 {
        lemma_le_to_nat_zeros((k - 1) as nat);
        assert(Seq::new(k, |i: int| 0u8).drop_first() =~= Seq::new((k - 1) as nat, |i: int| 0u8));
    }
}

pub proof fn lemma_le_to_nat_bound(s: Seq<u8>)
    ensures
        le_to_nat(s) < pow256(s.len()),
    decreases s.len(),
{
    if s.len() > 0 {
        lemma_le_to_nat_bound(s.drop_first());
    }
}

/// A leading zero digit does not change a big-endian number.
pub proof fn lemma_be_to_nat_leading_zero(s: Seq<u8>)
    requires
        s.len() >= 1,
        s[0] == 0u8,
    ensures
        be_to_nat(s) == be_to_nat(s.drop_first()),
    decreases s.len(),
{
    if s.len() == 1 {
        assert(s.drop_last() =~= Seq::<u8>::empty());
        assert(s.drop_first() =~= Seq::<u8>::empty());
    } else {
        lemma_be_to_nat_leading_zero(s.drop_last());
        assert(s.drop_last().drop_first() =~= s.drop_first().drop_last());
        assert(s.drop_first().last() == s.last());
    }
}

pub proof fn lemma_be_to_nat_bound(s: Seq<u8>)
    ensures
        be_to_nat(s) < pow256(s.len()),
    decreases s.len(),
{
    if s.len() > 0 {
        lemma_be_to_nat_bound(s.drop_last());
        assert(be_to_nat(s.drop_last()) * 256 + (s.last() as nat) < pow256(s.len())) by (nonlinear_arith)
            requires
                be_to_nat(s.drop_last()) + 1 <= pow256((s.len() - 1) as nat),
                pow256(s.len()) == 256 * pow256((s.len() - 1) as nat),
                s.last() < 256,
        ;
    }
}

proof fn lemma_div_256_step(n: nat, i: nat)
    ensures
        (n / 256) / pow256(i) == n / pow256(i + 1),
{
    lemma_pow256_pos(i);
    vstd::arithmetic::div_mod::lemma_div_denominator(n as int, 256, pow256(i) as int);
}

/// Reading back the digits of `n` gives `n` reduced modulo `256^k`.
pub proof fn lemma_le_of_nat_to_le(n: nat, k: nat)
    ensures
        le_to_nat(nat_to_le(n, k)) == n % pow256(k),
    decreases k,
{
    let s = nat_to_le(n, k);
    if k == 0 {
        assert(n % 1 == 0);
    } else {
        let t = nat_to_le(n / 256, (k - 1) as nat);
        assert forall|i: int| 0 <= i < k - 1 implies s.drop_first()[i] == t[i] by {
            lemma_div_256_step(n, i as nat);
        }
        assert(s.drop_first() =~= t);
        lemma_le_of_nat_to_le(n / 256, (k - 1) as nat);
        assert(pow256(0) == 1);
        assert(n / 1 == n);
        assert(s[0] == (n % 256) as u8);
        lemma_pow256_pos((k - 1) as nat);
        vstd::arithmetic::div_mod::lemma_breakdown(n as int, 256, pow256((k - 1) as nat) as int);
    }
}

/// The digits of a number read from little-endian digits are those digits.
pub proof fn lemma_nat_to_le_of_le(s: Seq<u8>)
    ensures
        nat_to_le(le_to_nat(s), s.len()) == s,
    decreases s.len(),
{
    if s.len() > 0 {
        let t = s.drop_first();
        lemma_nat_to_le_of_le(t);
        let n = le_to_nat(s);
        let l = le_to_nat(t);
        assert(n == s[0] as nat + 256 * l);
        assert(n / 256 == l) by (nonlinear_arith)
            requires
                n == s[0] as nat + 256 * l,
                s[0] < 256,
        ;
        assert(n % 256 == s[0]) by (nonlinear_arith)
            requires
                n == s[0] as nat + 256 * l,
                s[0] < 256,
        ;
        assert(pow256(0) == 1);
        assert(n / 1 == n);
        assert forall|i: int| 0 <= i < s.len() implies nat_to_le(n, s.len())[i] == s[i] by {
            if i > 0 {
                lemma_div_256_step(n, (i - 1) as nat);
                assert(nat_to_le(l, t.len())[i - 1] == t[i - 1]);
            }
        }
        assert(nat_to_le(n, s.len()) =~= s);
    }
}


proof fn lemma_pow256_step(i: nat)
    ensures
        pow256(i + 1) == pow256(i) * 256,
{
}

proof fn lemma_div_pow256_step(x: nat, i: nat)
    ensures
        (x / pow256(i)) / 256 == x / pow256(i + 1),
{
    lemma_pow256_pos(i);
    vstd::arithmetic::div_mod::lemma_div_denominator(x as int, pow256(i) as int, 256);
    lemma_pow256_step(i);
}

proof fn lemma_pow256_monotone(i: nat, j: nat)
    requires
        i <= j,
    ensures
        pow256(i) <= pow256(j),
    decreases j,
{
    if i < j {
        lemma_pow256_monotone(i, (j - 1) as nat);
    }
}

/// The `k` low little-endian bytes of `x`.
pub fn u64_to_le_bytes(x: u64, k: usize) -> (r: Vec<u8>)
    requires
        k <= 8,
    ensures
        r@ == nat_to_le(x as nat, k as nat),
{
    let mut r: Vec<u8> = Vec::new();
    let mut v = x;
    let mut i: usize = 0;
    proof {
        assert(pow256(0) == 1);
        assert(x as nat / 1 == x as nat);
    }
    while i < k
        invariant
            i <= k,
            k <= 8,
            v as nat == x as nat / pow256(i as nat),
            r@ =~= nat_to_le(x as nat, i as nat),
        decreases k - i,
    {
        r.push((v % 256) as u8);
        proof {
            lemma_div_pow256_step(x as nat, i as nat);
            assert(r@ =~= nat_to_le(x as nat, (i + 1) as nat));
        }
        v = v / 256;
        i = i + 1;
    }
    r
}

/// The number whose little-endian bytes are `b`.
pub fn le_bytes_to_u64(b: &[u8]) -> (r: u64)
    requires
        b@.len() <= 8,
    ensures
        r as nat == le_to_nat(b@),
{
    let n = b.len();
    let mut acc: u64 = 0;
    let mut i: usize = n;
    proof {
        assert(b@.subrange(n as int, n as int) =~= Seq::<u8>::empty());
    }
    while i > 0
        invariant
            i <= n,
            n == b@.len(),
            n <= 8,
            acc as nat == le_to_nat(b@.subrange(i as int, n as int)),
        decreases i,
    {
        let ghost tail = b@.subrange(i as int, n as int);
        let ghost ext = b@.subrange(i - 1, n as int);
        proof {
            assert(ext.drop_first() =~= tail);
            lemma_le_to_nat_bound(tail);
            lemma_pow256_monotone(tail.len(), 7);
            lemma_pow256_values();
        }
        acc = acc * 256 + b[i - 1] as u64;
        i = i - 1;
    }
    proof {
        assert(b@.subrange(0, n as int) =~= b@);
    }
    acc
}

/// A big-endian reading is the little-endian reading of the reversed digits.
pub proof fn lemma_be_is_reversed_le(s: Seq<u8>)
    ensures
        be_to_nat(s) == le_to_nat(s.reverse()),
    decreases s.len(),
{
    if s.len() > 0 {
        lemma_be_is_reversed_le(s.drop_last());
        assert(s.reverse().drop_first() =~= s.drop_last().reverse());
    }
}

/// Big-endian digits are the reversed little-endian digits.
pub proof fn lemma_be_digits_reversed(n: nat, k: nat)
    ensures
        nat_to_be(n, k) == nat_to_le(n, k).reverse(),
{
    assert(nat_to_be(n, k) =~= nat_to_le(n, k).reverse());
}

/// The big-endian digits of a number read from big-endian digits are those digits.
pub proof fn lemma_nat_to_be_of_be(s: Seq<u8>)
    ensures
        nat_to_be(be_to_nat(s), s.len()) == s,
{
    lemma_be_is_reversed_le(s);
    lemma_nat_to_le_of_le(s.reverse());
    lemma_be_digits_reversed(be_to_nat(s), s.len());
    assert(s.reverse().reverse() =~= s);
}

/// The 8 big-endian bytes of `x`.
pub fn u64_to_be_bytes(x: u64) -> (r: Vec<u8>)
    ensures
        r@ == nat_to_be(x as nat, 8),
{
    let le = u64_to_le_bytes(x, 8);
    let mut r: Vec<u8> = Vec::new();
    let mut i: usize = 8;
    while i > 0
        invariant
            i <= 8,
            le@ == nat_to_le(x as nat, 8),
            r@ =~= le@.subrange(i as int, 8).reverse(),
        decreases i,
    {
        r.push(le[i - 1]);
        i = i - 1;
        proof {
            assert(r@ =~= le@.subrange(i as int, 8).reverse());
        }
    }
    proof {
        assert(le@.subrange(0, 8) =~= le@);
        lemma_be_digits_reversed(x as nat, 8);
    }
    r
}

/// The number whose big-endian bytes are `b`.
pub fn be_bytes_to_u64(b: &[u8]) -> (r: u64)
    requires
        b@.len() == 8,
    ensures
        r as nat == be_to_nat(b@),
{
    let mut rev: Vec<u8> = Vec::new();
    let mut i: usize = 8;
    while i > 0
        invariant
            i <= 8,
            b@.len() == 8,
            rev@ =~= b@.subrange(i as int, 8).reverse(),
        decreases i,
    {
        rev.push(b[i - 1]);
        i = i - 1;
        proof {
            assert(rev@ =~= b@.subrange(i as int, 8).reverse());
        }
    }
    proof {
        assert(b@.subrange(0, 8) =~= b@);
        lemma_be_is_reversed_le(b@);
    }
    le_bytes_to_u64(rev.as_slice())
}

/// The number whose big-endian bytes are `b[off..off + 8]`.
pub fn be_bytes_to_u64_at(b: &[u8], off: usize) -> (r: u64)
    requires
        off + 8 <= b@.len(),
    ensures
        r as nat == be_to_nat(b@.subrange(off as int, off + 8)),
{
    let mut acc: u64 = 0;
    let mut t: usize = 0;
    let n = b.len();
    proof {
        assert(b@.subrange(off as int, off as int) =~= Seq::<u8>::empty());
    }
    while t < 8
        invariant
            t <= 8,
            n == b@.len(),
            off + 8 <= b@.len(),
            acc as nat == be_to_nat(b@.subrange(off as int, off + t)),
        decreases 8 - t,
    {
        let ghost pre = b@.subrange(off as int, off + t);
        let ghost ext = b@.subrange(off as int, off + t + 1);
        proof {
            assert(ext.drop_last() =~= pre);
            lemma_be_to_nat_bound(pre);
            lemma_pow256_monotone(pre.len(), 7);
            lemma_pow256_values();
        }
        acc = acc * 256 + b[off + t] as u64;
        t = t + 1;
    }
    acc
}

} // verus!
