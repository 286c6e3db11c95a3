use vstd::prelude::*;
use vstd::arithmetic::div_mod::{lemma_add_mod_noop, lemma_mod_bound, lemma_mod_twice, lemma_small_mod};

use crate::fields::data_field::{from_byte_vec, field_vec_to_byte_vec, spec_field_vec_to_byte_vec, spec_from_byte_vec, DataField};
use crate::fields::writable_ft63::{field_pow, lemma_mont_value_bound, p};
pub use crate::fields::writable_ft63::WriteableFt63;
pub use crate::fields::random_byte_iterator::RandomBytesIterator;
pub use crate::fields::field_generator_iter::FieldGeneratorIter;
use crate::fields::random_byte_iterator::{fill_random_bytes, thread_rng};
use crate::fields::data_field::num_chunks;
use vstd::arithmetic::power2::pow2;

pub mod byte_math;
pub mod data_field;
pub mod field_generator_iter;
pub mod ft253_192;
pub mod random_byte_iterator;
pub mod writable_ft63;

verus! {

/// Errors raised when building field elements from raw limbs.
#[derive(Debug, PartialEq, Eq, Structural)]
pub enum FieldErr {
    InvalidFieldElement,
}

/// The field values of a sequence of elements.
pub open spec fn field_values(fs: Seq<WriteableFt63>) -> Seq<nat> {
    fs.map_values(|f: WriteableFt63| f.value())
}

/// `sum_i c_i * x^(i + k)` in the field: the polynomial with coefficients `c`
/// (constant term first) evaluated at `x` with every degree raised by `k`.
pub open spec fn poly_eval_shifted(c: Seq<nat>, x: nat, k: nat) -> nat
    decreases c.len(),
{
    if c.len() == 0 {
        0
    } else {
        (poly_eval_shifted(c.drop_last(), x, k) + c.last() * field_pow(x, (c.len() - 1 + k) as nat))
            % p()
    }
}

/// `sum_i c_i * x^i` in the field.
pub open spec fn poly_eval(c: Seq<nat>, x: nat) -> nat {
    poly_eval_shifted(c, x, 0)
}

/// `sum_{i < n} a_i * b_i` in the field.
pub open spec fn dot_prefix(a: Seq<nat>, b: Seq<nat>, n: nat) -> nat
    decreases n,
{
    if n == 0 {
        0
    } else {
        (dot_prefix(a, b, (n - 1) as nat) + a[n - 1] * b[n - 1]) % p()
    }
}

/// The inner product of `a` and `b` over their common length.
pub open spec fn dot(a: Seq<nat>, b: Seq<nat>) -> nat {
    dot_prefix(a, b, if a.len() < b.len() { a.len() } else { b.len() })
}

/// An evaluation is a field value.
pub proof fn lemma_poly_eval_shifted_bound(c: Seq<nat>, x: nat, k: nat)
    ensures
        poly_eval_shifted(c, x, k) < p(),
{
    if c.len() > 0 {
        lemma_mod_bound(
            (poly_eval_shifted(c.drop_last(), x, k) + c.last() * field_pow(x, (c.len() - 1 + k) as nat)) as int,
            p() as int,
        );
    }
}

proof fn lemma_mod_regroup(a: int, b: int, t: int, m: int)
    requires
        m > 0,
        0 <= a < m,
    ensures
        ((a + b) % m + t) % m == (a + (b + t) % m) % m,
{
    vstd::arithmetic::div_mod::lemma_add_mod_noop_right(t, a + b, m);
    vstd::arithmetic::div_mod::lemma_add_mod_noop_right(a, b + t, m);
    assert(t + (a + b) == a + (b + t));
    assert((a + b) % m + t == t + (a + b) % m);
}

/// Evaluating a concatenation: the second part's degrees start where the first
/// part ends.
pub proof fn lemma_poly_eval_append(c: Seq<nat>, d: Seq<nat>, x: nat, k: nat)
    ensures
        poly_eval_shifted(c + d, x, k) == (poly_eval_shifted(c, x, k) + poly_eval_shifted(
            d,
            x,
            k + c.len(),
        )) % p(),
    decreases d.len(),
{
    lemma_poly_eval_shifted_bound(c, x, k);
    if d.len() == 0 {
        assert(c + d =~= c);
        lemma_small_mod(poly_eval_shifted(c, x, k), p());
    } else {
        lemma_poly_eval_append(c, d.drop_last(), x, k);
        assert((c + d).drop_last() =~= c + d.drop_last());
        let a = poly_eval_shifted(c, x, k) as int;
        let b = poly_eval_shifted(d.drop_last(), x, k + c.len()) as int;
        let t = (d.last() * field_pow(x, (d.len() - 1 + k + c.len()) as nat)) as int;
        assert((c + d).len() - 1 + k == d.len() - 1 + k + c.len());
        assert((c + d).last() == d.last());
        lemma_mod_regroup(a, b, t, p() as int);
    }
}

/// Zero coefficients contribute nothing.
pub proof fn lemma_poly_eval_zeros(n: nat, x: nat, k: nat)
    ensures
        poly_eval_shifted(Seq::new(n, |i: int| 0nat), x, k) == 0,
    decreases n,
{
    if n > 0 {
        lemma_poly_eval_zeros((n - 1) as nat, x, k);
        let z = Seq::new(n, |i: int| 0nat);
        assert(z.drop_last() =~= Seq::new((n - 1) as nat, |i: int| 0nat));
        assert(z.last() == 0);
        assert(z.last() * field_pow(x, (z.len() - 1 + k) as nat) == 0);
        lemma_small_mod(0, p());
        assert(poly_eval_shifted(z, x, k) == (poly_eval_shifted(z.drop_last(), x, k) + z.last()
            * field_pow(x, (z.len() - 1 + k) as nat)) % p());
    }
}

/// Evaluating coefficients behind `k` zero coefficients is evaluating them with every
/// degree raised by `k`.
pub proof fn lemma_poly_eval_zero_prefix(c: Seq<nat>, x: nat, k: nat)
    ensures
        poly_eval(Seq::new(k, |i: int| 0nat) + c, x) == poly_eval_shifted(c, x, k),
{
    let z = Seq::new(k, |i: int| 0nat);
    lemma_poly_eval_append(z, c, x, 0);
    lemma_poly_eval_zeros(k, x, 0);
    lemma_poly_eval_shifted_bound(c, x, k);
    lemma_small_mod(poly_eval_shifted(c, x, k), p());
}

/// Note that the polynomial is evaluated little-endian style: the coefficients are
/// `[c_0, c_1, ..., c_d]` where `c_i` is the coefficient of `x^i`.
pub fn evaluate_field_polynomial_at_point(
    field_elements: &Vec<WriteableFt63>,
    point: &WriteableFt63,
) -> (r: WriteableFt63)
    ensures
        r.value() == poly_eval(field_values(field_elements@), point.value()),
        r.canonical(),
{
    evaluate_field_polynomial_at_point_with_elevated_degree(field_elements.as_slice(), point, 0)
}

/// Evaluates the polynomial as if it started at degree `degree_offset`: `([1, 2, 3], x, 3)`
/// gives `x^3 + 2x^4 + 3x^5`.
pub fn evaluate_field_polynomial_at_point_with_elevated_degree(
    field_elements: &[WriteableFt63],
    point: &WriteableFt63,
    degree_offset: u64,
) -> (r: WriteableFt63)
    ensures
        r.value() == poly_eval_shifted(
            field_values(field_elements@),
            point.value(),
            degree_offset as nat,
        ),
        r.canonical(),
{
    let mut result = WriteableFt63::zero();
    let mut current_power = point.pow(degree_offset);
    let ghost x = point.value();
    let ghost k = degree_offset as nat;
    let mut i: usize = 0;
    proof {
        assert(field_values(field_elements@.subrange(0, 0)) =~= Seq::<nat>::empty());
    }
    while i < field_elements.len()
        invariant
            i <= field_elements@.len(),
            x == point.value(),
            k == degree_offset as nat,
            result.value() == poly_eval_shifted(field_values(field_elements@.subrange(0, i as int)), x, k),
            result.canonical(),
            current_power.value() == field_pow(x, (i + k) as nat),
        decreases field_elements.len() - i,
    {
        let term = field_elements[i].mul(&current_power);
        let ghost prev = field_values(field_elements@.subrange(0, i as int));
        let ghost next = field_values(field_elements@.subrange(0, i + 1));
        proof {
            assert(next.drop_last() =~= prev);
            assert(next.last() == field_elements@[i as int].value());
            lemma_poly_eval_shifted_bound(prev, x, k);
            lemma_add_mod_noop(
                result.value() as int,
                (field_elements@[i as int].value() * current_power.value()) as int,
                p() as int,
            );
            lemma_mod_twice(
                (field_elements@[i as int].value() * current_power.value()) as int,
                p() as int,
            );
            lemma_small_mod(result.value(), p());
            lemma_add_mod_noop(result.value() as int, term.value() as int, p() as int);
        }
        result = result.add(&term);
        proof {
            assert(field_pow(x, (i + 1 + k) as nat) == (x * field_pow(x, (i + k) as nat)) % p());
            assert(current_power.value() * x == x * current_power.value()) by (nonlinear_arith);
        }
        current_power = current_power.mul(point);
        i = i + 1;
    }
    proof {
        assert(field_elements@.subrange(0, field_elements@.len() as int) =~= field_elements@);
    }
    result
}

/// The inner product of two vectors of field elements, over their common length.
pub fn vector_multiply(a: &[WriteableFt63], b: &[WriteableFt63]) -> (r: WriteableFt63)
    ensures
        r.value() == dot(field_values(a@), field_values(b@)),
        r.canonical(),
{
    let n = if a.len() < b.len() {
        a.len()
    } else {
        b.len()
    };
    let mut acc = WriteableFt63::zero();
    let mut i: usize = 0;
    while i < n
        invariant
            i <= n,
            n <= a@.len(),
            n <= b@.len(),
            n == (if a@.len() < b@.len() { a@.len() } else { b@.len() }),
            acc.value() == dot_prefix(field_values(a@), field_values(b@), i as nat),
            acc.canonical(),
        decreases n - i,
    {
        let term = a[i].mul(&b[i]);
        proof {
            let pv = dot_prefix(field_values(a@), field_values(b@), i as nat);
            lemma_mod_bound(pv as int, p() as int);
            lemma_add_mod_noop(acc.value() as int, (a@[i as int].value() * b@[i as int].value()) as int, p() as int);
            lemma_mod_twice((a@[i as int].value() * b@[i as int].value()) as int, p() as int);
            lemma_small_mod(acc.value(), p());
            lemma_add_mod_noop(acc.value() as int, term.value() as int, p() as int);
            if i > 0 {
                lemma_mod_bound(
                    (dot_prefix(field_values(a@), field_values(b@), (i - 1) as nat) + field_values(a@)[i - 1]
                        * field_values(b@)[i - 1]) as int,
                    p() as int,
                );
            }
        }
        acc = acc.add(&term);
        i = i + 1;
    }
    acc
}

/// Whether `x` is a power of two.
pub open spec fn spec_is_power_of_two(x: nat) -> bool
    decreases x,
{
    if x == 1 {
        true
    } else if x == 0 || x % 2 == 1 {
        false
    } else {
        spec_is_power_of_two(x / 2)
    }
}

/// Whether `x` is a power of two (zero is not).
pub fn is_power_of_two(x: usize) -> (r: bool)
    requires
        x > 0,
    ensures
        r == spec_is_power_of_two(x as nat),
{
    let mut v = x;
    while v > 1 && v % 2 == 0
        invariant
            v > 0,
            spec_is_power_of_two(v as nat) == spec_is_power_of_two(x as nat),
        decreases v,
    {
        v = v / 2;
    }
    v == 1
}

/// Converts bytes into the field elements that carry them (the last one zero-padded).
pub fn convert_byte_vec_to_field_elements_vec<F: DataField>(byte_vec: &[u8]) -> (r: Vec<F>)
    ensures
        r@ == spec_from_byte_vec::<F>(byte_vec@),
{
    from_byte_vec(byte_vec)
}

/// The data bytes the elements carry, cut to `expected_length` when they are longer.
pub fn convert_field_elements_vec_to_byte_vec<F: DataField>(
    field_elements: &[F],
    expected_length: usize,
) -> (r: Vec<u8>)
    ensures
        r@ == (if expected_length < spec_field_vec_to_byte_vec(field_elements@).len() {
            spec_field_vec_to_byte_vec(field_elements@).subrange(0, expected_length as int)
        } else {
            spec_field_vec_to_byte_vec(field_elements@)
        }),
{
    let mut bytes = field_vec_to_byte_vec(field_elements);
    bytes.truncate(expected_length);
    bytes
}

/// `2^log_len` field elements carrying random data.  The byte count
/// `capacity * 2^log_len` is computed in 32 bits, so it must fit there.
pub fn random_writeable_field_vec<F: DataField>(log_len: usize) -> (r: Vec<F>)
    requires
        log_len < 32,
        F::spec_data_byte_capacity() * pow2(log_len as nat) <= u32::MAX,
    ensures
        r@.len() == pow2(log_len as nat),
{
    let cap = F::data_byte_capacity();
    let mut count: usize = 1;
    let mut i: usize = 0;
    proof {
        vstd::arithmetic::power2::lemma2_to64();
    }
    while i < log_len
        invariant
            i <= log_len,
            log_len < 32,
            count as nat == pow2(i as nat),
        decreases log_len - i,
    {
        proof {
            vstd::arithmetic::power2::lemma_pow2_unfold((i + 1) as nat);
            vstd::arithmetic::power2::lemma_pow2_strictly_increases((i + 1) as nat, 32);
            vstd::arithmetic::power2::lemma2_to64();
        }
        count = count * 2;
        i = i + 1;
    }
    proof {
        assert(cap * count <= u32::MAX);
    }
    let read_in_bytes = cap * count;
    let mut bytes: Vec<u8> = Vec::new();
    let mut j: usize = 0;
    while j < read_in_bytes
        invariant
            j <= read_in_bytes,
            bytes@.len() == j,
        decreases read_in_bytes - j,
    {
        bytes.push(0u8);
        j = j + 1;
    }
    let mut rng = thread_rng();
    fill_random_bytes(&mut rng, &mut bytes);
    proof {
        vstd::arithmetic::div_mod::lemma_mod_multiples_basic(count as int, cap as int);
        vstd::arithmetic::div_mod::lemma_div_multiples_vanish(count as int, cap as int);
        assert(cap * count == count * cap) by (nonlinear_arith);
        assert(num_chunks((cap * count) as nat, cap as nat) == count);
    }
    from_byte_vec(bytes.as_slice())
}

/// `s` without its trailing zero bytes.
pub open spec fn strip_trailing_zeros(s: Seq<u8>) -> Seq<u8>
    decreases s.len(),
{
    if s.len() > 0 && s.last() == 0 {
        strip_trailing_zeros(s.drop_last())
    } else {
        s
    }
}

/// The bytes that a file holding `field_elements` consists of: the data bytes of each
/// element, with the zero padding at the end of the last element dropped.
pub fn field_elements_vec_to_file_bytes<F: DataField>(field_elements: &Vec<F>) -> (r: Vec<u8>)
    ensures
        field_elements@.len() == 0 ==> r@.len() == 0,
        field_elements@.len() > 0 ==> r@ == spec_field_vec_to_byte_vec(field_elements@.drop_last())
            + strip_trailing_zeros(field_elements@.last().spec_data_bytes()),
{
    let n = field_elements.len();
    if n == 0 {
        return Vec::new();
    }
    let cap = F::data_byte_capacity();
    let mut out = field_vec_to_byte_vec(field_elements.as_slice());
    let mut last = field_elements[n - 1].to_data_bytes();
    proof {
        crate::fields::data_field::lemma_field_vec_bytes_len(field_elements@.drop_last());
        F::lemma_data_bytes_len(field_elements@.last());
        assert((n - 1) * cap <= n * cap) by (nonlinear_arith);
        crate::fields::data_field::lemma_field_vec_bytes_len(field_elements@);
    }
    let total = out.len();
    proof {
        assert(n * cap == (n - 1) * cap + cap) by (nonlinear_arith)
            requires
                n >= 1,
        ;
    }
    out.truncate(total - cap);
    proof {
        assert(out@ =~= spec_field_vec_to_byte_vec(field_elements@.drop_last()));
    }
    while last.len() > 0 && last[last.len() - 1] == 0
        invariant
            n == field_elements@.len(),
            n > 0,
            strip_trailing_zeros(last@) == strip_trailing_zeros(field_elements@.last().spec_data_bytes()),
        decreases last.len(),
    {
        last.pop();
    }
    out.append(&mut last);
    out
}

proof fn lemma_strip_zero_tail(s: Seq<u8>, k: nat)
    requires
        s.len() > 0,
        s.last() != 0u8,
    ensures
        strip_trailing_zeros(s + Seq::new(k, |i: int| 0u8)) == s,
    decreases k,
{
    let t = s + Seq::new(k, |i: int| 0u8);
    if k == 0 {
        assert(t =~= s);
    } else {
        assert(t.drop_last() =~= s + Seq::new((k - 1) as nat, |i: int| 0u8));
        lemma_strip_zero_tail(s, (k - 1) as nat);
    }
}

/// Bytes that end in a non-zero byte, packed into elements and written out as a file's
/// bytes (the last element's zero padding dropped), come back unchanged.
pub proof fn lemma_file_bytes_roundtrip<F: DataField>(c: Seq<u8>)
    requires
        c.len() > 0,
        c.last() != 0u8,
    ensures
        spec_from_byte_vec::<F>(c).len() > 0,
        spec_field_vec_to_byte_vec(spec_from_byte_vec::<F>(c).drop_last()) + strip_trailing_zeros(
            spec_from_byte_vec::<F>(c).last().spec_data_bytes(),
        ) == c,
{
    let cap = F::spec_data_byte_capacity();
    F::lemma_capacity_positive();
    let fs = spec_from_byte_vec::<F>(c);
    let n = fs.len();
    let len = c.len();
    crate::fields::data_field::lemma_num_chunks_cover(len, cap);
    vstd::arithmetic::div_mod::lemma_fundamental_div_mod(len as int, cap as int);
    lemma_mod_bound(len as int, cap as int);
    assert(n >= 1 && (n - 1) * cap < len) by (nonlinear_arith)
        requires
            n == num_chunks(len, cap),
            len > 0,
            cap > 0,
            len == cap * (len / cap) + len % cap,
            0 <= len % cap < cap,
            num_chunks(len, cap) == (if len % cap == 0 { len / cap } else { len / cap + 1 }),
    ;
    let m = ((n - 1) * cap) as nat;
    let bytes = spec_field_vec_to_byte_vec(fs);
    crate::fields::data_field::lemma_byte_vec_roundtrip::<F>(c);
    crate::fields::data_field::lemma_field_vec_bytes_len(fs.drop_last());
    F::lemma_data_bytes_len(fs.last());
    let b1 = spec_field_vec_to_byte_vec(fs.drop_last());
    let last = fs.last().spec_data_bytes();
    assert(bytes == b1 + last);
    assert(b1.len() == m);
    assert(b1 =~= c.subrange(0, m as int)) by {
        assert forall|j: int| 0 <= j < m implies b1[j] == c[j] by {
            assert(bytes[j] == b1[j]);
            assert(bytes.subrange(0, len as int)[j] == c[j]);
        }
    }
    let tail = c.subrange(m as int, len as int);
    let pad = (m + cap - len) as nat;
    assert(last =~= tail + Seq::new(pad, |i: int| 0u8)) by {
        assert forall|t: int| 0 <= t < cap implies last[t] == (tail + Seq::new(pad, |i: int| 0u8))[t] by {
            assert(bytes[m + t] == last[t]);
            if m + t < len {
                assert(bytes.subrange(0, len as int)[m + t] == c[m + t]);
            }
        }
    }
    assert(tail.last() == c.last());
    lemma_strip_zero_tail(tail, pad);
    assert(b1 + tail =~= c);
}

} // verus!
