use vstd::prelude::*;

verus! {

/// Byte order in which data bytes are laid into a field element.
#[derive(Debug, Clone, Copy, PartialEq, Eq, Structural)]
pub enum ByteOrder {
    BigEndian,
    LittleEndian,
}

/// A prime field whose elements can carry a fixed number of data bytes without loss.
///
/// Implementors say how `data_byte_capacity()` bytes are stored into an element and
/// taken back out; taking them back out must give the bytes that were stored.
pub trait DataField: Sized + Copy {
    /// Number of data bytes an element carries.
    spec fn spec_data_byte_capacity() -> nat;

    /// The data bytes an element carries.
    spec fn spec_data_bytes(self) -> Seq<u8>;

    /// The element that carries the data bytes `b`.
    spec fn spec_from_data_bytes(b: Seq<u8>) -> Self;

    /// Number of data bytes an element carries.
    fn data_byte_capacity() -> (r: usize)
        ensures
            r as nat == Self::spec_data_byte_capacity(),
            r > 0,
    ;

    /// Number of bytes of the in-memory representation of an element.
    fn written_bytes_width() -> (r: usize)
        ensures
            r as nat == Self::spec_written_bytes_width(),
            r > Self::spec_data_byte_capacity(),
    ;

    /// Number of bytes of the in-memory representation of an element.
    spec fn spec_written_bytes_width() -> nat;

    /// The representation is wider than the data an element carries.
    proof fn lemma_width_positive()
        ensures
            Self::spec_written_bytes_width() > Self::spec_data_byte_capacity(),
    ;

    /// Byte order in which the data bytes are laid into an element's limbs.
    spec fn spec_endianness() -> ByteOrder;

    /// Byte order in which the data bytes are laid into an element's limbs.
    fn endianness() -> (r: ByteOrder)
        ensures
            r == Self::spec_endianness(),
    ;

    /// Whether the declared sizes are consistent: the data capacity is the bit
    /// capacity of the field divided by 8, and smaller than the element width.
    fn test_type_sizes_are_correct() -> (r: bool)
        ensures
            r,
    ;

    /// Stores `buf` into an element.
    fn from_data_bytes(buf: &[u8]) -> (r: Self)
        requires
            buf@.len() == Self::spec_data_byte_capacity(),
        ensures
            r == Self::spec_from_data_bytes(buf@),
    ;

    /// Takes the data bytes back out of an element.
    fn to_data_bytes(&self) -> (r: Vec<u8>)
        ensures
            r@ == self.spec_data_bytes(),
    ;

    /// An element always carries exactly the capacity in data bytes.
    proof fn lemma_data_bytes_len(x: Self)
        ensures
            x.spec_data_bytes().len() == Self::spec_data_byte_capacity(),
    ;

    /// Elements carry at least one data byte.
    proof fn lemma_capacity_positive()
        ensures
            Self::spec_data_byte_capacity() > 0,
    ;

    /// Stored data bytes come back out unchanged.
    proof fn lemma_data_bytes_roundtrip(b: Seq<u8>)
        requires
            b.len() == Self::spec_data_byte_capacity(),
        ensures
            Self::spec_from_data_bytes(b).spec_data_bytes() == b,
    ;
}

pub proof fn lemma_num_chunks_step(k: nat, cap: nat, take: nat)
    requires
        cap > 0,
        0 < take <= cap,
    ensures
        num_chunks(k * cap + take, cap) == k + 1,
{
    let n = (k * cap + take) as int;
    if take < cap {
        vstd::arithmetic::div_mod::lemma_fundamental_div_mod_converse(n, cap as int, k as int, take as int);
    } else {
        assert(n == cap * (k + 1)) by (nonlinear_arith)
            requires
                n == k * cap + take,
                take == cap,
        ;
        vstd::arithmetic::div_mod::lemma_fundamental_div_mod_converse(n, cap as int, (k + 1) as int, 0);
    }
}

/// Enough chunks are taken to hold all the bytes.
pub proof fn lemma_num_chunks_cover(len: nat, cap: nat)
    requires
        cap > 0,
    ensures
        num_chunks(len, cap) * cap >= len,
{
    let q = len / cap;
    let r = len % cap;
    vstd::arithmetic::div_mod::lemma_fundamental_div_mod(len as int, cap as int);
    assert(num_chunks(len, cap) * cap >= len) by (nonlinear_arith)
        requires
            len == cap * q + r,
            r < cap,
            num_chunks(len, cap) == (if r == 0 { q } else { q + 1 }),
    ;
}

/// Converts arbitrarily long byte vectors into the corresponding number of field
/// elements, zero-padding the last element when the number of bytes is not a multiple
/// of the capacity.
pub fn from_byte_vec<F: DataField>(vec: &[u8]) -> (r: Vec<F>)
    ensures
        r@ == spec_from_byte_vec::<F>(vec@),
{
    let cap = F::data_byte_capacity();
    let n = vec.len();
    let mut out: Vec<F> = Vec::new();
    let mut start: usize = 0;
    proof {
        assert(0 * cap == 0);
    }
    while start < n
        invariant
            cap as nat == F::spec_data_byte_capacity(),
            cap > 0,
            n == vec@.len(),
            start <= n,
            start < n ==> start as nat == out.len() * cap,
            out.len() == num_chunks(start as nat, cap as nat),
            forall|i: int|
                0 <= i < out.len() ==> #[trigger] out@[i] == F::spec_from_data_bytes(
                    padded_chunk(vec@, i as nat, cap as nat),
                ),
        decreases n - start,
    {
        let ghost k: nat = out.len() as nat;
        let mut chunk: Vec<u8> = Vec::new();
        let mut t: usize = 0;
        while t < cap
            invariant
                t <= cap,
                start as nat == k * cap,
                start < n,
                n == vec@.len(),
                chunk@ =~= padded_chunk(vec@, k, cap as nat).subrange(0, t as int),
            decreases cap - t,
        {
            if t < n - start {
                chunk.push(vec[start + t]);
            } else {
                chunk.push(0u8);
            }
            t = t + 1;
            proof {
                assert(chunk@ =~= padded_chunk(vec@, k, cap as nat).subrange(0, t as int));
            }
        }
        proof {
            assert(chunk@ =~= padded_chunk(vec@, k, cap as nat));
        }
        let elem = F::from_data_bytes(chunk.as_slice());
        out.push(elem);
        let take = if n - start < cap {
            n - start
        } else {
            cap
        };
        proof {
            lemma_num_chunks_step(k, cap as nat, take as nat);
            assert((k + 1) * cap == k * cap + cap) by (nonlinear_arith);
        }
        start = start + take;
    }
    proof {
        if n == 0 {
            assert(num_chunks(0, cap as nat) == 0);
        }
        assert(out@ =~= spec_from_byte_vec::<F>(vec@));
    }
    out
}

/// Converts field elements back to the data bytes they carry, back to back.  If
/// `[1, 2, 3]` went in with a capacity of 2, `[1, 2, 3, 0]` comes out: callers that
/// care about trailing padding must remember the byte count.
pub fn field_vec_to_byte_vec<F: DataField>(field_vec: &[F]) -> (r: Vec<u8>)
    ensures
        r@ == spec_field_vec_to_byte_vec(field_vec@),
{
    let mut out: Vec<u8> = Vec::new();
    let mut i: usize = 0;
    proof {
        assert(field_vec@.subrange(0, 0) =~= Seq::<F>::empty());
    }
    while i < field_vec.len()
        invariant
            i <= field_vec@.len(),
            out@ == spec_field_vec_to_byte_vec(field_vec@.subrange(0, i as int)),
        decreases field_vec.len() - i,
    {
        let mut bytes = field_vec[i].to_data_bytes();
        out.append(&mut bytes);
        proof {
            let pre = field_vec@.subrange(0, i + 1);
            assert(pre.drop_last() =~= field_vec@.subrange(0, i as int));
        }
        i = i + 1;
    }
    proof {
        assert(field_vec@.subrange(0, field_vec@.len() as int) =~= field_vec@);
    }
    out
}

/// Bytes packed into elements and read back, cut to their original length, are the
/// original bytes; what follows them is zero padding.
pub proof fn lemma_byte_vec_roundtrip<F: DataField>(v: Seq<u8>)
    ensures
        spec_field_vec_to_byte_vec(spec_from_byte_vec::<F>(v)).len() >= v.len(),
        spec_field_vec_to_byte_vec(spec_from_byte_vec::<F>(v)).subrange(0, v.len() as int) == v,
        forall|j: int|
            v.len() <= j < spec_field_vec_to_byte_vec(spec_from_byte_vec::<F>(v)).len()
                ==> spec_field_vec_to_byte_vec(spec_from_byte_vec::<F>(v))[j] == 0u8,
{
    let cap = F::spec_data_byte_capacity();
    let fs = spec_from_byte_vec::<F>(v);
    let bytes = spec_field_vec_to_byte_vec(fs);
    let n = fs.len();
    F::lemma_data_bytes_len(F::spec_from_data_bytes(Seq::empty()));
    F::lemma_capacity_positive();
    lemma_field_vec_bytes_len(fs);
    lemma_num_chunks_cover(v.len(), cap);
    assert forall|j: int| 0 <= j < bytes.len() implies bytes[j] == (if j < v.len() {
        v[j]
    } else {
        0u8
    }) by {
        let i = j / (cap as int);
        let t = j % (cap as int);
        vstd::arithmetic::div_mod::lemma_fundamental_div_mod(j, cap as int);
        vstd::arithmetic::div_mod::lemma_div_pos_is_pos(j, cap as int);
        vstd::arithmetic::div_mod::lemma_mod_bound(j, cap as int);
        assert(i < n) by {
            vstd::arithmetic::div_mod::lemma_multiply_divide_lt(j, cap as int, n as int);
        }
        lemma_field_vec_bytes_index(fs, i as nat, t as nat);
        assert(i * cap + t == j) by (nonlinear_arith)
            requires
                j == cap * i + t,
        ;
        F::lemma_data_bytes_roundtrip(padded_chunk(v, i as nat, cap));
    }
    assert(bytes.subrange(0, v.len() as int) =~= v);
}



/// Packing a concatenation whose first part fills whole elements packs each part on
/// its own.
pub proof fn lemma_from_byte_vec_concat<F: DataField>(u: Seq<u8>, v: Seq<u8>)
    requires
        u.len() % F::spec_data_byte_capacity() == 0,
    ensures
        spec_from_byte_vec::<F>(u + v) == spec_from_byte_vec::<F>(u) + spec_from_byte_vec::<F>(v),
{
    let cap = F::spec_data_byte_capacity();
    F::lemma_capacity_positive();
    let q = u.len() / cap;
    let l = v.len();
    vstd::arithmetic::div_mod::lemma_fundamental_div_mod(u.len() as int, cap as int);
    vstd::arithmetic::div_mod::lemma_fundamental_div_mod(l as int, cap as int);
    vstd::arithmetic::div_mod::lemma_mod_bound(l as int, cap as int);
    assert(u.len() + l == cap * (q + l / cap) + l % cap) by (nonlinear_arith)
        requires
            u.len() == cap * q,
            l == cap * (l / cap) + l % cap;
    vstd::arithmetic::div_mod::lemma_fundamental_div_mod_converse(
        (u.len() + l) as int,
        cap as int,
        (q + l / cap) as int,
        (l % cap) as int,
    );
    assert(num_chunks(u.len(), cap) == q);
    assert(num_chunks(u.len() + l, cap) == q + num_chunks(l, cap));
    let lhs = spec_from_byte_vec::<F>(u + v);
    let rhs = spec_from_byte_vec::<F>(u) + spec_from_byte_vec::<F>(v);
    assert forall|i: int| 0 <= i < lhs.len() implies lhs[i] == rhs[i] by {
        if i < q {
            assert(padded_chunk(u + v, i as nat, cap) =~= padded_chunk(u, i as nat, cap)) by {
                assert forall|t: int| 0 <= t < cap implies #[trigger] padded_chunk(u + v, i as nat, cap)[t]
                    == padded_chunk(u, i as nat, cap)[t] by {
                    assert(i * cap + t < q * cap) by (nonlinear_arith)
                        requires 0 <= i < q, 0 <= t < cap;
                }
            }
        } else {
            assert(padded_chunk(u + v, i as nat, cap) =~= padded_chunk(v, (i - q) as nat, cap)) by {
                assert forall|t: int| 0 <= t < cap implies #[trigger] padded_chunk(u + v, i as nat, cap)[t]
                    == padded_chunk(v, (i - q) as nat, cap)[t] by {
                    assert(i * cap == q * cap + (i - q) * cap) by (nonlinear_arith);
                }
            }
        }
    }
    assert(lhs =~= rhs);
}

/// Number of elements needed to hold `len` bytes, `cap` per element.
pub open spec fn num_chunks(len: nat, cap: nat) -> nat
    recommends
        cap > 0,
{
    if len % cap == 0 {
        len / cap
    } else {
        len / cap + 1
    }
}

/// The `i`-th group of `cap` bytes of `v`, padded with zeros past the end of `v`.
pub open spec fn padded_chunk(v: Seq<u8>, i: nat, cap: nat) -> Seq<u8> {
    Seq::new(cap, |t: int| if i * cap + t < v.len() { v[i * cap + t] } else { 0u8 })
}

/// The elements that carry the bytes of `v`, the last one zero-padded.
pub open spec fn spec_from_byte_vec<F: DataField>(v: Seq<u8>) -> Seq<F> {
    let cap = F::spec_data_byte_capacity();
    Seq::new(
        num_chunks(v.len(), cap),
        |i: int| F::spec_from_data_bytes(padded_chunk(v, i as nat, cap)),
    )
}

/// The data bytes of the elements of `fs`, in order.
pub open spec fn spec_field_vec_to_byte_vec<F: DataField>(fs: Seq<F>) -> Seq<u8>
    decreases fs.len(),
{
    if fs.len() == 0 {
        Seq::empty()
    } else {
        spec_field_vec_to_byte_vec(fs.drop_last()) + fs.last().spec_data_bytes()
    }
}

/// The bytes of a sequence of elements are the data bytes of each, back to back.
pub proof fn lemma_field_vec_bytes_index<F: DataField>(fs: Seq<F>, i: nat, t: nat)
    requires
        i < fs.len(),
        t < F::spec_data_byte_capacity(),
    ensures
        spec_field_vec_to_byte_vec(fs).len() == fs.len() * F::spec_data_byte_capacity(),
        spec_field_vec_to_byte_vec(fs)[(i * F::spec_data_byte_capacity() + t) as int]
            == fs[i as int].spec_data_bytes()[t as int],
    decreases fs.len(),
{
    let cap = F::spec_data_byte_capacity();
    let n = fs.len();
    F::lemma_data_bytes_len(fs.last());
    lemma_field_vec_bytes_len(fs.drop_last());
    if i + 1 < n {
        lemma_field_vec_bytes_index(fs.drop_last(), i, t);
        assert(i * cap + t < (n - 1) * cap) by (nonlinear_arith)
            requires
                i + 1 < n,
                t < cap,
        ;
    } else {
        assert(i * cap == (n - 1) * cap);
    }
    assert(n * cap == (n - 1) * cap + cap) by (nonlinear_arith)
        requires
            n >= 1,
    ;
}

/// The bytes of `n` elements number `n` times the capacity.
pub proof fn lemma_field_vec_bytes_len<F: DataField>(fs: Seq<F>)
    ensures
        spec_field_vec_to_byte_vec(fs).len() == fs.len() * F::spec_data_byte_capacity(),
    decreases fs.len(),
{
    if fs.len() > 0 {
        lemma_field_vec_bytes_len(fs.drop_last());
        F::lemma_data_bytes_len(fs.last());
        assert(fs.len() * F::spec_data_byte_capacity() == (fs.len() - 1)
            * F::spec_data_byte_capacity() + F::spec_data_byte_capacity()) by (nonlinear_arith)
            requires
                fs.len() >= 1,
        ;
    }
}

} // verus!
