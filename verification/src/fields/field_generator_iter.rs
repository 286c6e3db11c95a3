use vstd::prelude::*;

use crate::fields::data_field::{
    lemma_num_chunks_step, num_chunks, padded_chunk, spec_from_byte_vec, DataField,
};

verus! {

/// Turns a stream of bytes into a stream of field elements, `capacity` bytes per
/// element, the last element zero-padded.
pub struct FieldGeneratorIter<F: DataField> {
    inner: Vec<u8>,
    position: usize,
    _field: core::marker::PhantomData<F>,
}

impl<F: DataField> FieldGeneratorIter<F> {
    /// The bytes not yet turned into elements.
    pub closed spec fn remaining(self) -> Seq<u8> {
        self.inner@.subrange(self.position as int, self.inner@.len() as int)
    }

    /// Internal consistency of the read position.
    pub closed spec fn wf(self) -> bool {
        self.position <= self.inner@.len()
    }

    /// A generator over the bytes of `inner`.
    pub fn new(inner: Vec<u8>) -> (r: Self)
        ensures
            r.wf(),
            r.remaining() == inner@,
    {
        let r = FieldGeneratorIter { inner, position: 0, _field: core::marker::PhantomData };
        proof {
            assert(r.remaining() =~= r.inner@);
        }
        r
    }

    /// The next element: the next `capacity` bytes (fewer at the end, zero-padded), or
    /// `None` once the bytes are used up.
    pub fn next(&mut self) -> (r: Option<F>)
        requires
            old(self).wf(),
        ensures
            final(self).wf(),
            old(self).remaining().len() == 0 ==> r is None && final(self).remaining() == old(
                self,
            ).remaining(),
            old(self).remaining().len() > 0 ==> r == Some(
                F::spec_from_data_bytes(
                    padded_chunk(old(self).remaining(), 0, F::spec_data_byte_capacity()),
                ),
            ) && final(self).remaining() == old(self).remaining().skip(
                if old(self).remaining().len() < F::spec_data_byte_capacity() {
                    old(self).remaining().len() as int
                } else {
                    F::spec_data_byte_capacity() as int
                },
            ),
    {
        let n = self.inner.len();
        if self.position >= n {
            return None;
        }
        let cap = F::data_byte_capacity();
        let ghost rem = self.remaining();
        let mut chunk: Vec<u8> = Vec::new();
        let mut t: usize = 0;
        while t < cap
            invariant
                t <= cap,
                cap as nat == F::spec_data_byte_capacity(),
                self.position < n,
                n == self.inner@.len(),
                rem == self.inner@.subrange(self.position as int, n as int),
                chunk@ =~= padded_chunk(rem, 0, cap as nat).subrange(0, t as int),
            decreases cap - t,
        {
            if t < n - self.position {
                chunk.push(self.inner[self.position + t]);
            } else {
                chunk.push(0u8);
            }
            t = t + 1;
            proof {
                assert(chunk@ =~= padded_chunk(rem, 0, cap as nat).subrange(0, t as int));
            }
        }
        proof {
            assert(chunk@ =~= padded_chunk(rem, 0, cap as nat));
        }
        let out = F::from_data_bytes(chunk.as_slice());
        let take = if n - self.position < cap {
            n - self.position
        } else {
            cap
        };
        self.position = self.position + take;
        proof {
            assert(self.remaining() =~= rem.skip(take as int));
        }
        Some(out)
    }

    /// All the remaining elements, in order.
    pub fn collect_elements(self) -> (r: Vec<F>)
        requires
            self.wf(),
        ensures
            r@ == spec_from_byte_vec::<F>(self.remaining()),
    {
        let mut it = self;
        let ghost all = it.remaining();
        let mut out: Vec<F> = Vec::new();
        proof {
            lemma_from_byte_vec_split::<F>(all, 0);
        }
        loop
            invariant
                it.wf(),
                all == self.remaining(),
                out@ + spec_from_byte_vec::<F>(it.remaining()) == spec_from_byte_vec::<F>(all),
            decreases it.remaining().len(),
        {
            let ghost rem = it.remaining();
            match it.next() {
                None => {
                    proof {
                        F::lemma_capacity_positive();
                        assert(num_chunks(0, F::spec_data_byte_capacity()) == 0);
                        assert(spec_from_byte_vec::<F>(rem) =~= Seq::<F>::empty());
                        assert(out@ + Seq::<F>::empty() =~= out@);
                    }
                    return out;
                },
                Some(x) => {
                    proof {
                        lemma_from_byte_vec_first::<F>(rem);
                        assert((out@.push(x)) + spec_from_byte_vec::<F>(it.remaining()) =~= out@
                            + spec_from_byte_vec::<F>(rem));
                    }
                    out.push(x);
                },
            }
        }
    }
}

/// Helper with no content; keeps the quantifier instantiations local.
proof fn lemma_from_byte_vec_split<F: DataField>(v: Seq<u8>, k: nat)
    ensures
        Seq::<F>::empty() + spec_from_byte_vec::<F>(v) == spec_from_byte_vec::<F>(v),
{
    assert(Seq::<F>::empty() + spec_from_byte_vec::<F>(v) =~= spec_from_byte_vec::<F>(v));
}

/// The elements of a byte string are its first element followed by the elements of
/// the bytes after the first chunk.
pub proof fn lemma_from_byte_vec_first<F: DataField>(v: Seq<u8>)
    requires
        v.len() > 0,
    ensures
        spec_from_byte_vec::<F>(v) == seq![
            F::spec_from_data_bytes(padded_chunk(v, 0, F::spec_data_byte_capacity())),
        ] + spec_from_byte_vec::<F>(
            v.skip(
                if v.len() < F::spec_data_byte_capacity() {
                    v.len() as int
                } else {
                    F::spec_data_byte_capacity() as int
                },
            ),
        ),
{
    let cap = F::spec_data_byte_capacity();
    F::lemma_capacity_positive();
    let take: nat = if v.len() < cap {
        v.len()
    } else {
        cap
    };
    let rest = v.skip(take as int);
    // v.len() == 0 * cap + take when take < cap, and 1 chunk; generally num_chunks(v) == 1 + num_chunks(rest)
    if v.len() < cap {
        lemma_num_chunks_step(0, cap, v.len());
        assert(0 * cap == 0);
        assert(rest.len() == 0);
        assert(num_chunks(0, cap) == 0);
    } else {
        lemma_num_chunks_shift(rest.len(), cap);
    }
    let lhs = spec_from_byte_vec::<F>(v);
    let rhs = seq![F::spec_from_data_bytes(padded_chunk(v, 0, cap))] + spec_from_byte_vec::<F>(rest);
    assert forall|i: int| 0 <= i < lhs.len() implies lhs[i] == rhs[i] by {
        if i > 0 {
            assert(padded_chunk(v, i as nat, cap) =~= padded_chunk(rest, (i - 1) as nat, cap)) by {
                assert forall|t: int| 0 <= t < cap implies #[trigger] padded_chunk(v, i as nat, cap)[t]
                    == padded_chunk(rest, (i - 1) as nat, cap)[t] by {
                    assert(i * cap + t == take + (i - 1) * cap + t) by (nonlinear_arith)
                        requires
                            take == cap,
                    ;
                }
            }
        }
    }
    assert(lhs =~= rhs);
}

proof fn lemma_num_chunks_shift(len: nat, cap: nat)
    requires
        cap > 0,
    ensures
        num_chunks(len + cap, cap) == num_chunks(len, cap) + 1,
{
    vstd::arithmetic::div_mod::lemma_fundamental_div_mod(len as int, cap as int);
    let q = len / cap;
    let r = len % cap;
    vstd::arithmetic::div_mod::lemma_mod_bound(len as int, cap as int);
    assert(len + cap == (q + 1) * cap + r) by (nonlinear_arith)
        requires
            len == cap * q + r,
    ;
    vstd::arithmetic::div_mod::lemma_fundamental_div_mod_converse(
        (len + cap) as int,
        cap as int,
        (q + 1) as int,
        r as int,
    );
}

} // verus!
