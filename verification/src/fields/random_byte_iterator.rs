use vstd::prelude::*;
use rand::RngCore;

verus! {

#[verifier::external_type_specification]
#[verifier::external_body]
pub struct ExThreadRng(rand::rngs::ThreadRng);

/// Number of random bytes drawn at a time.
pub const RANDOM_BUFFER_LEN: usize = 8192;

/// `rand::thread_rng`: a handle to the thread-local random generator.  Nothing is
/// stated of it: its output is random.
#[verifier::external_body]
pub(crate) fn thread_rng() -> rand::rngs::ThreadRng {
    rand::thread_rng()
}

/// `RngCore::fill_bytes` on the thread-local generator: overwrites every byte of `buf`
/// with random bytes.  Only the length of `buf` is stated to stay the same; the
/// bytes are random.
#[verifier::external_body]
pub(crate) fn fill_random_bytes(rng: &mut rand::rngs::ThreadRng, buf: &mut Vec<u8>)
    ensures
        final(buf)@.len() == old(buf)@.len(),
{
    rng.fill_bytes(buf.as_mut_slice())
}

/// An endless source of random bytes, drawn from the thread-local generator
/// `RANDOM_BUFFER_LEN` bytes at a time.
pub struct RandomBytesIterator {
    byte_buffer: Vec<u8>,
    position: usize,
    rng: rand::rngs::ThreadRng,
}

impl RandomBytesIterator {
    /// Internal consistency: the buffer has its fixed length and the position is in it.
    pub closed spec fn wf(self) -> bool {
        self.byte_buffer@.len() == RANDOM_BUFFER_LEN && self.position <= RANDOM_BUFFER_LEN
    }

    /// How many bytes of the current buffer have been handed out.
    pub closed spec fn spec_position(self) -> nat {
        self.position as nat
    }

    /// The buffer of bytes drawn so far.
    pub closed spec fn buffer(self) -> Seq<u8> {
        self.byte_buffer@
    }

    pub fn new() -> (r: Self)
        ensures
            r.wf(),
            r.spec_position() == 0,
    {
        let mut byte_buffer: Vec<u8> = Vec::new();
        let mut i: usize = 0;
        while i < RANDOM_BUFFER_LEN
            invariant
                i <= RANDOM_BUFFER_LEN,
                byte_buffer@.len() == i,
            decreases RANDOM_BUFFER_LEN - i,
        {
            byte_buffer.push(0u8);
            i = i + 1;
        }
        RandomBytesIterator { byte_buffer, position: 0, rng: thread_rng() }
    }

    /// The next random byte.  A fresh buffer is drawn whenever the current one is
    /// used up (and before the first byte); otherwise the next buffered byte is
    /// handed out.
    pub fn next(&mut self) -> (r: Option<u8>)
        requires
            old(self).wf(),
        ensures
            final(self).wf(),
            final(self).spec_position() == (if old(self).spec_position() >= RANDOM_BUFFER_LEN {
                0
            } else {
                old(self).spec_position()
            }) + 1,
            r == Some(final(self).buffer()[final(self).spec_position() - 1]),
            0 < old(self).spec_position() < RANDOM_BUFFER_LEN ==> final(self).buffer() == old(
                self,
            ).buffer(),
    {
        if self.position >= self.byte_buffer.len() {
            self.position = 0;
        }
        if self.position == 0 {
            fill_random_bytes(&mut self.rng, &mut self.byte_buffer);
        }
        self.position = self.position + 1;
        Some(self.byte_buffer[self.position - 1])
    }
}

} // verus!
