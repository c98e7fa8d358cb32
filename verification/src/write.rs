use vstd::prelude::*;

use crate::error::WriteError;

verus! {

/// Byte sinks used by the serializer.
///
/// `sink` is the sequence of bytes the sink has accepted so far. A successful
/// write appends exactly the given bytes; a failed write accepts nothing.
/// `accepts_up_to(total)` says that the sink takes every write after which it holds at
/// most `total` bytes, and goes on doing so; a sink that promises nothing leaves it false.
pub trait Write {
    type Error;

    spec fn sink(&self) -> Seq<u8>;

    open spec fn accepts_up_to(&self, total: nat) -> bool {
        false
    }

    /// The sink refuses, writing nothing, every write after which it would hold more
    /// than `total` bytes, and goes on doing so; a sink that promises nothing leaves it
    /// false.
    open spec fn refuses_past(&self, total: nat) -> bool {
        false
    }

    /// The errors the sink may give; a sink that says nothing of them leaves it true.
    open spec fn may_fail_with(e: Self::Error) -> bool {
        true
    }

    fn write_bytes(&mut self, b: &[u8]) -> (r: Result<(), Self::Error>)
        ensures
            r matches Err(e) ==> Self::may_fail_with(e),
            r is Ok ==> final(self).sink() == old(self).sink() + b@,
            r is Err ==> final(self).sink() == old(self).sink(),
            forall|total: nat|
                #[trigger] old(self).accepts_up_to(total) && old(self).sink().len() + b@.len()
                    <= total ==> r is Ok && final(self).accepts_up_to(total),
            forall|total: nat|
                #[trigger] old(self).refuses_past(total) && old(self).sink().len() <= total ==> (
                old(self).sink().len() + b@.len() > total ==> r is Err) && (r is Ok
                    ==> final(self).refuses_past(total)),
    ;
}

/// Writes into a user-supplied byte slice.
pub struct SliceWriter<'a> {
    buf: &'a mut [u8],
    pos: usize,
}

impl<'a> SliceWriter<'a> {
    /// The capacity of the underlying slice.
    pub closed spec fn capacity(&self) -> nat {
        self.buf@.len()
    }

    /// The whole underlying slice, including the part not yet written.
    pub closed spec fn contents(&self) -> Seq<u8> {
        self.buf@
    }

    #[verifier::type_invariant]
    closed spec fn inv(&self) -> bool {
        self.pos <= self.buf@.len()
    }

    pub closed spec fn spec_pos(&self) -> nat {
        self.pos as nat
    }

    pub fn new(buf: &'a mut [u8]) -> (w: Self)
        ensures
            w.sink() == Seq::<u8>::empty(),
            w.contents() == old(buf)@,
            w.capacity() == old(buf)@.len(),
    {
        SliceWriter { buf, pos: 0 }
    }

    /// Returns the bytes written so far.
    pub fn written(&self) -> (r: &[u8])
        ensures
            r@ == self.sink(),
    {
        proof {
            use_type_invariant(self);
        }
        &self.buf[0..self.pos]
    }

    /// Returns the current write position.
    pub fn pos(&self) -> (p: usize)
        ensures
            p as nat == self.spec_pos(),
            p as nat == self.sink().len(),
            p <= self.capacity(),
            self.sink() == self.contents().take(p as int),
    {
        proof {
            use_type_invariant(self);
        }
        self.pos
    }

    /// Reset the write position to 0.
    pub fn reset(&mut self)
        ensures
            (*final(self)).sink() == Seq::<u8>::empty(),
            final(self).contents() == old(self).contents(),
    {
        self.pos = 0;
    }
}

impl<'a> Write for SliceWriter<'a> {
    type Error = WriteError;

    closed spec fn sink(&self) -> Seq<u8> {
        self.buf@.take(self.pos as int)
    }

    /// Every write that fits in the slice is taken.
    open spec fn accepts_up_to(&self, total: nat) -> bool {
        total <= self.capacity()
    }

    /// Every write that does not fit in the slice is refused.
    open spec fn refuses_past(&self, total: nat) -> bool {
        total >= self.capacity()
    }

    open spec fn may_fail_with(e: WriteError) -> bool {
        e == WriteError::BufferFull
    }

    /// Fails with `BufferFull`, writing nothing, when the bytes do not fit.
    fn write_bytes(&mut self, b: &[u8]) -> (r: Result<(), WriteError>)
        ensures
            r is Ok <==> old(self).spec_pos() + b@.len() <= old(self).capacity(),
            r matches Err(e) ==> e == WriteError::BufferFull,
            final(self).capacity() == old(self).capacity(),
            r is Err ==> *final(self) == *old(self),
    {
        proof {
            use_type_invariant(&*self);
        }
        let pos = self.pos;
        if pos > self.buf.len() || b.len() > self.buf.len() - pos {
            return Err(WriteError::BufferFull);
        }
        let ghost old_buf = self.buf@;
        let mut i: usize = 0;
        while i < b.len()
            invariant
                pos + b.len() <= self.buf.len(),
                self.pos == pos,
                0 <= i <= b.len(),
                self.buf@.len() == old_buf.len(),
                forall|k: int| 0 <= k < pos ==> self.buf@[k] == old_buf[k],
                forall|k: int| 0 <= k < i ==> self.buf@[pos + k] == b@[k],
            decreases b.len() - i,
        {
            self.buf[pos + i] = b[i];
            i = i + 1;
        }
        assert(self.buf@.take(pos + b.len()) =~= old_buf.take(pos as int) + b@);
        self.pos = pos + b.len();
        Ok(())
    }
}

/// A write sink that counts bytes without storing them.
/// Useful for pre-computing the required buffer size.
pub struct SizeCounter {
    /// Running byte count. It wraps around if the total output exceeds `usize::MAX`.
    count: usize,
    bytes: Ghost<Seq<u8>>,
}

/// The count of `len` bytes in a `usize` that wraps around.
pub open spec fn wrapped_count(len: nat) -> int {
    len as int % (usize::MAX as int + 1)
}

impl SizeCounter {
    /// The running byte count.
    pub closed spec fn counted(&self) -> usize {
        self.count
    }

    /// The count is the number of bytes received, wrapped around past `usize::MAX`.
    #[verifier::type_invariant]
    closed spec fn inv(&self) -> bool {
        self.count as int == wrapped_count(self.bytes@.len())
    }

    /// The running byte count: the number of bytes received, wrapped around past
    /// `usize::MAX`.
    pub fn bytes_counted(&self) -> (n: usize)
        ensures
            n == self.counted(),
            n as int == wrapped_count(self.sink().len()),
    {
        proof {
            use_type_invariant(self);
        }
        self.count
    }

    pub fn new() -> (c: Self)
        ensures
            c.counted() == 0,
            c.sink() == Seq::<u8>::empty(),
    {
        proof {
            vstd::arithmetic::div_mod::lemma_small_mod(0, usize::MAX as nat + 1);
        }
        SizeCounter { count: 0, bytes: Ghost(Seq::empty()) }
    }
}

impl Default for SizeCounter {
    fn default() -> (c: Self)
        ensures
            c.counted() == 0,
            c.sink() == Seq::<u8>::empty(),
    {
        SizeCounter::new()
    }
}

impl Write for SizeCounter {
    type Error = core::convert::Infallible;

    closed spec fn sink(&self) -> Seq<u8> {
        self.bytes@
    }

    open spec fn accepts_up_to(&self, total: nat) -> bool {
        true
    }

    /// Never fails; adds the length of `b` to the count (modulo `usize::MAX + 1`).
    fn write_bytes(&mut self, b: &[u8]) -> (r: Result<(), core::convert::Infallible>)
        ensures
            r is Ok,
            final(self).counted() as int == if old(self).counted() + b@.len() > usize::MAX {
                old(self).counted() + b@.len() - (usize::MAX as int + 1)
            } else {
                old(self).counted() + b@.len()
            },
    {
        let n: usize = b.len();
        proof {
            use_type_invariant(&*self);
            lemma_wrapped_count_add(self.bytes@.len(), n as nat);
        }
        let count = self.count.wrapping_add(b.len());
        *self = SizeCounter { count, bytes: Ghost(self.bytes@ + b@) };
        Ok(())
    }
}

impl<'x, W: Write> Write for &'x mut W {
    type Error = W::Error;

    open spec fn sink(&self) -> Seq<u8> {
        (**self).sink()
    }

    open spec fn accepts_up_to(&self, total: nat) -> bool {
        (**self).accepts_up_to(total)
    }

    open spec fn may_fail_with(e: W::Error) -> bool {
        W::may_fail_with(e)
    }

    open spec fn refuses_past(&self, total: nat) -> bool {
        (**self).refuses_past(total)
    }

    fn write_bytes(&mut self, b: &[u8]) -> (r: Result<(), W::Error>) {
        (**self).write_bytes(b)
    }
}

impl Write for Vec<u8> {
    type Error = core::convert::Infallible;

    open spec fn sink(&self) -> Seq<u8> {
        self@
    }

    open spec fn accepts_up_to(&self, total: nat) -> bool {
        true
    }

    /// Never fails; appends `b`.
    fn write_bytes(&mut self, b: &[u8]) -> (r: Result<(), core::convert::Infallible>)
        ensures
            r is Ok,
    {
        self.extend_from_slice(b);
        assert(self@ =~= old(self)@ + b@);
        Ok(())
    }
}

/// Adding `b` bytes to a wrapped count gives the wrapped count of the sum.
proof fn lemma_wrapped_count_add(a: nat, b: nat)
    requires
        b <= usize::MAX,
    ensures
        ({
            let c = wrapped_count(a) + b;
            if c > usize::MAX {
                c - (usize::MAX as int + 1)
            } else {
                c
            }
        }) == wrapped_count(a + b),
{
    let m = usize::MAX as int + 1;
    vstd::arithmetic::div_mod::lemma_add_mod_noop(a as int, b as int, m);
    vstd::arithmetic::div_mod::lemma_mod_bound(a as int, m);
    vstd::arithmetic::div_mod::lemma_small_mod(b as nat, m as nat);
    let c = wrapped_count(a) + b;
    if c > usize::MAX {
        vstd::arithmetic::div_mod::lemma_mod_sub_multiples_vanish(c, m);
        vstd::arithmetic::div_mod::lemma_small_mod((c - m) as nat, m as nat);
        assert(c % m == (c - m) % m) by {
            vstd::arithmetic::div_mod::lemma_sub_mod_noop(c, m, m);
            vstd::arithmetic::div_mod::lemma_mod_self_0(m);
            vstd::arithmetic::div_mod::lemma_small_mod(0, m as nat);
        }
    } else {
        vstd::arithmetic::div_mod::lemma_small_mod(c as nat, m as nat);
    }
}

/// A sink that owns a fixed-size array; it behaves like a [`SliceWriter`] over that array.
/// The fixed-size `stringify_*` functions write through it.
pub struct ArrayWriter<const N: usize> {
    buf: [u8; N],
    pos: usize,
}

impl<const N: usize> ArrayWriter<N> {
    pub closed spec fn contents(&self) -> Seq<u8> {
        self.buf@
    }

    #[verifier::type_invariant]
    closed spec fn inv(&self) -> bool {
        &&& self.pos <= N
        &&& self.buf@.len() == N
        &&& forall|k: int| self.pos <= k < N ==> self.buf@[k] == 0
    }

    pub fn new() -> (w: Self)
        ensures
            w.sink() == Seq::<u8>::empty(),
    {
        let buf: [u8; N] = [0u8; N];
        assert(forall|k: int| 0 <= k < N ==> buf@[k] == 0);
        ArrayWriter { buf, pos: 0 }
    }

    /// The array and the number of bytes written; the bytes after them are zero.
    pub fn into_parts(self) -> (r: ([u8; N], usize))
        ensures
            r.1 <= N,
            r.0@.take(r.1 as int) == self.sink(),
            forall|k: int| r.1 <= k < N ==> r.0@[k] == 0,
    {
        proof {
            use_type_invariant(&self);
        }
        (self.buf, self.pos)
    }
}

impl<const N: usize> Write for ArrayWriter<N> {
    type Error = WriteError;

    closed spec fn sink(&self) -> Seq<u8> {
        self.buf@.take(self.pos as int)
    }

    /// Every write that fits in the array is taken.
    open spec fn accepts_up_to(&self, total: nat) -> bool {
        total <= N
    }

    /// Every write that does not fit in the array is refused.
    open spec fn refuses_past(&self, total: nat) -> bool {
        total >= N
    }

    open spec fn may_fail_with(e: WriteError) -> bool {
        e == WriteError::BufferFull
    }

    /// Fails with `BufferFull`, writing nothing, when the bytes do not fit.
    fn write_bytes(&mut self, b: &[u8]) -> (r: Result<(), WriteError>)
        ensures
            r matches Err(e) ==> e == WriteError::BufferFull,
    {
        proof {
            use_type_invariant(&*self);
        }
        let pos = self.pos;
        if pos > N || b.len() > N - pos {
            return Err(WriteError::BufferFull);
        }
        let ghost old_buf = self.buf@;
        let mut buf: [u8; N] = self.buf;
        let mut i: usize = 0;
        while i < b.len()
            invariant
                pos + b.len() <= N,
                0 <= i <= b.len(),
                buf@.len() == N,
                old_buf.len() == N,
                forall|k: int| 0 <= k < pos ==> buf@[k] == old_buf[k],
                forall|k: int| 0 <= k < i ==> buf@[pos + k] == b@[k],
                forall|k: int| pos + i <= k < N ==> buf@[k] == old_buf[k],
                forall|k: int| pos <= k < N ==> old_buf[k] == 0,
            decreases b.len() - i,
        {
            buf[pos + i] = b[i];
            i = i + 1;
        }
        assert(buf@.take(pos + b.len()) =~= old_buf.take(pos as int) + b@);
        let new_pos: usize = pos + b.len();
        assert(i == b.len());
        assert forall|k: int| new_pos <= k < N implies buf@[k] == 0 by {
            assert(pos + i <= k);
            assert(buf@[k] == old_buf[k]);
            assert(pos <= k);
        }
        *self = ArrayWriter { buf, pos: new_pos };
        Ok(())
    }
}

} // verus!
