//! The dual-cursor buffer: one fixed byte region written (or read) forward from
//! the head and backward from the tail.
use vstd::prelude::*;
use crate::errors::Error;

verus! {

/// A fixed-size writable region. Content goes forward from the head; length
/// metadata goes backward from the tail, each tail write placed just before
/// the earlier ones.
pub struct DeBytesWriter {
    buf: Vec<u8>,
    head: usize,
    tail: usize,
}

impl DeBytesWriter {
    /// Cursors stay ordered inside the region.
    pub closed spec fn wf(&self) -> bool {
        self.head <= self.tail <= self.buf@.len()
    }

    /// Bytes written through the head, in order.
    pub closed spec fn head_region(&self) -> Seq<u8> {
        self.buf@.subrange(0, self.head as int)
    }

    /// Bytes written through the tail: the latest write first.
    pub closed spec fn tail_region(&self) -> Seq<u8> {
        self.buf@.subrange(self.tail as int, self.buf@.len() as int)
    }

    /// Free bytes between the cursors.
    pub closed spec fn room(&self) -> nat {
        (self.tail - self.head) as nat
    }

    /// Size of the whole region.
    pub closed spec fn capacity(&self) -> nat {
        self.buf@.len()
    }

    /// Head content, free room and tail metadata make up the region.
    pub proof fn lemma_capacity(&self)
        requires
            self.wf(),
        ensures
            self.head_region().len() + self.room() + self.tail_region().len() == self.capacity(),
    {
    }

    /// Gives the region back; once no room is left, it holds the head content
    /// followed by the tail metadata.
    pub fn into_inner(self) -> (r: Vec<u8>)
        requires
            self.wf(),
        ensures
            r@.len() == self.capacity(),
            self.room() == 0 ==> r@ == self.head_region() + self.tail_region(),
    {
        assert(self.room() == 0 ==> self.buf@ =~= self.head_region() + self.tail_region());
        self.buf
    }

    /// Moves the tail metadata to just after the head content and gives the
    /// region back with the number of bytes used, which come first in it.
    pub fn into_compacted(self) -> (r: (Vec<u8>, usize))
        requires
            self.wf(),
        ensures
            r.0@.len() == self.capacity(),
            r.1 == self.head_region().len() + self.tail_region().len(),
            r.0@.take(r.1 as int) == self.head_region() + self.tail_region(),
    {
        let mut buf = self.buf;
        let head = self.head;
        let tail = self.tail;
        let len = buf.len();
        let n = len - tail;
        let ghost orig = buf@;
        let mut i: usize = 0;
        while i < n
            invariant
                head <= tail <= orig.len(),
                orig.len() == len,
                n == orig.len() - tail,
                i <= n,
                buf@.len() == orig.len(),
                forall|j: int| 0 <= j < head ==> buf@[j] == orig[j],
                forall|j: int| head <= j < head + i ==> buf@[j] == orig[j - head + tail],
                forall|j: int| head + i <= j < orig.len() ==> buf@[j] == orig[j],
            decreases n - i,
        {
            let b = buf[tail + i];
            buf.set(head + i, b);
            i += 1;
        }
        assert(buf@.take((head + n) as int) =~= self.head_region() + self.tail_region());
        (buf, head + n)
    }

    /// Wraps a region; its previous content is overwritten.
    pub fn new(buf: Vec<u8>) -> (r: Self)
        ensures
            r.wf(),
            r.head_region() == Seq::<u8>::empty(),
            r.tail_region() == Seq::<u8>::empty(),
            r.room() == buf@.len(),
            r.capacity() == buf@.len(),
    {
        let n = buf.len();
        let r = DeBytesWriter { buf, head: 0, tail: n };
        assert(r.head_region() =~= Seq::<u8>::empty());
        assert(r.tail_region() =~= Seq::<u8>::empty());
        r
    }

    /// Appends `v` at the head.
    pub fn write(&mut self, v: &[u8]) -> (r: Result<(), Error>)
        requires
            old(self).wf(),
        ensures
            final(self).wf(),
            final(self).capacity() == old(self).capacity(),
            match r {
                Ok(()) => v@.len() <= old(self).room()
                    && final(self).head_region() == old(self).head_region() + v@
                    && final(self).tail_region() == old(self).tail_region()
                    && final(self).room() == old(self).room() - v@.len(),
                Err(e) => v@.len() > old(self).room() && e == Error::BufferOverflow
                    && *final(self) == *old(self),
            },
    {
        if v.len() > self.tail - self.head {
            return Err(Error::BufferOverflow);
        }
        let start = self.head;
        let ghost before = self.buf@;
        let mut i: usize = 0;
        while i < v.len()
            invariant
                start + v@.len() <= self.tail,
                self.head == start,
                self.tail == old(self).tail,
                old(self).head == start,
                old(self).wf(),
                before == old(self).buf@,
                i <= v@.len(),
                self.buf@.len() == before.len(),
                forall|j: int| 0 <= j < start ==> self.buf@[j] == before[j],
                forall|j: int| start <= j < start + i ==> self.buf@[j] == v@[j - start],
                forall|j: int| start + i <= j < before.len() ==> self.buf@[j] == before[j],
            decreases v@.len() - i,
        {
            self.buf.set(start + i, v[i]);
            i += 1;
        }
        self.head = start + v.len();
        assert(self.head_region() =~= old(self).head_region() + v@);
        assert(self.tail_region() =~= old(self).tail_region());
        Ok(())
    }

    /// Writes `v` just before the tail, which then moves back by its length.
    pub fn write_to_tail(&mut self, v: &[u8]) -> (r: Result<(), Error>)
        requires
            old(self).wf(),
        ensures
            final(self).wf(),
            final(self).capacity() == old(self).capacity(),
            match r {
                Ok(()) => v@.len() <= old(self).room()
                    && final(self).tail_region() == v@ + old(self).tail_region()
                    && final(self).head_region() == old(self).head_region()
                    && final(self).room() == old(self).room() - v@.len(),
                Err(e) => v@.len() > old(self).room() && e == Error::BufferOverflow
                    && *final(self) == *old(self),
            },
    {
        if v.len() > self.tail - self.head {
            return Err(Error::BufferOverflow);
        }
        let start = self.tail - v.len();
        let ghost before = self.buf@;
        let mut i: usize = 0;
        while i < v.len()
            invariant
                start + v@.len() == old(self).tail,
                old(self).head <= start,
                self.head == old(self).head,
                self.tail == old(self).tail,
                old(self).wf(),
                before == old(self).buf@,
                i <= v@.len(),
                self.buf@.len() == before.len(),
                forall|j: int| 0 <= j < start ==> self.buf@[j] == before[j],
                forall|j: int| start <= j < start + i ==> self.buf@[j] == v@[j - start],
                forall|j: int| start + i <= j < before.len() ==> self.buf@[j] == before[j],
            decreases v@.len() - i,
        {
            self.buf.set(start + i, v[i]);
            i += 1;
        }
        self.tail = start;
        assert(self.head_region() =~= old(self).head_region());
        assert(self.tail_region() =~= v@ + old(self).tail_region());
        Ok(())
    }

    /// Succeeds exactly when no gap is left between the cursors.
    pub fn is_complete(&self) -> (r: Result<(), Error>)
        requires
            self.wf(),
        ensures
            r is Ok <==> self.room() == 0,
            r matches Err(e) ==> e == Error::BufferUnderflow,
    {
        if self.head == self.tail {
            Ok(())
        } else {
            Err(Error::BufferUnderflow)
        }
    }

    /// Hands back the written bytes: head content, then tail metadata.
    /// Fails with underflow if a gap remains between the cursors.
    pub fn finalize(self) -> (r: Result<Vec<u8>, Error>)
        requires
            self.wf(),
        ensures
            r is Ok <==> self.room() == 0,
            r matches Ok(b) ==> b@ == self.head_region() + self.tail_region(),
            r matches Err(e) ==> e == Error::BufferUnderflow,
    {
        if self.head == self.tail {
            assert(self.buf@ =~= self.head_region() + self.tail_region());
            Ok(self.buf)
        } else {
            Err(Error::BufferUnderflow)
        }
    }
}

/// The effect of writing `bytes` at the head, with result `r`: the bytes are
/// appended when they fit, and overflow is reported when they do not.
pub open spec fn head_write(
    before: DeBytesWriter,
    after: DeBytesWriter,
    bytes: Seq<u8>,
    r: Result<(), Error>,
) -> bool {
    after.wf() && after.capacity() == before.capacity() && match r {
        Ok(()) => bytes.len() <= before.room() && after.head_region() == before.head_region()
            + bytes && after.tail_region() == before.tail_region() && after.room()
            == before.room() - bytes.len(),
        Err(e) => bytes.len() > before.room() && e == Error::BufferOverflow,
    }
}

/// The effect of consuming `n` bytes at the head: `ok` exactly when they were there.
pub open spec fn head_read(before: DeBytesReader, after: DeBytesReader, n: nat, ok: bool) -> bool {
    after.wf() && (ok <==> n <= before.remaining().len()) && (ok ==> after.remaining()
        == before.remaining().skip(n as int))
}

/// A readable region, consumed from the head forward and from the tail backward.
pub struct DeBytesReader {
    buf: Vec<u8>,
    head: usize,
    tail: usize,
}

impl DeBytesReader {
    pub closed spec fn wf(&self) -> bool {
        self.head <= self.tail <= self.buf@.len() <= usize::MAX
    }

    /// What remains fits in memory.
    pub proof fn lemma_remaining_bound(&self)
        requires
            self.wf(),
        ensures
            self.remaining().len() <= usize::MAX,
    {
    }

    /// The bytes not consumed yet.
    pub closed spec fn remaining(&self) -> Seq<u8> {
        self.buf@.subrange(self.head as int, self.tail as int)
    }

    /// Wraps bytes for reading.
    pub fn new(buf: Vec<u8>) -> (r: Self)
        ensures
            r.wf(),
            r.remaining() == buf@,
    {
        let n = buf.len();
        let r = DeBytesReader { buf, head: 0, tail: n };
        assert(r.remaining() =~= r.buf@);
        r
    }

    /// Consumes `n` bytes from the head.
    pub fn read(&mut self, n: usize) -> (r: Result<Vec<u8>, Error>)
        requires
            old(self).wf(),
        ensures
            final(self).wf(),
            match r {
                Ok(b) => n <= old(self).remaining().len()
                    && b@ == old(self).remaining().take(n as int)
                    && final(self).remaining() == old(self).remaining().skip(n as int),
                Err(e) => n > old(self).remaining().len() && e == Error::PrematureEndOfInput
                    && *final(self) == *old(self),
            },
    {
        if n > self.tail - self.head {
            return Err(Error::PrematureEndOfInput);
        }
        let b = copy_range(&self.buf, self.head, self.head + n);
        self.head = self.head + n;
        assert(b@ =~= old(self).remaining().take(n as int));
        assert(self.remaining() =~= old(self).remaining().skip(n as int));
        Ok(b)
    }

    /// Consumes the `n` bytes just before the tail.
    pub fn read_from_tail(&mut self, n: usize) -> (r: Result<Vec<u8>, Error>)
        requires
            old(self).wf(),
        ensures
            final(self).wf(),
            match r {
                Ok(b) => n <= old(self).remaining().len()
                    && b@ == old(self).remaining().subrange(
                        old(self).remaining().len() - n,
                        old(self).remaining().len() as int,
                    )
                    && final(self).remaining() == old(self).remaining().take(
                        old(self).remaining().len() - n,
                    ),
                Err(e) => n > old(self).remaining().len() && e == Error::PrematureEndOfInput
                    && *final(self) == *old(self),
            },
    {
        if n > self.tail - self.head {
            return Err(Error::PrematureEndOfInput);
        }
        let b = copy_range(&self.buf, self.tail - n, self.tail);
        self.tail = self.tail - n;
        let ghost rem = old(self).remaining();
        assert(b@ =~= rem.subrange(rem.len() - n, rem.len() as int));
        assert(self.remaining() =~= rem.take(rem.len() - n));
        Ok(b)
    }

    /// Succeeds exactly when every byte has been consumed.
    pub fn is_complete(&self) -> (r: Result<(), Error>)
        requires
            self.wf(),
        ensures
            r is Ok <==> self.remaining().len() == 0,
            r matches Err(e) ==> e == Error::BufferUnderflow,
    {
        if self.head == self.tail {
            Ok(())
        } else {
            Err(Error::BufferUnderflow)
        }
    }
}

fn copy_range(v: &Vec<u8>, from: usize, to: usize) -> (r: Vec<u8>)
    requires
        from <= to <= v@.len(),
    ensures
        r@ == v@.subrange(from as int, to as int),
{
    let mut r: Vec<u8> = Vec::new();
    let mut i: usize = from;
    while i < to
        invariant
            from <= i <= to <= v@.len(),
            r@ == v@.subrange(from as int, i as int),
        decreases to - i,
    {
        r.push(v[i]);
        i += 1;
        assert(r@ =~= v@.subrange(from as int, i as int));
    }
    r
}

} // verus!
