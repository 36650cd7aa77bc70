//! Presents a queue of chunks as one stream that can be peeked at, taken
//! from and consumed.
use std::collections::VecDeque;
use vstd::prelude::*;
use crate::buffer::Buffer;
use crate::stream::{Request, after_consume, apply, concat, lemma_chunk_at, lemma_concat_push, lemma_take_all};

verus! {

/// Why a request on an [`Adapter`] failed.
#[derive(Debug, Clone, Copy, PartialEq, Eq, Structural)]
pub enum AdapterError {
    /// More bytes were asked for than the adapter holds.
    NotEnoughData,
}

/// The bytes of each buffer of `q`, oldest first.
pub open spec fn chunks_of(q: Seq<Buffer>) -> Seq<Seq<u8>> {
    q.map_values(|b: Buffer| b@)
}

/// A stream of bytes assembled from the buffers pushed into it.
///
/// The buffers are held as they came, without copying; `skip` bytes of the
/// oldest one are already consumed.
pub struct Adapter {
    deque: VecDeque<Buffer>,
    size: usize,
    skip: usize,
    scratch: Vec<u8>,
}

impl View for Adapter {
    type V = Seq<u8>;

    /// The bytes not consumed yet, in the order they were pushed.
    closed spec fn view(&self) -> Seq<u8> {
        concat(chunks_of(self.deque@)).skip(self.skip as int)
    }
}

/// Copies `size` bytes of the chunks in `deque`, from `skip` bytes into the
/// first one on, to the end of `data`.
fn copy_data(deque: &VecDeque<Buffer>, skip: usize, data: &mut Vec<u8>, size: usize)
    requires
        deque@.len() == 0 ==> skip == 0,
        deque@.len() > 0 ==> skip <= deque@[0]@.len(),
        skip + size <= concat(chunks_of(deque@)).len(),
    ensures
        final(data)@ == old(data)@ + concat(chunks_of(deque@)).subrange(skip as int, skip + size),
{
    let ghost chunks = chunks_of(deque@);
    let ghost all = concat(chunks);
    let ghost n = deque@.len() as int;
    let count = deque.len();
    let mut i: usize = 0;
    let mut cur_skip: usize = skip;
    let mut left: usize = size;
    proof {
        assert(chunks.take(0) =~= Seq::<Seq<u8>>::empty());
        assert(concat(chunks.take(0)) == Seq::<u8>::empty());
        assert(all.subrange(skip as int, skip as int) =~= Seq::<u8>::empty());
        assert(old(data)@ + Seq::<u8>::empty() =~= old(data)@);
    }
    while left > 0
        invariant
            chunks == chunks_of(deque@),
            all == concat(chunks),
            n == deque@.len(),
            n == chunks.len(),
            n == count,
            0 <= i <= n,
            left <= size,
            skip + size <= all.len(),
            i > 0 ==> cur_skip == 0,
            i == 0 ==> cur_skip == skip,
            i < n ==> cur_skip <= chunks[i as int].len(),
            left > 0 ==> skip + (size - left) == concat(chunks.take(i as int)).len() + cur_skip,
            data@ == old(data)@ + all.subrange(skip as int, skip + (size - left)),
        decreases n - i,
    {
        let ghost p = concat(chunks.take(i as int)).len() as int;
        proof {
            if i == n {
                lemma_take_all(chunks);
                assert(false);
            }
            lemma_chunk_at(chunks, i as int);
        }
        let item = &deque[i];
        let data_item = item.as_slice();
        assert(data_item@ == chunks[i as int]);
        let avail = data_item.len() - cur_skip;
        let to_copy = if left < avail { left } else { avail };
        let part = vstd::slice::slice_subrange(data_item, cur_skip, cur_skip + to_copy);
        let ghost before = data@;
        data.extend_from_slice(part);
        proof {
            assert(part@ =~= all.subrange(p + cur_skip, p + cur_skip + to_copy));
            assert(data@ =~= before + part@);
            assert(all.subrange(skip as int, skip + (size - left) + to_copy) =~= all.subrange(
                skip as int,
                skip + (size - left),
            ) + part@);
        }
        cur_skip = 0;
        left = left - to_copy;
        i = i + 1;
    }
}

impl Adapter {
    /// Holds when the bookkeeping agrees with the queued buffers: no buffer
    /// is empty, `skip` lies inside the oldest one, and `size` counts the
    /// bytes not consumed.
    pub closed spec fn wf(&self) -> bool {
        &&& forall|k: int| 0 <= k < self.deque@.len() ==> #[trigger] self.deque@[k]@.len() > 0
        &&& self.deque@.len() == 0 ==> self.skip == 0
        &&& self.deque@.len() > 0 ==> self.skip < self.deque@[0]@.len()
        &&& self.size == self@.len()
    }

    proof fn lemma_skip_in_range(&self)
        requires
            self.wf(),
        ensures
            self.skip <= concat(chunks_of(self.deque@)).len(),
            self.skip + self@.len() == concat(chunks_of(self.deque@)).len(),
    {
        let chunks = chunks_of(self.deque@);
        if self.deque@.len() > 0 {
            lemma_chunk_at(chunks, 0);
            assert(chunks.take(0) =~= Seq::<Seq<u8>>::empty());
            assert(concat(chunks.take(0)) == Seq::<u8>::empty());
        }
    }

    /// An adapter that holds nothing.
    pub fn new() -> (r: Adapter)
        ensures
            r.wf(),
            r@ == Seq::<u8>::empty(),
    {
        let r = Adapter { deque: VecDeque::new(), size: 0, skip: 0, scratch: Vec::new() };
        assert(chunks_of(r.deque@) =~= Seq::<Seq<u8>>::empty());
        assert(r@ =~= Seq::<u8>::empty());
        r
    }

    /// Appends the bytes of `buffer` to the stream, without copying them.
    pub fn push(&mut self, buffer: Buffer)
        requires
            old(self).wf(),
            old(self)@.len() + buffer@.len() <= usize::MAX,
        ensures
            final(self).wf(),
            final(self)@ == old(self)@ + buffer@,
            final(self)@ == apply(old(self)@, Request::Push(buffer@)),
    {
        let size = buffer.get_size();
        proof { self.lemma_skip_in_range(); }
        if size == 0 {
            assert(self@ =~= old(self)@ + buffer@);
            return;
        }
        let ghost old_chunks = chunks_of(self.deque@);
        self.size = self.size + size;
        self.deque.push_back(buffer);
        proof {
            assert(chunks_of(self.deque@) =~= old_chunks.push(buffer@));
            lemma_concat_push(old_chunks, buffer@);
            assert(self@ =~= old(self)@ + buffer@);
        }
    }

    /// Drops every buffer: the stream becomes empty.
    pub fn clear(&mut self)
        requires
            old(self).wf(),
        ensures
            final(self).wf(),
            final(self)@ == Seq::<u8>::empty(),
            final(self)@ == apply(old(self)@, Request::Clear),
    {
        self.deque.clear();
        self.size = 0;
        self.skip = 0;
        self.scratch.clear();
        assert(chunks_of(self.deque@) =~= Seq::<Seq<u8>>::empty());
        assert(self@ =~= Seq::<u8>::empty());
    }

    /// The number of bytes in the stream.
    pub fn get_available(&self) -> (r: usize)
        requires
            self.wf(),
        ensures
            r == self@.len(),
    {
        self.size
    }

    /// Consumes the first `size` bytes of the stream. Fails, and changes
    /// nothing, when the stream holds fewer.
    pub fn flush(&mut self, size: usize) -> (r: Result<(), AdapterError>)
        requires
            old(self).wf(),
        ensures
            final(self).wf(),
            final(self)@ == after_consume(old(self)@, size as int),
            final(self)@ == apply(old(self)@, Request::Flush(size as nat)),
            r is Ok <==> size <= old(self)@.len(),
            r is Err ==> r == Err::<(), AdapterError>(AdapterError::NotEnoughData),
    {
        if self.size < size {
            return Err(AdapterError::NotEnoughData);
        }
        if size == 0 {
            assert(self@.skip(0) =~= self@);
            return Ok(());
        }
        let mut left: usize = size;
        proof {
            assert(self@.skip(0) =~= self@);
        }
        while left > 0
            invariant
                self.wf(),
                left <= size,
                size <= old(self)@.len(),
                left <= self@.len(),
                self@ == old(self)@.skip(size - left),
            decreases self.deque@.len() + left,
        {
            proof { self.lemma_front_nonempty(); }
            let front_size = self.deque[0].get_size() - self.skip;
            if front_size <= left {
                let ghost before = *self;
                self.deque.pop_front();
                self.size = self.size - front_size;
                self.skip = 0;
                left = left - front_size;
                proof { Adapter::lemma_pop_front(before, *self); }
            } else {
                let ghost before = *self;
                self.skip = self.skip + left;
                self.size = self.size - left;
                proof {
                    assert(self@ =~= before@.skip(left as int));
                    assert(self@ =~= old(self)@.skip(size as int));
                }
                left = 0;
            }
        }
        Ok(())
    }

    /// A stream with bytes left has a buffer in front, which ends the
    /// stream's first bytes.
    proof fn lemma_front_nonempty(&self)
        requires
            self.wf(),
            self@.len() > 0,
        ensures
            self.deque@.len() > 0,
            self.skip + self@.len() == concat(chunks_of(self.deque@)).len(),
            self.deque@[0]@.len() <= concat(chunks_of(self.deque@)).len(),
    {
        self.lemma_skip_in_range();
        let chunks = chunks_of(self.deque@);
        if self.deque@.len() == 0 {
            assert(chunks =~= Seq::<Seq<u8>>::empty());
        } else {
            assert(chunks[0] == self.deque@[0]@);
            assert(concat(chunks) == chunks[0] + concat(chunks.drop_first()));
        }
    }

    /// Dropping the oldest buffer drops the rest of its bytes from the stream.
    proof fn lemma_pop_front(before: Adapter, after: Adapter)
        requires
            before.wf(),
            before.deque@.len() > 0,
            after.deque@ == before.deque@.subrange(1, before.deque@.len() as int),
            after.skip == 0,
            after.size == before.size - (before.deque@[0]@.len() - before.skip),
        ensures
            after.wf(),
            after@ == before@.skip(before.deque@[0]@.len() - before.skip),
    {
        let chunks = chunks_of(before.deque@);
        assert(chunks[0] == before.deque@[0]@);
        assert(concat(chunks) == chunks[0] + concat(chunks.drop_first()));
        assert(chunks_of(after.deque@) =~= chunks.drop_first());
        assert forall|k: int| 0 <= k < after.deque@.len() implies #[trigger] after.deque@[k]@.len() > 0 by {
            assert(after.deque@[k] == before.deque@[k + 1]);
        }
        if after.deque@.len() > 0 {
            assert(after.deque@[0] == before.deque@[1]);
        }
        assert(after@ =~= before@.skip(before.deque@[0]@.len() - before.skip));
    }

    /// The first `size` bytes of the stream are bytes `skip..skip + size` of
    /// the queued chunks laid end to end, and of the oldest chunk alone when
    /// it is long enough.
    proof fn lemma_front_bytes(&self, size: int)
        requires
            self.wf(),
            0 <= size <= self@.len(),
        ensures
            self.skip + size <= concat(chunks_of(self.deque@)).len(),
            concat(chunks_of(self.deque@)).subrange(self.skip as int, self.skip + size)
                == self@.take(size),
            self.deque@.len() > 0 && self.skip + size <= self.deque@[0]@.len()
                ==> self.deque@[0]@.subrange(self.skip as int, self.skip + size) == self@.take(size),
    {
        self.lemma_skip_in_range();
        let chunks = chunks_of(self.deque@);
        let all = concat(chunks);
        assert(all.subrange(self.skip as int, self.skip + size) =~= self@.take(size));
        if self.deque@.len() > 0 {
            assert(chunks[0] == self.deque@[0]@);
            assert(all == chunks[0] + concat(chunks.drop_first()));
            if self.skip + size <= self.deque@[0]@.len() {
                assert(self.deque@[0]@.subrange(self.skip as int, self.skip + size) =~= self@.take(size));
            }
        }
    }

    /// Takes the first `size` bytes of the stream out as a buffer of their
    /// own. When they lie inside the oldest buffer the result shares its
    /// storage; otherwise they are copied. Fails, and changes nothing, when
    /// the stream holds fewer than `size` bytes.
    pub fn get_buffer(&mut self, size: usize) -> (r: Result<Buffer, AdapterError>)
        requires
            old(self).wf(),
        ensures
            final(self).wf(),
            final(self)@ == after_consume(old(self)@, size as int),
            final(self)@ == apply(old(self)@, Request::Take(size as nat)),
            r is Ok <==> size <= old(self)@.len(),
            match r {
                Ok(b) => b@ == old(self)@.take(size as int),
                Err(e) => e == AdapterError::NotEnoughData,
            },
    {
        if self.size < size {
            return Err(AdapterError::NotEnoughData);
        }
        if size == 0 {
            let b = Buffer::new();
            assert(self@.skip(0) =~= self@);
            assert(b@ =~= self@.take(0));
            return Ok(b);
        }
        proof { self.lemma_front_bytes(size as int); }
        if self.deque.len() > 0 && self.deque[0].get_size() - self.skip >= size {
            let sub = self.deque[0].copy_region(self.skip, size);
            let _ = self.flush(size);
            return Ok(sub);
        }
        let mut data: Vec<u8> = Vec::with_capacity(size);
        copy_data(&self.deque, self.skip, &mut data, size);
        assert(data@ =~= old(self)@.take(size as int));
        let b = Buffer::from_vec(data);
        let _ = self.flush(size);
        Ok(b)
    }

    /// Copies the first `data.len()` bytes of the stream into `data`,
    /// consuming nothing. Fails, and leaves `data` as it was, when the stream
    /// holds fewer.
    pub fn peek_into(&self, data: &mut [u8]) -> (r: Result<(), AdapterError>)
        requires
            self.wf(),
        ensures
            r is Ok <==> old(data)@.len() <= self@.len(),
            r is Ok ==> final(data)@ == self@.take(old(data)@.len() as int),
            r is Err ==> final(data)@ == old(data)@ && r == Err::<(), AdapterError>(
                AdapterError::NotEnoughData,
            ),
    {
        let size = data.len();
        if self.size < size {
            return Err(AdapterError::NotEnoughData);
        }
        if size == 0 {
            assert(data@ =~= self@.take(0));
            return Ok(());
        }
        proof { self.lemma_front_bytes(size as int); }
        let mut bytes: Vec<u8> = Vec::with_capacity(size);
        copy_data(&self.deque, self.skip, &mut bytes, size);
        assert(bytes@ =~= self@.take(size as int));
        let mut i: usize = 0;
        while i < size
            invariant
                size == data@.len(),
                size == bytes@.len(),
                i <= size,
                forall|k: int| 0 <= k < i ==> data@[k] == bytes@[k],
            decreases size - i,
        {
            data[i] = bytes[i];
            i = i + 1;
        }
        assert(data@ =~= bytes@);
        Ok(())
    }

    /// A view of the first `size` bytes of the stream, consuming nothing.
    /// When they lie inside the oldest buffer the view points into it;
    /// otherwise they are copied into scratch space that the next call may
    /// reuse. Fails when the stream holds fewer than `size` bytes.
    pub fn peek(&mut self, size: usize) -> (r: Result<&[u8], AdapterError>)
        requires
            old(self).wf(),
        ensures
            final(self).wf(),
            final(self)@ == old(self)@,
            final(self)@ == apply(old(self)@, Request::Peek(size as nat)),
            r is Ok <==> size <= old(self)@.len(),
            match r {
                Ok(v) => v@ == old(self)@.take(size as int),
                Err(e) => e == AdapterError::NotEnoughData,
            },
    {
        if self.size < size {
            return Err(AdapterError::NotEnoughData);
        }
        proof { self.lemma_front_bytes(size as int); }
        if size == 0 {
            let empty: &[u8] = &[];
            assert(empty@ =~= self@.take(0));
            return Ok(empty);
        }
        if self.deque.len() > 0 && self.deque[0].get_size() - self.skip >= size {
            let front = &self.deque[0];
            return Ok(vstd::slice::slice_subrange(front.as_slice(), self.skip, self.skip + size));
        }
        self.scratch.clear();
        copy_data(&self.deque, self.skip, &mut self.scratch, size);
        assert(self.scratch@ =~= old(self)@.take(size as int));
        Ok(self.scratch.as_slice())
    }
}

} // verus!
