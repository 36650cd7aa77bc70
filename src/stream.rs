//! The mathematical model of a byte stream assembled from chunks.
use vstd::prelude::*;

verus! {

/// The bytes of `chunks` laid end to end, oldest first.
pub open spec fn concat(chunks: Seq<Seq<u8>>) -> Seq<u8>
    decreases chunks.len(),
{
    if chunks.len() == 0 {
        Seq::empty()
    } else {
        chunks[0] + concat(chunks.drop_first())
    }
}

/// The stream `s` once its first `n` bytes are consumed; a request for more
/// than `s` holds consumes nothing.
pub open spec fn after_consume(s: Seq<u8>, n: int) -> Seq<u8> {
    if 0 <= n <= s.len() {
        s.skip(n)
    } else {
        s
    }
}

/// Appending a chunk appends its bytes.
pub proof fn lemma_concat_push(chunks: Seq<Seq<u8>>, x: Seq<u8>)
    ensures
        concat(chunks.push(x)) == concat(chunks) + x,
    decreases chunks.len(),
{
    if chunks.len() == 0 {
        assert(chunks.push(x).drop_first() =~= Seq::<Seq<u8>>::empty());
        assert(chunks.push(x)[0] == x);
        assert(concat(Seq::<Seq<u8>>::empty()) == Seq::<u8>::empty());
        assert(concat(chunks.push(x)) =~= x);
    } else {
        assert(chunks.push(x).drop_first() =~= chunks.drop_first().push(x));
        lemma_concat_push(chunks.drop_first(), x);
        assert(concat(chunks.push(x)) =~= concat(chunks) + x);
    }
}

/// Splitting the chunks splits their bytes.
pub proof fn lemma_concat_split(chunks: Seq<Seq<u8>>, i: int)
    requires
        0 <= i <= chunks.len(),
    ensures
        concat(chunks) == concat(chunks.take(i)) + concat(chunks.skip(i)),
    decreases i,
{
    if i == 0 {
        assert(chunks.take(0) =~= Seq::<Seq<u8>>::empty());
        assert(chunks.skip(0) =~= chunks);
        assert(concat(chunks) =~= concat(chunks.take(i)) + concat(chunks.skip(i)));
    } else {
        let rest = chunks.drop_first();
        lemma_concat_split(rest, i - 1);
        assert(chunks.take(i).drop_first() =~= rest.take(i - 1));
        assert(chunks.take(i)[0] == chunks[0]);
        assert(rest.skip(i - 1) =~= chunks.skip(i));
        assert(concat(chunks) =~= concat(chunks.take(i)) + concat(chunks.skip(i)));
    }
}

/// Where chunk `i` stands in the concatenation.
pub proof fn lemma_chunk_at(chunks: Seq<Seq<u8>>, i: int)
    requires
        0 <= i < chunks.len(),
    ensures
        concat(chunks.take(i + 1)) == concat(chunks.take(i)) + chunks[i],
        concat(chunks).subrange(
            concat(chunks.take(i)).len() as int,
            (concat(chunks.take(i)).len() + chunks[i].len()) as int,
        ) == chunks[i],
        concat(chunks.take(i)).len() + chunks[i].len() <= concat(chunks).len(),
{
    assert(chunks.take(i + 1) =~= chunks.take(i).push(chunks[i]));
    lemma_concat_push(chunks.take(i), chunks[i]);
    lemma_concat_split(chunks, i);
    let tail = chunks.skip(i);
    assert(tail[0] == chunks[i]);
    assert(concat(tail) == tail[0] + concat(tail.drop_first()));
    let p = concat(chunks.take(i)).len() as int;
    assert(concat(chunks).subrange(p, p + chunks[i].len()) =~= chunks[i]);
}

/// The concatenation of the whole sequence is reached at its end.
pub proof fn lemma_take_all(chunks: Seq<Seq<u8>>)
    ensures
        concat(chunks.take(chunks.len() as int)) == concat(chunks),
{
    assert(chunks.take(chunks.len() as int) =~= chunks);
}

/// A request made of a stream, as the adapter's operations make it.
pub enum Request {
    /// Append these bytes.
    Push(Seq<u8>),
    /// Look at this many bytes without consuming them.
    Peek(nat),
    /// Take this many bytes out.
    Take(nat),
    /// Consume this many bytes.
    Flush(nat),
    /// Drop everything.
    Clear,
}

/// The stream after request `q`; a request for more bytes than `s` holds
/// changes nothing.
pub open spec fn apply(s: Seq<u8>, q: Request) -> Seq<u8> {
    match q {
        Request::Push(b) => s + b,
        Request::Peek(_) => s,
        Request::Take(n) => after_consume(s, n as int),
        Request::Flush(n) => after_consume(s, n as int),
        Request::Clear => Seq::empty(),
    }
}

/// The stream after the requests `qs`, in order.
pub open spec fn run(s: Seq<u8>, qs: Seq<Request>) -> Seq<u8>
    decreases qs.len(),
{
    if qs.len() == 0 {
        s
    } else {
        run(apply(s, qs[0]), qs.drop_first())
    }
}

/// The bytes that the requests `qs` push, in order.
pub open spec fn pushed(qs: Seq<Request>) -> Seq<u8>
    decreases qs.len(),
{
    if qs.len() == 0 {
        Seq::empty()
    } else {
        match qs[0] {
            Request::Push(b) => b + pushed(qs.drop_first()),
            _ => pushed(qs.drop_first()),
        }
    }
}

/// How many bytes the requests `qs` that succeed take or flush, starting
/// from the stream `s`.
pub open spec fn consumed(s: Seq<u8>, qs: Seq<Request>) -> nat
    decreases qs.len(),
{
    if qs.len() == 0 {
        0
    } else {
        let here: nat = match qs[0] {
            Request::Take(n) => if n <= s.len() { n } else { 0 },
            Request::Flush(n) => if n <= s.len() { n } else { 0 },
            _ => 0,
        };
        here + consumed(apply(s, qs[0]), qs.drop_first())
    }
}

/// Pushing each of `chunks` in turn.
pub open spec fn pushes(chunks: Seq<Seq<u8>>) -> Seq<Request> {
    chunks.map_values(|c: Seq<u8>| Request::Push(c))
}

/// Accounting: whatever requests are made, save `Clear`, the stream holds
/// the bytes pushed, in the order pushed, less as many leading bytes as the
/// successful takes and flushes consumed. Its length, which is what the
/// adapter reports as available, is the bytes pushed minus those consumed.
pub proof fn lemma_available_accounting(qs: Seq<Request>)
    requires
        forall|k: int| 0 <= k < qs.len() ==> !(#[trigger] qs[k] is Clear),
    ensures
        consumed(Seq::empty(), qs) <= pushed(qs).len(),
        run(Seq::empty(), qs) == pushed(qs).skip(consumed(Seq::empty(), qs) as int),
        run(Seq::empty(), qs).len() == pushed(qs).len() - consumed(Seq::empty(), qs),
{
    lemma_run_from(Seq::empty(), qs);
    assert(Seq::<u8>::empty() + pushed(qs) =~= pushed(qs));
}

proof fn lemma_run_from(s: Seq<u8>, qs: Seq<Request>)
    requires
        forall|k: int| 0 <= k < qs.len() ==> !(#[trigger] qs[k] is Clear),
    ensures
        consumed(s, qs) <= s.len() + pushed(qs).len(),
        run(s, qs) == (s + pushed(qs)).skip(consumed(s, qs) as int),
    decreases qs.len(),
{
    if qs.len() == 0 {
        assert((s + pushed(qs)).skip(0) =~= s);
    } else {
        let rest = qs.drop_first();
        assert forall|k: int| 0 <= k < rest.len() implies !(#[trigger] rest[k] is Clear) by {
            assert(rest[k] == qs[k + 1]);
        }
        assert(!(qs[0] is Clear));
        let t = apply(s, qs[0]);
        lemma_run_from(t, rest);
        match qs[0] {
            Request::Push(b) => {
                assert(t + pushed(rest) =~= s + pushed(qs));
            },
            Request::Peek(_) => {},
            Request::Take(n) => {
                if n <= s.len() {
                    assert((t + pushed(rest)).skip(consumed(t, rest) as int) =~= (s + pushed(
                        qs,
                    )).skip(consumed(s, qs) as int));
                }
            },
            Request::Flush(n) => {
                if n <= s.len() {
                    assert((t + pushed(rest)).skip(consumed(t, rest) as int) =~= (s + pushed(
                        qs,
                    )).skip(consumed(s, qs) as int));
                }
            },
            Request::Clear => {},
        }
    }
}

/// Peeking and then taking the same number of bytes sees the same bytes
/// twice, and the take shortens the stream by exactly that number.
pub proof fn lemma_peek_then_take(s: Seq<u8>, n: nat)
    requires
        n <= s.len(),
    ensures
        apply(s, Request::Peek(n)) == s,
        apply(s, Request::Peek(n)).take(n as int) == s.take(n as int),
        apply(apply(s, Request::Peek(n)), Request::Take(n)).len() == s.len() - n,
{
}

/// Peeking twice sees the same bytes twice and leaves the stream as it was.
pub proof fn lemma_peek_twice(s: Seq<u8>, n: nat)
    ensures
        apply(apply(s, Request::Peek(n)), Request::Peek(n)) == s,
        apply(s, Request::Peek(n)).take(n as int) == s.take(n as int),
{
}

/// A request for no bytes always succeeds, yields nothing and changes
/// nothing.
pub proof fn lemma_zero_requests(s: Seq<u8>)
    ensures
        0 <= s.len(),
        s.take(0) == Seq::<u8>::empty(),
        apply(s, Request::Take(0)) == s,
        apply(s, Request::Flush(0)) == s,
        apply(s, Request::Peek(0)) == s,
{
    assert(s.take(0) =~= Seq::<u8>::empty());
    assert(s.skip(0) =~= s);
}

/// A request for more bytes than the stream holds changes nothing.
pub proof fn lemma_oversized_requests(s: Seq<u8>, n: nat)
    requires
        n > s.len(),
    ensures
        apply(s, Request::Take(n)) == s,
        apply(s, Request::Flush(n)) == s,
        apply(s, Request::Peek(n)) == s,
{
}

/// Bytes that span several chunks come out as the chunks laid end to end:
/// after pushing `chunks` and consuming `k` bytes, taking `n` bytes yields
/// bytes `k..k + n` of their concatenation.
pub proof fn lemma_across_chunks(chunks: Seq<Seq<u8>>, k: nat, n: nat)
    requires
        k + n <= concat(chunks).len(),
    ensures
        run(Seq::empty(), pushes(chunks)) == concat(chunks),
        apply(run(Seq::empty(), pushes(chunks)), Request::Flush(k)).take(n as int)
            == concat(chunks).subrange(k as int, (k + n) as int),
{
    lemma_run_pushes(Seq::empty(), chunks);
    assert(Seq::<u8>::empty() + concat(chunks) =~= concat(chunks));
    assert(concat(chunks).skip(k as int).take(n as int) =~= concat(chunks).subrange(k as int, (k + n) as int));
}

proof fn lemma_run_pushes(s: Seq<u8>, chunks: Seq<Seq<u8>>)
    ensures
        run(s, pushes(chunks)) == s + concat(chunks),
    decreases chunks.len(),
{
    if chunks.len() == 0 {
        assert(s + concat(chunks) =~= s);
    } else {
        assert(pushes(chunks).drop_first() =~= pushes(chunks.drop_first()));
        lemma_run_pushes(s + chunks[0], chunks.drop_first());
        assert(s + chunks[0] + concat(chunks.drop_first()) =~= s + concat(chunks));
    }
}

} // verus!
