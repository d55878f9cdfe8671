use crate::store::ByteStore;
use vstd::math::min;
use vstd::prelude::*;

verus! {

/// One contiguous run of received bytes, in arrival order: either resident
/// in the byte store (`Slice`) or transferred between file descriptors by
/// the kernel and never materialized here (`Splice`).
#[derive(Debug, PartialEq, Clone)]
pub enum InputElement {
    /// length in the stream, physically present in the store
    Slice(usize),
    /// length in the stream, resident only in kernel buffers
    Splice(usize),
}

/// One contiguous run of bytes to be emitted, in emission order: forward
/// stored bytes (`Slice`), drop stored bytes without sending them
/// (`Delete`), inject literal bytes that have no stored counterpart
/// (`Insert`), or account for a kernel-side transfer (`Splice`).
#[derive(Debug, PartialEq, Clone)]
pub enum OutputElement {
    Slice(usize),
    Delete(usize),
    Insert(Vec<u8>),
    Splice(usize),
}

/// Mathematical description of an output element: what `OutputElement`
/// means once its literal payload is read as a byte sequence.
pub enum OutputDesc {
    Slice(nat),
    Delete(nat),
    Insert(Seq<u8>),
    Splice(nat),
}

impl View for OutputElement {
    type V = OutputDesc;

    open spec fn view(&self) -> OutputDesc {
        match self {
            OutputElement::Slice(n) => OutputDesc::Slice(*n as nat),
            OutputElement::Delete(n) => OutputDesc::Delete(*n as nat),
            OutputElement::Insert(v) => OutputDesc::Insert(v@),
            OutputElement::Splice(n) => OutputDesc::Splice(*n as nat),
        }
    }
}

/// The output queue read as a sequence of descriptions.
pub open spec fn out_view(q: Seq<OutputElement>) -> Seq<OutputDesc> {
    q.map_values(|e: OutputElement| e@)
}

/// Stream length of one input element.
pub open spec fn in_len(e: InputElement) -> int {
    match e {
        InputElement::Slice(n) => n as int,
        InputElement::Splice(n) => n as int,
    }
}

/// Total stream length across all input elements.
pub open spec fn input_total(q: Seq<InputElement>) -> int
    decreases q.len(),
{
    if q.len() == 0 {
        0
    } else {
        in_len(q[0]) + input_total(q.skip(1))
    }
}

/// Length of the leading contiguous run of input `Slice` elements: how many
/// physically present bytes are safe to hand to a parser.
pub open spec fn leading_input_slices(q: Seq<InputElement>) -> int
    decreases q.len(),
{
    if q.len() == 0 {
        0
    } else {
        match q[0] {
            InputElement::Slice(n) => n + leading_input_slices(q.skip(1)),
            InputElement::Splice(_) => 0,
        }
    }
}

/// Consuming `n` parsed bytes never stops strictly inside a `Splice`
/// element: a kernel-diverted region is retired as a whole or not at all.
pub open spec fn splice_safe(q: Seq<InputElement>, n: int) -> bool
    decreases q.len(),
{
    if n <= 0 || q.len() == 0 {
        true
    } else {
        match q[0] {
            InputElement::Slice(sz) => if n >= sz {
                splice_safe(q.skip(1), n - sz)
            } else {
                true
            },
            InputElement::Splice(sz) => n >= sz && splice_safe(q.skip(1), n - sz),
        }
    }
}

/// The input queue after retiring `n` parsed bytes from the front: whole
/// elements are removed, a partially consumed leading `Slice` is shrunk in
/// place, and consumption past the end stops at the empty queue.
pub open spec fn input_after(q: Seq<InputElement>, n: int) -> Seq<InputElement>
    decreases q.len(),
{
    if n <= 0 || q.len() == 0 {
        q
    } else {
        match q[0] {
            InputElement::Slice(sz) => if n >= sz {
                input_after(q.skip(1), n - sz)
            } else {
                q.update(0, InputElement::Slice((sz - n) as usize))
            },
            InputElement::Splice(sz) => if n >= sz {
                input_after(q.skip(1), n - sz)
            } else {
                q
            },
        }
    }
}

/// Stream length one output element adds to what will be sent: a `Delete`
/// is dropped from the stream and counts zero.
pub open spec fn out_net(e: OutputDesc) -> int {
    match e {
        OutputDesc::Slice(n) => n as int,
        OutputDesc::Delete(_) => 0,
        OutputDesc::Insert(s) => s.len() as int,
        OutputDesc::Splice(n) => n as int,
    }
}

/// Bookkeeping length of one output element, `Delete` included.
pub open spec fn out_gross(e: OutputDesc) -> int {
    match e {
        OutputDesc::Slice(n) => n as int,
        OutputDesc::Delete(n) => n as int,
        OutputDesc::Insert(s) => s.len() as int,
        OutputDesc::Splice(n) => n as int,
    }
}

/// Total length of what the output queue will send; `Delete` counts zero.
pub open spec fn output_net_total(q: Seq<OutputDesc>) -> int
    decreases q.len(),
{
    if q.len() == 0 {
        0
    } else {
        out_net(q[0]) + output_net_total(q.skip(1))
    }
}

/// Total bookkeeping length of the output queue, `Delete` included.
pub open spec fn output_gross_total(q: Seq<OutputDesc>) -> int
    decreases q.len(),
{
    if q.len() == 0 {
        0
    } else {
        out_gross(q[0]) + output_gross_total(q.skip(1))
    }
}

/// Length of the leading contiguous run of output `Slice` elements.
pub open spec fn leading_output_slices(q: Seq<OutputDesc>) -> int
    decreases q.len(),
{
    if q.len() == 0 {
        0
    } else {
        match q[0] {
            OutputDesc::Slice(n) => n + leading_output_slices(q.skip(1)),
            _ => 0,
        }
    }
}

/// Length of the leading contiguous run of output `Delete` elements.
pub open spec fn leading_output_deletes(q: Seq<OutputDesc>) -> int
    decreases q.len(),
{
    if q.len() == 0 {
        0
    } else {
        match q[0] {
            OutputDesc::Delete(n) => n + leading_output_deletes(q.skip(1)),
            _ => 0,
        }
    }
}

/// Number of elements in the leading `Delete` run.
pub open spec fn delete_run(q: Seq<OutputDesc>) -> int
    decreases q.len(),
{
    if q.len() == 0 {
        0
    } else {
        match q[0] {
            OutputDesc::Delete(_) => 1 + delete_run(q.skip(1)),
            _ => 0,
        }
    }
}

/// The output queue after reporting `n` bytes sent: a leading `Delete` is
/// always applied whole without touching the budget, other elements are
/// removed or shrunk as the budget covers them.
pub open spec fn out_after(q: Seq<OutputDesc>, n: int) -> Seq<OutputDesc>
    decreases q.len(),
{
    if n <= 0 || q.len() == 0 {
        q
    } else {
        match q[0] {
            OutputDesc::Slice(sz) => if n >= sz {
                out_after(q.skip(1), n - sz)
            } else {
                q.update(0, OutputDesc::Slice((sz - n) as nat))
            },
            OutputDesc::Delete(_) => out_after(q.skip(1), n),
            OutputDesc::Splice(sz) => if n >= sz {
                out_after(q.skip(1), n - sz)
            } else {
                q.update(0, OutputDesc::Splice((sz - n) as nat))
            },
            OutputDesc::Insert(s) => if n >= s.len() {
                out_after(q.skip(1), n - s.len())
            } else {
                q.update(0, OutputDesc::Insert(s.skip(n)))
            },
        }
    }
}

/// How far the physical store and `buffer_position` advance while `n` sent
/// bytes are reported: consumed `Slice` bytes one for one, a leading
/// `Delete` in full, `Splice` and `Insert` not at all.
pub open spec fn out_discard(q: Seq<OutputDesc>, n: int) -> int
    decreases q.len(),
{
    if n <= 0 || q.len() == 0 {
        0
    } else {
        match q[0] {
            OutputDesc::Slice(sz) => if n >= sz {
                sz + out_discard(q.skip(1), n - sz)
            } else {
                n
            },
            OutputDesc::Delete(sz) => sz + out_discard(q.skip(1), n),
            OutputDesc::Splice(sz) => if n >= sz {
                out_discard(q.skip(1), n - sz)
            } else {
                0
            },
            OutputDesc::Insert(s) => if n >= s.len() {
                out_discard(q.skip(1), n - s.len())
            } else {
                0
            },
        }
    }
}

/// The next contiguous span to hand to the socket writer: skip the leading
/// `Delete` run to find the byte offset, then either the leading `Slice`
/// run out of the store, an `Insert`'s literal bytes, or nothing for a
/// `Splice` (its transfer happens out of band) or an exhausted queue.
pub open spec fn next_chunk(q: Seq<OutputDesc>, store: Seq<u8>) -> Seq<u8> {
    let start = leading_output_deletes(q);
    let rest = q.skip(delete_run(q));
    if rest.len() == 0 {
        Seq::<u8>::empty()
    } else {
        match rest[0] {
            OutputDesc::Insert(s) => s,
            OutputDesc::Slice(_) => store.subrange(start, start + leading_output_slices(rest)),
            _ => Seq::<u8>::empty(),
        }
    }
}

/// The stored bytes reach far enough for the next chunk to be cut out of
/// them; an `Insert` chunk needs no stored bytes at all.
pub open spec fn next_chunk_fits(q: Seq<OutputDesc>, store: Seq<u8>) -> bool {
    let rest = q.skip(delete_run(q));
    if rest.len() > 0 && rest[0] is Insert {
        true
    } else {
        leading_output_deletes(q) + (if rest.len() > 0 {
            leading_output_slices(rest)
        } else {
            0
        }) <= store.len()
    }
}

/// Backpressure signal: the byte store cannot take any of the offered
/// bytes, so the caller must pause reading from its source.
#[derive(Debug, PartialEq, Eq, Clone, Copy)]
pub struct StoreFull;

/// The buffer queue: one byte store, an ordered queue of received runs, an
/// ordered queue of runs to emit, and the monotonically advancing stream
/// positions that keep parser, rewriter and socket writer in sync.
pub struct BufferQueue {
    /// stream offset up to which stored bytes have been discarded
    pub buffer_position: usize,
    /// stream offset up to which a parser has examined data
    pub parsed_position: usize,
    pub output_position: usize,
    /// stream offset requested for parsing, including bytes not yet queued
    pub start_parsing_position: usize,
    pub buffer: ByteStore,
    pub input_queue: Vec<InputElement>,
    pub output_queue: Vec<OutputElement>,
}

impl BufferQueue {
    /// The accounting sums stay within machine bounds and the store within
    /// its capacity.
    pub open spec fn wf(self) -> bool {
        &&& self.buffer.wf()
        &&& input_total(self.input_queue@) <= usize::MAX
        &&& output_gross_total(out_view(self.output_queue@)) <= usize::MAX
    }

    /// The bytes received but not yet handed to the parser: the window
    /// `[parsed_position, parsed_position + leading slices)` of the store,
    /// clamped to the bytes actually present.
    pub open spec fn spec_unparsed(self) -> Seq<u8> {
        let l = leading_input_slices(self.input_queue@);
        if l == 0 {
            Seq::<u8>::empty()
        } else {
            let len = self.buffer@.len() as int;
            self.buffer@.subrange(
                min(self.parsed_position as int, len),
                min(self.parsed_position + l, len),
            )
        }
    }

    pub fn with_capacity(capacity: usize) -> (r: BufferQueue)
        ensures
            r.wf(),
            r.buffer_position == 0,
            r.parsed_position == 0,
            r.output_position == 0,
            r.start_parsing_position == 0,
            r.buffer@ == Seq::<u8>::empty(),
            r.buffer.spec_capacity() == capacity,
            r.input_queue@ == Seq::<InputElement>::empty(),
            r.output_queue@ == Seq::<OutputElement>::empty(),
    {
        let r = BufferQueue {
            buffer_position: 0,
            parsed_position: 0,
            output_position: 0,
            start_parsing_position: 0,
            buffer: ByteStore::with_capacity(capacity),
            input_queue: Vec::new(),
            output_queue: Vec::new(),
        };
        proof {
            assert(out_view(r.output_queue@) =~= Seq::<OutputDesc>::empty());
        }
        r
    }

    /// Appends bytes into the store and records them as one received
    /// `Slice`; reports backpressure when the store can take none of them.
    pub fn write(&mut self, buf: &[u8]) -> (r: Result<usize, StoreFull>)
        requires
            old(self).wf(),
            input_total(old(self).input_queue@) + buf@.len() <= usize::MAX,
        ensures
            final(self).wf(),
            ({
                let space = old(self).buffer.spec_capacity() - old(self).buffer@.len();
                let written = min(buf@.len() as int, space);
                if buf@.len() > 0 && space == 0 {
                    &&& r is Err
                    &&& *final(self) == *old(self)
                } else {
                    &&& r == Result::<usize, StoreFull>::Ok(written as usize)
                    &&& final(self).buffer@ == old(self).buffer@ + buf@.subrange(0, written)
                    &&& final(self).buffer.spec_capacity() == old(self).buffer.spec_capacity()
                    &&& final(self).input_queue@ == old(self).input_queue@.push(
                        InputElement::Slice(written as usize),
                    )
                    &&& final(self).output_queue == old(self).output_queue
                    &&& final(self).buffer_position == old(self).buffer_position
                    &&& final(self).parsed_position == old(self).parsed_position
                    &&& final(self).output_position == old(self).output_position
                    &&& final(self).start_parsing_position == old(self).start_parsing_position
                }
            }),
    {
        if buf.len() > 0 && self.buffer.available_space() == 0 {
            return Err(StoreFull);
        }
        let written = self.buffer.append(buf);
        proof {
            lemma_input_total_push(
                self.input_queue@,
                InputElement::Slice(written),
            );
        }
        self.input_queue.push(InputElement::Slice(written));
        Ok(written)
    }

    /// Nothing is buffered on the way out of the queue itself, so flushing
    /// is a no-op that always succeeds.
    pub fn flush(&mut self) -> (r: Result<(), StoreFull>)
        ensures
            r is Ok,
            *final(self) == *old(self),
    {
        Ok(())
    }

    /// Records `count` bytes transferred directly between file descriptors
    /// by the kernel, bypassing the store.
    pub fn spliced_input(&mut self, count: usize)
        requires
            old(self).wf(),
            input_total(old(self).input_queue@) + count <= usize::MAX,
        ensures
            final(self).wf(),
            final(self).input_queue@ == old(self).input_queue@.push(InputElement::Splice(count)),
            final(self).output_queue == old(self).output_queue,
            final(self).buffer == old(self).buffer,
            final(self).buffer_position == old(self).buffer_position,
            final(self).parsed_position == old(self).parsed_position,
            final(self).output_position == old(self).output_position,
            final(self).start_parsing_position == old(self).start_parsing_position,
    {
        proof {
            lemma_input_total_push(self.input_queue@, InputElement::Splice(count));
        }
        self.input_queue.push(InputElement::Splice(count));
    }

    /// Total length across all input elements, summed over the queue.
    pub fn available_input_data(&self) -> (r: usize)
        requires
            self.wf(),
        ensures
            r == input_total(self.input_queue@),
    {
        let n = self.input_queue.len();
        let mut acc: usize = 0;
        let mut i: usize = 0;
        proof {
            assert(self.input_queue@.skip(0) =~= self.input_queue@);
        }
        while i < n
            invariant
                i <= n,
                n == self.input_queue@.len(),
                input_total(self.input_queue@) <= usize::MAX,
                acc + input_total(self.input_queue@.skip(i as int)) == input_total(
                    self.input_queue@,
                ),
            decreases n - i,
        {
            proof {
                lemma_input_total_step(self.input_queue@, i as int);
                lemma_input_total_nonneg(self.input_queue@.skip(i as int + 1));
            }
            let sz = match &self.input_queue[i] {
                InputElement::Slice(sz) => *sz,
                InputElement::Splice(sz) => *sz,
            };
            acc = acc + sz;
            i = i + 1;
        }
        proof {
            assert(self.input_queue@.skip(n as int) =~= Seq::<InputElement>::empty());
        }
        acc
    }

    /// Total length across all input elements, summed element kind by
    /// element kind; always agrees with `available_input_data`, the other
    /// view of the same sum.
    pub fn input_data_size(&self) -> (r: usize)
        requires
            self.wf(),
        ensures
            r == input_total(self.input_queue@),
    {
        let n = self.input_queue.len();
        let mut acc: usize = 0;
        let mut i: usize = 0;
        proof {
            assert(self.input_queue@.skip(0) =~= self.input_queue@);
        }
        while i < n
            invariant
                i <= n,
                n == self.input_queue@.len(),
                input_total(self.input_queue@) <= usize::MAX,
                acc + input_total(self.input_queue@.skip(i as int)) == input_total(
                    self.input_queue@,
                ),
            decreases n - i,
        {
            proof {
                lemma_input_total_step(self.input_queue@, i as int);
                lemma_input_total_nonneg(self.input_queue@.skip(i as int + 1));
            }
            match &self.input_queue[i] {
                InputElement::Splice(sz) => {
                    acc = acc + *sz;
                },
                InputElement::Slice(sz) => {
                    acc = acc + *sz;
                },
            }
            i = i + 1;
        }
        proof {
            assert(self.input_queue@.skip(n as int) =~= Seq::<InputElement>::empty());
        }
        acc
    }

    /// Length of the leading contiguous run of received `Slice` elements:
    /// how many physically present bytes may be handed to a parser. The
    /// caller keeps this consistent with the store; a run longer than the
    /// stored data is a fatal desynchronization and is ruled out here.
    pub fn merge_input_slices(&self) -> (r: usize)
        requires
            self.wf(),
            leading_input_slices(self.input_queue@) <= self.buffer@.len(),
        ensures
            r == leading_input_slices(self.input_queue@),
    {
        let n = self.input_queue.len();
        let mut acc: usize = 0;
        let mut i: usize = 0;
        proof {
            assert(self.input_queue@.skip(0) =~= self.input_queue@);
            lemma_leading_input_le_total(self.input_queue@);
        }
        while i < n
            invariant
                i <= n,
                n == self.input_queue@.len(),
                leading_input_slices(self.input_queue@) <= input_total(self.input_queue@),
                input_total(self.input_queue@) <= usize::MAX,
                acc + leading_input_slices(self.input_queue@.skip(i as int))
                    == leading_input_slices(self.input_queue@),
                leading_input_slices(self.input_queue@.skip(i as int)) >= 0,
            ensures
                acc == leading_input_slices(self.input_queue@),
            decreases n - i,
        {
            proof {
                assert(self.input_queue@.skip(i as int)[0] == self.input_queue@[i as int]);
                assert(self.input_queue@.skip(i as int).skip(1) =~= self.input_queue@.skip(
                    i as int + 1,
                ));
                lemma_leading_input_le_total(self.input_queue@.skip(i as int + 1));
                lemma_input_total_nonneg(self.input_queue@.skip(i as int + 1));
            }
            match &self.input_queue[i] {
                InputElement::Slice(sz) => {
                    acc = acc + *sz;
                    i = i + 1;
                },
                InputElement::Splice(_) => {
                    break ;
                },
            }
        }
        proof {
            assert(self.input_queue@.skip(n as int) =~= Seq::<InputElement>::empty());
        }
        acc
    }

    /// The bytes received but not yet handed to the parser, cut out of the
    /// store's available window.
    pub fn unparsed_data(&self) -> (r: &[u8])
        requires
            self.wf(),
            leading_input_slices(self.input_queue@) <= self.buffer@.len(),
        ensures
            r@ == self.spec_unparsed(),
    {
        let largest_size = self.merge_input_slices();
        let data = self.buffer.data();
        if largest_size == 0 {
            return vstd::slice::slice_subrange(data, 0, 0);
        }
        let dlen = data.len();
        let start = if self.parsed_position < dlen {
            self.parsed_position
        } else {
            dlen
        };
        let end = if self.parsed_position >= dlen {
            dlen
        } else if largest_size >= dlen - self.parsed_position {
            dlen
        } else {
            self.parsed_position + largest_size
        };
        vstd::slice::slice_subrange(data, start, end)
    }

    /// Retires `size` parsed bytes from the front of the input queue,
    /// advancing `parsed_position` by what was actually queued and
    /// `start_parsing_position` by the full request. A `Splice` element is
    /// retired only as a whole: stopping inside one is ruled out.
    pub fn consume_parsed_data(&mut self, size: usize)
        requires
            old(self).wf(),
            splice_safe(old(self).input_queue@, size as int),
            old(self).parsed_position + size <= usize::MAX,
            old(self).start_parsing_position + size <= usize::MAX,
        ensures
            final(self).wf(),
            final(self).input_queue@ == input_after(old(self).input_queue@, size as int),
            final(self).parsed_position == old(self).parsed_position + min(
                size as int,
                input_total(old(self).input_queue@),
            ),
            final(self).start_parsing_position == old(self).start_parsing_position + size,
            final(self).buffer == old(self).buffer,
            final(self).buffer_position == old(self).buffer_position,
            final(self).output_position == old(self).output_position,
            final(self).output_queue == old(self).output_queue,
    {
        proof {
            lemma_input_total_nonneg(self.input_queue@);
        }
        let mut to_consume: usize = size;
        while to_consume > 0
            invariant
                to_consume <= size,
                self.wf(),
                splice_safe(self.input_queue@, to_consume as int),
                input_after(self.input_queue@, to_consume as int) == input_after(
                    old(self).input_queue@,
                    size as int,
                ),
                min(size as int, input_total(old(self).input_queue@)) == size - to_consume + min(
                    to_consume as int,
                    input_total(self.input_queue@),
                ),
                input_total(self.input_queue@) >= 0,
                input_total(self.input_queue@) <= input_total(old(self).input_queue@),
                self.buffer == old(self).buffer,
                self.buffer_position == old(self).buffer_position,
                self.parsed_position == old(self).parsed_position,
                self.output_position == old(self).output_position,
                self.start_parsing_position == old(self).start_parsing_position,
                self.output_queue == old(self).output_queue,
            ensures
                to_consume <= size,
                to_consume == 0 || self.input_queue@.len() == 0,
                input_after(self.input_queue@, to_consume as int) == input_after(
                    old(self).input_queue@,
                    size as int,
                ),
                min(size as int, input_total(old(self).input_queue@)) == size - to_consume + min(
                    to_consume as int,
                    input_total(self.input_queue@),
                ),
                input_total(self.input_queue@) >= 0,
                input_total(self.input_queue@) <= input_total(old(self).input_queue@),
                self.wf(),
                self.buffer == old(self).buffer,
                self.buffer_position == old(self).buffer_position,
                self.parsed_position == old(self).parsed_position,
                self.output_position == old(self).output_position,
                self.start_parsing_position == old(self).start_parsing_position,
                self.output_queue == old(self).output_queue,
            decreases self.input_queue@.len(), to_consume,
        {
            if self.input_queue.len() == 0 {
                break ;
            }
            let ghost q0 = self.input_queue@;
            let head = self.input_queue.remove(0);
            proof {
                assert(self.input_queue@ =~= q0.skip(1));
                lemma_input_total_nonneg(q0.skip(1));
            }
            match head {
                InputElement::Slice(sz) => {
                    if to_consume >= sz {
                        to_consume = to_consume - sz;
                    } else {
                        let shrunk = InputElement::Slice(sz - to_consume);
                        self.input_queue.insert(0, shrunk);
                        proof {
                            assert(self.input_queue@ =~= q0.update(0, shrunk));
                            assert(q0.update(0, shrunk)[0] == shrunk);
                            assert(q0.update(0, shrunk).skip(1) =~= q0.skip(1));
                        }
                        to_consume = 0;
                    }
                },
                InputElement::Splice(sz) => {
                    proof {
                        assert(to_consume >= sz);
                    }
                    to_consume = to_consume - sz;
                },
            }
        }
        proof {
            if to_consume > 0 {
                assert(input_total(self.input_queue@) == 0);
            }
        }
        let consumed = size - to_consume;
        self.parsed_position = self.parsed_position + consumed;
        self.start_parsing_position = self.start_parsing_position + size;
    }

    /// Queues stored bytes to be forwarded as they are.
    pub fn slice_output(&mut self, count: usize)
        requires
            old(self).wf(),
            output_gross_total(out_view(old(self).output_queue@)) + count <= usize::MAX,
        ensures
            final(self).wf(),
            final(self).output_queue@ == old(self).output_queue@.push(OutputElement::Slice(count)),
            out_view(final(self).output_queue@) == out_view(old(self).output_queue@).push(
                OutputDesc::Slice(count as nat),
            ),
            final(self).input_queue == old(self).input_queue,
            final(self).buffer == old(self).buffer,
            final(self).buffer_position == old(self).buffer_position,
            final(self).parsed_position == old(self).parsed_position,
            final(self).output_position == old(self).output_position,
            final(self).start_parsing_position == old(self).start_parsing_position,
    {
        proof {
            lemma_out_view_push(self.output_queue@, OutputElement::Slice(count));
            lemma_output_totals_push(out_view(self.output_queue@), OutputDesc::Slice(count as nat));
        }
        self.output_queue.push(OutputElement::Slice(count));
    }

    /// Queues stored bytes to be dropped without being sent.
    pub fn delete_output(&mut self, count: usize)
        requires
            old(self).wf(),
            output_gross_total(out_view(old(self).output_queue@)) + count <= usize::MAX,
        ensures
            final(self).wf(),
            final(self).output_queue@ == old(self).output_queue@.push(OutputElement::Delete(count)),
            out_view(final(self).output_queue@) == out_view(old(self).output_queue@).push(
                OutputDesc::Delete(count as nat),
            ),
            final(self).input_queue == old(self).input_queue,
            final(self).buffer == old(self).buffer,
            final(self).buffer_position == old(self).buffer_position,
            final(self).parsed_position == old(self).parsed_position,
            final(self).output_position == old(self).output_position,
            final(self).start_parsing_position == old(self).start_parsing_position,
    {
        proof {
            lemma_out_view_push(self.output_queue@, OutputElement::Delete(count));
            lemma_output_totals_push(
                out_view(self.output_queue@),
                OutputDesc::Delete(count as nat),
            );
        }
        self.output_queue.push(OutputElement::Delete(count));
    }

    /// Queues the accounting for bytes a kernel-side transfer will send.
    pub fn splice_output(&mut self, count: usize)
        requires
            old(self).wf(),
            output_gross_total(out_view(old(self).output_queue@)) + count <= usize::MAX,
        ensures
            final(self).wf(),
            final(self).output_queue@ == old(self).output_queue@.push(OutputElement::Splice(count)),
            out_view(final(self).output_queue@) == out_view(old(self).output_queue@).push(
                OutputDesc::Splice(count as nat),
            ),
            final(self).input_queue == old(self).input_queue,
            final(self).buffer == old(self).buffer,
            final(self).buffer_position == old(self).buffer_position,
            final(self).parsed_position == old(self).parsed_position,
            final(self).output_position == old(self).output_position,
            final(self).start_parsing_position == old(self).start_parsing_position,
    {
        proof {
            lemma_out_view_push(self.output_queue@, OutputElement::Splice(count));
            lemma_output_totals_push(
                out_view(self.output_queue@),
                OutputDesc::Splice(count as nat),
            );
        }
        self.output_queue.push(OutputElement::Splice(count));
    }

    /// Queues literal bytes to be injected into the outgoing stream.
    pub fn insert_output(&mut self, v: Vec<u8>)
        requires
            old(self).wf(),
            output_gross_total(out_view(old(self).output_queue@)) + v@.len() <= usize::MAX,
        ensures
            final(self).wf(),
            final(self).output_queue@ == old(self).output_queue@.push(OutputElement::Insert(v)),
            out_view(final(self).output_queue@) == out_view(old(self).output_queue@).push(
                OutputDesc::Insert(v@),
            ),
            final(self).input_queue == old(self).input_queue,
            final(self).buffer == old(self).buffer,
            final(self).buffer_position == old(self).buffer_position,
            final(self).parsed_position == old(self).parsed_position,
            final(self).output_position == old(self).output_position,
            final(self).start_parsing_position == old(self).start_parsing_position,
    {
        proof {
            lemma_out_view_push(self.output_queue@, OutputElement::Insert(v));
            lemma_output_totals_push(out_view(self.output_queue@), OutputDesc::Insert(v@));
        }
        self.output_queue.push(OutputElement::Insert(v));
    }

    /// Total length of what the output queue will send: `Slice`, `Splice`
    /// and `Insert` lengths; a `Delete` is never transmitted and counts
    /// zero.
    pub fn output_data_size(&self) -> (r: usize)
        requires
            self.wf(),
        ensures
            r == output_net_total(out_view(self.output_queue@)),
    {
        let ghost ov = out_view(self.output_queue@);
        let n = self.output_queue.len();
        let mut acc: usize = 0;
        let mut i: usize = 0;
        proof {
            assert(ov.skip(0) =~= ov);
            lemma_output_totals_nonneg(ov);
        }
        while i < n
            invariant
                i <= n,
                n == self.output_queue@.len(),
                ov == out_view(self.output_queue@),
                output_net_total(ov) <= output_gross_total(ov),
                output_gross_total(ov) <= usize::MAX,
                acc + output_net_total(ov.skip(i as int)) == output_net_total(ov),
                output_net_total(ov.skip(i as int)) >= 0,
            decreases n - i,
        {
            proof {
                assert(ov.skip(i as int)[0] == ov[i as int]);
                assert(ov.skip(i as int).skip(1) =~= ov.skip(i as int + 1));
                lemma_output_totals_nonneg(ov.skip(i as int + 1));
                lemma_output_totals_nonneg(ov.skip(i as int));
            }
            let sz = match &self.output_queue[i] {
                OutputElement::Slice(sz) => *sz,
                OutputElement::Splice(sz) => *sz,
                OutputElement::Insert(v) => v.len(),
                OutputElement::Delete(_) => 0,
            };
            acc = acc + sz;
            i = i + 1;
        }
        proof {
            assert(ov.skip(n as int) =~= Seq::<OutputDesc>::empty());
        }
        acc
    }

    /// Length of the leading contiguous run of output `Slice` elements.
    /// The caller keeps this consistent with the store; a run longer than
    /// the stored data is a fatal desynchronization and is ruled out here.
    pub fn merge_output_slices(&self) -> (r: usize)
        requires
            self.wf(),
            leading_output_slices(out_view(self.output_queue@)) <= self.buffer@.len(),
        ensures
            r == leading_output_slices(out_view(self.output_queue@)),
    {
        let ghost ov = out_view(self.output_queue@);
        let n = self.output_queue.len();
        let mut acc: usize = 0;
        let mut i: usize = 0;
        proof {
            assert(ov.skip(0) =~= ov);
            lemma_leading_output_le_gross(ov);
        }
        while i < n
            invariant
                i <= n,
                n == self.output_queue@.len(),
                ov == out_view(self.output_queue@),
                leading_output_slices(ov) <= self.buffer@.len(),
                self.buffer@.len() <= usize::MAX,
                acc + leading_output_slices(ov.skip(i as int)) == leading_output_slices(ov),
                leading_output_slices(ov.skip(i as int)) >= 0,
            ensures
                acc == leading_output_slices(ov),
            decreases n - i,
        {
            proof {
                assert(ov.skip(i as int)[0] == ov[i as int]);
                assert(ov.skip(i as int).skip(1) =~= ov.skip(i as int + 1));
                lemma_leading_output_le_gross(ov.skip(i as int + 1));
            }
            match &self.output_queue[i] {
                OutputElement::Slice(sz) => {
                    acc = acc + *sz;
                    i = i + 1;
                },
                _ => {
                    break ;
                },
            }
        }
        proof {
            assert(ov.skip(n as int) =~= Seq::<OutputDesc>::empty());
        }
        acc
    }

    /// Length of the leading contiguous run of output `Delete` elements,
    /// under the same consistency bound as `merge_output_slices`.
    pub fn merge_output_deletes(&self) -> (r: usize)
        requires
            self.wf(),
            leading_output_deletes(out_view(self.output_queue@)) <= self.buffer@.len(),
        ensures
            r == leading_output_deletes(out_view(self.output_queue@)),
    {
        let ghost ov = out_view(self.output_queue@);
        let n = self.output_queue.len();
        let mut acc: usize = 0;
        let mut i: usize = 0;
        proof {
            assert(ov.skip(0) =~= ov);
            lemma_leading_output_le_gross(ov);
        }
        while i < n
            invariant
                i <= n,
                n == self.output_queue@.len(),
                ov == out_view(self.output_queue@),
                leading_output_deletes(ov) <= self.buffer@.len(),
                self.buffer@.len() <= usize::MAX,
                acc + leading_output_deletes(ov.skip(i as int)) == leading_output_deletes(ov),
                leading_output_deletes(ov.skip(i as int)) >= 0,
            ensures
                acc == leading_output_deletes(ov),
            decreases n - i,
        {
            proof {
                assert(ov.skip(i as int)[0] == ov[i as int]);
                assert(ov.skip(i as int).skip(1) =~= ov.skip(i as int + 1));
                lemma_leading_output_le_gross(ov.skip(i as int + 1));
            }
            match &self.output_queue[i] {
                OutputElement::Delete(sz) => {
                    acc = acc + *sz;
                    i = i + 1;
                },
                _ => {
                    break ;
                },
            }
        }
        proof {
            assert(ov.skip(n as int) =~= Seq::<OutputDesc>::empty());
        }
        acc
    }

    /// The next contiguous span to hand to the socket writer: skips the
    /// leading `Delete` run to find the byte offset, then returns the
    /// leading `Slice` run out of the store, an `Insert`'s literal bytes,
    /// or an empty span when a `Splice` is next (its transfer happens out
    /// of band) or the queue is exhausted.
    pub fn next_output_data(&self) -> (r: &[u8])
        requires
            self.wf(),
            next_chunk_fits(out_view(self.output_queue@), self.buffer@),
        ensures
            r@ == next_chunk(out_view(self.output_queue@), self.buffer@),
    {
        let ghost ov = out_view(self.output_queue@);
        let n = self.output_queue.len();
        let mut i: usize = 0;
        let mut start: usize = 0;
        proof {
            assert(ov.skip(0) =~= ov);
            lemma_leading_output_le_gross(ov);
            lemma_delete_run_nonneg(ov);
        }
        while i < n
            invariant
                i <= n,
                n == self.output_queue@.len(),
                ov == out_view(self.output_queue@),
                output_gross_total(ov) <= usize::MAX,
                start + leading_output_deletes(ov.skip(i as int)) == leading_output_deletes(ov),
                leading_output_deletes(ov) <= output_gross_total(ov),
                leading_output_deletes(ov.skip(i as int)) >= 0,
                i + delete_run(ov.skip(i as int)) == delete_run(ov),
            ensures
                i <= n,
                start == leading_output_deletes(ov),
                i == delete_run(ov),
            decreases n - i,
        {
            proof {
                assert(ov.skip(i as int)[0] == ov[i as int]);
                assert(ov.skip(i as int).skip(1) =~= ov.skip(i as int + 1));
                lemma_leading_output_le_gross(ov.skip(i as int + 1));
                lemma_delete_run_nonneg(ov.skip(i as int + 1));
            }
            match &self.output_queue[i] {
                OutputElement::Delete(sz) => {
                    start = start + *sz;
                    i = i + 1;
                },
                _ => {
                    break ;
                },
            }
        }
        proof {
            if i == n {
                assert(ov.skip(i as int) =~= Seq::<OutputDesc>::empty());
            }
        }
        let ghost rest = ov.skip(delete_run(ov));
        let data = self.buffer.data();
        if i == n {
            return vstd::slice::slice_subrange(data, start, start);
        }
        proof {
            assert(rest =~= ov.skip(i as int));
            assert(rest[0] == ov[i as int]);
        }
        match &self.output_queue[i] {
            OutputElement::Insert(v) => v.as_slice(),
            OutputElement::Splice(_) => vstd::slice::slice_subrange(data, start, start),
            OutputElement::Delete(_) => {
                proof {
                    lemma_delete_run_nonneg(ov.skip(i as int + 1));
                    assert(ov.skip(i as int).skip(1) =~= ov.skip(i as int + 1));
                    assert(false);
                }
                vstd::slice::slice_subrange(data, 0, 0)
            },
            OutputElement::Slice(_) => {
                let mut largest: usize = 0;
                let mut j: usize = i;
                proof {
                    lemma_leading_output_le_gross(rest);
                }
                while j < n
                    invariant
                        i <= j <= n,
                        n == self.output_queue@.len(),
                        ov == out_view(self.output_queue@),
                        rest == ov.skip(i as int),
                        start == leading_output_deletes(ov),
                        start + leading_output_slices(rest) <= self.buffer@.len(),
                        self.buffer@.len() <= usize::MAX,
                        largest + leading_output_slices(ov.skip(j as int))
                            == leading_output_slices(rest),
                        leading_output_slices(ov.skip(j as int)) >= 0,
                    ensures
                        largest == leading_output_slices(rest),
                    decreases n - j,
                {
                    proof {
                        assert(ov.skip(j as int)[0] == ov[j as int]);
                        assert(ov.skip(j as int).skip(1) =~= ov.skip(j as int + 1));
                        lemma_leading_output_le_gross(ov.skip(j as int + 1));
                    }
                    match &self.output_queue[j] {
                        OutputElement::Slice(sz) => {
                            largest = largest + *sz;
                            j = j + 1;
                        },
                        _ => {
                            break ;
                        },
                    }
                }
                proof {
                    if j == n {
                        assert(ov.skip(j as int) =~= Seq::<OutputDesc>::empty());
                    }
                }
                vstd::slice::slice_subrange(data, start, start + largest)
            },
        }
    }

    /// Drains the output queue after `size` bytes were reported sent.
    /// Consumed `Slice` bytes discard stored bytes one for one; a leading
    /// `Delete` is applied whole, without decrementing the budget, so one
    /// call may advance the physical position past the requested count;
    /// `Splice` and `Insert` drain without touching the store.
    pub fn consume_output_data(&mut self, size: usize)
        requires
            old(self).wf(),
            size <= output_net_total(out_view(old(self).output_queue@)),
            old(self).buffer_position + out_discard(
                out_view(old(self).output_queue@),
                size as int,
            ) <= usize::MAX,
        ensures
            final(self).wf(),
            out_view(final(self).output_queue@) == out_after(
                out_view(old(self).output_queue@),
                size as int,
            ),
            final(self).buffer_position == old(self).buffer_position + out_discard(
                out_view(old(self).output_queue@),
                size as int,
            ),
            final(self).buffer@ == old(self).buffer@.skip(
                min(
                    out_discard(out_view(old(self).output_queue@), size as int),
                    old(self).buffer@.len() as int,
                ),
            ),
            final(self).buffer.spec_capacity() == old(self).buffer.spec_capacity(),
            final(self).input_queue == old(self).input_queue,
            final(self).parsed_position == old(self).parsed_position,
            final(self).output_position == old(self).output_position,
            final(self).start_parsing_position == old(self).start_parsing_position,
    {
        let ghost ov0 = out_view(old(self).output_queue@);
        let ghost store0 = old(self).buffer@;
        let ghost total_discard = out_discard(ov0, size as int);
        let mut to_consume: usize = size;
        proof {
            lemma_out_discard_nonneg(ov0, size as int);
            assert(store0.skip(min(0, store0.len() as int)) =~= store0);
        }
        while to_consume > 0
            invariant
                to_consume <= size,
                self.wf(),
                ov0 == out_view(old(self).output_queue@),
                store0 == old(self).buffer@,
                total_discard == out_discard(ov0, size as int),
                old(self).buffer_position + total_discard <= usize::MAX,
                to_consume <= output_net_total(out_view(self.output_queue@)),
                out_after(out_view(self.output_queue@), to_consume as int) == out_after(
                    ov0,
                    size as int,
                ),
                self.buffer_position >= old(self).buffer_position,
                self.buffer_position - old(self).buffer_position + out_discard(
                    out_view(self.output_queue@),
                    to_consume as int,
                ) == total_discard,
                out_discard(out_view(self.output_queue@), to_consume as int) >= 0,
                self.buffer@ == store0.skip(
                    min(self.buffer_position - old(self).buffer_position, store0.len() as int),
                ),
                self.buffer.spec_capacity() == old(self).buffer.spec_capacity(),
                output_gross_total(out_view(self.output_queue@)) <= output_gross_total(ov0),
                self.input_queue == old(self).input_queue,
                self.parsed_position == old(self).parsed_position,
                self.output_position == old(self).output_position,
                self.start_parsing_position == old(self).start_parsing_position,
            decreases self.output_queue@.len(), to_consume,
        {
            proof {
                if self.output_queue@.len() == 0 {
                    assert(out_view(self.output_queue@).len() == 0);
                    assert(output_net_total(out_view(self.output_queue@)) == 0);
                }
            }
            let ghost cur = out_view(self.output_queue@);
            let ghost d_pre = self.buffer_position - old(self).buffer_position;
            let head = self.output_queue.remove(0);
            proof {
                assert(out_view(self.output_queue@) =~= cur.skip(1));
                assert(cur[0] == head@);
                lemma_output_totals_nonneg(cur.skip(1));
            }
            match head {
                OutputElement::Slice(sz) => {
                    let step = if to_consume < sz {
                        to_consume
                    } else {
                        sz
                    };
                    proof {
                        if to_consume >= sz {
                            lemma_out_discard_nonneg(cur.skip(1), to_consume - sz);
                        }
                    }
                    self.buffer_position = self.buffer_position + step;
                    self.buffer.consume(step);
                    proof {
                        lemma_skip_more(store0, d_pre, step as int);
                    }
                    if to_consume >= sz {
                        to_consume = to_consume - sz;
                    } else {
                        let shrunk = OutputElement::Slice(sz - to_consume);
                        self.output_queue.insert(0, shrunk);
                        proof {
                            assert(out_view(self.output_queue@) =~= cur.update(0, shrunk@));
                            assert(cur.update(0, shrunk@)[0] == shrunk@);
                            assert(cur.update(0, shrunk@).skip(1) =~= cur.skip(1));
                        }
                        to_consume = 0;
                    }
                },
                OutputElement::Delete(sz) => {
                    proof {
                        lemma_out_discard_nonneg(cur.skip(1), to_consume as int);
                    }
                    self.buffer_position = self.buffer_position + sz;
                    self.buffer.consume(sz);
                    proof {
                        lemma_skip_more(store0, d_pre, sz as int);
                    }
                },
                OutputElement::Splice(sz) => {
                    if to_consume >= sz {
                        to_consume = to_consume - sz;
                    } else {
                        let shrunk = OutputElement::Splice(sz - to_consume);
                        self.output_queue.insert(0, shrunk);
                        proof {
                            assert(out_view(self.output_queue@) =~= cur.update(0, shrunk@));
                            assert(cur.update(0, shrunk@)[0] == shrunk@);
                            assert(cur.update(0, shrunk@).skip(1) =~= cur.skip(1));
                        }
                        to_consume = 0;
                    }
                },
                OutputElement::Insert(v) => {
                    let vlen = v.len();
                    if to_consume >= vlen {
                        to_consume = to_consume - vlen;
                    } else {
                        let mut kept: Vec<u8> = Vec::new();
                        let mut jj: usize = to_consume;
                        while jj < vlen
                            invariant
                                to_consume <= jj <= vlen,
                                vlen == v@.len(),
                                kept@ == v@.subrange(to_consume as int, jj as int),
                            decreases vlen - jj,
                        {
                            let b = v[jj];
                            kept.push(b);
                            jj = jj + 1;
                            proof {
                                assert(kept@ =~= v@.subrange(to_consume as int, jj as int));
                            }
                        }
                        proof {
                            assert(kept@ =~= v@.skip(to_consume as int));
                        }
                        let shrunk = OutputElement::Insert(kept);
                        self.output_queue.insert(0, shrunk);
                        proof {
                            assert(out_view(self.output_queue@) =~= cur.update(0, shrunk@));
                            assert(cur.update(0, shrunk@)[0] == shrunk@);
                            assert(cur.update(0, shrunk@).skip(1) =~= cur.skip(1));
                        }
                        to_consume = 0;
                    }
                },
            }
        }
    }

    /// Clears both queues, zeroes every position and empties the store's
    /// window, leaving the object as freshly constructed with the same
    /// allocated capacity, ready to be handed out again by a recycling
    /// pool.
    pub fn reset(&mut self)
        ensures
            final(self).wf(),
            final(self).buffer_position == 0,
            final(self).parsed_position == 0,
            final(self).output_position == 0,
            final(self).start_parsing_position == 0,
            final(self).buffer@ == Seq::<u8>::empty(),
            final(self).buffer.spec_capacity() == old(self).buffer.spec_capacity(),
            final(self).input_queue@ == Seq::<InputElement>::empty(),
            final(self).output_queue@ == Seq::<OutputElement>::empty(),
    {
        self.parsed_position = 0;
        self.output_position = 0;
        self.buffer_position = 0;
        self.start_parsing_position = 0;
        self.buffer.reset();
        self.input_queue.clear();
        self.output_queue.clear();
        proof {
            assert(out_view(self.output_queue@) =~= Seq::<OutputDesc>::empty());
        }
    }
}

/// Appending one element adds its length to the input total.
pub proof fn lemma_input_total_push(q: Seq<InputElement>, e: InputElement)
    ensures
        input_total(q.push(e)) == input_total(q) + in_len(e),
    decreases q.len(),
{
    if q.len() == 0 {
        assert(q.push(e)[0] == e);
        assert(q.push(e).skip(1) =~= Seq::<InputElement>::empty());
        assert(input_total(q.push(e).skip(1)) == 0);
        assert(input_total(q.push(e)) == in_len(e));
    } else {
        assert(q.push(e)[0] == q[0]);
        assert(q.push(e).skip(1) =~= q.skip(1).push(e));
        lemma_input_total_push(q.skip(1), e);
        assert(input_total(q.push(e)) == in_len(q[0]) + input_total(q.skip(1).push(e)));
    }
}

/// The input total is a sum of lengths, so it is never negative.
pub proof fn lemma_input_total_nonneg(q: Seq<InputElement>)
    ensures
        input_total(q) >= 0,
    decreases q.len(),
{
    if q.len() > 0 {
        lemma_input_total_nonneg(q.skip(1));
    }
}

/// The output totals are sums of lengths: never negative, and the sent
/// total never exceeds the bookkeeping total.
pub proof fn lemma_output_totals_nonneg(q: Seq<OutputDesc>)
    ensures
        0 <= output_net_total(q),
        output_net_total(q) <= output_gross_total(q),
    decreases q.len(),
{
    if q.len() > 0 {
        lemma_output_totals_nonneg(q.skip(1));
    }
}

/// Appending one element adds its length to each output total.
pub proof fn lemma_output_totals_push(q: Seq<OutputDesc>, e: OutputDesc)
    ensures
        output_gross_total(q.push(e)) == output_gross_total(q) + out_gross(e),
        output_net_total(q.push(e)) == output_net_total(q) + out_net(e),
    decreases q.len(),
{
    if q.len() == 0 {
        assert(q.push(e)[0] == e);
        assert(q.push(e).skip(1) =~= Seq::<OutputDesc>::empty());
        assert(output_gross_total(q.push(e).skip(1)) == 0);
        assert(output_net_total(q.push(e).skip(1)) == 0);
    } else {
        assert(q.push(e)[0] == q[0]);
        assert(q.push(e).skip(1) =~= q.skip(1).push(e));
        lemma_output_totals_push(q.skip(1), e);
        assert(output_gross_total(q.push(e)) == out_gross(q[0]) + output_gross_total(
            q.skip(1).push(e),
        ));
        assert(output_net_total(q.push(e)) == out_net(q[0]) + output_net_total(
            q.skip(1).push(e),
        ));
    }
}

/// Each leading run of the output queue is part of its bookkeeping sum.
pub proof fn lemma_leading_output_le_gross(q: Seq<OutputDesc>)
    ensures
        0 <= leading_output_slices(q),
        leading_output_slices(q) <= output_gross_total(q),
        0 <= leading_output_deletes(q),
        leading_output_deletes(q) <= output_gross_total(q),
    decreases q.len(),
{
    lemma_output_totals_nonneg(q);
    if q.len() > 0 {
        lemma_leading_output_le_gross(q.skip(1));
        lemma_output_totals_nonneg(q.skip(1));
    }
}

/// Pushing an element onto the queue appends its description to the view.
pub proof fn lemma_out_view_push(q: Seq<OutputElement>, e: OutputElement)
    ensures
        out_view(q.push(e)) == out_view(q).push(e@),
{
    assert(out_view(q.push(e)) =~= out_view(q).push(e@));
}

/// The number of elements in the leading `Delete` run is a count.
pub proof fn lemma_delete_run_nonneg(q: Seq<OutputDesc>)
    ensures
        0 <= delete_run(q),
        delete_run(q) <= q.len(),
    decreases q.len(),
{
    if q.len() > 0 {
        lemma_delete_run_nonneg(q.skip(1));
    }
}

/// The physical advance of a consume step is a sum of lengths.
pub proof fn lemma_out_discard_nonneg(q: Seq<OutputDesc>, n: int)
    ensures
        out_discard(q, n) >= 0,
    decreases q.len(),
{
    if n <= 0 || q.len() == 0 {
    } else {
        match q[0] {
            OutputDesc::Slice(sz) => if n >= sz {
                lemma_out_discard_nonneg(q.skip(1), n - sz);
            },
            OutputDesc::Delete(_) => lemma_out_discard_nonneg(q.skip(1), n),
            OutputDesc::Splice(sz) => if n >= sz {
                lemma_out_discard_nonneg(q.skip(1), n - sz);
            },
            OutputDesc::Insert(s) => if n >= s.len() {
                lemma_out_discard_nonneg(q.skip(1), n - s.len());
            },
        }
    }
}

/// Discarding a prefix and then another composes into discarding their
/// sum, each clamped to what is present.
proof fn lemma_skip_more(s: Seq<u8>, a: int, b: int)
    requires
        0 <= a,
        0 <= b,
    ensures
        ({
            let t = s.skip(min(a, s.len() as int));
            t.skip(min(b, t.len() as int)) == s.skip(min(a + b, s.len() as int))
        }),
{
    let t = s.skip(min(a, s.len() as int));
    assert(t.skip(min(b, t.len() as int)) =~= s.skip(min(a + b, s.len() as int)));
}

/// The leading run of input slices is part of the whole input sum.
pub proof fn lemma_leading_input_le_total(q: Seq<InputElement>)
    ensures
        0 <= leading_input_slices(q),
        leading_input_slices(q) <= input_total(q),
    decreases q.len(),
{
    lemma_input_total_nonneg(q);
    if q.len() > 0 {
        lemma_leading_input_le_total(q.skip(1));
        lemma_input_total_nonneg(q.skip(1));
    }
}

/// Unfolds the input total one element at a time, at any position.
proof fn lemma_input_total_step(q: Seq<InputElement>, i: int)
    requires
        0 <= i < q.len(),
    ensures
        input_total(q.skip(i)) == in_len(q[i]) + input_total(q.skip(i + 1)),
{
    assert(q.skip(i).skip(1) =~= q.skip(i + 1));
    assert(q.skip(i)[0] == q[i]);
}

} // verus!
