use crate::queue::{
    delete_run, input_after, input_total, leading_input_slices, leading_output_deletes,
    leading_output_slices, lemma_input_total_nonneg, lemma_output_totals_push, next_chunk,
    next_chunk_fits, out_after, output_net_total, splice_safe, BufferQueue, InputElement,
    OutputDesc,
};
use vstd::prelude::*;

verus! {

/// After bytes land in a fresh queue as one received `Slice`, with nothing
/// consumed yet, the unparsed view is exactly those bytes: what `write`
/// stores is what the parser sees.
pub proof fn lemma_write_round_trip(q: BufferQueue, b: Seq<u8>)
    requires
        b.len() <= usize::MAX,
        q.parsed_position == 0,
        q.buffer@ == b,
        q.input_queue@ == seq![InputElement::Slice(b.len() as usize)],
    ensures
        leading_input_slices(q.input_queue@) == b.len(),
        leading_input_slices(q.input_queue@) <= q.buffer@.len(),
        q.spec_unparsed() == b,
{
    assert(q.input_queue@.len() == 1);
    assert(q.input_queue@[0] == InputElement::Slice(b.len() as usize));
    assert(q.input_queue@.skip(1) =~= Seq::<InputElement>::empty());
    assert(leading_input_slices(q.input_queue@.skip(1)) == 0);
    assert(leading_input_slices(q.input_queue@) == b.len() as usize + leading_input_slices(
        q.input_queue@.skip(1),
    ));
    if b.len() == 0 {
        assert(q.spec_unparsed() =~= b);
    } else {
        assert(q.spec_unparsed() =~= b);
    }
}

/// Conservation under consume: retiring `n` parsed bytes, within what is
/// queued and never stopping inside a `Splice`, shrinks the total queued
/// input by exactly `n`.
pub proof fn lemma_consume_conserves_input(q: Seq<InputElement>, n: int)
    requires
        0 <= n <= input_total(q),
        splice_safe(q, n),
    ensures
        input_total(input_after(q, n)) == input_total(q) - n,
    decreases q.len(),
{
    lemma_input_total_nonneg(q);
    if n > 0 && q.len() > 0 {
        lemma_input_total_nonneg(q.skip(1));
        match q[0] {
            InputElement::Slice(sz) => {
                if n >= sz {
                    lemma_consume_conserves_input(q.skip(1), n - sz);
                } else {
                    let shrunk = InputElement::Slice((sz - n) as usize);
                    assert(q.update(0, shrunk)[0] == shrunk);
                    assert(q.update(0, shrunk).skip(1) =~= q.skip(1));
                }
            },
            InputElement::Splice(sz) => {
                lemma_consume_conserves_input(q.skip(1), n - sz);
            },
        }
    }
}

/// The sent total never counts `Delete` lengths: queuing a delete leaves
/// `output_data_size` unchanged.
pub proof fn lemma_delete_adds_no_output(q: Seq<OutputDesc>, d: nat)
    ensures
        output_net_total(q.push(OutputDesc::Delete(d))) == output_net_total(q),
{
    lemma_output_totals_push(q, OutputDesc::Delete(d));
}

/// A `Delete(d)` followed by a `Slice(s)` on an otherwise drained output
/// queue yields, as the next chunk, the `s` stored bytes that start `d`
/// bytes past the current physical position.
pub proof fn lemma_delete_then_slice_chunk(store: Seq<u8>, d: nat, s: nat)
    requires
        d + s <= store.len(),
    ensures
        next_chunk_fits(seq![OutputDesc::Delete(d), OutputDesc::Slice(s)], store),
        next_chunk(seq![OutputDesc::Delete(d), OutputDesc::Slice(s)], store) == store.subrange(
            d as int,
            d + s as int,
        ),
{
    let q = seq![OutputDesc::Delete(d), OutputDesc::Slice(s)];
    assert(q[0] == OutputDesc::Delete(d));
    assert(q.skip(1) =~= seq![OutputDesc::Slice(s)]);
    assert(q.skip(1)[0] == OutputDesc::Slice(s));
    assert(q.skip(1).skip(1) =~= Seq::<OutputDesc>::empty());
    assert(delete_run(q.skip(1)) == 0);
    assert(delete_run(q) == 1);
    assert(leading_output_deletes(q.skip(1)) == 0);
    assert(leading_output_deletes(q) == d);
    assert(leading_output_slices(q.skip(1).skip(1)) == 0);
    assert(leading_output_slices(q.skip(1)) == s);
}

/// Partially consuming a queued `Insert` keeps exactly its suffix, with
/// everything queued behind it untouched.
pub proof fn lemma_insert_keeps_suffix(v: Seq<u8>, k: int, rest: Seq<OutputDesc>)
    requires
        0 <= k < v.len(),
    ensures
        out_after(seq![OutputDesc::Insert(v)] + rest, k) == seq![OutputDesc::Insert(v.skip(k))]
            + rest,
{
    let q = seq![OutputDesc::Insert(v)] + rest;
    assert(q[0] == OutputDesc::Insert(v));
    if k == 0 {
        assert(v.skip(0) =~= v);
        assert(seq![OutputDesc::Insert(v.skip(0))] + rest =~= q);
    } else {
        assert(q.update(0, OutputDesc::Insert(v.skip(k))) =~= seq![OutputDesc::Insert(v.skip(k))]
            + rest);
    }
}

} // verus!
