use buffer_queue::queue::{BufferQueue, InputElement, OutputElement, StoreFull};

fn filled(bytes: &[u8]) -> BufferQueue {
    let mut q = BufferQueue::with_capacity(100);
    assert_eq!(q.write(bytes), Ok(bytes.len()));
    q
}

#[test]
fn consume() {
    let mut b = filled(b"ABCDEFGHIJ");
    assert_eq!(b.input_queue, vec![InputElement::Slice(10)]);

    assert_eq!(b.unparsed_data(), &b"ABCDEFGHIJ"[..]);
    b.consume_parsed_data(4);
    assert_eq!(b.parsed_position, 4);
    assert_eq!(b.start_parsing_position, 4);
    assert_eq!(b.input_queue, vec![InputElement::Slice(6)]);
    assert_eq!(b.unparsed_data(), &b"EFGHIJ"[..]);

    b.slice_output(4);
    assert_eq!(b.output_queue, vec![OutputElement::Slice(4)]);

    b.insert_output(Vec::from(&b"test"[..]));
    assert_eq!(
        b.output_queue,
        vec![
            OutputElement::Slice(4),
            OutputElement::Insert(Vec::from(&b"test"[..]))
        ]
    );
    assert_eq!(b.next_output_data(), &b"ABCD"[..]);

    b.consume_output_data(2);
    assert_eq!(b.next_output_data(), &b"CD"[..]);

    b.consume_parsed_data(8);
    assert_eq!(b.parsed_position, 10);
    assert_eq!(b.start_parsing_position, 12);
    assert_eq!(b.input_queue, vec![]);

    assert_eq!(b.unparsed_data(), &b""[..]);

    b.consume_output_data(2);
    assert_eq!(b.next_output_data(), &b"test"[..]);
    b.consume_output_data(2);
    assert_eq!(b.next_output_data(), &b"st"[..]);

    b.delete_output(2);
    b.slice_output(4);
    assert_eq!(
        b.output_queue,
        vec![
            OutputElement::Insert(Vec::from(&b"st"[..])),
            OutputElement::Delete(2),
            OutputElement::Slice(4)
        ]
    );

    b.consume_output_data(2);
    assert_eq!(
        b.output_queue,
        vec![OutputElement::Delete(2), OutputElement::Slice(4)]
    );
    assert_eq!(b.next_output_data(), &b"GHIJ"[..]);

    b.consume_output_data(1);
    assert_eq!(b.output_queue, vec![OutputElement::Slice(3)]);
    assert_eq!(b.next_output_data(), &b"HIJ"[..]);

    let _ = b.write(&b"KLMNOP"[..]);
}

#[test]
fn round_trip_write_then_unparsed() {
    let q = filled(b"hello");
    assert_eq!(q.unparsed_data(), &b"hello"[..]);
}

#[test]
fn round_trip_empty_write() {
    let mut q = BufferQueue::with_capacity(8);
    assert_eq!(q.write(&b""[..]), Ok(0));
    assert_eq!(q.input_queue, vec![InputElement::Slice(0)]);
    assert_eq!(q.unparsed_data(), &b""[..]);
}

#[test]
fn input_accounting_equivalence() {
    let mut q = filled(b"abcdef");
    q.spliced_input(100);
    assert_eq!(q.write(b"gh"), Ok(2));
    assert_eq!(q.available_input_data(), 108);
    assert_eq!(q.input_data_size(), q.available_input_data());
    q.consume_parsed_data(4);
    assert_eq!(q.input_data_size(), q.available_input_data());
}

#[test]
fn conservation_under_consume() {
    let mut q = filled(b"abcdefgh");
    q.spliced_input(5);
    let before = q.input_data_size();
    assert_eq!(before, 13);
    q.consume_parsed_data(3);
    assert_eq!(q.input_data_size(), before - 3);
    q.consume_parsed_data(10);
    assert_eq!(q.input_data_size(), 0);
}

#[test]
fn output_size_excludes_deletes() {
    let mut q = filled(b"0123456789");
    q.slice_output(4);
    q.insert_output(Vec::from(&b"abc"[..]));
    q.splice_output(5);
    assert_eq!(q.output_data_size(), 12);
    q.delete_output(7);
    assert_eq!(q.output_data_size(), 12);
    assert_eq!(q.merge_output_slices(), 4);
}

#[test]
fn delete_then_slice_chunking() {
    let mut q = filled(b"wxyz89");
    q.delete_output(3);
    q.slice_output(2);
    assert_eq!(q.merge_output_deletes(), 3);
    assert_eq!(q.next_output_data(), &b"z8"[..]);
}

#[test]
fn insert_suffix_preservation() {
    let mut q = BufferQueue::with_capacity(8);
    q.insert_output(Vec::from(&b"abcd"[..]));
    q.consume_output_data(1);
    assert_eq!(
        q.output_queue,
        vec![OutputElement::Insert(Vec::from(&b"bcd"[..]))]
    );
    assert_eq!(q.next_output_data(), &b"bcd"[..]);
    q.consume_output_data(2);
    assert_eq!(q.next_output_data(), &b"d"[..]);
}

#[test]
fn write_reports_backpressure_when_full() {
    let mut q = BufferQueue::with_capacity(4);
    assert_eq!(q.write(b"abcd"), Ok(4));
    assert_eq!(q.write(b"e"), Err(StoreFull));
    assert_eq!(q.input_queue, vec![InputElement::Slice(4)]);
}

#[test]
fn write_takes_what_fits() {
    let mut q = BufferQueue::with_capacity(4);
    assert_eq!(q.write(b"abcdef"), Ok(4));
    assert_eq!(q.input_queue, vec![InputElement::Slice(4)]);
    assert_eq!(q.unparsed_data(), &b"abcd"[..]);
}

#[test]
fn flush_is_a_no_op() {
    let mut q = filled(b"abc");
    assert_eq!(q.flush(), Ok(()));
    assert_eq!(q.unparsed_data(), &b"abc"[..]);
}

#[test]
fn merge_input_slices_stops_at_splice() {
    let mut q = filled(b"abcd");
    q.spliced_input(50);
    assert_eq!(q.write(b"ef"), Ok(2));
    assert_eq!(q.merge_input_slices(), 4);
    assert_eq!(q.input_data_size(), 56);
}

#[test]
fn splice_input_is_consumed_whole() {
    let mut q = filled(b"abcd");
    q.spliced_input(5);
    q.consume_parsed_data(9);
    assert_eq!(q.input_queue, vec![]);
    assert_eq!(q.parsed_position, 9);
    assert_eq!(q.start_parsing_position, 9);
}

#[test]
fn splice_output_yields_no_chunk() {
    let mut q = filled(b"abcd");
    q.splice_output(5);
    assert_eq!(q.next_output_data(), &b""[..]);
    q.consume_output_data(2);
    assert_eq!(q.output_queue, vec![OutputElement::Splice(3)]);
    q.consume_output_data(3);
    assert_eq!(q.output_queue, vec![]);
    assert_eq!(q.unparsed_data(), &b"abcd"[..]);
}

#[test]
fn consume_output_slices_discards_stored_bytes() {
    let mut q = filled(b"abcdef");
    q.slice_output(3);
    q.slice_output(2);
    assert_eq!(q.merge_output_slices(), 5);
    assert_eq!(q.next_output_data(), &b"abcde"[..]);
    q.consume_output_data(4);
    assert_eq!(q.buffer_position, 4);
    assert_eq!(q.output_queue, vec![OutputElement::Slice(1)]);
    assert_eq!(q.next_output_data(), &b"e"[..]);
}

#[test]
fn output_size_of_only_deletes_is_zero() {
    let mut q = filled(b"abcd");
    q.delete_output(2);
    q.delete_output(1);
    assert_eq!(q.output_data_size(), 0);
    assert_eq!(q.merge_output_deletes(), 3);
}

#[test]
fn next_chunk_of_empty_queue_is_empty() {
    let q = filled(b"abcd");
    assert_eq!(q.next_output_data(), &b""[..]);
}

#[test]
fn unparsed_view_clamps_past_stored_bytes() {
    let mut q = filled(b"ab");
    q.spliced_input(3);
    q.consume_parsed_data(5);
    assert_eq!(q.parsed_position, 5);
    assert_eq!(q.write(b"cd"), Ok(2));
    // two stored bytes are queued, but the parsed position lies past the
    // four bytes present, so the clamped view is empty
    assert_eq!(q.merge_input_slices(), 2);
    assert_eq!(q.unparsed_data(), &b""[..]);
}

#[test]
fn reset_leaves_a_fresh_queue() {
    let mut q = filled(b"abcdef");
    q.spliced_input(3);
    q.slice_output(2);
    q.insert_output(Vec::from(&b"xy"[..]));
    q.consume_parsed_data(5);
    q.consume_output_data(2);
    q.reset();
    assert_eq!(q.buffer_position, 0);
    assert_eq!(q.parsed_position, 0);
    assert_eq!(q.output_position, 0);
    assert_eq!(q.start_parsing_position, 0);
    assert_eq!(q.input_queue, vec![]);
    assert_eq!(q.output_queue, vec![]);
    assert_eq!(q.input_data_size(), 0);
    assert_eq!(q.output_data_size(), 0);
    assert_eq!(q.unparsed_data(), &b""[..]);
    assert_eq!(q.write(b"new"), Ok(3));
    assert_eq!(q.unparsed_data(), &b"new"[..]);
}
