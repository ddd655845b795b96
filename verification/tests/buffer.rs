use turborand::internal::buffer::EntropyBuffer;

#[test]
fn buffer_initialises_as_empty() {
    let buffer = EntropyBuffer::<8>::new();

    assert!(buffer.is_empty(), "Buffer should be empty on init");
}

#[test]
fn initialises_as_empty() {
    let buffer = EntropyBuffer::<64>::new();

    assert!(buffer.is_empty(), "Buffer should be empty on init");
    assert_eq!(buffer.remaining_buffer(), 0);
    assert_eq!(buffer.get_cursor(), EntropyBuffer::<64>::total_bytes());
}

#[test]
fn buffer_fills_byte_slices() {
    let mut buffer = EntropyBuffer::<8>::new();

    buffer.reset_buffer(&[1, 2]);

    assert!(!buffer.is_empty());

    let mut output = [0u8; 4];

    let filled = buffer.fill(&mut output);

    assert_eq!(&output, &[1, 0, 0, 0]);
    assert_eq!(&filled, &4);
    assert_eq!(&buffer.get_cursor(), &4);
    assert!(!buffer.is_empty());

    let mut output = [0u8; 6];

    let filled = buffer.fill(&mut output);

    assert_eq!(&output, &[2, 0, 0, 0, 0, 0]);
    assert_eq!(&filled, &4);
    assert_eq!(&buffer.get_cursor(), &8);
    assert!(buffer.is_empty());

    buffer.reset_buffer(&[1, 2]);

    assert!(!buffer.is_empty());

    let filled = buffer.fill(&mut output[filled..]);

    assert_eq!(&output, &[2, 0, 0, 0, 1, 0]);
    assert_eq!(&filled, &2);
    assert_eq!(&buffer.get_cursor(), &2);
}

#[test]
fn clone_buffer() {
    let mut buffer = EntropyBuffer::<8>::new();

    buffer.update_entropy(((2u64 << 32) | 1).to_le_bytes());

    let mut output = [0u8; 4];

    // Modify the buffer to have a new state.
    buffer.fill(&mut output);

    // Clone the buffer
    let cloned = buffer.clone();

    // Check if the cloned buffer has the same state as the original
    assert_eq!(&buffer, &cloned);
}

#[test]
fn fill_bytes_with_source_uses_the_cache_before_the_source() {
    let calls = std::cell::Cell::new(0u8);
    let source = || {
        calls.set(calls.get() + 1);
        [calls.get(); 4]
    };

    let mut buffer = EntropyBuffer::<4>::new();

    // A read of nothing asks for nothing.
    let mut output = [0u8; 0];
    buffer.fill_bytes_with_source(&mut output, &source);
    assert_eq!(calls.get(), 0);
    assert!(buffer.is_empty());

    // Three bytes take one block and leave one byte cached.
    let mut output = [0u8; 3];
    buffer.fill_bytes_with_source(&mut output, &source);
    assert_eq!(output, [1, 1, 1]);
    assert_eq!(calls.get(), 1);
    assert_eq!(buffer.remaining_buffer(), 1);

    // Six more bytes: the cached byte, one whole block, one byte of a third.
    let mut output = [0u8; 6];
    buffer.fill_bytes_with_source(&mut output, &source);
    assert_eq!(output, [1, 2, 2, 2, 2, 3]);
    assert_eq!(calls.get(), 3);
    assert_eq!(buffer.get_cursor(), 1);
    assert_eq!(buffer.get_buffer(), &[3, 3, 3, 3]);

    // Exactly what is cached: no block is pulled ahead of need.
    let mut output = [0u8; 3];
    buffer.fill_bytes_with_source(&mut output, &source);
    assert_eq!(output, [3, 3, 3]);
    assert_eq!(calls.get(), 3);
    assert!(buffer.is_empty());
}

#[test]
fn single_byte_reads_from_the_buffer_equal_one_long_read() {
    let counter = std::cell::Cell::new(0u8);
    let source = || {
        let start = counter.get();
        counter.set(start.wrapping_add(8));
        [
            start,
            start + 1,
            start + 2,
            start + 3,
            start + 4,
            start + 5,
            start + 6,
            start + 7,
        ]
    };

    let mut buffer = EntropyBuffer::<8>::new();
    let mut collected = Vec::new();

    for _ in 0..50 {
        let mut byte = [0u8; 1];
        buffer.fill_bytes_with_source(&mut byte, &source);
        collected.push(byte[0]);
    }

    assert_eq!(collected, (0..50).collect::<Vec<u8>>());

    let mut long = [0u8; 30];
    buffer.fill_bytes_with_source(&mut long, &source);

    assert_eq!(&long[..], &(50..80).collect::<Vec<u8>>()[..]);
}

#[test]
fn empty_buffer_drops_what_is_cached() {
    let mut buffer = EntropyBuffer::<8>::new();

    buffer.update_entropy([9; 8]);

    assert_eq!(buffer.remaining_buffer(), 8);

    buffer.empty_buffer();

    assert!(buffer.is_empty());
    assert_eq!(buffer.get_buffer(), &[0; 8]);
    assert_eq!(buffer, EntropyBuffer::<8>::new());
    assert_eq!(buffer, EntropyBuffer::<8>::default());
}

#[test]
fn from_serde_restores_buffer_and_cursor() {
    let buffer = EntropyBuffer::<4>::from_serde([1, 2, 3, 4], 3);

    assert_eq!(buffer.get_cursor(), 3);
    assert_eq!(buffer.remaining_buffer(), 1);
    assert!(!buffer.is_empty());

    let mut copy = buffer;
    let mut output = [0u8; 2];

    assert_eq!(copy.fill(&mut output), 1);
    assert_eq!(output, [4, 0]);
    assert_ne!(copy, buffer);
}

#[test]
fn fill_from_writes_behind_the_start() {
    let mut buffer = EntropyBuffer::<4>::from_serde([1, 2, 3, 4], 1);
    let mut output = [9u8; 6];

    assert_eq!(buffer.fill_from(&mut output, 2), 3);
    assert_eq!(output, [9, 9, 2, 3, 4, 9]);
    assert_eq!(buffer.fill_from(&mut output, 6), 0);
}
