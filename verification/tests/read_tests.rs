use waypipe_core::read::{ReadBuffer, ReadError};

fn header(len: usize, typ: u32) -> [u8; 4] {
    (((len as u32) << 5) | typ).to_le_bytes()
}

fn message(len: usize, typ: u32, fill: u8) -> Vec<u8> {
    let mut m = header(len, typ).to_vec();
    let padded = (len + 3) / 4 * 4;
    m.resize(padded, fill);
    m
}

#[test]
fn whole_messages_are_queued_in_order() {
    let mut rb = ReadBuffer::new();
    let mut input = Vec::new();
    for i in 0..50u8 {
        input.extend_from_slice(&message(8 + (i as usize % 5), 16, i));
    }
    assert!(rb.push_bytes(&input).is_ok());
    let mut concat = Vec::new();
    let mut n = 0;
    while let Some(m) = rb.pop_next_msg() {
        concat.extend_from_slice(m.get());
        n += 1;
    }
    assert_eq!(n, 50);
    assert_eq!(concat, input);
}

#[test]
fn byte_by_byte_input_yields_the_same_messages() {
    let mut rb = ReadBuffer::new();
    let mut input = Vec::new();
    for i in 0..20u8 {
        input.extend_from_slice(&message(4 + 3 * i as usize, 0, i));
    }
    for b in &input {
        assert!(rb.push_bytes(&[*b]).is_ok());
    }
    let mut concat = Vec::new();
    while let Some(mut m) = rb.pop_next_msg() {
        concat.extend_from_slice(&m.get()[..4]);
        m.advance(4);
        concat.extend_from_slice(m.get());
    }
    assert_eq!(concat, input);
}

#[test]
fn incomplete_message_waits_for_more_bytes() {
    let mut rb = ReadBuffer::new();
    let m = message(20, 1, 7);
    assert!(rb.push_bytes(&m[..10]).is_ok());
    assert!(rb.pop_next_msg().is_none());
    assert!(rb.push_bytes(&m[10..]).is_ok());
    let got = rb.pop_next_msg().unwrap();
    assert_eq!(got.get(), &m[..]);
    assert!(rb.pop_next_msg().is_none());
}

#[test]
fn header_with_short_length_is_refused() {
    let mut rb = ReadBuffer::new();
    let mut input = message(8, 16, 1);
    input.extend_from_slice(&header(3, 16));
    let r = rb.push_bytes(&input);
    assert!(matches!(r, Err(ReadError::MessageTooShort(3))));
    // The message before the bad header is still delivered.
    assert_eq!(rb.pop_next_msg().unwrap().get(), &message(8, 16, 1)[..]);
}

#[test]
fn get_mut_sees_whole_message() {
    let mut rb = ReadBuffer::new();
    let len = 10 * 1024;
    let m = message(len, 0, 0);
    assert!(rb.push_bytes(&m).is_ok());
    let mut v = rb.pop_next_msg().unwrap();
    assert_eq!(v.get_mut().len(), len);
}

const MAX_NORMAL_MSG_SIZE: usize = 1 << 18;
const PIPE_CHUNK: usize = 1 << 16;

fn wmsg_header(len: usize) -> [u8; 4] {
    header(len, 2)
}

fn align4(x: usize) -> usize {
    (x + 3) / 4 * 4
}

fn push_in_chunks(rb: &mut ReadBuffer, input: &[u8], chunk: usize) {
    let mut x = 0;
    while x < input.len() {
        let y = std::cmp::min(chunk, input.len() - x);
        rb.push_bytes(&input[x..x + y]).unwrap();
        x += y;
    }
}

#[test]
fn test_read_buffer() {
    let mut rb = ReadBuffer::new();

    // Many small messages, immediately dequeued.
    for i in 0..(MAX_NORMAL_MSG_SIZE / 2) {
        let mut small_msg = [0u8; 16];
        small_msg[..4].copy_from_slice(&wmsg_header(16));
        small_msg[4..8].copy_from_slice(&(i as u32).to_le_bytes());
        rb.push_bytes(&small_msg).unwrap();
        let nxt = rb.pop_next_msg().unwrap();
        assert!(nxt.get() == small_msg);
    }

    // Long input with many small chunks.
    {
        let mut long_fragmented_input = Vec::<u8>::new();
        for i in 0..(2 * MAX_NORMAL_MSG_SIZE) {
            let mut small_msg = [0u8; 8];
            small_msg[..4].copy_from_slice(&wmsg_header(7));
            small_msg[4..].copy_from_slice(&(i as u32).to_le_bytes());
            long_fragmented_input.extend_from_slice(&small_msg);
        }
        push_in_chunks(&mut rb, &long_fragmented_input, PIPE_CHUNK);
        for i in 0..(2 * MAX_NORMAL_MSG_SIZE) {
            let nxt = rb.pop_next_msg().unwrap();
            let val = u32::from_le_bytes(nxt.get()[4..].try_into().unwrap());
            assert!(val == i as u32);
        }
    }

    // Very long input, needs oversize buffer.
    {
        let mut ultra_long_input = Vec::<u8>::new();
        let len = 10 * MAX_NORMAL_MSG_SIZE;
        ultra_long_input.resize(len, 0);
        ultra_long_input[..4].copy_from_slice(&wmsg_header(len));
        push_in_chunks(&mut rb, &ultra_long_input, PIPE_CHUNK);
        assert!(rb.pop_next_msg().unwrap().get_mut().len() == len);
    }

    // Many long chunks.
    {
        let mut long_block_input = Vec::<u8>::new();
        let mut long_msg = vec![0; align4(MAX_NORMAL_MSG_SIZE)];
        long_msg[..4].copy_from_slice(&wmsg_header(MAX_NORMAL_MSG_SIZE));
        for _ in 0..20 {
            long_block_input.extend_from_slice(&long_msg);
        }
        push_in_chunks(&mut rb, &long_block_input, PIPE_CHUNK);
        let mut concat = Vec::<u8>::new();
        while concat.len() < long_block_input.len() {
            concat.extend_from_slice(rb.pop_next_msg().unwrap().get());
        }
        assert!(concat == long_block_input);
    }

    // Mixture of lengths, initially sent byte-by-byte.
    {
        let mut long_mixed_input = Vec::<u8>::new();
        let mut i = 0;
        let zero_slice = &[0; 1004];
        while long_mixed_input.len() < 8 * MAX_NORMAL_MSG_SIZE {
            let length = 4 + i % 1000;
            i += 1;
            long_mixed_input.extend_from_slice(&wmsg_header(length));
            long_mixed_input.extend_from_slice(&zero_slice[..align4(length - 4)]);
        }
        let mut x = 0;
        while x < long_mixed_input.len() {
            let step = if x < 10000 { 1 } else { 100 };
            let end = std::cmp::min(x + step, long_mixed_input.len());
            rb.push_bytes(&long_mixed_input[x..end]).unwrap();
            x = end;
        }
        let mut concat = Vec::<u8>::new();
        while concat.len() < long_mixed_input.len() {
            let mut nxt = rb.pop_next_msg().unwrap();
            concat.extend_from_slice(&nxt.get()[..4]);
            nxt.advance(4);
            concat.extend_from_slice(nxt.get());
        }
        assert!(concat == long_mixed_input);
    }
}
