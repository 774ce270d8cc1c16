use msgp::{encode, Decoder, FrameError};

fn drain(decoder: &mut Decoder) -> Vec<Vec<u8>> {
    let mut out = Vec::new();
    while let Some(payload) = decoder.read() {
        out.push(payload);
    }
    out
}

#[test]
fn decoder_sim() {
    let mut decoder = Decoder::new();
    decoder.feed(&encode(&vec![0xffu8; 16384])).unwrap();
    assert_eq!(decoder.read().unwrap(), vec![0xffu8; 16384]);
}

#[test]
fn decoder_starts_empty() {
    let mut decoder = Decoder::new();
    assert_eq!(decoder.buffer_len(), 0);
    assert_eq!(decoder.result_len(), 0);
    assert_eq!(decoder.read(), None);
    assert_eq!(decoder.feed(&[]), Ok(0));
    assert_eq!(decoder.buffer_len(), 0);
}

#[test]
fn decoder_byte_by_byte() {
    let payload: Vec<u8> = (0..200usize).map(|i| i as u8).collect();
    let stream = encode(&payload);
    let mut decoder = Decoder::new();
    for (i, byte) in stream.iter().enumerate() {
        let last = i + 1 == stream.len();
        assert_eq!(decoder.feed(&[*byte]), Ok(if last { 1 } else { 0 }));
        if last {
            assert_eq!(decoder.buffer_len(), 0);
            assert_eq!(decoder.read(), Some(payload.clone()));
        } else {
            assert_eq!(decoder.buffer_len(), i + 1);
            assert_eq!(decoder.read(), None);
        }
    }
    assert_eq!(decoder.read(), None);
}

#[test]
fn decoder_any_cut_in_two() {
    let payload = vec![0x42u8; 130];
    let stream = encode(&payload);
    for cut in 0..=stream.len() {
        let mut decoder = Decoder::new();
        let first = decoder.feed(&stream[..cut]).unwrap();
        let second = decoder.feed(&stream[cut..]).unwrap();
        assert_eq!(first + second, 1);
        assert_eq!(first, if cut == stream.len() { 1 } else { 0 });
        assert_eq!(drain(&mut decoder), vec![payload.clone()]);
        assert_eq!(decoder.buffer_len(), 0);
    }
}

#[test]
fn decoder_chunks_of_every_size() {
    let payloads: Vec<Vec<u8>> = vec![
        vec![1u8, 2u8, 3u8],
        vec![],
        vec![0x99u8; 128],
        vec![0x07u8; 20000],
        vec![],
        vec![0xffu8],
    ];
    let mut stream = Vec::new();
    for payload in &payloads {
        stream.extend_from_slice(&encode(payload));
    }
    for size in [1usize, 2, 3, 5, 127, 128, 129, 4096, 30000] {
        let mut decoder = Decoder::new();
        let mut count = 0;
        let mut got = Vec::new();
        for chunk in stream.chunks(size) {
            count += decoder.feed(chunk).unwrap();
            got.append(&mut drain(&mut decoder));
        }
        assert_eq!(count, payloads.len());
        assert_eq!(got, payloads);
        assert_eq!(decoder.buffer_len(), 0);
        assert_eq!(decoder.result_len(), 0);
    }
}

#[test]
fn decoder_two_frames_in_one_feed() {
    let a = vec![0x0au8; 10];
    let b = vec![0x0bu8; 300];
    let mut stream = encode(&a);
    stream.extend_from_slice(&encode(&b));
    let mut decoder = Decoder::new();
    assert_eq!(decoder.feed(&stream), Ok(2));
    assert_eq!(decoder.result_len(), 2);
    assert_eq!(decoder.buffer_len(), 0);
    assert_eq!(decoder.read(), Some(a));
    assert_eq!(decoder.result_len(), 1);
    assert_eq!(decoder.read(), Some(b));
    assert_eq!(decoder.result_len(), 0);
    assert_eq!(decoder.read(), None);
}

#[test]
fn decoder_keeps_empty_payloads() {
    let mut stream = encode(&[]);
    stream.extend_from_slice(&encode(&[1u8, 2u8, 3u8]));
    stream.extend_from_slice(&encode(&[]));
    assert_eq!(stream, vec![0x00u8, 0x03u8, 0x01u8, 0x02u8, 0x03u8, 0x00u8]);
    let mut decoder = Decoder::new();
    assert_eq!(decoder.feed(&stream), Ok(3));
    assert_eq!(decoder.read(), Some(vec![]));
    assert_eq!(decoder.read(), Some(vec![1u8, 2u8, 3u8]));
    assert_eq!(decoder.read(), Some(vec![]));
    assert_eq!(decoder.read(), None);
}

#[test]
fn decoder_empty_payload_alone() {
    let mut decoder = Decoder::new();
    assert_eq!(decoder.feed(&[0x00u8]), Ok(1));
    assert_eq!(decoder.buffer_len(), 0);
    assert_eq!(decoder.read(), Some(vec![]));
}

#[test]
fn decoder_counts_pending_bytes_only() {
    let mut stream = encode(&[5u8; 9]);
    stream.extend_from_slice(&[0x04u8, 0x01u8]);
    let mut decoder = Decoder::new();
    assert_eq!(decoder.feed(&stream), Ok(1));
    assert_eq!(decoder.result_len(), 1);
    assert_eq!(decoder.buffer_len(), 2);
    assert_eq!(decoder.feed(&[0x02u8, 0x03u8]), Ok(0));
    assert_eq!(decoder.buffer_len(), 4);
    assert_eq!(decoder.feed(&[0x04u8]), Ok(1));
    assert_eq!(decoder.buffer_len(), 0);
    assert_eq!(drain(&mut decoder), vec![vec![5u8; 9], vec![1u8, 2u8, 3u8, 4u8]]);
}

#[test]
fn decoder_waits_inside_a_prefix() {
    let mut decoder = Decoder::new();
    assert_eq!(decoder.feed(&[0x81u8]), Ok(0));
    assert_eq!(decoder.buffer_len(), 1);
    assert_eq!(decoder.feed(&[0x80u8]), Ok(0));
    assert_eq!(decoder.feed(&[0x80u8]), Ok(0));
    assert_eq!(decoder.buffer_len(), 3);
    assert_eq!(decoder.feed(&[0x00u8]), Ok(0));
    assert_eq!(decoder.buffer_len(), 4);
    assert_eq!(decoder.feed(&vec![0x33u8; 2097151]), Ok(0));
    assert_eq!(decoder.result_len(), 0);
    assert_eq!(decoder.feed(&[0x34u8]), Ok(1));
    let mut payload = vec![0x33u8; 2097151];
    payload.push(0x34u8);
    assert_eq!(decoder.read(), Some(payload));
}

#[test]
fn decoder_rejects_a_fourth_continuation_byte() {
    let mut decoder = Decoder::new();
    assert_eq!(
        decoder.feed(&[0x81u8, 0x80u8, 0x80u8, 0x80u8, 0x00u8]),
        Err(FrameError::PrefixTooLong)
    );

    let mut decoder = Decoder::new();
    assert_eq!(decoder.feed(&[0xffu8, 0xffu8, 0xffu8]), Ok(0));
    assert_eq!(decoder.feed(&[0xffu8]), Err(FrameError::PrefixTooLong));
}

#[test]
fn decoder_error_keeps_earlier_payloads_and_stays() {
    let mut stream = encode(&[1u8]);
    stream.extend_from_slice(&encode(&[2u8, 3u8]));
    stream.extend_from_slice(&[0x80u8, 0x80u8, 0x80u8, 0x80u8]);
    let mut decoder = Decoder::new();
    assert_eq!(decoder.feed(&stream), Err(FrameError::PrefixTooLong));
    assert_eq!(decoder.result_len(), 2);
    assert_eq!(decoder.buffer_len(), 4);
    assert_eq!(decoder.feed(&encode(&[4u8])), Err(FrameError::PrefixTooLong));
    assert_eq!(decoder.buffer_len(), 6);
    assert_eq!(drain(&mut decoder), vec![vec![1u8], vec![2u8, 3u8]]);
}

#[test]
fn decoder_is_fresh_after_a_drain() {
    let mut used = Decoder::new();
    assert_eq!(used.feed(&encode(&[9u8; 500])), Ok(1));
    assert_eq!(used.feed(&encode(&[])), Ok(1));
    assert_eq!(drain(&mut used).len(), 2);
    assert_eq!(used.buffer_len(), 0);
    assert_eq!(used.result_len(), 0);

    let mut fresh = Decoder::new();
    let mut stream = encode(&[1u8, 2u8]);
    stream.extend_from_slice(&[0x03u8, 0x07u8]);
    assert_eq!(used.feed(&stream), fresh.feed(&stream));
    assert_eq!(used.buffer_len(), fresh.buffer_len());
    assert_eq!(used.result_len(), fresh.result_len());
    assert_eq!(used.read(), fresh.read());
    assert_eq!(used.feed(&[0x08u8, 0x09u8]), fresh.feed(&[0x08u8, 0x09u8]));
    assert_eq!(used.read(), Some(vec![7u8, 8u8, 9u8]));
    assert_eq!(fresh.read(), Some(vec![7u8, 8u8, 9u8]));
}

#[test]
fn decoder_reads_do_not_touch_pending_bytes() {
    let mut stream = encode(&[1u8]);
    stream.extend_from_slice(&[0x02u8, 0x05u8]);
    let mut decoder = Decoder::new();
    assert_eq!(decoder.feed(&stream), Ok(1));
    assert_eq!(decoder.read(), Some(vec![1u8]));
    assert_eq!(decoder.read(), None);
    assert_eq!(decoder.buffer_len(), 2);
    assert_eq!(decoder.feed(&[0x06u8]), Ok(1));
    assert_eq!(decoder.read(), Some(vec![5u8, 6u8]));
}

#[test]
fn error_message() {
    assert_eq!(
        FrameError::PrefixTooLong.message(),
        "size prefix announces a payload of 268435456 bytes or more"
    );
}
