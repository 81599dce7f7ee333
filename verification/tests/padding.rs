use feistel::padding::{add_padding, remove_padding};

#[test]
fn add_padding_example() {
    let msg = b"Hello, World!";
    let mut expected = msg.to_vec();
    expected.push(2);
    expected.push(2);
    let padded = add_padding(&msg[..], 15);
    assert_eq!(padded, expected);
}

#[test]
fn full_block_on_exact_multiple() {
    // A message whose length is already a multiple of the block size still
    // receives a whole extra block of padding.
    let msg: Vec<u8> = vec![7; 16];
    let padded = add_padding(&msg[..], 16);
    assert_eq!(padded.len(), msg.len() + 16);
    assert_eq!(&padded[..16], &msg[..]);
    assert_eq!(&padded[16..], &[16u8; 16][..]);
}

#[test]
fn padding_round_trip() {
    let messages: Vec<Vec<u8>> = vec![
        vec![],
        vec![0],
        b"Hello, World!".to_vec(),
        (0u8..64).collect(),
        vec![5; 5],
    ];
    let block_sizes: Vec<usize> = vec![1, 2, 5, 15, 16, 255];
    for msg in &messages {
        for &bs in &block_sizes {
            let mut padded = add_padding(&msg[..], bs);
            assert_eq!(padded.len() % bs, 0);
            remove_padding(&mut padded).unwrap();
            assert_eq!(&padded, msg);
        }
    }
}

#[test]
fn remove_empty_fails() {
    let mut msg: Vec<u8> = Vec::new();
    let err = remove_padding(&mut msg).unwrap_err();
    assert_eq!(err.reason(), "Empty message.");
    assert!(msg.is_empty());
}

#[test]
fn remove_zero_tag_fails() {
    let mut msg: Vec<u8> = vec![5, 0];
    let err = remove_padding(&mut msg).unwrap_err();
    assert_eq!(err.reason(), "Padding number cannot be 0.");
    assert_eq!(msg, vec![5, 0]);
}

#[test]
fn remove_inconsistent_tail_fails() {
    // The last two bytes disagree: the tag says five bytes of value 5, but
    // the byte before it is a 3.  The mismatching byte is popped too.
    let mut msg: Vec<u8> = vec![9, 9, 9, 3, 5];
    let err = remove_padding(&mut msg).unwrap_err();
    assert_eq!(err.reason(), "Malformed padding.");
    assert_eq!(msg, vec![9, 9, 9]);
}

#[test]
fn remove_runs_out_of_bytes_fails() {
    // The tag asks for four bytes but the whole message is only three.
    let mut msg: Vec<u8> = vec![4, 4, 4];
    let err = remove_padding(&mut msg).unwrap_err();
    assert_eq!(err.reason(), "Malformed padding.");
    assert!(msg.is_empty());
}

#[test]
fn block_size_256_tag_wraps_to_zero() {
    // On a message whose length is a multiple of 256, a block size of 256
    // calls for 256 bytes of padding, whose tag wraps to the byte 0 — so
    // removal rejects what addition produced.
    let mut padded = add_padding(&[], 256);
    assert_eq!(padded.len(), 256);
    assert!(padded.iter().all(|&b| b == 0));
    let err = remove_padding(&mut padded).unwrap_err();
    assert_eq!(err.reason(), "Padding number cannot be 0.");
}

#[test]
fn extra_copies_of_tag_stay() {
    // Only `tag` bytes are removed, even when more bytes happen to carry
    // the tag value.
    let mut msg: Vec<u8> = vec![2, 2, 2, 2];
    remove_padding(&mut msg).unwrap();
    assert_eq!(msg, vec![2, 2]);
}
