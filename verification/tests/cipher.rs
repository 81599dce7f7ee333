use feistel::basic::{CounterKeySource, OrRoundFunction};
use feistel::padding::Pkcs7;
use feistel::{cipher, decipher, execute_rounds};

#[test]
fn test() {
    let message = b"Hello, World!";
    let key = b"Password";

    let ciphered = {
        let mut keys_to_cipher = CounterKeySource::ascending(key.to_vec(), 0);
        cipher(
            &message[..],
            16,
            &Pkcs7,
            &mut keys_to_cipher,
            &OrRoundFunction,
            50,
        )
    };

    let deciphered = {
        let mut keys_to_decipher = CounterKeySource::descending(key.to_vec(), 49);
        decipher(
            &ciphered[..],
            16,
            &mut keys_to_decipher,
            &OrRoundFunction,
            50,
            &Pkcs7,
        )
        .unwrap()
    };

    assert_eq!(&message[..], &deciphered[..]);
}

#[test]
fn one_round_exact_value() {
    // One block of two bytes, one round: the message byte 0x0F is padded
    // with a single 0x01, the halves are [0x0F] and [0x01], and the round
    // key is 0xF0 (the key byte XORed with counter 0).  The new right half
    // is 0x0F ^ (0x01 | 0xF0) = 0xFE, and the final swap puts it first.
    let mut keys = CounterKeySource::ascending(vec![0xF0], 0);
    let ciphered = cipher(&[0x0F], 2, &Pkcs7, &mut keys, &OrRoundFunction, 1);
    assert_eq!(ciphered, vec![0xFE, 0x01]);
}

#[test]
fn multi_block_round_trip() {
    // With a single round per block, the deciphering key sequence of each
    // block is that block's enciphering sequence reversed trivially, so the
    // very same ascending counter source round-trips a multi-block message.
    let message: Vec<u8> = (0u8..30).collect();
    let mut enc_keys = CounterKeySource::ascending(b"Password".to_vec(), 0);
    let ciphered = cipher(&message[..], 8, &Pkcs7, &mut enc_keys, &OrRoundFunction, 1);
    assert_eq!(ciphered.len(), 32);

    let mut dec_keys = CounterKeySource::ascending(b"Password".to_vec(), 0);
    let deciphered = decipher(&ciphered[..], 8, &mut dec_keys, &OrRoundFunction, 1, &Pkcs7)
        .unwrap();
    assert_eq!(deciphered, message);
}

#[test]
fn engine_determinism() {
    let data: Vec<u8> = vec![1, 2, 3, 4, 5, 6, 7, 8, 9, 10, 11, 12, 13, 14, 15, 16];
    let mut first = data.clone();
    let mut second = data.clone();
    let mut keys_first = CounterKeySource::ascending(b"Password".to_vec(), 7);
    let mut keys_second = CounterKeySource::ascending(b"Password".to_vec(), 7);
    execute_rounds(&mut first, 8, &mut keys_first, &OrRoundFunction, 5);
    execute_rounds(&mut second, 8, &mut keys_second, &OrRoundFunction, 5);
    assert_eq!(first, second);
    assert_ne!(first, data);
}

#[test]
fn cipher_determinism() {
    let message = b"a longer message spanning several blocks";
    let mut keys_first = CounterKeySource::ascending(b"Password".to_vec(), 0);
    let mut keys_second = CounterKeySource::ascending(b"Password".to_vec(), 0);
    let first = cipher(&message[..], 16, &Pkcs7, &mut keys_first, &OrRoundFunction, 50);
    let second = cipher(&message[..], 16, &Pkcs7, &mut keys_second, &OrRoundFunction, 50);
    assert_eq!(first, second);
}

#[test]
fn decipher_propagates_padding_failure() {
    // An empty ciphertext deciphers to an empty buffer, whose padding
    // removal fails; decipher reports that failure instead of a message.
    let mut keys = CounterKeySource::descending(b"Password".to_vec(), 49);
    let outcome = decipher(&[], 16, &mut keys, &OrRoundFunction, 50, &Pkcs7);
    match outcome {
        Ok(_) => panic!("deciphering an empty message must fail"),
        Err(e) => assert_eq!(e.reason(), "Empty message."),
    }
}

#[test]
fn counter_wrap_round_trip() {
    // The enciphering counter starts at 250 and wraps past 255 during the
    // ten rounds; the deciphering counter starts at the last value drawn,
    // (250 + 9) mod 256 = 3, and wraps back below zero.
    let message = b"wrap";
    let mut enc_keys = CounterKeySource::ascending(b"Password".to_vec(), 250);
    let ciphered = cipher(&message[..], 6, &Pkcs7, &mut enc_keys, &OrRoundFunction, 10);

    let mut dec_keys = CounterKeySource::descending(b"Password".to_vec(), 3);
    let deciphered = decipher(&ciphered[..], 6, &mut dec_keys, &OrRoundFunction, 10, &Pkcs7)
        .unwrap();
    assert_eq!(&message[..], &deciphered[..]);
}

#[test]
fn zero_rounds_only_swap_halves() {
    // With zero rounds the final corrective swap still runs: each block
    // comes out with its halves exchanged, so the data is not protected.
    let data: Vec<u8> = vec![1, 2, 3, 4, 9, 9, 9, 9];
    let mut buffer = data.clone();
    let mut keys = CounterKeySource::ascending(b"Password".to_vec(), 0);
    execute_rounds(&mut buffer, 8, &mut keys, &OrRoundFunction, 0);
    assert_eq!(buffer, vec![9, 9, 9, 9, 1, 2, 3, 4]);
}
