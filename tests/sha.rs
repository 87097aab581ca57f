use relayer_utils::sha::{generate_partial_sha, sha256_pad, split_at_selector, PartialShaError};
use sha2::digest::generic_array::GenericArray;
use sha2::{Digest, Sha256};

const IV: [u32; 8] = [
    0x6a09e667, 0xbb67ae85, 0x3c6ef372, 0xa54ff53a, 0x510e527f, 0x9b05688c, 0x1f83d9ab, 0x5be0cd19,
];

fn state_bytes(state: &[u32; 8]) -> Vec<u8> {
    state.iter().flat_map(|w| w.to_be_bytes()).collect()
}

fn compress_from(state: &mut [u32; 8], data: &[u8]) {
    let blocks: Vec<_> = data.chunks(64).map(GenericArray::clone_from_slice).collect();
    sha2::compress256(state, &blocks);
}

#[test]
fn pad_short_message_to_one_block() {
    let (padded, len) = sha256_pad(b"abc".to_vec(), 64);
    assert_eq!(len, 64);
    assert_eq!(padded.len(), 64);
    assert_eq!(&padded[..3], b"abc");
    assert_eq!(padded[3], 0x80);
    assert!(padded[4..56].iter().all(|b| *b == 0));
    assert_eq!(&padded[56..64], &[0, 0, 0, 0, 0, 0, 0, 24]);
}

#[test]
fn pad_extends_to_max_length_and_keeps_bit_length() {
    for n in [0usize, 1, 55, 56, 63, 64, 119, 200] {
        let data = vec![0x61u8; n];
        let max = ((n + 9 + 63) / 64) * 64 + 128;
        let (padded, len) = sha256_pad(data.clone(), max);
        assert_eq!(padded.len(), max);
        assert_eq!(len % 64, 0);
        assert!(len >= n + 9 && len < n + 9 + 64);
        let mut field = [0u8; 8];
        field.copy_from_slice(&padded[len - 8..len]);
        assert_eq!(u64::from_be_bytes(field), (n * 8) as u64);
        assert!(padded[len..].iter().all(|b| *b == 0));
    }
}

fn padded_body() -> (Vec<u8>, usize) {
    let mut body = Vec::new();
    for i in 0..5 {
        body.extend_from_slice(format!("this is line number {} of the body\r\n", i).as_bytes());
    }
    body.extend_from_slice(b"SELECT me\r\n");
    sha256_pad(body, 512)
}

#[test]
fn partial_sha_without_selector_keeps_everything() {
    let (body, len) = padded_body();
    let (state, rest, rest_len) = generate_partial_sha(body.clone(), len, None, 512).unwrap();
    assert_eq!(state, state_bytes(&IV));
    assert_eq!(rest, body);
    assert_eq!(rest_len, len);
}

#[test]
fn partial_sha_splits_on_a_block_boundary() {
    let (body, len) = padded_body();
    let at = body.windows(6).position(|w| w == b"SELECT").unwrap();
    let cut = at / 64 * 64;
    let (state, rest, rest_len) =
        generate_partial_sha(body.clone(), len, Some("SEL+ECT".to_string()), 448).unwrap();
    let mut expected = IV;
    compress_from(&mut expected, &body[..cut]);
    assert_eq!(state, state_bytes(&expected));
    assert_eq!(rest.len(), 448);
    assert_eq!(&rest[..body.len() - cut], &body[cut..]);
    assert_eq!(rest_len, len - cut);
}

#[test]
fn partial_sha_errors() {
    let (body, len) = padded_body();
    assert_eq!(
        generate_partial_sha(body.clone(), len, Some("absent".to_string()), 512),
        Err(PartialShaError::SelectorNotFound)
    );
    assert_eq!(
        generate_partial_sha(body.clone(), len, Some("(".to_string()), 512),
        Err(PartialShaError::InvalidSelector)
    );
    assert_eq!(
        generate_partial_sha(body.clone(), len, None, 64),
        Err(PartialShaError::RemainingBodyTooLong)
    );
    let mut odd = body.clone();
    odd.push(0);
    assert_eq!(
        generate_partial_sha(odd, len, None, 1024),
        Err(PartialShaError::MisalignedPadding)
    );
}

#[test]
fn resuming_from_the_partial_state_gives_the_full_digest() {
    let (body, len) = padded_body();
    let mut original = Vec::new();
    for i in 0..5 {
        original.extend_from_slice(format!("this is line number {} of the body\r\n", i).as_bytes());
    }
    original.extend_from_slice(b"SELECT me\r\n");
    for selector in [None, Some("SELECT".to_string()), Some("line number 2".to_string())] {
        let at = match &selector {
            None => 0,
            Some(s) => body.windows(s.len()).position(|w| w == s.as_bytes()).unwrap(),
        };
        let cut = at / 64 * 64;
        let (state, rest, rest_len) = generate_partial_sha(body.clone(), len, selector, 512).unwrap();
        let mut words = [0u32; 8];
        for (i, w) in state.chunks(4).enumerate() {
            words[i] = u32::from_be_bytes([w[0], w[1], w[2], w[3]]);
        }
        compress_from(&mut words, &rest[..rest_len]);
        assert_eq!(rest_len, len - cut);
        assert_eq!(state_bytes(&words), Sha256::digest(&original).to_vec());
    }
}

#[test]
fn split_at_selector_rounds_down_to_a_block() {
    let data: Vec<u8> = (0u8..128).collect();
    let (prefix, rest, rest_len) = split_at_selector(data.clone(), 120, 70, 128).unwrap();
    assert_eq!(prefix, data[..64].to_vec());
    assert_eq!(&rest[..64], &data[64..]);
    assert_eq!(rest.len(), 128);
    assert!(rest[64..].iter().all(|b| *b == 0));
    assert_eq!(rest_len, 56);
    assert_eq!(split_at_selector(data.clone(), 120, 200, 128), Err(PartialShaError::SelectorOutsideMessage));
    assert_eq!(split_at_selector(data.clone(), 120, 0, 64), Err(PartialShaError::RemainingBodyTooLong));
    assert_eq!(split_at_selector(data[..100].to_vec(), 100, 0, 128), Err(PartialShaError::MisalignedPadding));
}
