use relayer_utils::circuit::{
    build_email_circuit_input, compute_signal_length, external_input_signals,
    find_index_in_body, generate_circuit_inputs, generate_claim_input,
    generate_regex_circuit_inputs, prover_eth_address_signal, regex_search_text,
    remove_quoted_printable_soft_breaks, string_to_circom_bigint_bytes, CircuitError,
    CircuitInputParams, CircuitInputWithDecomposedRegexesAndExternalInputsParams,
    CircuitOptions, CircuitParams, EmailIndices, ExternalInput,
};
use relayer_utils::cryptos::AccountCode;
use relayer_utils::field::{field_to_hex, hex_to_field};
use relayer_utils::sha::{sha256_pad, PartialShaError};

fn body_text() -> Vec<u8> {
    let mut body = Vec::new();
    for i in 0..40 {
        body.extend_from_slice(format!("line {} of the body=\r\n", i).as_bytes());
    }
    body.extend_from_slice(b"Hi! Send 1 ETH\r\n");
    body
}

fn email(header: &[u8], body: Vec<u8>) -> CircuitParams {
    CircuitParams {
        body,
        header: header.to_vec(),
        body_hash_idx: 7,
        rsa_signature: vec![1, 2, 3],
        rsa_public_key: vec![0xff; 128],
    }
}

fn params(ignore: bool, selector: Option<&str>) -> CircuitInputParams {
    CircuitInputParams::new(
        email(b"from:alice@example.com\r\nsubject:hello\r\n", body_text()),
        CircuitOptions {
            sha_precompute_selector: selector.map(|s| s.to_string()),
            max_header_length: Some(1024),
            max_body_length: Some(2816),
            ignore_body_hash_check: Some(ignore),
        },
    )
}

#[test]
fn circuit_inputs_omit_the_body_when_its_hash_is_ignored() {
    let c = generate_circuit_inputs(params(true, None)).ok().unwrap();
    assert!(c.body.is_none());
    assert_eq!(c.header_padded.len(), 1024);
    assert_eq!(c.header_len_padded_bytes, 64);
    assert_eq!(c.pubkey.len(), 17);
    assert_eq!(c.signature[0], "66051");
}

#[test]
fn circuit_inputs_split_the_body_at_the_selector() {
    let c = generate_circuit_inputs(params(false, Some("Hi!"))).ok().unwrap();
    let b = c.body.unwrap();
    let text = body_text();
    let at = text.windows(3).position(|w| w == b"Hi!").unwrap();
    let cut = at / 64 * 64;
    let mut state = [
        0x6a09e667u32, 0xbb67ae85, 0x3c6ef372, 0xa54ff53a, 0x510e527f, 0x9b05688c, 0x1f83d9ab, 0x5be0cd19,
    ];
    let blocks: Vec<_> = text[..cut]
        .chunks(64)
        .map(sha2::digest::generic_array::GenericArray::clone_from_slice)
        .collect();
    sha2::compress256(&mut state, &blocks);
    let expected: Vec<u8> = state.iter().flat_map(|w| w.to_be_bytes()).collect();
    assert!(cut > 0);
    assert_eq!(b.precomputed_sha, expected);
    assert_eq!(b.body_padded.len(), 2816);
    assert_eq!(&b.body_padded[..text.len() - cut], &text[cut..]);
    let (_, msg_len) = sha256_pad(text.clone(), 2816);
    assert_eq!(b.body_len_padded_bytes, msg_len - cut);
    assert_eq!(b.body_hash_idx, 7);
}

#[test]
fn circuit_inputs_without_selector_keep_the_whole_body() {
    let c = generate_circuit_inputs(params(false, None)).ok().unwrap();
    let b = c.body.unwrap();
    assert_eq!(b.precomputed_sha.len(), 32);
    assert_eq!(&b.body_padded[..body_text().len()], &body_text()[..]);
}

#[test]
fn circuit_inputs_errors() {
    let missing = generate_circuit_inputs(params(false, Some("not in the body")));
    assert_eq!(missing.err(), Some(CircuitError::PartialSha(PartialShaError::SelectorNotFound)));
    let small = CircuitInputParams::new(
        email(&[b'a'; 100], vec![]),
        CircuitOptions {
            sha_precompute_selector: None,
            max_header_length: Some(64),
            max_body_length: None,
            ignore_body_hash_check: Some(true),
        },
    );
    assert_eq!(generate_circuit_inputs(small).err(), Some(CircuitError::HeaderPadding));
}

#[test]
fn signal_length_rounds_up() {
    assert_eq!(compute_signal_length(64), 3);
    assert_eq!(compute_signal_length(62), 2);
    assert_eq!(compute_signal_length(0), 0);
}

#[test]
fn external_input_is_padded_to_its_signal_length() {
    let input = ExternalInput {
        name: "address".to_string(),
        value: Some("testerman@zkemail.com".to_string()),
        max_length: 64,
    };
    let s = external_input_signals(&input);
    assert_eq!(s.len(), 3);
    assert_eq!(s[0], "159939588262460242102685885517539387448697224914292");
    assert_eq!(s[1], "0");
    assert_eq!(s[2], "0");
    let none = ExternalInput { name: "x".to_string(), value: None, max_length: 31 };
    assert_eq!(external_input_signals(&none), vec!["0".to_string()]);
}

#[test]
fn string_to_circom_bigint_bytes_reads_31_bytes_little_endian() {
    assert_eq!(string_to_circom_bigint_bytes("a"), vec!["97".to_string()]);
    assert_eq!(string_to_circom_bigint_bytes("ab"), vec!["25185".to_string()]);
    assert!(string_to_circom_bigint_bytes("").is_empty());
}

#[test]
fn prover_address_signal() {
    assert_eq!(prover_eth_address_signal(&None).unwrap(), "0");
    let a = Some("0x9401296121FC9B78F84fc856B1F8dC88f4415B2e".to_string());
    assert_eq!(
        prover_eth_address_signal(&a).unwrap(),
        "844956539483415709737760098896425774370514885422"
    );
    let bad = Some("9401".to_string());
    assert_eq!(prover_eth_address_signal(&bad), Err(CircuitError::InvalidProverAddress));
}

#[test]
fn soft_breaks_are_removed_in_place() {
    let cleaned = remove_quoted_printable_soft_breaks(b"ab=\r\ncd=\r".to_vec());
    assert_eq!(cleaned, b"abcd=\r\0\0\0".to_vec());
}

#[test]
fn find_index_in_body_finds_the_first_occurrence() {
    let body = b"xxabcab".to_vec();
    assert_eq!(find_index_in_body(Some(&body), "ab"), 2);
    assert_eq!(find_index_in_body(Some(&body), "zz"), 0);
    assert_eq!(find_index_in_body(Some(&body), ""), 0);
    assert_eq!(find_index_in_body(None, "ab"), 0);
}

fn regex_params(ignore: bool) -> CircuitInputWithDecomposedRegexesAndExternalInputsParams {
    CircuitInputWithDecomposedRegexesAndExternalInputsParams {
        prover_eth_address: None,
        max_header_length: 1024,
        max_body_length: 2816,
        ignore_body_hash_check: ignore,
        remove_soft_lines_breaks: true,
        sha_precompute_selector: None,
    }
}

#[test]
fn regex_circuit_inputs_omit_the_body_when_ignored() {
    let inputs = vec![ExternalInput {
        name: "address".to_string(),
        value: Some("testerman@zkemail.com".to_string()),
        max_length: 64,
    }];
    let c = generate_regex_circuit_inputs(email(b"h:1\r\n", body_text()), &inputs, &regex_params(true))
        .ok()
        .unwrap();
    assert!(c.body.is_none());
    assert!(c.decoded_email_body_in.is_none());
    assert_eq!(c.prover_eth_address, "0");
    assert_eq!(c.external_inputs[0].0, "address");
    assert_eq!(c.external_inputs[0].1.len(), 3);
    assert_eq!(regex_search_text(&c, "header"), c.email_header);
    assert!(regex_search_text(&c, "body").is_empty());
}

#[test]
fn regex_circuit_inputs_search_the_cleaned_body() {
    let c = generate_regex_circuit_inputs(email(b"h:1\r\n", body_text()), &vec![], &regex_params(false))
        .ok()
        .unwrap();
    let text = regex_search_text(&c, "body");
    let hi = text.windows(2).position(|w| w == b"Hi").unwrap();
    assert_eq!(&text[hi..hi + 3], b"Hi!");
    assert!(text.len() == 2816);
    assert!(!text.windows(3).any(|w| w == b"=\r\n"));
}

#[test]
fn email_circuit_input_uses_the_cleaned_body() {
    let c = generate_circuit_inputs(params(false, None)).ok().unwrap();
    let code = AccountCode::from(hex_to_field("0x01eb9b204cc24c3baee11accc37d253a9c53e92b1a2cc07763475c135d575b76").unwrap());
    let idx = EmailIndices {
        from_addr_idx: 5,
        domain_idx: 11,
        timestamp_idx: 0,
        subject_idx: 30,
        code_idx: 0,
        command_idx: 0,
    };
    let e = build_email_circuit_input(c, &code, &idx, None, Some("Send 1 ETH".to_string()))
        .ok()
        .unwrap();
    assert_eq!(e.account_code, field_to_hex(&code.0));
    assert!(e.subject_idx.is_none());
    let cleaned = e.padded_cleaned_body.unwrap();
    assert_eq!(&cleaned[e.command_idx..e.command_idx + 10], b"Send 1 ETH");
    assert_eq!(e.code_idx, 0);
    let c = generate_circuit_inputs(params(false, None)).ok().unwrap();
    assert_eq!(
        build_email_circuit_input(c, &code, &idx, None, None).err(),
        Some(CircuitError::CommandNotFound)
    );
    let c = generate_circuit_inputs(params(true, None)).ok().unwrap();
    let e = build_email_circuit_input(c, &code, &idx, None, None).ok().unwrap();
    assert_eq!(e.subject_idx, Some(30));
    assert!(e.padded_body.is_none());
}

#[test]
fn claim_input_pads_the_address() {
    let c = generate_claim_input("alice@example.com", "0x01", "0x02");
    assert_eq!(c.email_addr.len(), 256);
    assert_eq!(c.cm_rand, "0x01");
    assert_eq!(c.account_code, "0x02");
}
