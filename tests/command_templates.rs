use relayer_utils::command_templates::{
    decimals_at_point, read_word_at, template_vals_from_words,
    decimals_str_to_uint, extract_template_vals_from_command, read_word, template_kind,
    TemplateError, TemplateKind, TemplateValue, U256, I256,
};
use relayer_utils::prover::{ProofError, ProofJson};
use relayer_utils::{validate_email_input, validate_hex_input, WasmBindingError};

fn templates(ws: &[&str]) -> Vec<String> {
    ws.iter().map(|w| w.to_string()).collect()
}

fn small(v: u64) -> U256 {
    U256 { limbs: [v, 0, 0, 0] }
}

#[test]
fn send_command_gives_amount_and_address() {
    let t = templates(&["Send", "{uint}", "tokens", "to", "{ethAddr}"]);
    let vals = extract_template_vals_from_command(
        "Send 100 tokens to 0x9401296121FC9B78F84fc856B1F8dC88f4415B2e",
        t,
    )
    .unwrap();
    assert_eq!(vals.len(), 2);
    assert_eq!(vals[0], TemplateValue::Uint(small(100)));
    assert_eq!(
        vals[1],
        TemplateValue::EthAddr(hex::decode("9401296121FC9B78F84fc856B1F8dC88f4415B2e").unwrap())
    );
}

#[test]
fn send_command_with_a_broken_amount_fails() {
    let t = templates(&["Send", "{uint}", "tokens", "to", "{ethAddr}"]);
    let r = extract_template_vals_from_command(
        "Send 100x tokens to 0x9401296121FC9B78F84fc856B1F8dC88f4415B2e",
        t,
    );
    assert_eq!(r, Err(TemplateError::NoMatch));
}

#[test]
fn command_is_found_inside_other_text_and_html() {
    let t = templates(&["Transfer", "{decimals}", "{string}"]);
    let input = "header\r\nContent-Type: text/html;\r\n<div>Transfer 1.5 ETH</div>";
    let vals = extract_template_vals_from_command(input, t).unwrap();
    assert_eq!(vals[0], TemplateValue::Decimals("1.5".to_string()));
    assert_eq!(vals[1], TemplateValue::String("ETH".to_string()));
}

#[test]
fn signed_values_and_escaped_words() {
    let t = templates(&["Set", "a.b", "to", "{int}"]);
    let vals = extract_template_vals_from_command("Set a.b to -42", t.clone()).unwrap();
    assert_eq!(
        vals[0],
        TemplateValue::Int(I256 { negative: true, magnitude: small(42) })
    );
    assert_eq!(
        extract_template_vals_from_command("Set axb to -42", t),
        Err(TemplateError::NoMatch)
    );
}

#[test]
fn words_must_be_whole() {
    assert_eq!(
        read_word(TemplateKind::Uint, "123abc"),
        Err(TemplateError::NotWholeWord(TemplateKind::Uint))
    );
    assert_eq!(
        read_word(TemplateKind::Uint, "abc"),
        Err(TemplateError::NotFound(TemplateKind::Uint))
    );
    assert_eq!(
        read_word(TemplateKind::EthAddr, "x0x9401296121FC9B78F84fc856B1F8dC88f4415B2e"),
        Err(TemplateError::NotWholeWord(TemplateKind::EthAddr))
    );
    assert_eq!(
        read_word(TemplateKind::String, "word</div>"),
        Ok(TemplateValue::String("word".to_string()))
    );
    assert_eq!(read_word(TemplateKind::Uint, "7"), Ok(TemplateValue::Uint(small(7))));
}

#[test]
fn numbers_must_fit_256_bits() {
    let max = "115792089237316195423570985008687907853269984665640564039457584007913129639935";
    assert_eq!(
        read_word(TemplateKind::Uint, max),
        Ok(TemplateValue::Uint(U256 { limbs: [u64::MAX; 4] }))
    );
    let over = "115792089237316195423570985008687907853269984665640564039457584007913129639936";
    assert_eq!(
        read_word(TemplateKind::Uint, over),
        Err(TemplateError::OutOfRange(TemplateKind::Uint))
    );
    let min = "-57896044618658097711785492504343953926634992332820282019728792003956564819968";
    assert_eq!(
        read_word(TemplateKind::Int, min),
        Ok(TemplateValue::Int(I256 {
            negative: true,
            magnitude: U256 { limbs: [0, 0, 0, 0x8000_0000_0000_0000] }
        }))
    );
    assert_eq!(
        read_word(TemplateKind::Int, &min[1..]),
        Err(TemplateError::OutOfRange(TemplateKind::Int))
    );
}

#[test]
fn a_command_shorter_than_the_template_does_not_match() {
    let t = templates(&["{uint}", "{uint}"]);
    assert_eq!(
        extract_template_vals_from_command("5", t),
        Err(TemplateError::NoMatch)
    );
}

#[test]
fn template_kinds() {
    assert_eq!(template_kind("{string}"), TemplateKind::String);
    assert_eq!(template_kind("{ethAddr}"), TemplateKind::EthAddr);
    assert_eq!(template_kind("{uint"), TemplateKind::Fixed);
}

#[test]
fn decimals_are_scaled() {
    assert_eq!(decimals_str_to_uint("1.5", 18), Ok(small(1_500_000_000_000_000_000)));
    assert_eq!(decimals_str_to_uint("2", 2), Ok(small(200)));
    assert_eq!(decimals_str_to_uint("0.123", 2), Err(TemplateError::TooManyDecimals));
    assert_eq!(
        decimals_str_to_uint("x.1", 2),
        Err(TemplateError::NotFound(TemplateKind::Decimals))
    );
}

#[test]
fn proof_words_follow_the_verifier_order() {
    let s = |v: &[&str]| v.iter().map(|x| x.to_string()).collect::<Vec<String>>();
    let p = ProofJson {
        pi_a: s(&["1", "2", "1"]),
        pi_b: vec![s(&["3", "4"]), s(&["5", "6"]), s(&["1", "0"])],
        pi_c: s(&["7", "8", "1"]),
    };
    let ws = p.to_eth_words().unwrap();
    let vals: Vec<u64> = ws.iter().map(|w| w.limbs[0]).collect();
    assert_eq!(vals, vec![1, 2, 4, 3, 6, 5, 7, 8]);
    let short = ProofJson { pi_a: s(&["1"]), pi_b: vec![], pi_c: vec![] };
    assert_eq!(short.to_eth_words(), Err(ProofError::MissingCoordinate));
    let bad = ProofJson { pi_a: s(&["1", "x"]), ..p };
    assert_eq!(bad.to_eth_words(), Err(ProofError::InvalidCoordinate));
}

#[test]
fn input_validation() {
    assert!(validate_email_input("a@b").is_ok());
    assert!(matches!(
        validate_email_input(""),
        Err(WasmBindingError::ValidationError { .. })
    ));
    assert!(validate_email_input("ab").is_err());
    assert!(validate_hex_input("0x12", "code").is_ok());
    assert!(validate_hex_input("12", "code").is_err());
    assert!(validate_hex_input("0x123", "code").is_err());
}

#[test]
fn address_words_must_be_whole() {
    assert_eq!(
        read_word(TemplateKind::EthAddr, "0x9401296121FC9B78F84fc856B1F8dC88f4415B2ezz"),
        Err(TemplateError::NotWholeWord(TemplateKind::EthAddr))
    );
    assert_eq!(
        read_word_at(TemplateKind::Uint, "123abc", Some((0, 3))),
        Err(TemplateError::NotWholeWord(TemplateKind::Uint))
    );
    assert_eq!(
        read_word_at(TemplateKind::Uint, "123", Some((0, 3))),
        Ok(TemplateValue::Uint(small(123)))
    );
    assert_eq!(
        read_word_at(TemplateKind::Uint, "x", None),
        Err(TemplateError::NotFound(TemplateKind::Uint))
    );
}

#[test]
fn values_from_words() {
    let words = templates(&["Send", "7", "to", "x"]);
    let t = templates(&["Send", "{uint}", "to", "{string}"]);
    let vals = template_vals_from_words(&words, &t).unwrap();
    assert_eq!(vals, vec![TemplateValue::Uint(small(7)), TemplateValue::String("x".to_string())]);
    let short = templates(&["Send"]);
    assert_eq!(template_vals_from_words(&short, &t), Err(TemplateError::MissingWord));
}

#[test]
fn decimals_at_a_given_point() {
    assert_eq!(decimals_at_point(b"12.5", Some((2, 3)), 2), Ok(small(1250)));
    assert_eq!(decimals_at_point(b"125", None, 2), Ok(small(12500)));
    assert_eq!(decimals_at_point(b"1.234", Some((1, 2)), 2), Err(TemplateError::TooManyDecimals));
}

fn word(v: u64) -> Vec<u8> {
    let mut w = vec![0u8; 24];
    w.extend_from_slice(&v.to_be_bytes());
    w
}

#[test]
fn abi_encoding_of_values() {
    assert_eq!(TemplateValue::Uint(small(100)).abi_encode(None).unwrap(), word(100));
    assert_eq!(
        TemplateValue::Int(I256 { negative: true, magnitude: small(1) }).abi_encode(None).unwrap(),
        vec![0xff; 32]
    );
    assert_eq!(
        TemplateValue::Int(I256 { negative: true, magnitude: small(0) }).abi_encode(None).unwrap(),
        vec![0; 32]
    );
    assert_eq!(
        TemplateValue::Decimals("1.5".to_string()).abi_encode(Some(2)).unwrap(),
        word(150)
    );
    assert_eq!(
        TemplateValue::Decimals("1.5".to_string()).abi_encode(None).unwrap(),
        word(1_500_000_000_000_000_000)
    );
    let addr = hex::decode("9401296121FC9B78F84fc856B1F8dC88f4415B2e").unwrap();
    let mut expected = vec![0u8; 12];
    expected.extend_from_slice(&addr);
    assert_eq!(TemplateValue::EthAddr(addr).abi_encode(None).unwrap(), expected);
    let mut s = word(32);
    s.extend(word(3));
    s.extend_from_slice(b"abc");
    s.extend(vec![0u8; 29]);
    assert_eq!(TemplateValue::String("abc".to_string()).abi_encode(None).unwrap(), s);
    assert_eq!(
        TemplateValue::Fixed("x".to_string()).abi_encode(None),
        Err(TemplateError::FixedValue)
    );
}

#[test]
fn proof_bytes_are_the_words_in_order() {
    let s = |v: &[&str]| v.iter().map(|x| x.to_string()).collect::<Vec<String>>();
    let p = ProofJson {
        pi_a: s(&["1", "2"]),
        pi_b: vec![s(&["3", "4"]), s(&["5", "6"])],
        pi_c: s(&["7", "8"]),
    };
    let b = p.to_eth_bytes().unwrap();
    let mut expected = Vec::new();
    for v in [1u64, 2, 4, 3, 6, 5, 7, 8] {
        expected.extend(word(v));
    }
    assert_eq!(b, expected);
}
