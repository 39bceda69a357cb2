use ssr_manager::codec::{decode, encode};
use ssr_manager::errors::ResolveError;

#[test]
fn decode_without_padding() {
    assert_eq!(decode("aGVsbG8").unwrap(), "hello");
}

#[test]
fn decode_with_padding_same_result() {
    assert_eq!(decode("aGVsbG8").unwrap(), decode("aGVsbG8=").unwrap());
}

#[test]
fn decode_url_safe_dash() {
    // ">>>" is "Pj4+" in standard base64; the modified alphabet writes `-`.
    assert_eq!(decode("Pj4-").unwrap(), ">>>");
}

#[test]
fn decode_url_safe_underscore() {
    // "???" is "Pz8/" in standard base64; the modified alphabet writes `_`.
    assert_eq!(decode("Pz8_").unwrap(), "???");
}

#[test]
fn decode_empty() {
    assert_eq!(decode("").unwrap(), "");
}

#[test]
fn decode_bad_alphabet() {
    assert!(matches!(decode("!!!!"), Err(ResolveError::DecodeError)));
}

#[test]
fn decode_not_utf8() {
    // "-w" re-pads to "+w==", whose single byte 0xfb is not valid UTF-8.
    assert!(matches!(decode("-w"), Err(ResolveError::EncodingError)));
}

#[test]
fn encode_strips_padding_and_substitutes() {
    assert_eq!(encode(&b"hello".to_vec()), "aGVsbG8");
    assert_eq!(encode(&b">>>".to_vec()), "Pj4-");
    assert_eq!(encode(&b"???".to_vec()), "Pz8_");
    assert_eq!(encode(&Vec::new()), "");
}

#[test]
fn encode_then_decode_round_trip() {
    for text in ["", "pw", "hello world", "p@ss:word/?&=", "\u{00fc}ber\u{2603}"] {
        let encoded = encode(&text.as_bytes().to_vec());
        assert_eq!(decode(&encoded).unwrap(), text);
    }
}
