use utf7_imap::decode_utf7_imap;
use utf7_imap::encode_utf7_imap;
use utf7_imap::get_ascii;
use utf7_imap::get_nonascii;
use utf7_imap::is_ascii_custom;
use utf7_imap::remove_ascii;
use utf7_imap::remove_nonascii;
use utf7_imap::Utf7Error;

#[test]
fn encode_test() {
    let test_string = String::from("Отправленные");
    assert_eq!(
        encode_utf7_imap(test_string),
        "&BB4EQgQ,BEAEMAQyBDsENQQ9BD0ESwQ1-"
    );
}

#[test]
fn encode_test_split() {
    let test_string = String::from("Šiukšliadėžė");
    assert_eq!(encode_utf7_imap(test_string), "&AWA-iuk&AWE-liad&ARcBfgEX-")
}

#[test]
fn encode_consecutive_accents() {
    let test_string = String::from("théâtre");
    assert_eq!(encode_utf7_imap(test_string), "th&AOkA4g-tre")
}

#[test]
fn decode_test() {
    let test_string = String::from("&BB4EQgQ,BEAEMAQyBDsENQQ9BD0ESwQ1-");
    assert_eq!(decode_utf7_imap(test_string).unwrap(), "Отправленные");
}

#[test]
fn decode_test_split() {
    // input string with utf7 encoded bits being separated by ascii
    let test_string = String::from("&AWA-iuk&AWE-liad&ARcBfgEX-");
    assert_eq!(decode_utf7_imap(test_string).unwrap(), "Šiukšliadėžė")
}

#[test]
fn decode_consecutive_accents() {
    let test_string = String::from("th&AOkA4g-tre");
    assert_eq!(decode_utf7_imap(test_string).unwrap(), "théâtre")
}

#[test]
fn encode_escape() {
    assert_eq!(encode_utf7_imap(String::from("a&b")), "a&-b");
}

#[test]
fn decode_escape() {
    assert_eq!(decode_utf7_imap(String::from("a&-b")).unwrap(), "a&b");
}

#[test]
fn encode_empty() {
    assert_eq!(encode_utf7_imap(String::new()), "");
}

#[test]
fn decode_empty() {
    assert_eq!(decode_utf7_imap(String::new()).unwrap(), "");
}

#[test]
fn encode_plain_ascii_passes_through() {
    assert_eq!(encode_utf7_imap(String::from("INBOX.Sent-Mail")), "INBOX.Sent-Mail");
}

#[test]
fn decode_plain_ascii_passes_through() {
    assert_eq!(decode_utf7_imap(String::from("a-b c")).unwrap(), "a-b c");
}

#[test]
fn decode_two_escapes() {
    assert_eq!(decode_utf7_imap(String::from("&-&-")).unwrap(), "&&");
}

#[test]
fn decode_malformed_symbol() {
    assert_eq!(
        decode_utf7_imap(String::from("&@-")),
        Err(Utf7Error::MalformedPayload)
    );
}

#[test]
fn decode_malformed_length() {
    // five payload characters leave a residue of one, which no padding mends
    assert_eq!(
        decode_utf7_imap(String::from("&QQQQQ-")),
        Err(Utf7Error::MalformedPayload)
    );
}

#[test]
fn decode_malformed_trailing_bits() {
    // the discarded low bits of the last symbol must be zero
    assert_eq!(
        decode_utf7_imap(String::from("&QR-")),
        Err(Utf7Error::MalformedPayload)
    );
}

#[test]
fn decode_unterminated() {
    assert_eq!(
        decode_utf7_imap(String::from("abc&AWA")),
        Err(Utf7Error::UnterminatedShiftSequence)
    );
}

#[test]
fn decode_odd_byte_buffer() {
    // "QQ" restores to one byte, which is no whole UTF-16 code unit
    assert_eq!(
        decode_utf7_imap(String::from("&QQ-")),
        Err(Utf7Error::OddByteBuffer)
    );
}

#[test]
fn decode_unpaired_surrogate() {
    // "2AA" restores to the lone high surrogate 0xd800
    assert_eq!(
        decode_utf7_imap(String::from("&2AA-")),
        Err(Utf7Error::UnpairedSurrogate)
    );
}

#[test]
fn decode_leftmost_error_wins() {
    // the unterminated tail is reported only after the sound prefix fails
    assert_eq!(
        decode_utf7_imap(String::from("x&@-y&AWA")),
        Err(Utf7Error::MalformedPayload)
    );
}

#[test]
fn encode_beyond_bmp() {
    // U+1F600 needs a surrogate pair in the UTF-16BE intermediate form
    assert_eq!(encode_utf7_imap(String::from("😀")), "&2D3eAA-");
}

#[test]
fn decode_beyond_bmp() {
    assert_eq!(decode_utf7_imap(String::from("&2D3eAA-")).unwrap(), "😀");
}

#[test]
fn round_trip_mixed_text() {
    let original = String::from("Lesefrüchte — 読書ノート & more 😀");
    let encoded = encode_utf7_imap(original.clone());
    assert_eq!(decode_utf7_imap(encoded).unwrap(), original);
}

#[test]
fn round_trip_control_characters() {
    // characters below 0x20 are not direct and travel through base64
    let original = String::from("a\tb\nc");
    let encoded = encode_utf7_imap(original.clone());
    assert_eq!(encoded, "a&AAk-b&AAo-c");
    assert_eq!(decode_utf7_imap(encoded).unwrap(), original);
}

#[test]
fn segmenter_splits_runs() {
    assert_eq!(get_ascii("ab\u{e9}cd"), "ab");
    assert_eq!(remove_ascii("ab\u{e9}cd"), "\u{e9}cd");
    assert_eq!(get_nonascii("\u{e9}\u{e8}cd"), "\u{e9}\u{e8}");
    assert_eq!(remove_nonascii("\u{e9}\u{e8}cd"), "cd");
}

#[test]
fn segmenter_whole_and_empty_runs() {
    assert_eq!(get_ascii("abc"), "abc");
    assert_eq!(remove_ascii("abc"), "");
    assert_eq!(get_ascii("\u{e9}"), "");
    assert_eq!(remove_nonascii(""), "");
}

#[test]
fn ascii_custom_bounds() {
    assert!(is_ascii_custom(0x20));
    assert!(is_ascii_custom(b'&'));
    assert!(is_ascii_custom(0x7e));
    assert!(!is_ascii_custom(0x1f));
    assert!(!is_ascii_custom(0x7f));
    assert!(!is_ascii_custom(0xc3));
}
