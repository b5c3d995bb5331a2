use asn1::base64::{decode, decode_as_vec, encode, encode_as_string, to_result, DecodeErr};

fn decodes_to(input: &[u8], output: &[u8]) {
    let mut vec: Vec<u8> = Vec::new();
    let result = decode(input, &mut vec);
    assert_eq!(Ok(output.len()), result);
    assert_eq!(&vec[..], output);
}

fn fails_with(input: &[u8], err: DecodeErr) {
    let mut vec: Vec<u8> = Vec::new();
    let result = decode(input, &mut vec);
    assert_eq!(Err(err), result);
}

#[test]
fn base64_correctly_encodes_empty_array() {
    let bytes = b"";
    assert_eq!(encode_as_string(&bytes[..]), "");
}

#[test]
fn base64_correctly_encodes_even_multiple_of_three() {
    let bytes = b"ManMan";
    assert_eq!(encode_as_string(&bytes[..]), "TWFuTWFu");
}

#[test]
fn base64_correctly_encodes_modulo_one() {
    let bytes = b"ManM";
    assert_eq!(encode_as_string(&bytes[..]), "TWFuTQ==");
}

#[test]
fn base64_correctly_encodes_modulo_two() {
    let bytes = b"ManMa";
    assert_eq!(encode_as_string(&bytes[..]), "TWFuTWE=");
}

#[test]
fn encode_correctly_encodes_empty_array() {
    assert_eq!(encode_as_string(b""), "");
}

#[test]
fn encode_correctly_encodes_even_multiple_of_three() {
    assert_eq!(encode_as_string(b"ManMan"), "TWFuTWFu");
}

#[test]
fn encode_correctly_encodes_modulo_one() {
    assert_eq!(encode_as_string(b"ManM"), "TWFuTQ==");
}

#[test]
fn encode_correctly_encodes_modulo_two() {
    assert_eq!(encode_as_string(b"ManMa"), "TWFuTWE=");
}

#[test]
fn rejects_bad_size() {
    fails_with(b"TQ=", DecodeErr::NotMultFour);
}

#[test]
fn rejects_trailing_bytes() {
    fails_with(b"TQ==TWFu", DecodeErr::BadEndChar(b'T'));
}

#[test]
fn rejects_bad_characters() {
    fails_with(b"TQ!=", DecodeErr::BadValue(b'!'));
}

#[test]
fn correctly_decodes_one_byte() {
    decodes_to(b"TQ==", b"M");
}

#[test]
fn correctly_skips_whitespace() {
    decodes_to(b"\r\nT Q =\t=\t\r\n", b"M");
}

#[test]
fn correctly_decodes_two_bytes() {
    decodes_to(b"TWE=", b"Ma");
}

#[test]
fn correctly_decodes_three_bytes() {
    decodes_to(b"TWFu", b"Man");
}

#[test]
fn correctly_decodes_six_bytes() {
    decodes_to(b"TWFuTQ==", b"ManM");
}

#[test]
fn correctly_decodes_long_input() {
    let input = b"TWFuIGlzIGRpc3Rpbmd1aXNoZWQsIG5vdCBvbmx5IGJ5IGhpcyByZWFzb24sIGJ1dCBieSB0aGl\
                        zIHNpbmd1bGFyIHBhc3Npb24gZnJvbSBvdGhlciBhbmltYWxzLCB3aGljaCBpcyBhIGx1c3Qgb2Yg\
                        dGhlIG1pbmQsIHRoYXQgYnkgYSBwZXJzZXZlcmFuY2Ugb2YgZGVsaWdodCBpbiB0aGUgY29udGlud\
                        WVkIGFuZCBpbmRlZmF0aWdhYmxlIGdlbmVyYXRpb24gb2Yga25vd2xlZGdlLCBleGNlZWRzIHRoZS\
                        BzaG9ydCB2ZWhlbWVuY2Ugb2YgYW55IGNhcm5hbCBwbGVhc3VyZS4=";

    let result = b"Man is distinguished, not only by his reason, but by this singular passion from \
                        other animals, which is a lust of the mind, that by a perseverance of delight in the \
                        continued and indefatigable generation of knowledge, exceeds the short vehemence of \
                        any carnal pleasure.";

    decodes_to(input, result);
}

#[test]
fn encode_appends_to_what_the_writer_holds() {
    let mut out = String::from("x:");
    encode(b"Ma", &mut out);
    assert_eq!(out, "x:TWE=");
}

#[test]
fn encode_uses_the_whole_alphabet() {
    let bytes: [u8; 3] = [0xFB, 0xEF, 0xBE];
    assert_eq!(encode_as_string(&bytes), "++++");
    let bytes: [u8; 3] = [0xFF, 0xFF, 0xFF];
    assert_eq!(encode_as_string(&bytes), "////");
    let bytes: [u8; 3] = [0x00, 0x00, 0x00];
    assert_eq!(encode_as_string(&bytes), "AAAA");
    let bytes: [u8; 3] = [0x69, 0xB7, 0x1D];
    assert_eq!(encode_as_string(&bytes), "abcd");
    let bytes: [u8; 3] = [0xD3, 0x5D, 0xB7];
    assert_eq!(encode_as_string(&bytes), "0123");
}

#[test]
fn decode_as_vec_gives_the_octets() {
    assert_eq!(decode_as_vec(b"TWFuTWE="), Ok(b"ManMa".to_vec()));
    assert_eq!(decode_as_vec(b""), Ok(Vec::new()));
    assert_eq!(decode_as_vec(b" \t\r\n"), Ok(Vec::new()));
}

#[test]
fn decode_reports_the_first_bad_character() {
    assert_eq!(decode_as_vec(b"=AAA"), Err(DecodeErr::BadValue(b'=')));
    assert_eq!(decode_as_vec(b"AA=A"), Err(DecodeErr::BadValue(b'=')));
    assert_eq!(decode_as_vec(b"TWFu*A=="), Err(DecodeErr::BadValue(b'*')));
}

#[test]
fn decode_refuses_text_after_single_padding() {
    assert_eq!(decode_as_vec(b"TWE= x"), Err(DecodeErr::BadEndChar(b'x')));
}

#[test]
fn decode_refuses_a_short_last_group() {
    assert_eq!(decode_as_vec(b"TWFuTW"), Err(DecodeErr::NotMultFour));
    assert_eq!(decode_as_vec(b"T"), Err(DecodeErr::NotMultFour));
}

#[test]
fn decode_reverses_encode() {
    let mut bytes: Vec<u8> = Vec::new();
    for i in 0..200u32 {
        bytes.push((i * 37 % 256) as u8);
        let text = encode_as_string(&bytes);
        assert_eq!(decode_as_vec(text.as_bytes()), Ok(bytes.clone()));
    }
}

#[test]
fn to_result_reads_the_option() {
    assert_eq!(to_result(Some(&7u8)), Ok(7));
    assert_eq!(to_result(None), Err(DecodeErr::NotMultFour));
}
