use neuraldeep_desktop::media::{
    audio_extension, audio_file_name, audio_mime, data_url_payload, decode_data_url, hex_key,
    png_data_url, transcript_text, tts_voice,
};

#[test]
fn payload_is_second_comma_field() {
    assert_eq!(data_url_payload("data:image/png;base64,QUJD"), Some("QUJD".to_string()));
    assert_eq!(data_url_payload("a,b,c"), Some("b".to_string()));
    assert_eq!(data_url_payload("no comma"), None);
    assert_eq!(data_url_payload("x,"), Some(String::new()));
}

#[test]
fn decodes_base64_payload() {
    assert_eq!(decode_data_url("data:text/plain;base64,aGVsbG8="), Some(b"hello".to_vec()));
    assert_eq!(decode_data_url("data:,"), Some(Vec::new()));
    assert_eq!(decode_data_url("data:x;base64,@@@"), None);
    assert_eq!(decode_data_url("data:x;base64,aGVsbG8"), None);
    assert_eq!(decode_data_url("nothing"), None);
}

#[test]
fn png_data_url_encodes_and_round_trips() {
    assert_eq!(png_data_url(b"hello"), "data:image/png;base64,aGVsbG8=");
    assert_eq!(png_data_url(b""), "data:image/png;base64,");
    assert_eq!(png_data_url(&[0xff, 0xfe, 0xfd, 0x00]), "data:image/png;base64,//79AA==");
    let bytes: Vec<u8> = (0..=255u8).collect();
    let url = png_data_url(&bytes);
    assert_eq!(decode_data_url(&url), Some(bytes));
}

#[test]
fn audio_mime_and_extension() {
    assert_eq!(audio_mime("data:audio/mp4;base64,AAAA"), "audio/mp4");
    assert_eq!(audio_mime("garbage"), "audio/webm");
    assert_eq!(audio_mime("data:audio/wav"), "audio/wav");
    assert_eq!(audio_extension("audio/mp4"), "m4a");
    assert_eq!(audio_extension("audio/aac"), "m4a");
    assert_eq!(audio_extension("audio/x-wav"), "wav");
    assert_eq!(audio_extension("audio/webm;codecs=opus"), "webm");
    assert_eq!(audio_file_name("audio/wav"), "audio.wav");
}

#[test]
fn transcript_is_trimmed() {
    assert_eq!(transcript_text(Some("  привет мир \n".to_string())), "привет мир");
    assert_eq!(transcript_text(None), "");
}

#[test]
fn voice_by_script() {
    assert_eq!(tts_voice("Привет"), "Milena");
    assert_eq!(tts_voice("hello ё"), "Milena");
    assert_eq!(tts_voice("hello"), "Samantha");
    assert_eq!(tts_voice(""), "Samantha");
}

#[test]
fn hex_key_is_lowercase_two_digits_per_byte() {
    assert_eq!(hex_key(&[0x00, 0x0f, 0xa0, 0xff]), "000fa0ff");
    assert_eq!(hex_key(&[0u8; 24]).len(), 48);
    assert_eq!(hex_key(&[]), "");
}

#[test]
fn only_canonical_base64_decodes() {
    assert_eq!(decode_data_url("data:x;base64,QQ=="), Some(vec![0x41]));
    assert_eq!(decode_data_url("data:x;base64,QQ"), None);
    assert_eq!(decode_data_url("data:x;base64,QR=="), None);
    assert_eq!(decode_data_url("data:x;base64,QUJD"), Some(b"ABC".to_vec()));
    assert_eq!(decode_data_url("data:x;base64,QUJD\n"), None);
    assert_eq!(decode_data_url("data:x;base64,"), Some(Vec::new()));
}
