use asc100::stream::StreamError;
use asc100::xstream_simple::{
    core_key, core_value, decode_token_string, encode_token_string, extensions_both, extensions_key,
    Asc100Mode, Asc100Streamable, Asc100ValueEncoder,
};
use asc100::Asc100Error;

#[test]
fn value_encoder_modes() {
    let key = core_key();
    assert_eq!(key.encode_kv_pair("greeting", "Hello").unwrap(), ("greeting_asc".to_string(), "URZkye".to_string()));
    let value = core_value();
    assert_eq!(value.encode_kv_pair("greeting", "Hello").unwrap(), ("greeting".to_string(), "URZkye:a".to_string()));
    let both = extensions_both();
    assert_eq!(both.encode_kv_pair("t", "#V#").unwrap(), ("t_asc".to_string(), "zg:a".to_string()));
}

#[test]
fn value_encoder_decodes_marked_pairs_only() {
    let enc = core_key();
    assert_eq!(enc.decode_kv_pair("greeting_asc", "URZkye").unwrap(), ("greeting".to_string(), "Hello".to_string()));
    assert_eq!(enc.decode_kv_pair("greeting", "URZkye:a").unwrap(), ("greeting".to_string(), "Hello".to_string()));
    assert_eq!(enc.decode_kv_pair("plain", "text").unwrap(), ("plain".to_string(), "text".to_string()));
    assert_eq!(enc.decode_value("URZkye:a").unwrap(), "Hello");
    assert_eq!(enc.decode_value("URZkye").unwrap(), "Hello");
    assert_eq!(enc.encode_value("Hello").unwrap(), "URZkye");
    assert_eq!(enc.decode_value("UR=kye"), Err(Asc100Error::InvalidBase64Character('=')));
}

#[test]
fn token_strings_round_trip() {
    let enc = extensions_key();
    let input = "user=john@example.com; template=Hi #V#name#V#; app:mode=debug";
    let encoded = encode_token_string(input, &enc).unwrap();
    assert!(encoded.contains("user_asc="));
    assert!(encoded.contains("app:mode_asc="));
    assert_eq!(decode_token_string(&encoded, &enc).unwrap(), input);
    assert_eq!(encode_token_string("novalue", &enc), Err(StreamError::MissingEquals));
}

#[test]
fn streamable_holds_content_and_encoder() {
    let s = Asc100Streamable::core_strict("Hello".to_string(), Asc100Mode::ValueSuffix);
    assert_eq!(s.content, "Hello");
    assert_eq!(s.encoder.encode_value(&s.content).unwrap(), "URZkye");
    let e = Asc100Streamable::extensions("#EOF#".to_string(), Asc100Mode::Both);
    assert_eq!(e.encoder.encode_value(&e.content).unwrap(), "yg");
    let n = Asc100Streamable::new("x".to_string(), Asc100ValueEncoder::core_strict(Asc100Mode::KeySuffix));
    assert_eq!(n.encoder.mode, Asc100Mode::KeySuffix);
}
