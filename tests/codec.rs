use asc100::charset::{
    build_lookup_table, create_base_charset, is_extension_marker, swap_chars, swap_ranges,
};
use asc100::markers::{markers, postprocess_markers, preprocess_markers};
use asc100::tokenizer::{parse_sentinels, Sentinel};
use asc100::packing::{base64_char, build_base64_lookup, pack_indices, unpack_symbols};
use asc100::strategy::{CoreStrategy, ExtensionsStrategy};
use asc100::versions::{v1_standard, v2_numbers, v3_lowercase, v4_url};
use asc100::{decode, decode_with_strategy, encode, encode_with_strategy, Asc100Error};

#[test]
fn test_roundtrip() {
    let test_cases = vec![
        "Hello, World!",
        "1234567890",
        "~!@#$%^&*()_+",
        "The quick brown fox jumps over the lazy dog",
        "\t\n\r",
        " ",
        "~",
    ];

    let strategy = CoreStrategy::strict();
    let v1 = v1_standard();

    for input in test_cases {
        let encoded = encode_with_strategy(input, &v1.charset, &v1.lookup, &strategy).unwrap();
        let decoded = decode_with_strategy(&encoded, &v1.charset, &strategy).unwrap();
        assert_eq!(input, decoded, "Roundtrip failed for: {}", input);
    }
}

#[test]
fn exact_encoding_of_hello() {
    let v1 = v1_standard();
    let strategy = CoreStrategy::strict();
    let encoded = encode_with_strategy("Hello", &v1.charset, &v1.lookup, &strategy).unwrap();
    assert_eq!(encoded, "URZkye");
    let decoded = decode_with_strategy("URZkye", &v1.charset, &strategy).unwrap();
    assert_eq!(decoded, "Hello");
}

#[test]
fn exact_encodings_of_short_inputs() {
    let v1 = v1_standard();
    let strategy = CoreStrategy::strict();
    for (input, expected) in [("~", "AA"), (" ", "vA"), ("", ""), ("A", "Qg"), ("AB", "Qog"), ("abcdef", "gwocSLG")] {
        let encoded = encode_with_strategy(input, &v1.charset, &v1.lookup, &strategy).unwrap();
        assert_eq!(encoded, expected, "encoding of {:?}", input);
    }
}

#[test]
fn packing_lengths_follow_ceil_seven_n_over_six() {
    for n in [0usize, 1, 2, 5, 6, 7, 12, 13, 42, 100] {
        let indices: Vec<u8> = (0..n).map(|i| ((i * 37) % 128) as u8).collect();
        let packed = pack_indices(&indices);
        assert_eq!(packed.chars().count(), (7 * n + 5) / 6, "length for n = {}", n);
        let chars: Vec<char> = packed.chars().collect();
        let back = unpack_symbols(&chars).unwrap();
        assert_eq!(back, indices, "indices for n = {}", n);
    }
}

#[test]
fn packing_marker_codes_exactly() {
    assert_eq!(pack_indices(&[103]), "zg");
    assert_eq!(pack_indices(&[103, 101]), "z5Q");
    assert_eq!(pack_indices(&[127, 0, 127]), "/gP4");
}

#[test]
fn base64_alphabet_and_lookup() {
    assert_eq!(base64_char(0), 'A');
    assert_eq!(base64_char(25), 'Z');
    assert_eq!(base64_char(26), 'a');
    assert_eq!(base64_char(52), '0');
    assert_eq!(base64_char(62), '+');
    assert_eq!(base64_char(63), '/');
    let table = build_base64_lookup();
    for v in 0u8..64 {
        assert_eq!(table[base64_char(v) as usize], v);
    }
    assert_eq!(table['=' as usize], 255);
    assert_eq!(table['-' as usize], 255);
}

#[test]
fn core_treats_marker_text_literally() {
    let v1 = v1_standard();
    let core = CoreStrategy::strict();
    let ext = ExtensionsStrategy::strict();
    let core_encoded = encode_with_strategy("#V#", &v1.charset, &v1.lookup, &core).unwrap();
    let ext_encoded = encode_with_strategy("#V#", &v1.charset, &v1.lookup, &ext).unwrap();
    assert_eq!(core_encoded, "BtgY");
    assert_eq!(ext_encoded, "zg");
    assert_ne!(core_encoded, ext_encoded);
    assert_eq!(decode_with_strategy(&core_encoded, &v1.charset, &core).unwrap(), "#V#");
    assert_eq!(decode_with_strategy(&ext_encoded, &v1.charset, &ext).unwrap(), "#V#");
}

#[test]
fn strip_drops_invalid_character() {
    let v1 = v1_standard();
    for strategy_result in [
        encode_with_strategy("Hello\u{0080}World", &v1.charset, &v1.lookup, &CoreStrategy::strip())
            .and_then(|e| decode_with_strategy(&e, &v1.charset, &CoreStrategy::strip())),
        encode_with_strategy("Hello\u{0080}World", &v1.charset, &v1.lookup, &ExtensionsStrategy::strip())
            .and_then(|e| decode_with_strategy(&e, &v1.charset, &ExtensionsStrategy::strip())),
    ] {
        assert_eq!(strategy_result.unwrap(), "HelloWorld");
    }
}

#[test]
fn sanitize_marks_invalid_character_once() {
    let v1 = v1_standard();
    let strategy = ExtensionsStrategy::sanitize();
    let encoded = encode_with_strategy("Hello\u{0080}World", &v1.charset, &v1.lookup, &strategy).unwrap();
    let decoded = decode_with_strategy(&encoded, &v1.charset, &strategy).unwrap();
    assert_eq!(decoded, "Hello#INV#World");
    assert_eq!(decoded.matches("#INV#").count(), 1);
}

#[test]
fn sanitize_under_core_keeps_marker_as_text() {
    let v1 = v1_standard();
    let strategy = CoreStrategy::sanitize();
    let encoded = encode_with_strategy("a\u{00e9}b", &v1.charset, &v1.lookup, &strategy).unwrap();
    assert_eq!(decode_with_strategy(&encoded, &v1.charset, &strategy).unwrap(), "a#INV#b");
}

#[test]
fn strict_rejects_first_invalid_character() {
    let v1 = v1_standard();
    for input in ["Hello\u{0080}World", "\u{1F30D}", "abc\u{00ff}\u{0080}", "\u{7f}"] {
        let first_bad = input.chars().find(|c| {
            let a = *c as u32;
            !((32..=126).contains(&a) || [9, 10, 13, 0, 1].contains(&a))
        });
        let expected = Err(Asc100Error::InvalidCharacter(first_bad.unwrap()));
        assert_eq!(encode_with_strategy(input, &v1.charset, &v1.lookup, &CoreStrategy::strict()), expected);
        assert_eq!(encode_with_strategy(input, &v1.charset, &v1.lookup, &ExtensionsStrategy::strict()), expected);
    }
}

#[test]
fn decode_rejects_characters_outside_alphabet() {
    let v1 = v1_standard();
    let strategy = CoreStrategy::strict();
    assert_eq!(
        decode_with_strategy("UR=kye", &v1.charset, &strategy),
        Err(Asc100Error::InvalidBase64Character('='))
    );
    assert_eq!(
        decode_with_strategy("UR\u{e9}k", &v1.charset, &strategy),
        Err(Asc100Error::InvalidBase64Character('\u{e9}'))
    );
}

#[test]
fn decode_rejects_marker_codes_under_core() {
    let v1 = v1_standard();
    assert_eq!(
        decode_with_strategy("zg", &v1.charset, &CoreStrategy::strict()),
        Err(Asc100Error::InvalidIndex(103))
    );
}

#[test]
fn decode_rejects_unassigned_marker_codes() {
    let v1 = v1_standard();
    let packed = pack_indices(&[119]);
    assert_eq!(
        decode_with_strategy(&packed, &v1.charset, &ExtensionsStrategy::strict()),
        Err(Asc100Error::InvalidIndex(119))
    );
}

#[test]
fn encode_reports_absent_and_non_ascii_characters_for_a_sparse_table() {
    let v1 = v1_standard();
    let mut lookup = v1.lookup;
    lookup['x' as usize] = 255;
    let strategy = CoreStrategy::strip();
    assert_eq!(
        encode_with_strategy("axb", &v1.charset, &lookup, &strategy),
        Err(Asc100Error::InvalidCharacter('x'))
    );
}

#[test]
fn legacy_pair_recognises_markers() {
    let v1 = v1_standard();
    let encoded = encode("#V##EOF#", &v1.charset, &v1.lookup).unwrap();
    assert_eq!(encoded, "z5Q");
    assert_eq!(decode(&encoded, &v1.charset).unwrap(), "#V##EOF#");
    assert_eq!(v1.encode("Hello").unwrap(), "URZkye");
    assert_eq!(v1.decode("URZkye").unwrap(), "Hello");
}

#[test]
fn every_version_inverts_its_charset() {
    for v in [v1_standard(), v2_numbers(), v3_lowercase(), v4_url()] {
        for i in 0..100 {
            assert_eq!(v.lookup[v.charset[i] as usize] as usize, i, "{}", v.name);
        }
        for i in 0..100 {
            for j in (i + 1)..100 {
                assert_ne!(v.charset[i], v.charset[j]);
            }
        }
        let present = v.lookup.iter().filter(|&&x| x != 255).count();
        assert_eq!(present, 100);
    }
}

#[test]
fn versions_have_documented_orders() {
    let v1 = v1_standard();
    assert_eq!(v1.charset[0], '~');
    assert_eq!(v1.charset[94], ' ');
    let v2 = v2_numbers();
    assert_eq!(&v2.charset[0..10], &['0', '1', '2', '3', '4', '5', '6', '7', '8', '9']);
    assert_eq!(v2.charset[16], ' ');
    let v3 = v3_lowercase();
    assert_eq!(v3.charset[0], 'a');
    assert_eq!(v3.charset[25], 'z');
    assert_eq!(v3.charset[65], ' ');
    let v4 = v4_url();
    assert_eq!(v4.charset[0], 'a');
    assert_eq!(v4.charset[25], 'z');
    assert_eq!(v4.charset[26], 'J');
    assert_eq!(v4.charset[35], 'S');
    assert_eq!(v4.charset[81], '0');
}

#[test]
fn versions_encode_the_same_text_differently_and_round_trip() {
    let strategy = CoreStrategy::strict();
    let mut outputs = Vec::new();
    for v in [v1_standard(), v2_numbers(), v3_lowercase(), v4_url()] {
        let encoded = v.encode_with("Hello, World! 123", &strategy).unwrap();
        assert_eq!(v.decode_with(&encoded, &strategy).unwrap(), "Hello, World! 123");
        outputs.push(encoded);
    }
    assert_ne!(outputs[0], outputs[1]);
    assert_ne!(outputs[0], outputs[2]);
}

#[test]
fn charset_primitives() {
    let base = create_base_charset();
    assert_eq!(base[0], ' ');
    assert_eq!(base[94], '~');
    assert_eq!(&base[95..100], &['\t', '\n', '\r', '\0', '\x01']);
    let swapped = swap_chars(base, 0, 94);
    assert_eq!(swapped[0], '~');
    assert_eq!(swapped[94], ' ');
    let ranges = swap_ranges(base, 0, 2, 10, 2);
    assert_eq!(&ranges[0..2], &base[10..12]);
    assert_eq!(&ranges[10..12], &base[0..2]);
    let lookup = build_lookup_table(base);
    assert_eq!(lookup[' ' as usize], 0);
    assert_eq!(lookup['\x01' as usize], 99);
    assert_eq!(lookup[0x7f], 255);
    assert_eq!(lookup[0x02], 255);
    assert!(is_extension_marker(100));
    assert!(is_extension_marker(127));
    assert!(!is_extension_marker(99));
    assert!(!is_extension_marker(128));
}

#[test]
fn error_messages() {
    assert_eq!(Asc100Error::InvalidCharacter('\u{80}').message(), "Invalid character: '\u{80}'");
    assert_eq!(Asc100Error::InvalidBase64Character('=').message(), "Invalid base64 character: '='");
    assert_eq!(Asc100Error::InvalidIndex(7).message(), "Invalid index: 7");
    assert_eq!(Asc100Error::InvalidIndex(119).message(), "Invalid index: 119");
    assert_eq!(Asc100Error::NonAsciiInput.message(), "Input contains non-ASCII characters");
}

#[test]
fn version_names() {
    assert_eq!(v1_standard().name, "v1_standard");
    assert_eq!(v2_numbers().name, "v2_numbers_first");
    assert_eq!(v3_lowercase().name, "v3_lowercase_first");
    assert_eq!(v4_url().name, "v4_url_optimized");
}

#[test]
fn legacy_marker_substitution() {
    assert_eq!(preprocess_markers("a#V#b#FAKE#"), "agb#FAKE#");
    assert_eq!(preprocess_markers("##V##"), "#g#");
    assert_eq!(preprocess_markers("#V##EOF#"), "ge");
    assert_eq!(preprocess_markers("#FAKE#"), "#FAKE#");
    assert_eq!(preprocess_markers("#SSX#X#"), "kX#");
    assert_eq!(postprocess_markers("agb"), "a#V#b");
    assert_eq!(postprocess_markers("AB~"), "AB~");
    assert_eq!(postprocess_markers("w"), "w");
}

#[test]
fn legacy_encode_applies_no_filter() {
    let v1 = v1_standard();
    assert_eq!(encode("Hello\u{80}", &v1.charset, &v1.lookup), Err(Asc100Error::NonAsciiInput));
    assert_eq!(encode("\u{2}", &v1.charset, &v1.lookup), Err(Asc100Error::InvalidCharacter('\u{2}')));
    assert_eq!(v1.encode("a\u{7f}"), Err(Asc100Error::InvalidCharacter('\u{7f}')));
    assert_eq!(v1.encode("\u{1F30D}"), Err(Asc100Error::NonAsciiInput));
}

fn describe(sentinels: &[Sentinel]) -> Vec<String> {
    sentinels
        .iter()
        .map(|s| match s {
            Sentinel::Text(t) => format!("T:{}", t.iter().collect::<String>()),
            Sentinel::Marker(c) => format!("M:{}", c),
        })
        .collect()
}

#[test]
fn sentinels_group_text_runs_between_markers() {
    let table = markers();
    let ext = ExtensionsStrategy::strict();
    let core = CoreStrategy::strict();
    let chars = |s: &str| s.chars().collect::<Vec<char>>();
    assert_eq!(describe(&parse_sentinels(&chars("#V##EOF#"), &table, &ext)), vec!["M:103", "M:101"]);
    assert_eq!(
        describe(&parse_sentinels(&chars("text#V#more#EOF#end"), &table, &ext)),
        vec!["T:text", "M:103", "T:more", "M:101", "T:end"]
    );
    assert_eq!(describe(&parse_sentinels(&chars("##V##"), &table, &ext)), vec!["T:##V##"]);
    assert_eq!(describe(&parse_sentinels(&chars("#V"), &table, &ext)), vec!["T:#V"]);
    assert_eq!(describe(&parse_sentinels(&chars("a#V#b"), &table, &core)), vec!["T:a#V#b"]);
    assert!(parse_sentinels(&chars(""), &table, &core).is_empty());
}
