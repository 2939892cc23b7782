use asc100::stream::StreamError;
use asc100::xstream_transformer::{
    merge_streams, Asc100Transformer, TransformMode,
    bidirectional, chain_transform, compression_gate, decoder, encoder_key, encoder_value,
    extensions_decoder, extensions_encoder, fork_encode, transform_selective, transform_stream,
};
use asc100::Asc100Error;

#[test]
fn test_encoder_transformer() {
    let transformer = encoder_key();
    let input = "user=john@example.com; pass=secret123; mode=debug";
    
    let result = transform_stream(input, &transformer)
        .expect("Should transform stream");
    
    println!("Input:  {}", input);
    println!("Output: {}", result);
    
    // Should have :asc suffixes on all keys
    assert!(result.contains("user:asc="));
    assert!(result.contains("pass:asc="));
    assert!(result.contains("mode:asc="));
    
    // Values should be Base64 encoded
    assert!(!result.contains("john@example.com"));
    assert!(!result.contains("secret123"));
    assert!(!result.contains("debug"));
}

#[test]
fn test_decoder_transformer() {
    let encoder = encoder_key();
    let decoder = decoder();
    
    let original = "content=Hello, World!; app:version=1.0";
    
    // Encode first
    let encoded = transform_stream(original, &encoder)
        .expect("Should encode");
    
    println!("Original: {}", original);
    println!("Encoded:  {}", encoded);
    
    // Then decode
    let decoded = transform_stream(&encoded, &decoder)
        .expect("Should decode");
    
    println!("Decoded:  {}", decoded);
    
    assert_eq!(original, decoded);
}

#[test]
fn test_bidirectional_transformer() {
    let encoder = encoder_key();
    let bidirectional = bidirectional();
    
    // First create a properly encoded token
    let test_encoded = transform_stream("encoded=Test", &encoder)
        .expect("Should create test token");
    
    // Extract just the encoded part
    let encoded_part = test_encoded.split('=').nth(1).unwrap();
    let input = format!("normal=text; encoded:asc={}; mixed=value", encoded_part);
    
    let result = transform_stream(&input, &bidirectional)
        .expect("Should handle bidirectional");
    
    println!("Input:  {}", input);
    println!("Output: {}", result);
    
    // Should decode the encoded token and encode the others
    assert!(result.contains("normal:asc="));  // Should be encoded
    assert!(result.contains("encoded=Test"));  // Should be decoded
    assert!(result.contains("mixed:asc="));    // Should be encoded
}

#[test]
fn test_extensions_with_templates() {
    let transformer = extensions_encoder();
    let template_content = "Hello #V#name#V#, your order #EOF#";
    let input = format!("template={}", template_content);
    
    let result = transform_stream(&input, &transformer)
        .expect("Should encode template");
    
    println!("Template: {}", input);
    println!("Encoded:  {}", result);
    
    assert!(result.contains("template:asc="));
    
    // Decode to verify roundtrip
    let decoder = extensions_decoder();
    let decoded = transform_stream(&result, &decoder)
        .expect("Should decode template");
    
    println!("Decoded:  {}", decoded);
    assert_eq!(input, decoded);
}

#[test]
fn test_selective_transformation() {
    let transformer = encoder_key();
    let input = "user=john; pass=secret; debug=true; temp=data";
    
    // Only encode specific keys
    let result = transform_selective(input, &transformer, &["user", "pass"])
        .expect("Should selectively transform");
    
    println!("Input:      {}", input);
    println!("Selective:  {}", result);
    
    // Should only encode user and pass
    assert!(result.contains("user:asc="));
    assert!(result.contains("pass:asc="));
    assert!(result.contains("debug=true"));  // unchanged
    assert!(result.contains("temp=data"));   // unchanged
}

#[test]
fn test_compression_gate() {
    let transformer = encoder_key();
    
    // Small content - should not be compressed
    let small = "key=val";
    let small_result = compression_gate(small, &transformer, 20)
        .expect("Should handle small content");
    assert_eq!(small, small_result);  // unchanged
    
    // Large content - should be compressed
    let large = format!("content={}", "This is a large piece of content. ".repeat(10));
    let large_result = compression_gate(&large, &transformer, 20)
        .expect("Should handle large content");
    assert_ne!(large, large_result);  // should be encoded
    assert!(large_result.contains("content:asc="));
}

#[test]
fn test_fork_processing() {
    let transformer = encoder_value();  // Use value suffix mode
    let input = "data=important information; config=settings";
    
    let (original, encoded) = fork_encode(input, &transformer)
        .expect("Should fork processing");
    
    println!("Original: {}", original);
    println!("Encoded:  {}", encoded);
    
    assert_eq!(input, original);
    assert!(encoded.contains(":a"));  // value suffix mode
    assert_ne!(original, encoded);
}

#[test]
fn test_chained_operations() {
    let encoder = encoder_key();
    let input = "message=Hello World; user=alice";
    
    // Chain ASC100 encoding with a mock operation
    let result = chain_transform(input, &encoder, |intermediate| {
        // Mock operation: add a timestamp token
        Ok(format!("{}; timestamp=1234567890", intermediate))
    }).expect("Should chain operations");
    
    println!("Input:   {}", input);
    println!("Chained: {}", result);
    
    assert!(result.contains("message:asc="));
    assert!(result.contains("user:asc="));
    assert!(result.contains("timestamp=1234567890"));
}

#[test]
fn test_large_content_performance() {
    let transformer = encoder_key();
    
    // Generate large content with markers
    let large_content = format!(
        "#SSX# {} #V#data#V# {} #ESX#",
        "Large content section. ".repeat(100),
        "End section with markers. ".repeat(50)
    );
    let input = format!("payload={}", large_content);
    
    let start = std::time::Instant::now();
    let encoded = transform_stream(&input, &transformer)
        .expect("Should encode large content");
    let encode_time = start.elapsed();
    
    let decoder = decoder();
    let start = std::time::Instant::now();
    let decoded = transform_stream(&encoded, &decoder)
        .expect("Should decode large content");
    let decode_time = start.elapsed();
    
    println!("Original size: {} bytes", input.len());
    println!("Encoded size:  {} bytes", encoded.len());
    println!("Encode time:   {:?}", encode_time);
    println!("Decode time:   {:?}", decode_time);
    
    assert_eq!(input, decoded);
    assert!(encode_time.as_millis() < 100, "Encoding should be fast");
    assert!(decode_time.as_millis() < 100, "Decoding should be fast");
}

#[test]
fn test_namespace_handling() {
    let transformer = encoder_key();
    let input = "app:config=debug; user:name=alice; global=setting";
    
    let result = transform_stream(input, &transformer)
        .expect("Should handle namespaces");
    
    println!("Input:  {}", input);
    println!("Output: {}", result);
    
    // Should preserve namespaces in keys
    assert!(result.contains("app:config:asc="));
    assert!(result.contains("user:name:asc="));
    assert!(result.contains("global:asc="));
}

#[test]
fn transformer_reports_missing_equals_and_codec_errors() {
    let transformer = encoder_key();
    assert_eq!(transform_stream("a=1; broken; c=3", &transformer), Err(StreamError::MissingEquals));
    assert_eq!(
        transform_stream("a=caf\u{e9}; broken", &transformer),
        Err(StreamError::Codec(Asc100Error::InvalidCharacter('\u{e9}')))
    );
    assert_eq!(transform_stream(" ; ;  ", &transformer), Ok(String::new()));
}

#[test]
fn transformer_exact_output() {
    let transformer = encoder_key();
    assert_eq!(transform_stream("greeting=Hello", &transformer).unwrap(), "greeting:asc=URZkye");
    let value_marked = encoder_value();
    assert_eq!(transform_stream("  greeting=Hello  ;", &value_marked).unwrap(), "greeting=URZkye:a");
    assert_eq!(transform_stream("greeting:asc=URZkye", &decoder()).unwrap(), "greeting=Hello");
    assert_eq!(transform_stream("plain=text", &decoder()).unwrap(), "plain=text");
}

#[test]
fn merge_picks_one_stream() {
    assert_eq!(merge_streams("enc", "dec", true).unwrap(), "enc");
    assert_eq!(merge_streams("enc", "dec", false).unwrap(), "dec");
}

#[test]
fn transform_value_by_mode() {
    let t = Asc100Transformer::core_strict(TransformMode::EncodeValueMarked);
    assert_eq!(t.transform_value("k", "Hello").unwrap(), ("k".to_string(), "URZkye:a".to_string()));
    let t = Asc100Transformer::core_strict(TransformMode::Bidirectional);
    assert_eq!(t.transform_value("k", "Hello").unwrap(), ("k:asc".to_string(), "URZkye".to_string()));
    assert_eq!(t.transform_value("k", "URZkye:a").unwrap(), ("k".to_string(), "Hello".to_string()));
    let t = Asc100Transformer::extensions(TransformMode::EncodeKeyMarked);
    assert_eq!(t.transform_value("k", "#V#").unwrap(), ("k:asc".to_string(), "zg".to_string()));
}
