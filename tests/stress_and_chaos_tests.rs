use asc100::versions::{v1_standard, Asc100Version};

#[test]
fn test_insane_whitespace_stress() {
    let v1 = v1_standard();
    // Pre-allocate long strings to avoid lifetime issues
    let spaces_100 = " ".repeat(100);
    let spaces_1000 = " ".repeat(1000);
    let boundary_test = format!("{}{}{}", " ".repeat(50), "content", " ".repeat(50));
    
    let test_cases = vec![
        // Single spaces
        (" ", "single space"),
        ("  ", "double space"),
        ("   ", "triple space"),
        ("          ", "ten spaces"),
        
        // Nothing but spaces
        (spaces_100.as_str(), "100 spaces"),
        (spaces_1000.as_str(), "1000 spaces"),
        
        // Mixed whitespace
        ("\t\n\r ", "tab-newline-return-space"),
        ("\t\t\t\t\t", "five tabs"),
        ("\n\n\n\n\n", "five newlines"),
        ("\r\r\r\r\r", "five returns"),
        
        // Whitespace sandwiches
        ("   hello   ", "spaces around hello"),
        ("\t\ndata\r\n\t", "whitespace sandwich"),
        
        // Edge cases
        ("", "empty string"),
        ("\0", "null character"),
        ("~", "tilde (index 0 in V1)"),
        
        // Boundary stress
        (boundary_test.as_str(), "space boundary test"),
    ];
    
    for (test_input, description) in test_cases {
        let encoded = v1.encode(&test_input).expect(&format!("Failed to encode {}", description));
        let decoded = v1.decode(&encoded).expect(&format!("Failed to decode {}", description));
        assert_eq!(test_input, decoded, "Roundtrip failed for {}: expected {:?}, got {:?}", description, test_input, decoded);
    }
}

#[test]
fn test_crazy_marker_stress() {
    let v1 = v1_standard();
    // Pre-allocate marker stress strings
    let v_markers_100 = "#V#".repeat(100);
    let eof_markers_50 = "#EOF#".repeat(50);
    let huge_marker_text = format!("{}#V#{}", "x".repeat(1000), "y".repeat(1000));
    
    let marker_tests = vec![
        // Basic markers
        ("#V#", "basic variable marker"),
        ("#EOF#", "end of file marker"),
        ("#SSX#", "start stream marker"),
        ("#ESX#", "end stream marker"),
        
        // Fake/invalid markers (should be treated as text)
        ("#X#", "fake X marker"),
        ("#FAKE#", "fake long marker"),
        ("#", "incomplete marker"),
        ("##", "double hash"),
        ("#V", "incomplete V marker"),
        ("V#", "backwards V marker"),
        
        // Marker combinations
        ("#V##EOF#", "adjacent markers"),
        ("#V# #EOF#", "markers with space"),
        ("text#V#more#EOF#end", "text with markers"),
        
        // Marker stress tests
        (v_markers_100.as_str(), "100 V markers"),
        (eof_markers_50.as_str(), "50 EOF markers"),
        (huge_marker_text.as_str(), "markers in huge text"),
        
        // Edge cases with markers
        ("#V#", "lone V marker"),
        ("", "empty (no markers)"),
        ("no markers here", "text without markers"),
        ("##V##", "malformed marker attempts"),
    ];
    
    for (test_input, description) in marker_tests {
        let encoded = v1.encode(&test_input).expect(&format!("Failed to encode {}", description));
        let decoded = v1.decode(&encoded).expect(&format!("Failed to decode {}", description));
        assert_eq!(test_input, decoded, "Roundtrip failed for {}: expected {:?}, got {:?}", description, test_input, decoded);
    }
}

#[test]
fn test_crazy_alternating_patterns() {
    let v1 = v1_standard();
    // Test 1: Character frequency alternating pattern (high freq <-> low freq)
    let pattern1 = generate_frequency_alternating_string(&v1, 1000);
    let encoded1 = v1.encode(&pattern1).expect("Failed to encode frequency pattern");
    let decoded1 = v1.decode(&encoded1).expect("Failed to decode frequency pattern");
    assert_eq!(pattern1, decoded1, "Frequency alternating pattern failed");
    
    // Test 2: Character class cycling (letters -> numbers -> symbols)
    let pattern2 = generate_class_cycling_string(&v1, 500);
    let encoded2 = v1.encode(&pattern2).expect("Failed to encode class cycling");
    let decoded2 = v1.decode(&encoded2).expect("Failed to decode class cycling");
    assert_eq!(pattern2, decoded2, "Class cycling pattern failed");
    
    // Test 3: Alternating character/space pattern
    let pattern3 = generate_alternating_char_space(&v1, 200);
    let encoded3 = v1.encode(&pattern3).expect("Failed to encode alternating char/space");
    let decoded3 = v1.decode(&encoded3).expect("Failed to decode alternating char/space");
    assert_eq!(pattern3, decoded3, "Alternating char/space pattern failed");
    
    // Test 4: Random charset index hopping 
    let pattern4 = generate_charset_index_hopping(&v1, 300);
    let encoded4 = v1.encode(&pattern4).expect("Failed to encode index hopping");
    let decoded4 = v1.decode(&encoded4).expect("Failed to decode index hopping");
    assert_eq!(pattern4, decoded4, "Charset index hopping pattern failed");
    
    // Test 5: Marker injection in random patterns
    let pattern5 = generate_random_with_markers(&v1, 400);
    let encoded5 = v1.encode(&pattern5).expect("Failed to encode random with markers");
    let decoded5 = v1.decode(&encoded5).expect("Failed to decode random with markers");
    assert_eq!(pattern5, decoded5, "Random with markers pattern failed");
}

#[test] 
fn test_pathological_edge_cases() {
    let v1 = v1_standard();
    // Pathological Case 1: Worst-case charset distribution
    let worst_case = generate_worst_case_distribution(&v1, 500);
    let encoded = v1.encode(&worst_case).expect("Failed to encode worst case");
    let decoded = v1.decode(&encoded).expect("Failed to decode worst case");
    assert_eq!(worst_case, decoded, "Worst case distribution failed");
    
    // Pathological Case 2: Maximum entropy string  
    let max_entropy = generate_max_entropy_string(&v1, 200);
    let encoded = v1.encode(&max_entropy).expect("Failed to encode max entropy");
    let decoded = v1.decode(&encoded).expect("Failed to decode max entropy");
    assert_eq!(max_entropy, decoded, "Max entropy string failed");
    
    // Pathological Case 3: Compressibility nightmare (highly repetitive but complex pattern)
    let nightmare = generate_compressibility_nightmare(&v1, 300);
    let encoded = v1.encode(&nightmare).expect("Failed to encode nightmare");
    let decoded = v1.decode(&encoded).expect("Failed to decode nightmare");
    assert_eq!(nightmare, decoded, "Compressibility nightmare failed");
}

#[test]
fn test_unicode_boundary_stress() {
    let v1 = v1_standard();
    // Test strings that push ASCII boundaries but stay valid
    let boundary_tests = vec![
        generate_ascii_boundary_string(&v1, 100), // Characters near ASCII 127
        generate_control_char_mix(&v1, 150),      // Mix of control characters
        generate_printable_spectrum(&v1, 200),    // Full printable ASCII spectrum
    ];
    
    for (i, test_string) in boundary_tests.iter().enumerate() {
        let encoded = v1.encode(test_string).expect(&format!("Failed to encode boundary test {}", i));
        let decoded = v1.decode(&encoded).expect(&format!("Failed to decode boundary test {}", i));
        assert_eq!(*test_string, decoded, "Boundary test {} failed", i);
    }
}


/// A small deterministic generator (64-bit linear congruential) for reproducible inputs.
struct Lcg(u64);

impl Lcg {
    fn next(&mut self) -> u64 {
        self.0 = self.0.wrapping_mul(6364136223846793005).wrapping_add(1442695040888963407);
        self.0 >> 33
    }

    fn below(&mut self, n: usize) -> usize {
        (self.next() % n as u64) as usize
    }

    fn pick(&mut self, s: &str) -> char {
        let chars: Vec<char> = s.chars().collect();
        chars[self.below(chars.len())]
    }

    fn chance(&mut self, percent: u64) -> bool {
        self.next() % 100 < percent
    }
}

fn generate_frequency_alternating_string(_v1: &Asc100Version, length: usize) -> String {
    let mut rng = Lcg(42);
    (0..length)
        .map(|i| if i % 2 == 0 { rng.pick("etaoinshr") } else { rng.pick("zqxjkvbpyw") })
        .collect()
}

fn generate_class_cycling_string(_v1: &Asc100Version, length: usize) -> String {
    let mut rng = Lcg(123);
    (0..length)
        .map(|i| match i % 3 {
            0 => rng.pick("abcdefghijklmnopqrstuvwxyzABCDEFGHIJKLMNOPQRSTUVWXYZ"),
            1 => rng.pick("0123456789"),
            _ => rng.pick("!@#$%^&*()_+-=[]{}|;:'\",.<>?/~`"),
        })
        .collect()
}

fn generate_alternating_char_space(_v1: &Asc100Version, length: usize) -> String {
    let mut rng = Lcg(456);
    (0..length)
        .map(|i| if i % 2 == 0 {
            rng.pick("abcdefghijklmnopqrstuvwxyzABCDEFGHIJKLMNOPQRSTUVWXYZ0123456789!@#$%^&*()")
        } else {
            ' '
        })
        .collect()
}

fn generate_charset_index_hopping(v1: &Asc100Version, length: usize) -> String {
    let mut rng = Lcg(789);
    (0..length).map(|_| v1.charset[rng.below(100)]).collect()
}

fn generate_random_with_markers(_v1: &Asc100Version, length: usize) -> String {
    let markers = ["#V#", "#EOF#", "#SSX#", "#ESX#"];
    let mut rng = Lcg(999);
    let mut result = String::new();
    while result.len() < length {
        if rng.chance(10) && !result.is_empty() {
            result.push_str(markers[rng.below(markers.len())]);
        } else {
            result.push(rng.pick("abcdefghijklmnopqrstuvwxyz0123456789 .,!?"));
        }
    }
    result.truncate(length);
    result
}

fn generate_worst_case_distribution(v1: &Asc100Version, length: usize) -> String {
    let worst = [v1.charset[0], v1.charset[99], v1.charset[63], v1.charset[31]];
    let mut rng = Lcg(1337);
    (0..length).map(|_| worst[rng.below(4)]).collect()
}

fn generate_max_entropy_string(v1: &Asc100Version, length: usize) -> String {
    let mut rng = Lcg(2468);
    (0..length).map(|_| v1.charset[rng.below(100)]).collect()
}

fn generate_compressibility_nightmare(v1: &Asc100Version, length: usize) -> String {
    let mut rng = Lcg(1234);
    let mut result = String::new();
    while result.len() < length {
        let mut pattern = "AaBbCc123!@#".to_string();
        if rng.chance(30) {
            let at = rng.below(pattern.len());
            pattern.insert(at, v1.charset[rng.below(100)]);
        }
        result.push_str(&pattern);
    }
    let cut: String = result.chars().take(length).collect();
    cut
}

fn generate_ascii_boundary_string(v1: &Asc100Version, length: usize) -> String {
    let boundary = [
        '\x20', '\x21', '\x7E', '\x7F', '\x00', '\x01', '\x02', '\x03', '\x30', '\x39', '\x41',
        '\x5A', '\x61', '\x7A',
    ];
    let mut rng = Lcg(3698);
    (0..length)
        .map(|_| loop {
            let c = boundary[rng.below(boundary.len())];
            if v1.lookup[c as usize] != 255 {
                break c;
            }
        })
        .collect()
}

fn generate_control_char_mix(_v1: &Asc100Version, length: usize) -> String {
    let mut rng = Lcg(9876);
    (0..length)
        .map(|_| if rng.chance(20) { rng.pick("\t\n\r\0") } else { rng.pick("Hello World 123") })
        .collect()
}

fn generate_printable_spectrum(v1: &Asc100Version, length: usize) -> String {
    let mut rng = Lcg(5555);
    (0..length)
        .map(|_| loop {
            let c = (32 + rng.below(95)) as u8 as char;
            if v1.lookup[c as usize] != 255 {
                break c;
            }
        })
        .collect()
}
