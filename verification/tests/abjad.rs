use mal::abjad::{
    abjad_checksum, abjad_letter, abjad_value, compress_to_abjad, compress_words, digital_root,
    verify_checksum, AbjadCompressed, AbjadTrie, AbjadValue, DecimalClosure, DecimalMoney, MALChar,
    MultiChecksum,
};

/// Display value of an amount (the float conversion lives outside the library).
fn to_f64(m: &DecimalMoney) -> f64 {
    let divisor = match m.decimals {
        0 => 1.0,
        1 => 10.0,
        2 => 100.0,
        3 => 1000.0,
        4 => 10000.0,
        _ => 1.0,
    };
    m.amount as f64 / divisor
}

/// Estimated original size over compressed size.
fn compression_ratio(c: &AbjadCompressed, avg: usize) -> f64 {
    let original = c.estimated_original_size(avg) as f64;
    let compressed = c.compressed_size() as f64;
    if compressed == 0.0 { 1.0 } else { original / compressed }
}

/// Test 1: Abjad letter mapping
#[test]
fn test_abjad_letters() {
    // Basic letters
    assert_eq!(abjad_letter('ا'), Some(1));
    assert_eq!(abjad_letter('ب'), Some(2));
    assert_eq!(abjad_letter('ج'), Some(3));
    assert_eq!(abjad_letter('ق'), Some(100));
    assert_eq!(abjad_letter('غ'), Some(1000));
    // Alif variants
    assert_eq!(abjad_letter('أ'), Some(1));
    assert_eq!(abjad_letter('إ'), Some(1));
    assert_eq!(abjad_letter('آ'), Some(1));
    // Non-Arabic
    assert_eq!(abjad_letter('A'), None);
    assert_eq!(abjad_letter(' '), Some(0));
    // Word value
    let value = abjad_value("محمد");
    assert_eq!(value.0, 40 + 8 + 4 + 40);  // 92
    // Compress
    let compressed = compress_to_abjad("محمد");
    assert_eq!(compressed.0, 92);
}
/// Test 2: Decimal closure (O(1) operations)
#[test]
fn test_decimal_closure() {
    let base = AbjadValue::new(5).unwrap();
    // ×1
    assert_eq!(DecimalClosure::multiply_power(base, 0), Some(AbjadValue::new(5).unwrap()));
    // ×10
    assert_eq!(DecimalClosure::times_10(base), Some(AbjadValue::new(50).unwrap()));
    // ×100
    assert_eq!(DecimalClosure::times_100(base), Some(AbjadValue::new(500).unwrap()));
    // ×1000 (overflows 1000 for value=5? 5000 > 1000, so None)
    assert_eq!(DecimalClosure::times_1000(base), None);
    // Closure of 1
    let one = AbjadValue::new(1).unwrap();
    assert_eq!(DecimalClosure::times_10(one), Some(AbjadValue::new(10).unwrap()));
    assert_eq!(DecimalClosure::times_100(one), Some(AbjadValue::new(100).unwrap()));
    assert_eq!(DecimalClosure::times_1000(one), Some(AbjadValue::new(1000).unwrap()));
    // Closure check
    assert!(DecimalClosure::is_closure_of(AbjadValue::new(100).unwrap(), AbjadValue::new(1).unwrap()));
    assert!(DecimalClosure::is_closure_of(AbjadValue::new(50).unwrap(), AbjadValue::new(5).unwrap()));
    assert!(!DecimalClosure::is_closure_of(AbjadValue::new(15).unwrap(), AbjadValue::new(5).unwrap()));
    // Division (inverse)
    let v100 = AbjadValue::new(100).unwrap();
    assert_eq!(DecimalClosure::divide_power(v100, 1), Some(AbjadValue::new(10).unwrap()));
    assert_eq!(DecimalClosure::divide_power(v100, 2), Some(AbjadValue::new(1).unwrap()));
    assert_eq!(DecimalClosure::divide_power(AbjadValue::new(15).unwrap(), 1), None);
}
/// Test 3: Digital root and checksum
#[test]
fn test_digital_root_checksum() {
    // Digital root: mod 9
    assert_eq!(digital_root(0), 0);
    assert_eq!(digital_root(1), 1);
    assert_eq!(digital_root(9), 9);
    assert_eq!(digital_root(10), 1);  // 1+0=1
    assert_eq!(digital_root(18), 9);  // 1+8=9
    assert_eq!(digital_root(123), 6); // 1+2+3=6
    assert_eq!(digital_root(999), 9); // 9+9+9=27 → 9
    // Abjad checksum
    let cs = abjad_checksum("الله");
    assert_eq!(cs, digital_root(1 + 30 + 30 + 5));  // 66 → 6+6=12 → 3
    // Verify
    assert!(verify_checksum("الله", cs));
    assert!(!verify_checksum("الله", 99));  // Wrong checksum
}
/// Test 4: Decimal money (exact calculations)
#[test]
fn test_decimal_money() {
    // Exact money
    let m1 = DecimalMoney::from_units(1050, 2);  // 10.50
    let m2 = DecimalMoney::from_units(2075, 2);  // 20.75
    // Add (exact)
    let sum = m1.add(m2).unwrap();
    assert_eq!(sum.amount, 3125);  // 31.25
    assert_eq!(to_f64(&sum), 31.25);
    // Multiply by 10 (O(1))
    let m3 = m1.times_10();
    assert_eq!(m3.amount, 10500);  // 105.00
    assert_eq!(to_f64(&m3), 105.0);
    // Multiply by 100 (O(1))
    let m4 = m1.times_100();
    assert_eq!(m4.amount, 105000);  // 1050.00
    assert_eq!(to_f64(&m4), 1050.0);
    // No floating-point errors
    // Python: 10.50 + 20.75 = 31.250000000000004
    // MAL: 10.50 + 20.75 = 31.25 (exact)
    let exact_sum = to_f64(&m1.add(m2).unwrap());
    assert_eq!(exact_sum, 31.25);
    // Different decimals cannot add directly
    let m_a = DecimalMoney::from_units(100, 1);  // 10.0
    let m_b = DecimalMoney::from_units(100, 2);  // 1.00
    assert!(m_a.add(m_b).is_none());
}

/// Test 6: Abjad Trie for semantic indexing
#[test]
fn test_abjad_trie() {
    let mut trie = AbjadTrie::new();
    // Insert words with different Abjad values
    trie.insert("الله");     // 66
    trie.insert("محمد");     // 92
    trie.insert("بسم");      // 102
    // Find by exact value
    let results = trie.find_by_value(66);
    assert_eq!(results.len(), 1);
    assert_eq!(results[0], "الله");
    // Find by range
    let range_results = trie.find_in_range(50, 100);
    assert!(range_results.len() >= 2); // الله (66) and محمد (92)
    // Find by digital root
    // الله = 66, dr(66) = 6+6=12 → 1+2=3
    let dr_results = trie.find_by_digital_root(3);
    assert!(dr_results.iter().any(|(_, t)| *t == "الله"));
    // Missing value
    let missing = trie.find_by_value(999);
    assert!(missing.is_empty());
}
/// Test 7: Abjad Compression
#[test]
fn test_abjad_compression() {
    let text = "بسم الله الرحمن الرحيم";
    let compressed = AbjadCompressed::compress(text);
    // Word count preserved
    assert_eq!(compressed.word_count(), 4);
    // Compressed size: 4 words × 4 bytes = 16 bytes
    assert_eq!(compressed.compressed_size(), 16);
    // Estimated original: ~4 chars/word × 2 bytes/char × 4 words + spaces = 36 bytes
    let original_est = compressed.estimated_original_size(4);
    assert!(original_est > compressed.compressed_size());
    // Compression ratio > 1.5 (realistic for Arabic)
    let ratio = compression_ratio(&compressed, 4);
    assert!(ratio > 1.5, "Ratio was {}", ratio);
    // Word value access
    assert_eq!(compressed.word_value(0), Some(102)); // بسم
    assert_eq!(compressed.word_value(1), Some(66));  // الله
    // Total sum
    let total = compressed.total_sum();
    assert!(total > 0);
    // Digital root of entire text
    let dr = compressed.text_digital_root();
    assert!(dr >= 1 && dr <= 9);
    // Find words with specific value
    let allah_positions = compressed.find_words_with_value(66);
    assert_eq!(allah_positions.len(), 1);
    assert_eq!(allah_positions[0], 1); // second word
}
/// Test 8: Multi-modulus checksum (Chinese Remainder Theorem)
#[test]
fn test_multi_checksum() {
    let text = "الله";
    let cs = MultiChecksum::compute(text);
    // Verify correctness
    assert!(cs.verify(text));
    assert!(!cs.verify("محمد"));
    // Moduli values for الله (66)
    assert_eq!(cs.mod_9, (66 % 9) as u8);   // 3
    assert_eq!(cs.mod_11, (66 % 11) as u8); // 0
    assert_eq!(cs.mod_13, (66 % 13) as u8); // 1
    // CRT reconstruction
    let reconstructed = cs.reconstruct_modulo();
    assert_eq!(reconstructed % 9, cs.mod_9 as u32);
    assert_eq!(reconstructed % 11, cs.mod_11 as u32);
    assert_eq!(reconstructed % 13, cs.mod_13 as u32);
    // Unique space size: 9 * 11 * 13 = 1287
    assert_eq!(MultiChecksum::unique_space_size(), 1287);
    // Different texts have different checksums (with high probability)
    let cs2 = MultiChecksum::compute("محمد");
    assert_ne!(cs, cs2);
}


/// Test 9: MALChar Dual-Layer System (Abjadi + Hijai)
#[test]
fn test_mal_char_dual_layer() {
    // كلمة "مال"
    let mut chars = vec![
        MALChar::from_char('م').unwrap(), // Abjad: 40, Hijai: 24
        MALChar::from_char('ا').unwrap(), // Abjad: 1, Hijai: 1
        MALChar::from_char('ل').unwrap(), // Abjad: 30, Hijai: 23
    ];
    // 1. الفرز يستخدم الهجائي (ا, ل, م)
    MALChar::sort_hijai(&mut chars);
    assert_eq!(chars[0].glyph, 'ا');
    assert_eq!(chars[1].glyph, 'ل');
    assert_eq!(chars[2].glyph, 'م');
    // 2. الحساب يستخدم الأبجدي (مال = 40 + 1 + 30 = 71)
    let sum = MALChar::sum_abjad(&chars);
    assert_eq!(sum, 71);
    // 3. التحقق من التضاد بين النظامين (حرف التاء)
    let ta = MALChar::from_char('ت').unwrap();
    assert_eq!(ta.abjad, 400); // قيمة عالية في الأبجدي
    assert_eq!(ta.hijai, 3);   // ترتيب مبكر في الهجائي
    // 4. حرف الغين (أقصى قيمة أبجدية)
    let ghayn = MALChar::from_char('غ').unwrap();
    assert_eq!(ghayn.abjad, 1000); 
    assert_eq!(ghayn.hijai, 19);   
}

/// Test 5: Compression efficiency
#[test]
fn test_compression_efficiency() {
    // Single word: "محمد" = 4 chars
    let text = "محمد";
    let utf8_bytes = text.len();  // ~8 bytes in UTF-8
    let compressed = compress_to_abjad(text);
    let compressed_bytes = std::mem::size_of::<u32>();  // 4 bytes
    assert!(compressed_bytes < utf8_bytes);
    assert_eq!(compressed.0, 92);
    // Multiple words
    let sentence = "بسم الله الرحمن الرحيم";
    let utf8_sentence = sentence.len();  // ~38 bytes
    let words = compress_words(sentence);
    let compressed_size = words.len() * std::mem::size_of::<AbjadValue>();
    // Significant compression for longer texts
    assert!(compressed_size < utf8_sentence);
    assert_eq!(words.len(), 4);  // 4 words
    // Abjad value correctness
    let bism = abjad_value("بسم");  // 2+60+40 = 102
    let allah = abjad_value("الله");  // 1+30+30+5 = 66
    let rahman = abjad_value("الرحمن");  // 1+30+200+8+40+50 = 329
    let raheem = abjad_value("الرحيم");  // 1+30+200+8+10+40 = 289
    assert_eq!(words[0].0, bism.0);
    assert_eq!(words[1].0, allah.0);
    assert_eq!(words[2].0, rahman.0);
    assert_eq!(words[3].0, raheem.0);
}

#[test]
fn abjad_value_new_bounds() {
    assert_eq!(AbjadValue::new(0), None);
    assert_eq!(AbjadValue::new(1001), None);
    assert_eq!(AbjadValue::new(1000).map(|v| v.value()), Some(1000));
    assert_eq!(AbjadValue::unchecked(5000).value(), 5000);
    assert_eq!(AbjadValue(3).add(AbjadValue(4)), AbjadValue(7));
}

#[test]
fn closure_edge_cases() {
    assert!(DecimalClosure::is_closure_of(AbjadValue(10), AbjadValue(10)));
    assert!(!DecimalClosure::is_closure_of(AbjadValue(1), AbjadValue(10)));
    assert!(DecimalClosure::is_closure_of(AbjadValue(100), AbjadValue(10)));
    assert!(DecimalClosure::is_closure_of(AbjadValue(7), AbjadValue(7)));
    assert!(!DecimalClosure::is_closure_of(AbjadValue(0), AbjadValue(0)));
    assert!(!DecimalClosure::is_closure_of(AbjadValue(0), AbjadValue(5)));
    assert_eq!(DecimalClosure::multiply_power(AbjadValue(5), 4), None);
    assert_eq!(DecimalClosure::divide_power(AbjadValue(100), 3), None);
    assert_eq!(DecimalClosure::divide_power(AbjadValue(1000), 3), Some(AbjadValue(1)));
}

#[test]
fn money_from_display_and_mixed_add() {
    let m = DecimalMoney::from_display(12, 3);
    assert_eq!(m.amount, 12000);
    assert_eq!(m.decimals, 3);
    assert_eq!(DecimalMoney::from_display(12, 9).amount, 12);
    assert_eq!(DecimalMoney::from_units(5, 2).add(DecimalMoney::from_units(7, 2)), Some(DecimalMoney::from_units(12, 2)));
}

#[test]
fn crt_reconstruction_exact() {
    let cs = MultiChecksum { mod_9: 3, mod_11: 0, mod_13: 1 };
    assert_eq!(cs.reconstruct_modulo(), 66);
    let cs = MultiChecksum { mod_9: 8, mod_11: 10, mod_13: 12 };
    assert_eq!(cs.reconstruct_modulo(), 1286);
}

#[test]
fn words_split_on_unicode_whitespace() {
    let words = compress_words("  بسم\tالله\n ");
    assert_eq!(words.len(), 2);
    assert_eq!(words[0].0, 102);
    assert_eq!(words[1].0, 66);
    assert!(compress_words("").is_empty());
}

#[test]
fn trie_deduplicates_and_keeps_order() {
    let mut trie = AbjadTrie::new();
    trie.insert("اب");
    trie.insert("با");
    trie.insert("اب");
    assert_eq!(trie.find_by_value(3), vec!["اب", "با"]);
    assert_eq!(trie.find_in_range(4, 2), Vec::<(u32, &str)>::new());
}

#[test]
fn compressed_positions_and_sums() {
    let c = AbjadCompressed::compress("اب با ج");
    assert_eq!(c.find_words_with_value(3), vec![0, 1, 2]);
    assert_eq!(c.total_sum(), 9);
    assert_eq!(c.text_digital_root(), 9);
    assert_eq!(c.word_value(3), None);
    assert_eq!(c.estimated_original_size(2), 15);
}

#[test]
fn digital_root_search_covers_values_past_a_thousand() {
    let mut trie = AbjadTrie::new();
    trie.insert("غب");
    trie.insert("الله");
    let found = trie.find_by_digital_root(3);
    assert_eq!(found, vec![(66, "الله"), (1002, "غب")]);
    assert!(trie.find_by_digital_root(0).is_empty());
}

#[test]
fn trie_run_of_inserts_keeps_first_order_without_repeats() {
    let mut trie = AbjadTrie::new();
    for t in ["ب", "ا", "اا", "ج", "ب", "اا"] {
        trie.insert(t);
    }
    assert_eq!(trie.find_by_value(2), vec!["ب", "اا"]);
    assert_eq!(trie.find_by_value(1), vec!["ا"]);
    assert_eq!(trie.find_by_value(3), vec!["ج"]);
    assert!(trie.find_by_value(4).is_empty());
}

#[test]
fn checksum_reconstructs_value_mod_1287() {
    // غ = 1000, so "غغ" = 2000 and 2000 mod 1287 = 713.
    assert_eq!(MultiChecksum::compute("غغ").reconstruct_modulo(), 713);
    // الله = 66 < 1287 comes back whole.
    assert_eq!(MultiChecksum::compute("الله").reconstruct_modulo(), 66);
}
