use bibicode::{BibiCoder, BibiError, NumeralSystem};

#[test]
fn round_trip_reproduces_canonical_form() {
    // A number converted from one system to another and back comes out as the
    // canonical representation in the first system, leading zeros suppressed.
    let dec = NumeralSystem::new_from_tag("dec").unwrap();
    let hex = NumeralSystem::new_from_tag("hex").unwrap();
    let dec_to_hex = BibiCoder::new(dec, hex);
    let hex = NumeralSystem::new_from_tag("hex").unwrap();
    let dec = NumeralSystem::new_from_tag("dec").unwrap();
    let hex_to_dec = BibiCoder::new(hex, dec);

    let there = dec_to_hex.swap("00018446744073709551617").unwrap();
    let back = hex_to_dec.swap(&there).unwrap();
    assert_eq!(back, "18446744073709551617");
}

#[test]
fn combined_classes_multiply_the_radix() {
    let sys = NumeralSystem::new("", vec![vec!["x", "y", "z"], vec!["0", "1"]]).unwrap();
    assert_eq!(sys.radix(), 6);
    assert_eq!(sys.len(), 6);

    let sys = NumeralSystem::new(
        "",
        vec![vec!["a", "b"], vec!["c", "d", "e"], vec!["f", "g"]],
    )
    .unwrap();
    assert_eq!(sys.radix(), 12);
}

#[test]
fn construction_rejects_bad_classes() {
    // empty class list, empty class, empty digit, width mismatch, duplicates
    assert!(matches!(
        NumeralSystem::new("", vec![]),
        Err(BibiError::BadNumeralSystem)
    ));
    assert!(matches!(
        NumeralSystem::new("", vec![vec![]]),
        Err(BibiError::BadNumeralSystem)
    ));
    assert!(matches!(
        NumeralSystem::new("", vec![vec!["", ""]]),
        Err(BibiError::BadNumeralSystem)
    ));
    assert!(matches!(
        NumeralSystem::new("", vec![vec!["a", "bb"]]),
        Err(BibiError::BadNumeralSystem)
    ));
    assert!(matches!(
        NumeralSystem::new("", vec![vec!["a", "b", "a"]]),
        Err(BibiError::BadNumeralSystem)
    ));
    // a duplicated class entry surfaces as a duplicate of the combined set
    assert!(matches!(
        NumeralSystem::new("", vec![vec!["a", "a"], vec!["x", "y"]]),
        Err(BibiError::BadNumeralSystem)
    ));
    // a single digit gives radix one, which has no conversion semantics
    assert!(matches!(
        NumeralSystem::new("", vec![vec!["0"]]),
        Err(BibiError::BadNumeralSystem)
    ));
}

#[test]
fn predefined_tags() {
    let bin = NumeralSystem::new_from_tag("bin").unwrap();
    assert_eq!(bin.radix(), 2);
    assert_eq!(bin.get_prefix(), "0b");

    let oct = NumeralSystem::new_from_tag("oct").unwrap();
    assert_eq!(oct.radix(), 8);
    assert_eq!(oct.get_prefix(), "0o");

    let dec = NumeralSystem::new_from_tag("dec").unwrap();
    assert_eq!(dec.radix(), 10);
    assert_eq!(dec.get_prefix(), "");

    let hex = NumeralSystem::new_from_tag("hex").unwrap();
    assert_eq!(hex.radix(), 16);
    assert_eq!(hex.get_prefix(), "0x");

    let bibi = NumeralSystem::new_from_tag("bibi").unwrap();
    assert_eq!(bibi.radix(), 16);

    let budu = NumeralSystem::new_from_tag("budu").unwrap();
    assert_eq!(budu.radix(), 64);

    let utf8 = NumeralSystem::new_from_tag("utf8").unwrap();
    assert_eq!(utf8.radix(), 100);

    let base58 = NumeralSystem::new_from_tag("base58").unwrap();
    assert_eq!(base58.radix(), 58);

    let chin = NumeralSystem::new_from_tag("chin").unwrap();
    assert_eq!(chin.radix(), 3072);

    assert!(matches!(
        NumeralSystem::new_from_tag("nope"),
        Err(BibiError::BadTagNumeralSystem)
    ));
}

#[test]
fn tag_conversions() {
    let dec = NumeralSystem::new_from_tag("dec").unwrap();
    let bibi = NumeralSystem::new_from_tag("bibi").unwrap();
    let coder = BibiCoder::new(dec, bibi);
    assert_eq!(coder.swap("2000").unwrap(), "BIDAHO");

    let dec = NumeralSystem::new_from_tag("dec").unwrap();
    let oct = NumeralSystem::new_from_tag("oct").unwrap();
    let coder = BibiCoder::new(dec, oct);
    assert_eq!(coder.swap("8").unwrap(), "0o10");

    let dec = NumeralSystem::new_from_tag("dec").unwrap();
    let base58 = NumeralSystem::new_from_tag("base58").unwrap();
    let coder = BibiCoder::new(dec, base58);
    assert_eq!(coder.swap("57").unwrap(), "z");
    assert_eq!(coder.swap("58").unwrap(), "21");

    // through the large CJK system and back
    let dec = NumeralSystem::new_from_tag("dec").unwrap();
    let chin = NumeralSystem::new_from_tag("chin").unwrap();
    let coder = BibiCoder::new(dec, chin);
    let mid = coder.swap("123456789").unwrap();
    let chin = NumeralSystem::new_from_tag("chin").unwrap();
    let dec = NumeralSystem::new_from_tag("dec").unwrap();
    let coder = BibiCoder::new(chin, dec);
    assert_eq!(coder.swap(&mid).unwrap(), "123456789");

    // the utf8 test system pairs a filled glyph with a hollow one
    let dec = NumeralSystem::new_from_tag("dec").unwrap();
    let utf8 = NumeralSystem::new_from_tag("utf8").unwrap();
    let coder = BibiCoder::new(dec, utf8);
    assert_eq!(coder.swap("0").unwrap(), "\u{25a0}\u{25a1}");
    assert_eq!(coder.swap("99").unwrap(), "\u{2605}\u{2606}");
}

#[test]
fn zero_and_prefix_handling() {
    let dec = NumeralSystem::new_from_tag("dec").unwrap();
    let hex = NumeralSystem::new_from_tag("hex").unwrap();
    let coder = BibiCoder::new(dec, hex);
    assert_eq!(coder.swap("0").unwrap(), "0x0");
    assert_eq!(coder.swap("000").unwrap(), "0x0");
    assert_eq!(coder.swap("").unwrap(), "0x0");

    // stripping the target prefix lets a caller attach it once to a batch
    let dec = NumeralSystem::new_from_tag("dec").unwrap();
    let mut hex = NumeralSystem::new_from_tag("hex").unwrap();
    assert_eq!(hex.get_prefix(), "0x");
    hex.set_prefix("");
    let coder = BibiCoder::new(dec, hex);
    assert_eq!(coder.swap("255").unwrap(), "ff");
}

#[test]
fn lookup_digit_and_index() {
    let hex = NumeralSystem::new_from_tag("hex").unwrap();
    assert_eq!(hex.lookup_index("f").unwrap(), 15);
    assert_eq!(hex.lookup_index("0").unwrap(), 0);
    assert_eq!(hex.lookup_digit(10), "a");
    assert!(matches!(
        hex.lookup_index("g"),
        Err(BibiError::EntryMismatchWithNumeralSystem)
    ));
}

#[test]
fn swap_rejects_foreign_digits() {
    let dec = NumeralSystem::new_from_tag("dec").unwrap();
    let hex = NumeralSystem::new_from_tag("hex").unwrap();
    let coder = BibiCoder::new(dec, hex);
    assert!(matches!(
        coder.swap("12a4"),
        Err(BibiError::EntryMismatchWithNumeralSystem)
    ));
}

#[test]
fn autodetect_ignores_empty_prefixes() {
    let hex = NumeralSystem::new_from_tag("hex").unwrap();
    let dec = NumeralSystem::new_from_tag("dec").unwrap();
    let bin = NumeralSystem::new_from_tag("bin").unwrap();

    // the unique match is found, and an empty-prefix candidate changes nothing
    let found = NumeralSystem::autodetect("0x4324ae34", vec![&hex, &dec, &bin]).unwrap();
    assert_eq!(found.get_prefix(), "0x");

    // two candidates with the same matching prefix: ambiguity, so no detection
    let hex2 = NumeralSystem::new_from_tag("hex").unwrap();
    let test = NumeralSystem::autodetect("0x4324ae34", vec![&hex, &hex2]);
    assert!(test.is_none());

    // a candidate shorter than its own prefix never matches
    let test = NumeralSystem::autodetect("0", vec![&hex, &bin]);
    assert!(test.is_none());
}

#[test]
fn extract_numbers_by_pattern() {
    // an empty pattern returns the text unchanged
    let r = BibiCoder::extract_numbers("0x12-34", "").unwrap();
    assert_eq!(r, vec!["0x12-34".to_string()]);

    // the capturing groups, in order, excluding the whole match
    let r = BibiCoder::extract_numbers("0x12-34", "([0-9a-fx]+)-([0-9]+)").unwrap();
    assert_eq!(r, vec!["0x12".to_string(), "34".to_string()]);

    // a group that takes no part in the match is skipped
    let r = BibiCoder::extract_numbers("b7", "(a[0-9])|(b[0-9])").unwrap();
    assert_eq!(r, vec!["b7".to_string()]);

    assert!(matches!(
        BibiCoder::extract_numbers("abc", "("),
        Err(BibiError::BadRegularExpression)
    ));
    assert!(matches!(
        BibiCoder::extract_numbers("abc", "[0-9]+"),
        Err(BibiError::RegexMismatchWithEntry)
    ));
}

#[test]
fn prefixes_from_tags() {
    let prefixes = NumeralSystem::get_prefixes_from_tags();
    assert_eq!(prefixes.len(), 3);
    assert_eq!(prefixes[0], ("0b".to_string(), "bin".to_string()));
    assert_eq!(prefixes[1], ("0o".to_string(), "oct".to_string()));
    assert_eq!(prefixes[2], ("0x".to_string(), "hex".to_string()));
}

#[test]
fn digits_listing() {
    let bin = NumeralSystem::new_from_tag("bin").unwrap();
    assert_eq!(bin.digits_string(), "0, 1");
    let sys = NumeralSystem::new("", vec![vec!["H", "B"], vec!["O", "A"]]).unwrap();
    assert_eq!(sys.digits_string(), "HO, HA, BO, BA");
}
