use bibicode::{BibiCoder, NumeralSystem};

#[test]
fn test_numeral_system() {
    let test = NumeralSystem::new("", vec![vec!["0", "1", "2", "2"]]);
    assert!(test.is_err(), "test 1 1");

    let test = NumeralSystem::new("", vec![vec!["0", "1", "2", "22"]]);
    assert!(test.is_err(), "test 1 2");

    let test = NumeralSystem::new("", vec![vec!["0", "1", "2"], vec!["0", "1", "2", "22"]]);
    assert!(test.is_err(), "test 1 3");

    let test = NumeralSystem::new("", vec![vec!["0", "1", "2"], vec!["0", "1", "2", "2"]]);
    assert!(test.is_err(), "test 1 4");

    let a = vec![
        "B", "K", "D", "F", "G", "J", "L", "M", "N", "P", "R", "S", "T", "V", "X", "Z",
    ];
    let b = vec!["a", "i", "o", "u"];
    let len1 = a.len() * b.len();
    let test = NumeralSystem::new("", vec![a, b]).unwrap();
    let len2 = test.len();
    assert!(len1 == len2, "test 1 5");
}

#[test]
fn test_bibicoder() {
    let dec = NumeralSystem::new(
        "",
        vec![vec!["0", "1", "2", "3", "4", "5", "6", "7", "8", "9"]],
    )
    .unwrap();
    let bibi = NumeralSystem::new(
        "",
        vec![vec![
            "HO", "HA", "HE", "HI", "BO", "BA", "BE", "BI", "KO", "KA", "KE", "KI", "DO", "DA",
            "DE", "DI",
        ]],
    )
    .unwrap();

    let dec_to_bibi = BibiCoder::new(dec, bibi);

    let test = dec_to_bibi.swap("2000").unwrap();
    assert_eq!(test, "BIDAHO", "test 2 1");

    let test = dec_to_bibi.swap("2000").unwrap();
    assert_eq!(test, "BIDAHO", "test 2 2");

    let bin = NumeralSystem::new_from_tag("bin").unwrap();
    let hex = NumeralSystem::new_from_tag("hex").unwrap();
    let dec = NumeralSystem::new_from_tag("dec").unwrap();

    let hex_to_dec = BibiCoder::new(hex, dec);

    let dec = NumeralSystem::new_from_tag("dec").unwrap();
    let hex = NumeralSystem::new_from_tag("hex").unwrap();
    let dec_to_hex = BibiCoder::new(dec, hex);

    let hex = NumeralSystem::new_from_tag("hex").unwrap();
    let hex_to_bin = BibiCoder::new(hex, bin);

    let test = hex_to_dec.swap("ffff").unwrap();
    assert_eq!(test, "65535", "test 2 3");

    let test = hex_to_bin.swap("f0ff").unwrap();
    assert_eq!(test, "0b1111000011111111", "test 2 4");

    let test = dec_to_hex
        .swap("324439924324324235436544328757654635345424324543")
        .unwrap();

    assert_eq!(
        test, "0x38d463ad8fa67a74d6e9a610158623c60d2297bf",
        "test 2 5"
    );

    let test = dec_to_hex.swap("45641230").unwrap();
    assert_eq!(test, "0x2b86e0e", "test 2 6");

    let test = hex_to_dec
        .swap("38d463ad8fa67a74d6e9a610158623c60d2297bf")
        .unwrap();

    assert_eq!(
        test, "324439924324324235436544328757654635345424324543",
        "test 2 7"
    );

    let sys = NumeralSystem::new(
        "",
        vec![
            vec![
                "B", "K", "D", "F", "G", "J", "L", "M", "N", "P", "R", "S", "T", "V", "X", "Z",
            ],
            vec!["a-", "i-", "o-", "u-"],
        ],
    )
    .unwrap();

    let hex = NumeralSystem::new_from_tag("hex").unwrap();
    let hex_to_sys = BibiCoder::new(hex, sys);
    let test = hex_to_sys
        .swap("de0b295669a9fd93d5f28d9ec85e40f4cb697bae")
        .unwrap();

    let test2 = hex_to_sys
        .swap("0xde0b295669a9fd93d5f28d9ec85e40f4cb697bae")
        .unwrap();

    assert_eq!(
        test,
        "Fi-Xa-Du-Do-Ji-Li-Ri-Ro-Mu-Vo-Gu-Vi-Mu-Do-Fi-Pu-Sa-Ni-Mo-Ga-Fu-Gu-Du-Lo-Ju-So-So-",
        "test 2 8"
    );
    assert_eq!(
        test2,
        "Fi-Xa-Du-Do-Ji-Li-Ri-Ro-Mu-Vo-Gu-Vi-Mu-Do-Fi-Pu-Sa-Ni-Mo-Ga-Fu-Gu-Du-Lo-Ju-So-So-",
        "test 2 9"
    );

    let sys = NumeralSystem::new(
        "",
        vec![
            vec![
                "B", "K", "D", "F", "G", "J", "L", "M", "N", "P", "R", "S", "T", "V", "X", "Z",
            ],
            vec!["a-", "i-", "o-", "u-"],
        ],
    )
    .unwrap();
    let hex = NumeralSystem::new_from_tag("hex").unwrap();
    let sys_to_hex = BibiCoder::new(sys, hex);
    let test = sys_to_hex
        .swap(
            "Fi-Xa-Du-Do-Ji-Li-Ri-Ro-Mu-Vo-Gu-Vi-Mu-Do-Fi-Pu-Sa-Ni-Mo-Ga-Fu-Gu-Du-Lo-Ju-So-So-",
        )
        .unwrap();

    assert_eq!(
        test, "0xde0b295669a9fd93d5f28d9ec85e40f4cb697bae",
        "test 2 10"
    );
}

#[test]
fn test_autodetect() {
    let hex = NumeralSystem::new_from_tag("hex").unwrap();
    let dec = NumeralSystem::new_from_tag("dec").unwrap();
    let bin = NumeralSystem::new_from_tag("dec").unwrap();

    let test = NumeralSystem::autodetect("0x4324ae34", vec![&hex, &dec]);
    assert!(test.is_some(), "test 3 1");

    let test = NumeralSystem::autodetect("0b0101101", vec![&hex, &dec]);
    assert!(test.is_none(), "test 3 2");

    let test = NumeralSystem::autodetect("0b0101101", vec![&hex, &dec, &bin]);
    assert!(test.is_none(), "test 3 3");
}
