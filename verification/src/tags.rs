//! The registry of pre-defined numeral systems, produced fresh on demand:
//! binary, octal, decimal and hexadecimal, the Bibi-binary system of Boby
//! Lapointe, a readable consonant-vowel test system, a symbol-glyph test
//! system, the Bitcoin base58 alphabet, and a large system of CJK code
//! points.

use crate::alphabet::{
    buildable, class_views_owned, lemma_combined_radix, str_eq, NumeralSystem,
};
use crate::numeral::{
    distinct_seqs, lemma_product_digits_distinct, lemma_product_digits_len, product_digits,
    radix_of, valid_class, valid_classes,
};
use crate::BibiError;
use vstd::prelude::*;

verus! {

/// The character with the given Unicode scalar value.
pub open spec fn spec_char(x: int) -> char {
    (x as u32) as char
}

/// Relies on `char::from_u32`: `Some` exactly for Unicode scalar values (not
/// a surrogate, at most 0x10FFFF), returning the character with that value.
#[verifier::external_body]
fn char_from_u32(x: u32) -> (r: Option<char>)
    ensures
        (r is Some) == (x < 0xD800 || (0xE000 <= x && x <= 0x10FFFF)),
        r is Some ==> r->0 == spec_char(x as int),
{
    char::from_u32(x)
}

/// Relies on `char::to_string` through `Display`: a character displays as
/// exactly itself.
#[verifier::external_body]
fn char_to_string(c: char) -> (r: String)
    ensures
        r@ == seq![c],
{
    c.to_string()
}

/// The digit strings of the pre-defined binary class.
pub open spec fn bin_digits() -> Seq<Seq<char>> {
    seq![
        "0"@,
        "1"@,
    ]
}

/// The digit strings of the pre-defined octal class.
pub open spec fn oct_digits() -> Seq<Seq<char>> {
    seq![
        "0"@,
        "1"@,
        "2"@,
        "3"@,
        "4"@,
        "5"@,
        "6"@,
        "7"@,
    ]
}

/// The digit strings of the pre-defined decimal class.
pub open spec fn dec_digits() -> Seq<Seq<char>> {
    seq![
        "0"@,
        "1"@,
        "2"@,
        "3"@,
        "4"@,
        "5"@,
        "6"@,
        "7"@,
        "8"@,
        "9"@,
    ]
}

/// The digit strings of the pre-defined hexadecimal class.
pub open spec fn hex_digits() -> Seq<Seq<char>> {
    seq![
        "0"@,
        "1"@,
        "2"@,
        "3"@,
        "4"@,
        "5"@,
        "6"@,
        "7"@,
        "8"@,
        "9"@,
        "a"@,
        "b"@,
        "c"@,
        "d"@,
        "e"@,
        "f"@,
    ]
}

/// The digit strings of the pre-defined Bibi-binary class.
pub open spec fn bibi_digits() -> Seq<Seq<char>> {
    seq![
        "HO"@,
        "HA"@,
        "HE"@,
        "HI"@,
        "BO"@,
        "BA"@,
        "BE"@,
        "BI"@,
        "KO"@,
        "KA"@,
        "KE"@,
        "KI"@,
        "DO"@,
        "DA"@,
        "DE"@,
        "DI"@,
    ]
}

/// The digit strings of the pre-defined budu (consonant class) class.
pub open spec fn budu_consonants() -> Seq<Seq<char>> {
    seq![
        "B"@,
        "K"@,
        "D"@,
        "F"@,
        "G"@,
        "J"@,
        "L"@,
        "M"@,
        "N"@,
        "P"@,
        "R"@,
        "S"@,
        "T"@,
        "V"@,
        "X"@,
        "Z"@,
    ]
}

/// The digit strings of the pre-defined budu (vowel class) class.
pub open spec fn budu_vowels() -> Seq<Seq<char>> {
    seq![
        "a"@,
        "i"@,
        "o"@,
        "u"@,
    ]
}

/// The digit strings of the pre-defined utf8 (filled-glyph class) class.
pub open spec fn utf8_filled() -> Seq<Seq<char>> {
    seq![
        "\u{25a0}"@,
        "\u{25c0}"@,
        "\u{25cf}"@,
        "\u{2660}"@,
        "\u{2665}"@,
        "\u{2666}"@,
        "\u{2663}"@,
        "\u{2691}"@,
        "\u{25c6}"@,
        "\u{2605}"@,
    ]
}

/// The digit strings of the pre-defined utf8 (hollow-glyph class) class.
pub open spec fn utf8_hollow() -> Seq<Seq<char>> {
    seq![
        "\u{25a1}"@,
        "\u{25c1}"@,
        "\u{25cb}"@,
        "\u{2664}"@,
        "\u{2661}"@,
        "\u{2662}"@,
        "\u{2667}"@,
        "\u{2690}"@,
        "\u{25c7}"@,
        "\u{2606}"@,
    ]
}

/// The digit strings of the pre-defined base58 class.
pub open spec fn base58_digits() -> Seq<Seq<char>> {
    seq![
        "1"@,
        "2"@,
        "3"@,
        "4"@,
        "5"@,
        "6"@,
        "7"@,
        "8"@,
        "9"@,
        "A"@,
        "B"@,
        "C"@,
        "D"@,
        "E"@,
        "F"@,
        "G"@,
        "H"@,
        "J"@,
        "K"@,
        "L"@,
        "M"@,
        "N"@,
        "P"@,
        "Q"@,
        "R"@,
        "S"@,
        "T"@,
        "U"@,
        "V"@,
        "W"@,
        "X"@,
        "Y"@,
        "Z"@,
        "a"@,
        "b"@,
        "c"@,
        "d"@,
        "e"@,
        "f"@,
        "g"@,
        "h"@,
        "i"@,
        "j"@,
        "k"@,
        "m"@,
        "n"@,
        "o"@,
        "p"@,
        "q"@,
        "r"@,
        "s"@,
        "t"@,
        "u"@,
        "v"@,
        "w"@,
        "x"@,
        "y"@,
        "z"@,
    ]
}

/// The digit strings of the pre-defined CJK class: the characters with code
/// points 0x3400 up to 0x4000, one character per digit.
pub open spec fn chin_digits() -> Seq<Seq<char>> {
    Seq::new(0xC00, |i: int| seq![spec_char(0x3400 + i)])
}

/// The names of the pre-defined numeral systems.
pub open spec fn tag_names() -> Seq<Seq<char>> {
    seq!["bin"@, "oct"@, "dec"@, "hex"@, "bibi"@, "budu"@, "utf8"@, "base58"@, "chin"@]
}

/// `name` names a pre-defined numeral system.
pub open spec fn known_tag(name: Seq<char>) -> bool {
    tag_names().contains(name)
}

/// The names of the registry, with enough of their characters to tell any
/// two apart.
proof fn lemma_tag_name_chars()
    ensures
        ("bin"@).len() == 3 && ("bin"@)[0] == 'b' && ("bin"@)[1] == 'i',
        ("oct"@).len() == 3 && ("oct"@)[0] == 'o' && ("oct"@)[1] == 'c',
        ("dec"@).len() == 3 && ("dec"@)[0] == 'd' && ("dec"@)[1] == 'e',
        ("hex"@).len() == 3 && ("hex"@)[0] == 'h' && ("hex"@)[1] == 'e',
        ("bibi"@).len() == 4 && ("bibi"@)[0] == 'b' && ("bibi"@)[1] == 'i',
        ("budu"@).len() == 4 && ("budu"@)[0] == 'b' && ("budu"@)[1] == 'u',
        ("utf8"@).len() == 4 && ("utf8"@)[0] == 'u' && ("utf8"@)[1] == 't',
        ("base58"@).len() == 6 && ("base58"@)[0] == 'b' && ("base58"@)[1] == 'a',
        ("chin"@).len() == 4 && ("chin"@)[0] == 'c' && ("chin"@)[1] == 'h',
{
    reveal_strlit("bin");
    reveal_strlit("oct");
    reveal_strlit("dec");
    reveal_strlit("hex");
    reveal_strlit("bibi");
    reveal_strlit("budu");
    reveal_strlit("utf8");
    reveal_strlit("base58");
    reveal_strlit("chin");
}

/// The prefix of the pre-defined system called `name`.
pub open spec fn tag_prefix(name: Seq<char>) -> Seq<char> {
    if name == "bin"@ {
        "0b"@
    } else if name == "oct"@ {
        "0o"@
    } else if name == "hex"@ {
        "0x"@
    } else {
        Seq::empty()
    }
}

/// The digit classes of the pre-defined system called `name`.
pub open spec fn tag_classes(name: Seq<char>) -> Seq<Seq<Seq<char>>> {
    if name == "bin"@ {
        seq![bin_digits()]
    } else if name == "oct"@ {
        seq![oct_digits()]
    } else if name == "dec"@ {
        seq![dec_digits()]
    } else if name == "hex"@ {
        seq![hex_digits()]
    } else if name == "bibi"@ {
        seq![bibi_digits()]
    } else if name == "budu"@ {
        seq![budu_consonants(), budu_vowels()]
    } else if name == "utf8"@ {
        seq![utf8_filled(), utf8_hollow()]
    } else if name == "base58"@ {
        seq![base58_digits()]
    } else if name == "chin"@ {
        seq![chin_digits()]
    } else {
        Seq::empty()
    }
}

/// The radix of an alphabet built from one class is the class size.
proof fn lemma_radix_single(class: Seq<Seq<char>>)
    ensures
        radix_of(seq![class]) == class.len(),
{
    assert(seq![class].drop_last() =~= Seq::<Seq<Seq<char>>>::empty());
    assert(radix_of(Seq::<Seq<Seq<char>>>::empty()) == 1);
    assert(seq![class].last() == class);
}

/// The pre-defined `bin` system's registry data is well-formed.
proof fn lemma_bin_data()
    ensures
        tag_classes("bin"@) == seq![bin_digits()],
        tag_prefix("bin"@) == "0b"@,
        buildable(seq![bin_digits()]),
{
    lemma_tag_name_chars();
    reveal_strlit("0");
    reveal_strlit("1");
    reveal_strlit("0b");
    let c0 = bin_digits();
    let h0_0 = seq!['0', '1'];
    assert forall|k: int| 0 <= k < c0.len() implies (#[trigger] c0[k])[0]
        == h0_0[k] by {}
    assert(valid_class(c0));
    assert(distinct_seqs(c0)) by {
        assert forall|i: int, j: int| 0 <= i < j < c0.len() implies c0[i]
            !== c0[j] by {
            if c0[i] == c0[j] {
                assert(c0[i][0] == c0[j][0]);
                assert(h0_0[i] == h0_0[j]);
            }
        }
    }
    let cs = seq![bin_digits()];
    assert(tag_classes("bin"@) == cs);
    assert(valid_classes(cs));
    lemma_product_digits_distinct(cs);
    lemma_radix_single(c0);
    lemma_product_digits_len(cs);
}

/// Builds the digit classes of the pre-defined `bin` system.
fn bin_classes() -> (r: Vec<Vec<String>>)
    ensures
        class_views_owned(r@) == tag_classes("bin"@),
        buildable(tag_classes("bin"@)),
{
    let mut c0: Vec<String> = Vec::new();
    c0.push(String::from_str("0"));
    c0.push(String::from_str("1"));
    let mut classes: Vec<Vec<String>> = Vec::new();
    classes.push(c0);
    proof {
        lemma_bin_data();
        assert(classes@[0]@.map_values(|s: String| s@) =~= bin_digits());
        assert(class_views_owned(classes@) =~= tag_classes("bin"@));
    }
    classes
}

/// The pre-defined `oct` system's registry data is well-formed.
proof fn lemma_oct_data()
    ensures
        tag_classes("oct"@) == seq![oct_digits()],
        tag_prefix("oct"@) == "0o"@,
        buildable(seq![oct_digits()]),
{
    lemma_tag_name_chars();
    reveal_strlit("0");
    reveal_strlit("1");
    reveal_strlit("2");
    reveal_strlit("3");
    reveal_strlit("4");
    reveal_strlit("5");
    reveal_strlit("6");
    reveal_strlit("7");
    reveal_strlit("0o");
    let c0 = oct_digits();
    let h0_0 = seq!['0', '1', '2', '3', '4', '5', '6', '7'];
    assert forall|k: int| 0 <= k < c0.len() implies (#[trigger] c0[k])[0]
        == h0_0[k] by {}
    assert(valid_class(c0));
    assert(distinct_seqs(c0)) by {
        assert forall|i: int, j: int| 0 <= i < j < c0.len() implies c0[i]
            !== c0[j] by {
            if c0[i] == c0[j] {
                assert(c0[i][0] == c0[j][0]);
                assert(h0_0[i] == h0_0[j]);
            }
        }
    }
    let cs = seq![oct_digits()];
    assert(tag_classes("oct"@) == cs);
    assert(valid_classes(cs));
    lemma_product_digits_distinct(cs);
    lemma_radix_single(c0);
    lemma_product_digits_len(cs);
}

/// Builds the digit classes of the pre-defined `oct` system.
fn oct_classes() -> (r: Vec<Vec<String>>)
    ensures
        class_views_owned(r@) == tag_classes("oct"@),
        buildable(tag_classes("oct"@)),
{
    let mut c0: Vec<String> = Vec::new();
    c0.push(String::from_str("0"));
    c0.push(String::from_str("1"));
    c0.push(String::from_str("2"));
    c0.push(String::from_str("3"));
    c0.push(String::from_str("4"));
    c0.push(String::from_str("5"));
    c0.push(String::from_str("6"));
    c0.push(String::from_str("7"));
    let mut classes: Vec<Vec<String>> = Vec::new();
    classes.push(c0);
    proof {
        lemma_oct_data();
        assert(classes@[0]@.map_values(|s: String| s@) =~= oct_digits());
        assert(class_views_owned(classes@) =~= tag_classes("oct"@));
    }
    classes
}

/// The pre-defined `dec` system's registry data is well-formed.
proof fn lemma_dec_data()
    ensures
        tag_classes("dec"@) == seq![dec_digits()],
        tag_prefix("dec"@) == Seq::<char>::empty(),
        buildable(seq![dec_digits()]),
{
    lemma_tag_name_chars();
    reveal_strlit("0");
    reveal_strlit("1");
    reveal_strlit("2");
    reveal_strlit("3");
    reveal_strlit("4");
    reveal_strlit("5");
    reveal_strlit("6");
    reveal_strlit("7");
    reveal_strlit("8");
    reveal_strlit("9");
    let c0 = dec_digits();
    let h0_0 = seq!['0', '1', '2', '3', '4', '5', '6', '7', '8', '9'];
    assert forall|k: int| 0 <= k < c0.len() implies (#[trigger] c0[k])[0]
        == h0_0[k] by {}
    assert(valid_class(c0));
    assert(distinct_seqs(c0)) by {
        assert forall|i: int, j: int| 0 <= i < j < c0.len() implies c0[i]
            !== c0[j] by {
            if c0[i] == c0[j] {
                assert(c0[i][0] == c0[j][0]);
                assert(h0_0[i] == h0_0[j]);
            }
        }
    }
    let cs = seq![dec_digits()];
    assert(tag_classes("dec"@) == cs);
    assert(valid_classes(cs));
    lemma_product_digits_distinct(cs);
    lemma_radix_single(c0);
    lemma_product_digits_len(cs);
}

/// Builds the digit classes of the pre-defined `dec` system.
fn dec_classes() -> (r: Vec<Vec<String>>)
    ensures
        class_views_owned(r@) == tag_classes("dec"@),
        buildable(tag_classes("dec"@)),
{
    let mut c0: Vec<String> = Vec::new();
    c0.push(String::from_str("0"));
    c0.push(String::from_str("1"));
    c0.push(String::from_str("2"));
    c0.push(String::from_str("3"));
    c0.push(String::from_str("4"));
    c0.push(String::from_str("5"));
    c0.push(String::from_str("6"));
    c0.push(String::from_str("7"));
    c0.push(String::from_str("8"));
    c0.push(String::from_str("9"));
    let mut classes: Vec<Vec<String>> = Vec::new();
    classes.push(c0);
    proof {
        lemma_dec_data();
        assert(classes@[0]@.map_values(|s: String| s@) =~= dec_digits());
        assert(class_views_owned(classes@) =~= tag_classes("dec"@));
    }
    classes
}

/// The pre-defined `hex` system's registry data is well-formed.
#[verifier::rlimit(100)]
proof fn lemma_hex_data()
    ensures
        tag_classes("hex"@) == seq![hex_digits()],
        tag_prefix("hex"@) == "0x"@,
        buildable(seq![hex_digits()]),
{
    lemma_tag_name_chars();
    reveal_strlit("0");
    reveal_strlit("1");
    reveal_strlit("2");
    reveal_strlit("3");
    reveal_strlit("4");
    reveal_strlit("5");
    reveal_strlit("6");
    reveal_strlit("7");
    reveal_strlit("8");
    reveal_strlit("9");
    reveal_strlit("a");
    reveal_strlit("b");
    reveal_strlit("c");
    reveal_strlit("d");
    reveal_strlit("e");
    reveal_strlit("f");
    reveal_strlit("0x");
    let c0 = hex_digits();
    let h0_0 = seq!['0', '1', '2', '3', '4', '5', '6', '7', '8', '9', 'a', 'b', 'c', 'd', 'e', 'f'];
    assert forall|k: int| 0 <= k < c0.len() implies (#[trigger] c0[k])[0]
        == h0_0[k] by {}
    assert(valid_class(c0));
    assert(distinct_seqs(c0)) by {
        assert forall|i: int, j: int| 0 <= i < j < c0.len() implies c0[i]
            !== c0[j] by {
            if c0[i] == c0[j] {
                assert(c0[i][0] == c0[j][0]);
                assert(h0_0[i] == h0_0[j]);
            }
        }
    }
    let cs = seq![hex_digits()];
    assert(tag_classes("hex"@) == cs);
    assert(valid_classes(cs));
    lemma_product_digits_distinct(cs);
    lemma_radix_single(c0);
    lemma_product_digits_len(cs);
}

/// Builds the digit classes of the pre-defined `hex` system.
fn hex_classes() -> (r: Vec<Vec<String>>)
    ensures
        class_views_owned(r@) == tag_classes("hex"@),
        buildable(tag_classes("hex"@)),
{
    let mut c0: Vec<String> = Vec::new();
    c0.push(String::from_str("0"));
    c0.push(String::from_str("1"));
    c0.push(String::from_str("2"));
    c0.push(String::from_str("3"));
    c0.push(String::from_str("4"));
    c0.push(String::from_str("5"));
    c0.push(String::from_str("6"));
    c0.push(String::from_str("7"));
    c0.push(String::from_str("8"));
    c0.push(String::from_str("9"));
    c0.push(String::from_str("a"));
    c0.push(String::from_str("b"));
    c0.push(String::from_str("c"));
    c0.push(String::from_str("d"));
    c0.push(String::from_str("e"));
    c0.push(String::from_str("f"));
    let mut classes: Vec<Vec<String>> = Vec::new();
    classes.push(c0);
    proof {
        lemma_hex_data();
        assert(classes@[0]@.map_values(|s: String| s@) =~= hex_digits());
        assert(class_views_owned(classes@) =~= tag_classes("hex"@));
    }
    classes
}

/// The pre-defined `bibi` system's registry data is well-formed.
#[verifier::rlimit(100)]
proof fn lemma_bibi_data()
    ensures
        tag_classes("bibi"@) == seq![bibi_digits()],
        tag_prefix("bibi"@) == Seq::<char>::empty(),
        buildable(seq![bibi_digits()]),
{
    lemma_tag_name_chars();
    reveal_strlit("HO");
    reveal_strlit("HA");
    reveal_strlit("HE");
    reveal_strlit("HI");
    reveal_strlit("BO");
    reveal_strlit("BA");
    reveal_strlit("BE");
    reveal_strlit("BI");
    reveal_strlit("KO");
    reveal_strlit("KA");
    reveal_strlit("KE");
    reveal_strlit("KI");
    reveal_strlit("DO");
    reveal_strlit("DA");
    reveal_strlit("DE");
    reveal_strlit("DI");
    let c0 = bibi_digits();
    let h0_0 = seq!['H', 'H', 'H', 'H', 'B', 'B', 'B', 'B', 'K', 'K', 'K', 'K', 'D', 'D', 'D', 'D'];
    assert forall|k: int| 0 <= k < c0.len() implies (#[trigger] c0[k])[0]
        == h0_0[k] by {}
    let h0_1 = seq!['O', 'A', 'E', 'I', 'O', 'A', 'E', 'I', 'O', 'A', 'E', 'I', 'O', 'A', 'E', 'I'];
    assert forall|k: int| 0 <= k < c0.len() implies (#[trigger] c0[k])[1]
        == h0_1[k] by {}
    assert(valid_class(c0));
    assert(distinct_seqs(c0)) by {
        assert forall|i: int, j: int| 0 <= i < j < c0.len() implies c0[i]
            !== c0[j] by {
            if c0[i] == c0[j] {
                assert(c0[i][0] == c0[j][0]);
                assert(h0_0[i] == h0_0[j]);
                assert(c0[i][1] == c0[j][1]);
                assert(h0_1[i] == h0_1[j]);
            }
        }
    }
    let cs = seq![bibi_digits()];
    assert(tag_classes("bibi"@) == cs);
    assert(valid_classes(cs));
    lemma_product_digits_distinct(cs);
    lemma_radix_single(c0);
    lemma_product_digits_len(cs);
}

/// Builds the digit classes of the pre-defined `bibi` system.
fn bibi_classes() -> (r: Vec<Vec<String>>)
    ensures
        class_views_owned(r@) == tag_classes("bibi"@),
        buildable(tag_classes("bibi"@)),
{
    let mut c0: Vec<String> = Vec::new();
    c0.push(String::from_str("HO"));
    c0.push(String::from_str("HA"));
    c0.push(String::from_str("HE"));
    c0.push(String::from_str("HI"));
    c0.push(String::from_str("BO"));
    c0.push(String::from_str("BA"));
    c0.push(String::from_str("BE"));
    c0.push(String::from_str("BI"));
    c0.push(String::from_str("KO"));
    c0.push(String::from_str("KA"));
    c0.push(String::from_str("KE"));
    c0.push(String::from_str("KI"));
    c0.push(String::from_str("DO"));
    c0.push(String::from_str("DA"));
    c0.push(String::from_str("DE"));
    c0.push(String::from_str("DI"));
    let mut classes: Vec<Vec<String>> = Vec::new();
    classes.push(c0);
    proof {
        lemma_bibi_data();
        assert(classes@[0]@.map_values(|s: String| s@) =~= bibi_digits());
        assert(class_views_owned(classes@) =~= tag_classes("bibi"@));
    }
    classes
}

/// The pre-defined `budu` system's registry data is well-formed.
#[verifier::rlimit(100)]
proof fn lemma_budu_data()
    ensures
        tag_classes("budu"@) == seq![budu_consonants(), budu_vowels()],
        tag_prefix("budu"@) == Seq::<char>::empty(),
        buildable(seq![budu_consonants(), budu_vowels()]),
{
    lemma_tag_name_chars();
    reveal_strlit("B");
    reveal_strlit("K");
    reveal_strlit("D");
    reveal_strlit("F");
    reveal_strlit("G");
    reveal_strlit("J");
    reveal_strlit("L");
    reveal_strlit("M");
    reveal_strlit("N");
    reveal_strlit("P");
    reveal_strlit("R");
    reveal_strlit("S");
    reveal_strlit("T");
    reveal_strlit("V");
    reveal_strlit("X");
    reveal_strlit("Z");
    reveal_strlit("a");
    reveal_strlit("i");
    reveal_strlit("o");
    reveal_strlit("u");
    let c0 = budu_consonants();
    let h0_0 = seq!['B', 'K', 'D', 'F', 'G', 'J', 'L', 'M', 'N', 'P', 'R', 'S', 'T', 'V', 'X', 'Z'];
    assert forall|k: int| 0 <= k < c0.len() implies (#[trigger] c0[k])[0]
        == h0_0[k] by {}
    assert(valid_class(c0));
    assert(distinct_seqs(c0)) by {
        assert forall|i: int, j: int| 0 <= i < j < c0.len() implies c0[i]
            !== c0[j] by {
            if c0[i] == c0[j] {
                assert(c0[i][0] == c0[j][0]);
                assert(h0_0[i] == h0_0[j]);
            }
        }
    }
    let c1 = budu_vowels();
    let h1_0 = seq!['a', 'i', 'o', 'u'];
    assert forall|k: int| 0 <= k < c1.len() implies (#[trigger] c1[k])[0]
        == h1_0[k] by {}
    assert(valid_class(c1));
    assert(distinct_seqs(c1)) by {
        assert forall|i: int, j: int| 0 <= i < j < c1.len() implies c1[i]
            !== c1[j] by {
            if c1[i] == c1[j] {
                assert(c1[i][0] == c1[j][0]);
                assert(h1_0[i] == h1_0[j]);
            }
        }
    }
    let cs = seq![budu_consonants(), budu_vowels()];
    assert(tag_classes("budu"@) == cs);
    assert(valid_classes(cs));
    lemma_product_digits_distinct(cs);
    lemma_combined_radix(c0, c1);
    lemma_product_digits_len(cs);
}

/// Builds the digit classes of the pre-defined `budu` system.
fn budu_classes() -> (r: Vec<Vec<String>>)
    ensures
        class_views_owned(r@) == tag_classes("budu"@),
        buildable(tag_classes("budu"@)),
{
    let mut c0: Vec<String> = Vec::new();
    c0.push(String::from_str("B"));
    c0.push(String::from_str("K"));
    c0.push(String::from_str("D"));
    c0.push(String::from_str("F"));
    c0.push(String::from_str("G"));
    c0.push(String::from_str("J"));
    c0.push(String::from_str("L"));
    c0.push(String::from_str("M"));
    c0.push(String::from_str("N"));
    c0.push(String::from_str("P"));
    c0.push(String::from_str("R"));
    c0.push(String::from_str("S"));
    c0.push(String::from_str("T"));
    c0.push(String::from_str("V"));
    c0.push(String::from_str("X"));
    c0.push(String::from_str("Z"));
    let mut c1: Vec<String> = Vec::new();
    c1.push(String::from_str("a"));
    c1.push(String::from_str("i"));
    c1.push(String::from_str("o"));
    c1.push(String::from_str("u"));
    let mut classes: Vec<Vec<String>> = Vec::new();
    classes.push(c0);
    classes.push(c1);
    proof {
        lemma_budu_data();
        assert(classes@[0]@.map_values(|s: String| s@) =~= budu_consonants());
        assert(classes@[1]@.map_values(|s: String| s@) =~= budu_vowels());
        assert(class_views_owned(classes@) =~= tag_classes("budu"@));
    }
    classes
}

/// The pre-defined `utf8` system's registry data is well-formed.
proof fn lemma_utf8_data()
    ensures
        tag_classes("utf8"@) == seq![utf8_filled(), utf8_hollow()],
        tag_prefix("utf8"@) == Seq::<char>::empty(),
        buildable(seq![utf8_filled(), utf8_hollow()]),
{
    lemma_tag_name_chars();
    reveal_strlit("\u{25a0}");
    reveal_strlit("\u{25c0}");
    reveal_strlit("\u{25cf}");
    reveal_strlit("\u{2660}");
    reveal_strlit("\u{2665}");
    reveal_strlit("\u{2666}");
    reveal_strlit("\u{2663}");
    reveal_strlit("\u{2691}");
    reveal_strlit("\u{25c6}");
    reveal_strlit("\u{2605}");
    reveal_strlit("\u{25a1}");
    reveal_strlit("\u{25c1}");
    reveal_strlit("\u{25cb}");
    reveal_strlit("\u{2664}");
    reveal_strlit("\u{2661}");
    reveal_strlit("\u{2662}");
    reveal_strlit("\u{2667}");
    reveal_strlit("\u{2690}");
    reveal_strlit("\u{25c7}");
    reveal_strlit("\u{2606}");
    let c0 = utf8_filled();
    let h0_0 = seq!['\u{25a0}', '\u{25c0}', '\u{25cf}', '\u{2660}', '\u{2665}', '\u{2666}', '\u{2663}', '\u{2691}', '\u{25c6}', '\u{2605}'];
    assert forall|k: int| 0 <= k < c0.len() implies (#[trigger] c0[k])[0]
        == h0_0[k] by {}
    assert(valid_class(c0));
    assert(distinct_seqs(c0)) by {
        assert forall|i: int, j: int| 0 <= i < j < c0.len() implies c0[i]
            !== c0[j] by {
            if c0[i] == c0[j] {
                assert(c0[i][0] == c0[j][0]);
                assert(h0_0[i] == h0_0[j]);
            }
        }
    }
    let c1 = utf8_hollow();
    let h1_0 = seq!['\u{25a1}', '\u{25c1}', '\u{25cb}', '\u{2664}', '\u{2661}', '\u{2662}', '\u{2667}', '\u{2690}', '\u{25c7}', '\u{2606}'];
    assert forall|k: int| 0 <= k < c1.len() implies (#[trigger] c1[k])[0]
        == h1_0[k] by {}
    assert(valid_class(c1));
    assert(distinct_seqs(c1)) by {
        assert forall|i: int, j: int| 0 <= i < j < c1.len() implies c1[i]
            !== c1[j] by {
            if c1[i] == c1[j] {
                assert(c1[i][0] == c1[j][0]);
                assert(h1_0[i] == h1_0[j]);
            }
        }
    }
    let cs = seq![utf8_filled(), utf8_hollow()];
    assert(tag_classes("utf8"@) == cs);
    assert(valid_classes(cs));
    lemma_product_digits_distinct(cs);
    lemma_combined_radix(c0, c1);
    lemma_product_digits_len(cs);
}

/// Builds the digit classes of the pre-defined `utf8` system.
fn utf8_classes() -> (r: Vec<Vec<String>>)
    ensures
        class_views_owned(r@) == tag_classes("utf8"@),
        buildable(tag_classes("utf8"@)),
{
    let mut c0: Vec<String> = Vec::new();
    c0.push(String::from_str("\u{25a0}"));
    c0.push(String::from_str("\u{25c0}"));
    c0.push(String::from_str("\u{25cf}"));
    c0.push(String::from_str("\u{2660}"));
    c0.push(String::from_str("\u{2665}"));
    c0.push(String::from_str("\u{2666}"));
    c0.push(String::from_str("\u{2663}"));
    c0.push(String::from_str("\u{2691}"));
    c0.push(String::from_str("\u{25c6}"));
    c0.push(String::from_str("\u{2605}"));
    let mut c1: Vec<String> = Vec::new();
    c1.push(String::from_str("\u{25a1}"));
    c1.push(String::from_str("\u{25c1}"));
    c1.push(String::from_str("\u{25cb}"));
    c1.push(String::from_str("\u{2664}"));
    c1.push(String::from_str("\u{2661}"));
    c1.push(String::from_str("\u{2662}"));
    c1.push(String::from_str("\u{2667}"));
    c1.push(String::from_str("\u{2690}"));
    c1.push(String::from_str("\u{25c7}"));
    c1.push(String::from_str("\u{2606}"));
    let mut classes: Vec<Vec<String>> = Vec::new();
    classes.push(c0);
    classes.push(c1);
    proof {
        lemma_utf8_data();
        assert(classes@[0]@.map_values(|s: String| s@) =~= utf8_filled());
        assert(classes@[1]@.map_values(|s: String| s@) =~= utf8_hollow());
        assert(class_views_owned(classes@) =~= tag_classes("utf8"@));
    }
    classes
}

/// The pre-defined `base58` system's registry data is well-formed.
#[verifier::rlimit(100)]
proof fn lemma_base58_data()
    ensures
        tag_classes("base58"@) == seq![base58_digits()],
        tag_prefix("base58"@) == Seq::<char>::empty(),
        buildable(seq![base58_digits()]),
{
    lemma_tag_name_chars();
    reveal_strlit("1");
    reveal_strlit("2");
    reveal_strlit("3");
    reveal_strlit("4");
    reveal_strlit("5");
    reveal_strlit("6");
    reveal_strlit("7");
    reveal_strlit("8");
    reveal_strlit("9");
    reveal_strlit("A");
    reveal_strlit("B");
    reveal_strlit("C");
    reveal_strlit("D");
    reveal_strlit("E");
    reveal_strlit("F");
    reveal_strlit("G");
    reveal_strlit("H");
    reveal_strlit("J");
    reveal_strlit("K");
    reveal_strlit("L");
    reveal_strlit("M");
    reveal_strlit("N");
    reveal_strlit("P");
    reveal_strlit("Q");
    reveal_strlit("R");
    reveal_strlit("S");
    reveal_strlit("T");
    reveal_strlit("U");
    reveal_strlit("V");
    reveal_strlit("W");
    reveal_strlit("X");
    reveal_strlit("Y");
    reveal_strlit("Z");
    reveal_strlit("a");
    reveal_strlit("b");
    reveal_strlit("c");
    reveal_strlit("d");
    reveal_strlit("e");
    reveal_strlit("f");
    reveal_strlit("g");
    reveal_strlit("h");
    reveal_strlit("i");
    reveal_strlit("j");
    reveal_strlit("k");
    reveal_strlit("m");
    reveal_strlit("n");
    reveal_strlit("o");
    reveal_strlit("p");
    reveal_strlit("q");
    reveal_strlit("r");
    reveal_strlit("s");
    reveal_strlit("t");
    reveal_strlit("u");
    reveal_strlit("v");
    reveal_strlit("w");
    reveal_strlit("x");
    reveal_strlit("y");
    reveal_strlit("z");
    let c0 = base58_digits();
    let h0_0 = seq!['1', '2', '3', '4', '5', '6', '7', '8', '9', 'A', 'B', 'C', 'D', 'E', 'F', 'G', 'H', 'J', 'K', 'L', 'M', 'N', 'P', 'Q', 'R', 'S', 'T', 'U', 'V', 'W', 'X', 'Y', 'Z', 'a', 'b', 'c', 'd', 'e', 'f', 'g', 'h', 'i', 'j', 'k', 'm', 'n', 'o', 'p', 'q', 'r', 's', 't', 'u', 'v', 'w', 'x', 'y', 'z'];
    assert forall|k: int| 0 <= k < c0.len() implies (#[trigger] c0[k])[0]
        == h0_0[k] by {}
    assert(valid_class(c0));
    assert(distinct_seqs(c0)) by {
        assert forall|i: int, j: int| 0 <= i < j < c0.len() implies c0[i]
            !== c0[j] by {
            if c0[i] == c0[j] {
                assert(c0[i][0] == c0[j][0]);
                assert(h0_0[i] == h0_0[j]);
            }
        }
    }
    let cs = seq![base58_digits()];
    assert(tag_classes("base58"@) == cs);
    assert(valid_classes(cs));
    lemma_product_digits_distinct(cs);
    lemma_radix_single(c0);
    lemma_product_digits_len(cs);
}

/// Builds the digit classes of the pre-defined `base58` system.
fn base58_classes() -> (r: Vec<Vec<String>>)
    ensures
        class_views_owned(r@) == tag_classes("base58"@),
        buildable(tag_classes("base58"@)),
{
    let mut c0: Vec<String> = Vec::new();
    c0.push(String::from_str("1"));
    c0.push(String::from_str("2"));
    c0.push(String::from_str("3"));
    c0.push(String::from_str("4"));
    c0.push(String::from_str("5"));
    c0.push(String::from_str("6"));
    c0.push(String::from_str("7"));
    c0.push(String::from_str("8"));
    c0.push(String::from_str("9"));
    c0.push(String::from_str("A"));
    c0.push(String::from_str("B"));
    c0.push(String::from_str("C"));
    c0.push(String::from_str("D"));
    c0.push(String::from_str("E"));
    c0.push(String::from_str("F"));
    c0.push(String::from_str("G"));
    c0.push(String::from_str("H"));
    c0.push(String::from_str("J"));
    c0.push(String::from_str("K"));
    c0.push(String::from_str("L"));
    c0.push(String::from_str("M"));
    c0.push(String::from_str("N"));
    c0.push(String::from_str("P"));
    c0.push(String::from_str("Q"));
    c0.push(String::from_str("R"));
    c0.push(String::from_str("S"));
    c0.push(String::from_str("T"));
    c0.push(String::from_str("U"));
    c0.push(String::from_str("V"));
    c0.push(String::from_str("W"));
    c0.push(String::from_str("X"));
    c0.push(String::from_str("Y"));
    c0.push(String::from_str("Z"));
    c0.push(String::from_str("a"));
    c0.push(String::from_str("b"));
    c0.push(String::from_str("c"));
    c0.push(String::from_str("d"));
    c0.push(String::from_str("e"));
    c0.push(String::from_str("f"));
    c0.push(String::from_str("g"));
    c0.push(String::from_str("h"));
    c0.push(String::from_str("i"));
    c0.push(String::from_str("j"));
    c0.push(String::from_str("k"));
    c0.push(String::from_str("m"));
    c0.push(String::from_str("n"));
    c0.push(String::from_str("o"));
    c0.push(String::from_str("p"));
    c0.push(String::from_str("q"));
    c0.push(String::from_str("r"));
    c0.push(String::from_str("s"));
    c0.push(String::from_str("t"));
    c0.push(String::from_str("u"));
    c0.push(String::from_str("v"));
    c0.push(String::from_str("w"));
    c0.push(String::from_str("x"));
    c0.push(String::from_str("y"));
    c0.push(String::from_str("z"));
    let mut classes: Vec<Vec<String>> = Vec::new();
    classes.push(c0);
    proof {
        lemma_base58_data();
        assert(classes@[0]@.map_values(|s: String| s@) =~= base58_digits());
        assert(class_views_owned(classes@) =~= tag_classes("base58"@));
    }
    classes
}

/// Builds the digit class of the pre-defined `chin` system: one digit per
/// character of the code points 0x3400 up to 0x4000.
fn chin_classes() -> (r: Vec<Vec<String>>)
    ensures
        class_views_owned(r@) == tag_classes("chin"@),
        buildable(tag_classes("chin"@)),
{
    let mut c: Vec<String> = Vec::new();
    let mut x: u32 = 0x3400;
    while x < 0x4000
        invariant
            0x3400 <= x <= 0x4000,
            c@.len() == x - 0x3400,
            forall|i: int|
                0 <= i < c@.len() ==> (#[trigger] c@[i])@ == seq![spec_char(0x3400 + i)],
        decreases 0x4000 - x,
    {
        match char_from_u32(x) {
            Some(cc) => {
                let s = char_to_string(cc);
                c.push(s);
            },
            None => {
                proof {
                    assert(false);
                }
            },
        }
        x += 1;
    }
    let mut classes: Vec<Vec<String>> = Vec::new();
    classes.push(c);
    proof {
        lemma_tag_name_chars();
        let cd = chin_digits();
        assert(tag_classes("chin"@) == seq![cd]);
        assert(classes@[0]@.map_values(|s: String| s@) =~= cd);
        assert(class_views_owned(classes@) =~= tag_classes("chin"@));
        assert(valid_class(cd)) by {
            assert(cd[0].len() == 1);
        }
        assert(distinct_seqs(cd)) by {
            assert forall|i: int, j: int| 0 <= i < j < cd.len() implies cd[i] !== cd[j] by {
                assert(spec_char(0x3400 + i) as u32 == 0x3400 + i);
                assert(spec_char(0x3400 + j) as u32 == 0x3400 + j);
                assert(cd[i] == seq![spec_char(0x3400 + i)]);
                assert(cd[j] == seq![spec_char(0x3400 + j)]);
                if cd[i] == cd[j] {
                    assert(cd[i][0] == cd[j][0]);
                }
            }
        }
        let cs = seq![cd];
        assert(valid_classes(cs));
        lemma_product_digits_distinct(cs);
        lemma_radix_single(cd);
        lemma_product_digits_len(cs);
    }
    classes
}

/// Builds a numeral system from registry data, whose well-formedness is
/// already established.
fn make_system(prefix: &str, classes: Vec<Vec<String>>) -> (r: NumeralSystem)
    requires
        buildable(class_views_owned(classes@)),
    ensures
        r.wf(),
        r@.prefix == prefix@,
        r@.digits == product_digits(class_views_owned(classes@)),
{
    let p = prefix.to_owned();
    match NumeralSystem::new_from_strings(p, classes) {
        Ok(ns) => ns,
        Err(_) => vstd::pervasive::unreached(),
    }
}

impl NumeralSystem {
    /// Returns a pre-defined numeral system:
    /// - `bin` for binary (prefix `0b`), `oct` for octal (`0o`), `dec` for
    ///   decimal, `hex` for hexadecimal (`0x`)
    /// - `bibi` for the Bibi-binary system defined by Boby Lapointe
    /// - `budu` for a test system easy to read
    /// - `utf8` for a test system of symbol glyphs
    /// - `base58` for base58 as used in Bitcoin
    /// - `chin` for a system of CJK code points
    pub fn new_from_tag(tag: &str) -> (r: Result<NumeralSystem, BibiError>)
        ensures
            match r {
                Ok(ns) => {
                    &&& known_tag(tag@)
                    &&& ns.wf()
                    &&& ns@.prefix == tag_prefix(tag@)
                    &&& ns@.digits == product_digits(tag_classes(tag@))
                },
                Err(e) => e is BadTagNumeralSystem && !known_tag(tag@),
            },
    {
        if str_eq(tag, "bin") {
            proof {
                lemma_tag_name_chars();
                lemma_bin_data();
                assert(tag_names()[0] == "bin"@);
            }
            return Ok(make_system("0b", bin_classes()));
        }
        if str_eq(tag, "oct") {
            proof {
                lemma_tag_name_chars();
                lemma_oct_data();
                assert(tag_names()[1] == "oct"@);
            }
            return Ok(make_system("0o", oct_classes()));
        }
        if str_eq(tag, "dec") {
            proof {
                lemma_tag_name_chars();
                lemma_dec_data();
                reveal_strlit("");
                assert(""@ =~= Seq::<char>::empty());
                assert(tag_names()[2] == "dec"@);
            }
            return Ok(make_system("", dec_classes()));
        }
        if str_eq(tag, "hex") {
            proof {
                lemma_tag_name_chars();
                lemma_hex_data();
                assert(tag_names()[3] == "hex"@);
            }
            return Ok(make_system("0x", hex_classes()));
        }
        if str_eq(tag, "bibi") {
            proof {
                lemma_tag_name_chars();
                lemma_bibi_data();
                reveal_strlit("");
                assert(""@ =~= Seq::<char>::empty());
                assert(tag_names()[4] == "bibi"@);
            }
            return Ok(make_system("", bibi_classes()));
        }
        if str_eq(tag, "budu") {
            proof {
                lemma_tag_name_chars();
                lemma_budu_data();
                reveal_strlit("");
                assert(""@ =~= Seq::<char>::empty());
                assert(tag_names()[5] == "budu"@);
            }
            return Ok(make_system("", budu_classes()));
        }
        if str_eq(tag, "utf8") {
            proof {
                lemma_tag_name_chars();
                lemma_utf8_data();
                reveal_strlit("");
                assert(""@ =~= Seq::<char>::empty());
                assert(tag_names()[6] == "utf8"@);
            }
            return Ok(make_system("", utf8_classes()));
        }
        if str_eq(tag, "base58") {
            proof {
                lemma_tag_name_chars();
                lemma_base58_data();
                reveal_strlit("");
                assert(""@ =~= Seq::<char>::empty());
                assert(tag_names()[7] == "base58"@);
            }
            return Ok(make_system("", base58_classes()));
        }
        if str_eq(tag, "chin") {
            proof {
                lemma_tag_name_chars();
                reveal_strlit("");
                assert(""@ =~= Seq::<char>::empty());
                assert(tag_names()[8] == "chin"@);
            }
            return Ok(make_system("", chin_classes()));
        }
        proof {
            if known_tag(tag@) {
                let k = choose|k: int|
                    0 <= k < tag_names().len() && #[trigger] tag_names()[k] == tag@;
            }
        }
        Err(BibiError::BadTagNumeralSystem)
    }

    /// The nonempty prefixes of the pre-defined numeral systems, each paired
    /// with the tag it belongs to, in registry order.
    pub fn get_prefixes_from_tags() -> (r: Vec<(String, String)>)
        ensures
            r@.len() == 3,
            r@[0].0@ == tag_prefix("bin"@) && r@[0].1@ == "bin"@,
            r@[1].0@ == tag_prefix("oct"@) && r@[1].1@ == "oct"@,
            r@[2].0@ == tag_prefix("hex"@) && r@[2].1@ == "hex"@,
    {
        proof {
            lemma_tag_name_chars();
        }
        let mut r: Vec<(String, String)> = Vec::new();
        r.push((String::from_str("0b"), String::from_str("bin")));
        r.push((String::from_str("0o"), String::from_str("oct")));
        r.push((String::from_str("0x"), String::from_str("hex")));
        r
    }
}

} // verus!
