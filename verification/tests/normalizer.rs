// Tests for the decomposing normalizer, over small baked tables that carry
// the real Unicode data for the code points they cover.

use decomposing::encode::CodepointRecord;
use decomposing::tables::DecompositionData;
use decomposing::{
    encode_codepoint, from_baked, new_nfd, new_nfkd, parse_data_value, Codepoint,
    DecompositionValue,
};

/// packed 32-bit code point: code in bits 0..17, CCC in bits 24..31
fn pack32(code: u32, ccc: u8) -> u32 {
    code + (ccc as u32) * 0x1000000
}

/// marker-1 descriptor: non-starter without decomposition
fn nonstarter(code: u64, ccc: u64) -> u64 {
    1 + code * 0x100 + ccc * 0x100000000
}

/// marker-2 descriptor: starter c1 and packed c2
fn pair(c1: u64, c2: u32, c2_ccc: u8) -> u64 {
    2 + c1 * 0x100 + (pack32(c2, c2_ccc) as u64) * 0x100000000
}

/// marker-3 descriptor: expansion slice (index, count)
fn expansion(index: u64, count: u64) -> u64 {
    3 + count * 0x100 + index * 0x10000
}

/// marker-4 descriptor: singleton
fn singleton(c1: u64) -> u64 {
    4 + c1 * 0x100
}

/// triple descriptor: three 16-bit codes, the first a starter
fn triple(c1: u64, c2: u64, c2_ccc: u64, c3: u64, c3_ccc: u64) -> u64 {
    c1 + c2 * 0x10000 + c2_ccc * 0x100000000 + c3 * 0x10000000000 + c3_ccc * 0x100000000000000
}

/// The canonical-decomposition artifacts for the code points these tests
/// exercise: combining marks, a few Latin precomposed letters, a triple, an
/// expansion, a singleton, and two Hangul syllables.
fn nfd_data() -> DecompositionData {
    let mut data = vec![0u64; 0x380];
    data[0x300] = nonstarter(0x300, 230); // combining grave
    data[0x301] = nonstarter(0x301, 230); // combining acute
    data[0x307] = nonstarter(0x307, 230); // combining dot above
    data[0x308] = nonstarter(0x308, 230); // combining diaeresis
    data[0x30A] = nonstarter(0x30A, 230); // combining ring above
    data[0x323] = nonstarter(0x323, 220); // combining dot below
    data[0x344] = expansion(0, 2); // combining dialytika tonos -> 0x308 0x301
    data[0xC0] = pair(0x41, 0x300, 230); // A-grave -> A + grave
    data[0xC5] = pair(0x41, 0x30A, 230); // A-ring -> A + ring above

    // block 7: codes 0x1E00..0x1E7F
    data.extend(std::iter::repeat(0u64).take(128));
    data[7 * 128 + 0x69] = triple(0x73, 0x323, 220, 0x307, 230); // s-dot-below-dot-above
    // block 8: codes 0xAC00..0xAC7F
    data.extend(std::iter::repeat(0u64).take(128));
    data[8 * 128] = 5; // Hangul syllable U+AC00
    // block 9: codes 0xAE00..0xAE7F
    data.extend(std::iter::repeat(0u64).take(128));
    data[9 * 128] = 5; // Hangul syllable U+AE00
    // block 10: codes 0x2100..0x217F
    data.extend(std::iter::repeat(0u64).take(128));
    data[10 * 128 + 0x26] = singleton(0x3A9); // ohm sign -> Greek capital omega

    let mut index = vec![0u8; 0x5F5];
    index[0x1E00 >> 7] = 7;
    index[0xAC00 >> 7] = 8;
    index[0xAE00 >> 7] = 9;
    index[0x2100 >> 7] = 10;

    let expansions = vec![pack32(0x308, 230), pack32(0x301, 230)];

    DecompositionData {
        data,
        index,
        expansions,
        continuous_block_end: 0x34F,
    }
}

/// The compatibility-decomposition artifacts: the canonical data plus the
/// fi ligature.
fn nfkd_data() -> DecompositionData {
    let mut source = nfd_data();
    // block 11: codes 0xFB00..0xFB7F
    source.data.extend(std::iter::repeat(0u64).take(128));
    source.data[11 * 128 + 0x01] = pair(0x66, 0x69, 0); // fi ligature -> f i
    source.index[0xFB00 >> 7] = 11;
    source
}

fn nfd(input: &str) -> String {
    let normalizer = new_nfd(nfd_data()).expect("canonical artifacts are well-formed");
    normalizer.normalize(input)
}

fn nfkd(input: &str) -> String {
    let normalizer = new_nfkd(nfkd_data()).expect("compatibility artifacts are well-formed");
    normalizer.normalize(input)
}

#[test]
fn accepts_baked_tables() {
    assert!(from_baked(nfd_data()).is_some());
    assert!(from_baked(nfkd_data()).is_some());
}

#[test]
fn rejects_expansion_out_of_range() {
    let mut source = nfd_data();
    source.data[0x344] = expansion(7, 3); // slice runs past the side-table
    assert!(from_baked(source).is_none());
}

#[test]
fn rejects_nonzero_ascii() {
    let mut source = nfd_data();
    source.data[0x41] = nonstarter(0x41, 230); // ASCII must stay untouched
    assert!(from_baked(source).is_none());
}

#[test]
fn rejects_mismatched_nonstarter() {
    let mut source = nfd_data();
    source.data[0x300] = nonstarter(0x301, 230); // descriptor must repeat its own code
    assert!(from_baked(source).is_none());
}

#[test]
fn ascii_is_returned_byte_identical() {
    assert_eq!(nfd("hello, world"), "hello, world");
    assert_eq!(nfkd("hello, world"), "hello, world");
    assert_eq!(nfd(""), "");
}

#[test]
fn already_decomposed_text_is_unchanged() {
    assert_eq!(nfd("A\u{300}"), "A\u{300}");
    assert_eq!(nfkd("A\u{300}"), "A\u{300}");
}

#[test]
fn precomposed_a_grave_decomposes() {
    assert_eq!(nfd("\u{C0}"), "A\u{300}");
}

#[test]
fn a_ring_decomposes_in_both_forms() {
    assert_eq!(nfd("\u{C5}"), "A\u{30A}");
    assert_eq!(nfkd("\u{C5}"), "A\u{30A}");
}

#[test]
fn fi_ligature_splits_only_in_compat_form() {
    assert_eq!(nfd("\u{FB01}"), "\u{FB01}");
    assert_eq!(nfkd("\u{FB01}"), "fi");
}

#[test]
fn hangul_syllables_decompose_algorithmically() {
    assert_eq!(nfd("\u{AC00}"), "\u{1100}\u{1161}");
    assert_eq!(nfd("\u{AE00}"), "\u{1100}\u{1173}\u{11AF}");
}

#[test]
fn marks_reorder_by_combining_class() {
    assert_eq!(nfd("q\u{307}\u{323}"), "q\u{323}\u{307}");
}

#[test]
fn marks_of_a_decomposition_join_the_reordering() {
    // A-grave contributes a CCC-230 mark; the following dot below (CCC 220)
    // must come out first.
    assert_eq!(nfd("\u{C0}\u{323}"), "A\u{323}\u{300}");
}

#[test]
fn nonstarter_expansion_pushes_both_marks() {
    assert_eq!(nfd("a\u{344}"), "a\u{308}\u{301}");
}

#[test]
fn singleton_replaces_the_starter() {
    assert_eq!(nfd("\u{2126}"), "\u{3A9}");
}

#[test]
fn triple_emits_reorderable_marks() {
    assert_eq!(nfd("\u{1E69}"), "s\u{323}\u{307}");
    // the triple's marks merge with a preceding run correctly
    assert_eq!(nfd("a\u{307}\u{1E69}"), "a\u{307}s\u{323}\u{307}");
}

#[test]
fn normalization_is_idempotent_on_samples() {
    let samples = [
        "hello",
        "\u{C0}\u{C5}q\u{307}\u{323}",
        "\u{AC00}\u{AE00}",
        "a\u{344}\u{323}",
        "\u{1E69}\u{300}",
    ];
    for sample in samples.iter() {
        let once = nfd(sample);
        let twice = nfd(&once);
        assert_eq!(once, twice);
        let konce = nfkd(sample);
        let ktwice = nfkd(&konce);
        assert_eq!(konce, ktwice);
    }
}

#[test]
fn output_stays_within_the_length_bound() {
    let samples = ["", "abc", "\u{C0}\u{344}\u{1E69}", "\u{AC00}\u{AE00}"];
    for sample in samples.iter() {
        assert!(nfd(sample).len() <= 18 * sample.len().max(1));
    }
}

#[test]
fn output_is_canonically_ordered() {
    let out = nfd("q\u{307}\u{323}\u{300}\u{C0}\u{323}\u{307}");
    let mut previous_ccc = 0u8;
    for c in out.chars() {
        let ccc = match c as u32 {
            0x300 | 0x301 | 0x307 | 0x308 | 0x30A => 230,
            0x323 => 220,
            _ => 0,
        };
        if ccc != 0 && previous_ccc != 0 {
            assert!(previous_ccc <= ccc);
        }
        previous_ccc = ccc;
    }
}

#[test]
fn parse_data_value_recovers_each_shape() {
    match parse_data_value(0) {
        DecompositionValue::Starter => {}
        _ => panic!("marker 0 must read back as a starter"),
    }
    match parse_data_value(nonstarter(0x323, 220)) {
        DecompositionValue::Nonstarter(cp) => {
            assert_eq!(cp.code, 0x323);
            assert_eq!(cp.ccc, 220);
        }
        _ => panic!("marker 1 must read back as a non-starter"),
    }
    match parse_data_value(pair(0x41, 0x300, 230)) {
        DecompositionValue::Pair(c1, c2) => {
            assert_eq!(c1.code, 0x41);
            assert_eq!(c1.ccc, 0);
            assert_eq!(c2.code, 0x300);
            assert_eq!(c2.ccc, 230);
        }
        _ => panic!("marker 2 must read back as a pair"),
    }
    match parse_data_value(expansion(5, 4)) {
        DecompositionValue::Expansion(index, count) => {
            assert_eq!(index, 5);
            assert_eq!(count, 4);
        }
        _ => panic!("marker 3 must read back as an expansion"),
    }
    match parse_data_value(singleton(0x3A9)) {
        DecompositionValue::Singleton(c1) => {
            assert_eq!(c1.code, 0x3A9);
            assert_eq!(c1.ccc, 0);
        }
        _ => panic!("marker 4 must read back as a singleton"),
    }
    match parse_data_value(5) {
        DecompositionValue::Hangul => {}
        _ => panic!("marker 5 must read back as Hangul"),
    }
    match parse_data_value(triple(0x73, 0x323, 220, 0x307, 230)) {
        DecompositionValue::Triple(c1, c2, c3) => {
            assert_eq!(c1.code, 0x73);
            assert_eq!(c2.code, 0x323);
            assert_eq!(c2.ccc, 220);
            assert_eq!(c3.code, 0x307);
            assert_eq!(c3.ccc, 230);
        }
        _ => panic!("an unknown marker must read back as a triple"),
    }
}

#[test]
fn decompose_short_circuits_above_the_last_decomposing_code_point() {
    let normalizer = new_nfd(nfd_data()).expect("canonical artifacts are well-formed");
    match normalizer.decompose(0x10FFFF) {
        DecompositionValue::Starter => {}
        _ => panic!("code points above U+2FA1D never decompose"),
    }
    match normalizer.decompose(0xC0) {
        DecompositionValue::Pair(c1, _) => assert_eq!(c1.code, 0x41),
        _ => panic!("U+00C0 carries a pair descriptor"),
    }
}

#[test]
fn long_mixed_input_normalizes_as_expected() {
    let input = "x\u{C5}y\u{AC00}z\u{344}w";
    let expected = "xA\u{30A}y\u{1100}\u{1161}z\u{308}\u{301}w";
    assert_eq!(nfd(input), expected);
}

#[test]
fn encoder_picks_each_shape() {
    let starter = CodepointRecord {
        code: 0x41,
        ccc: 0,
        decomposition: vec![],
    };
    assert_eq!(encode_codepoint(&starter, 0), (0, vec![]));

    let mark = CodepointRecord {
        code: 0x323,
        ccc: 220,
        decomposition: vec![],
    };
    assert_eq!(encode_codepoint(&mark, 0), (nonstarter(0x323, 220), vec![]));

    let ohm = CodepointRecord {
        code: 0x2126,
        ccc: 0,
        decomposition: vec![Codepoint { code: 0x3A9, ccc: 0 }],
    };
    assert_eq!(encode_codepoint(&ohm, 0), (singleton(0x3A9), vec![]));

    let a_grave = CodepointRecord {
        code: 0xC0,
        ccc: 0,
        decomposition: vec![
            Codepoint { code: 0x41, ccc: 0 },
            Codepoint { code: 0x300, ccc: 230 },
        ],
    };
    assert_eq!(encode_codepoint(&a_grave, 0), (pair(0x41, 0x300, 230), vec![]));

    let s_two_dots = CodepointRecord {
        code: 0x1E69,
        ccc: 0,
        decomposition: vec![
            Codepoint { code: 0x73, ccc: 0 },
            Codepoint { code: 0x323, ccc: 220 },
            Codepoint { code: 0x307, ccc: 230 },
        ],
    };
    assert_eq!(
        encode_codepoint(&s_two_dots, 0),
        (triple(0x73, 0x323, 220, 0x307, 230), vec![])
    );

    let dialytika_tonos = CodepointRecord {
        code: 0x344,
        ccc: 230,
        decomposition: vec![
            Codepoint { code: 0x308, ccc: 230 },
            Codepoint { code: 0x301, ccc: 230 },
        ],
    };
    assert_eq!(
        encode_codepoint(&dialytika_tonos, 9),
        (expansion(9, 2), vec![pack32(0x308, 230), pack32(0x301, 230)])
    );
}

#[test]
fn encoder_output_feeds_the_decoder() {
    // a triple whose first code ends in a marker-sized byte must take the
    // expansion shape so that the decoder cannot misread it
    let collision = CodepointRecord {
        code: 0x1000,
        ccc: 0,
        decomposition: vec![
            Codepoint { code: 0x105, ccc: 0 },
            Codepoint { code: 0x323, ccc: 220 },
            Codepoint { code: 0x307, ccc: 230 },
        ],
    };
    let (descriptor, entries) = encode_codepoint(&collision, 0);
    assert_eq!(descriptor, expansion(0, 3));
    assert_eq!(entries.len(), 3);
    match parse_data_value(descriptor) {
        DecompositionValue::Expansion(index, count) => {
            assert_eq!(index, 0);
            assert_eq!(count, 3);
        }
        _ => panic!("the colliding triple must come back as an expansion"),
    }
}

#[test]
fn multibyte_text_without_decompositions_passes_through() {
    // scalars of width 2, 3, and 4 bytes, none of them mapped, mixed with
    // mapped ones: the fast path must copy the clean stretches verbatim
    let input = "\u{4E2D}\u{6587}\u{1F600}\u{10FFFF}";
    assert_eq!(nfd(input), input);
    let mixed = "\u{4E2D}\u{C0}\u{1F600}\u{323}\u{6587}";
    assert_eq!(nfd(mixed), "\u{4E2D}A\u{300}\u{1F600}\u{323}\u{6587}");
}
