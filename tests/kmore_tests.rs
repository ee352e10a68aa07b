use std::collections::HashSet;

use kmore::{
    amb_nucleotides_to_unamb_kmers, complement, extract_window, nucleotide_code,
    nucleotide_from_code, scan_sequence_by, seed_keys, update_wmer_u64, window_matches_by,
    wmer_to_u64, Nucleotide, NucleotideAmbiguous, Wtab, KEY_SPACE,
};

fn amb(s: &str) -> Vec<NucleotideAmbiguous> {
    s.chars()
        .map(|c| match c {
            'A' => NucleotideAmbiguous::A,
            'C' => NucleotideAmbiguous::C,
            'G' => NucleotideAmbiguous::G,
            'T' => NucleotideAmbiguous::T,
            'R' => NucleotideAmbiguous::R,
            _ => NucleotideAmbiguous::N,
        })
        .collect()
}

fn unamb(s: &str) -> Vec<Nucleotide> {
    s.chars()
        .map(|c| match c {
            'A' => Nucleotide::A,
            'C' => Nucleotide::C,
            'G' => Nucleotide::G,
            _ => Nucleotide::T,
        })
        .collect()
}

fn seed(s: &str) -> [Nucleotide; 18] {
    unamb(s).try_into().unwrap()
}

#[test]
fn codes_are_fixed() {
    assert_eq!(nucleotide_code(Nucleotide::A), 0);
    assert_eq!(nucleotide_code(Nucleotide::T), 1);
    assert_eq!(nucleotide_code(Nucleotide::C), 2);
    assert_eq!(nucleotide_code(Nucleotide::G), 3);
}

#[test]
fn code_round_trip() {
    for n in [Nucleotide::A, Nucleotide::T, Nucleotide::C, Nucleotide::G] {
        assert_eq!(nucleotide_from_code(nucleotide_code(n)), n);
    }
}

#[test]
fn complement_pairs() {
    assert_eq!(complement(Nucleotide::A), Nucleotide::T);
    assert_eq!(complement(Nucleotide::T), Nucleotide::A);
    assert_eq!(complement(Nucleotide::C), Nucleotide::G);
    assert_eq!(complement(Nucleotide::G), Nucleotide::C);
}

#[test]
fn key_of_extremes() {
    assert_eq!(wmer_to_u64(&seed("AAAAAAAAAAAAAAAAAA")), 0);
    assert_eq!(wmer_to_u64(&seed("GGGGGGGGGGGGGGGGGG")), KEY_SPACE - 1);
    assert_eq!(wmer_to_u64(&seed("AAAAAAAAAAAAAAAAAT")), 1);
    assert_eq!(wmer_to_u64(&seed("TAAAAAAAAAAAAAAAAA")), 1 << 34);
}

#[test]
fn key_of_mixed_seed() {
    // ACGT repeated: codes 0, 2, 3, 1 → 0b00_10_11_01 per group of four.
    let k = wmer_to_u64(&seed("ACGTACGTACGTACGTAC"));
    let mut expect: u64 = 0;
    for c in [0u64, 2, 3, 1, 0, 2, 3, 1, 0, 2, 3, 1, 0, 2, 3, 1, 0, 2] {
        expect = expect * 4 + c;
    }
    assert_eq!(k, expect);
}

#[test]
fn distinct_seeds_distinct_keys() {
    let a = wmer_to_u64(&seed("ACGTACGTACGTACGTAC"));
    let b = wmer_to_u64(&seed("ACGTACGTACGTACGTAG"));
    let c = wmer_to_u64(&seed("TCGTACGTACGTACGTAC"));
    assert_ne!(a, b);
    assert_ne!(a, c);
    assert_ne!(b, c);
    assert!(a < KEY_SPACE && b < KEY_SPACE && c < KEY_SPACE);
}

#[test]
fn rolling_matches_fresh_key() {
    let s = unamb("GATTACAGATTACACCGTA");
    let first: [Nucleotide; 18] = s[0..18].try_into().unwrap();
    let second: [Nucleotide; 18] = s[1..19].try_into().unwrap();
    assert_eq!(update_wmer_u64(wmer_to_u64(&first), s[18]), wmer_to_u64(&second));
}

#[test]
fn rolling_drops_high_bits() {
    assert_eq!(update_wmer_u64(u64::MAX, Nucleotide::A), KEY_SPACE - 4);
}

#[test]
fn ambiguous_window_skipped() {
    let a = amb("ACGTNACGT");
    assert!(extract_window(&a, 0, 5).is_none());
    assert!(extract_window(&a, 4, 3).is_none());
    assert!(extract_window(&a, 5, 4).is_some());
}

#[test]
fn reverse_complement_pair() {
    let a = amb("AACGTT");
    let (fwd, rc) = extract_window(&a, 0, 4).unwrap();
    assert_eq!(fwd, unamb("AACG"));
    assert_eq!(rc, unamb("CGTT"));
}

#[test]
fn kmers_in_order_skipping_ambiguous() {
    let a = amb("ACGRTAC");
    let ks = amb_nucleotides_to_unamb_kmers(&a, 3);
    // windows: ACG, CGR(skip), GRT(skip), RTA(skip), TAC
    assert_eq!(ks.len(), 4);
    assert_eq!(ks[0], unamb("ACG"));
    assert_eq!(ks[1], unamb("CGT"));
    assert_eq!(ks[2], unamb("TAC"));
    assert_eq!(ks[3], unamb("GTA"));
}

#[test]
fn kmers_of_short_sequence_empty() {
    assert!(amb_nucleotides_to_unamb_kmers(&amb("ACGT"), 5).is_empty());
}

fn key(s: &str) -> u64 {
    wmer_to_u64(&seed(s))
}

#[test]
fn built_keys_hold_first_seed() {
    let keys = seed_keys(&amb("ACGTACGTACGTACGTACGT"));
    // three windows, each forward and reverse complement
    assert_eq!(keys.len(), 6);
    assert_eq!(keys[0], key("ACGTACGTACGTACGTAC"));
    assert_eq!(keys[1], key("GTACGTACGTACGTACGT"));
    assert_eq!(keys[2], key("CGTACGTACGTACGTACG"));
    assert!(!keys.contains(&key("AAAAAAAAAAAAAAAAAA")));
}

#[test]
fn built_keys_skip_ambiguous_windows() {
    let keys = seed_keys(&amb("ACGTACGTACGTACGTACGTN"));
    assert_eq!(keys.len(), 6);
    assert!(seed_keys(&amb("ACGTACGTNCGTACGTACGT")).is_empty());
}

#[test]
fn read_rejects_short_input() {
    assert!(Wtab::read(&[0u8; 16]).is_none());
    assert!(Wtab::read(&[]).is_none());
}

const HALF1: &str = "GATTACAGCTTAGCCATG";
const HALF2: &str = "CCGTAATCGGATCCTAGA";

fn set_of(seeds: &[&str]) -> HashSet<u64> {
    seeds.iter().map(|s| key(s)).collect()
}

#[test]
fn two_adjacent_seeds_match() {
    let set = set_of(&[HALF1, HALF2]);
    let member = |k: u64| set.contains(&k);
    let q = format!("{HALF1}{HALF2}TTTTTT");
    let window = unamb(&q);
    assert_eq!(window.len(), 42);
    assert!(window_matches_by(&window, &member));
    let (matched, total) = scan_sequence_by(&amb(&q), &member);
    assert_eq!(total, 2);
    assert_eq!(matched, 1);
}

#[test]
fn seeds_with_gap_match() {
    let set = set_of(&[HALF1, HALF2]);
    let window = unamb(&format!("AAA{HALF1}TT{HALF2}T"));
    assert!(window_matches_by(&window, &|k: u64| set.contains(&k)));
}

#[test]
fn last_offset_not_scanned() {
    // the cursor stops before offset W - K, so a seed there is not seen
    let set = set_of(&[HALF1, HALF2]);
    let window = unamb(&format!("AAA{HALF1}TTT{HALF2}"));
    assert!(!window_matches_by(&window, &|k: u64| set.contains(&k)));
}

#[test]
fn single_late_seed_unmatched() {
    let set = set_of(&[HALF1]);
    let window = unamb(&format!("TTTTTTTTTT{HALF1}CCCCCCCCCCCCCC"));
    assert_eq!(window.len(), 42);
    assert!(!window_matches_by(&window, &|k: u64| set.contains(&k)));
}

#[test]
fn single_early_seed_unmatched() {
    let set = set_of(&[HALF1]);
    let window = unamb(&format!("{HALF1}CCCCCCCCCCCCCCCCCCCCCCCC"));
    assert!(!window_matches_by(&window, &|k: u64| set.contains(&k)));
}

#[test]
fn overlapping_copies_count_once() {
    // every 18-mer of a poly-A window is the same seed: after the first hit
    // the scan jumps past it and finds the same seed again, non-overlapping.
    let set = set_of(&["AAAAAAAAAAAAAAAAAA"]);
    let window = unamb(&"A".repeat(42));
    assert!(window_matches_by(&window, &|k: u64| set.contains(&k)));
    // a hit at 0 and the only other at offset 10, which overlaps: unmatched
    let set2 = set_of(&[HALF1, "AGCCATGCCCCCCCCCCC"]);
    let window2 = unamb(&format!("{HALF1}CCCCCCCCCCCCCCCCCCCCCCCC"));
    assert!(!window_matches_by(&window2, &|k: u64| set2.contains(&k)));
}

#[test]
fn ambiguous_window_not_counted() {
    let set = set_of(&[HALF1, HALF2]);
    let member = |k: u64| set.contains(&k);
    let q = format!("{HALF1}{HALF2}TTTNTT");
    assert_eq!(scan_sequence_by(&amb(&q), &member), (0, 0));
    let q2 = format!("{HALF1}{HALF2}TTTTTTN");
    let (matched, total) = scan_sequence_by(&amb(&q2), &member);
    assert_eq!(total, 2);
    assert_eq!(matched, 1);
    let q3 = format!("R{HALF1}{HALF2}TTTTTT");
    assert_eq!(scan_sequence_by(&amb(&q3), &member), (1, 2));
}

#[test]
fn empty_sequence_scans_nothing() {
    let set: HashSet<u64> = HashSet::new();
    assert_eq!(scan_sequence_by(&[], &|k: u64| set.contains(&k)), (0, 0));
}

#[test]
fn built_keys_are_exactly_three() {
    let keys: HashSet<u64> = seed_keys(&amb("ACGTACGTACGTACGTACGT")).into_iter().collect();
    let expect: HashSet<u64> = [0x2_D2D2_D2D2, 0xB_4B4B_4B4B, 0xD_2D2D_2D2D].into_iter().collect();
    assert_eq!(keys, expect);
}

#[test]
fn key_digits_decode_to_seed() {
    let s = seed("GATTACAGCTTAGCCATG");
    let k = wmer_to_u64(&s);
    for i in 0..18 {
        let digit = (k >> (2 * (17 - i))) & 3;
        assert_eq!(nucleotide_from_code(digit), s[i]);
    }
}
