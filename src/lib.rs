//! An exact membership index over all 18-symbol DNA seeds, and the windowed
//! scan that tests query sequences against it.

mod nucleotide;
mod scan;
mod window;
mod wtab;

pub use nucleotide::{
    complement, nucleotide_code, nucleotide_from_code, update_wmer_u64, wmer_to_u64, Nucleotide,
    NucleotideAmbiguous, K, KEY_SPACE,
};
pub use scan::{scan_sequence, scan_sequence_by, window_matches, window_matches_by, W};
pub use window::{amb_nucleotides_to_unamb_kmers, extract_window, seed_keys};
pub use wtab::{Wtab, TABLE_BYTES, TABLE_WORDS};
