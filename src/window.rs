//! Fixed-length windows over an ambiguous sequence, as forward and
//! reverse-complement seeds; windows holding a degenerate code are skipped.

use vstd::prelude::*;

use crate::nucleotide::{
    complement, complement_of, key_at, key_of, Nucleotide, NucleotideAmbiguous, K, KEY_SPACE,
};

verus! {

/// The unambiguous base a symbol stands for, if it stands for exactly one.
pub open spec fn unamb_of(a: NucleotideAmbiguous) -> Option<Nucleotide> {
    match a {
        NucleotideAmbiguous::A => Some(Nucleotide::A),
        NucleotideAmbiguous::T => Some(Nucleotide::T),
        NucleotideAmbiguous::C => Some(Nucleotide::C),
        NucleotideAmbiguous::G => Some(Nucleotide::G),
        _ => None,
    }
}

/// Every symbol of `a[start..start + len]` is one of A, C, G, T.
pub open spec fn window_clean(a: Seq<NucleotideAmbiguous>, start: int, len: int) -> bool {
    forall|i: int| 0 <= i < len ==> (#[trigger] unamb_of(a[start + i])).is_some()
}

/// The bases of `a[start..start + len]`.
pub open spec fn forward_of(a: Seq<NucleotideAmbiguous>, start: int, len: int) -> Seq<Nucleotide> {
    Seq::new(len as nat, |i: int| unamb_of(a[start + i])->0)
}

/// `s` reversed, each base replaced by its complement.
pub open spec fn reverse_complement(s: Seq<Nucleotide>) -> Seq<Nucleotide> {
    Seq::new(s.len(), |i: int| complement_of(s[s.len() - 1 - i]))
}

/// The seeds one window contributes: forward and reverse complement, or none.
pub open spec fn window_seeds(a: Seq<NucleotideAmbiguous>, len: int, start: int) -> Seq<
    Seq<Nucleotide>,
> {
    if window_clean(a, start, len) {
        seq![forward_of(a, start, len), reverse_complement(forward_of(a, start, len))]
    } else {
        seq![]
    }
}

/// The seeds of the windows that start before `j`, in order of start.
pub open spec fn seeds_before(a: Seq<NucleotideAmbiguous>, len: int, j: nat) -> Seq<
    Seq<Nucleotide>,
>
    decreases j,
{
    if j == 0 {
        seq![]
    } else {
        seeds_before(a, len, (j - 1) as nat) + window_seeds(a, len, j - 1)
    }
}

/// The seeds of every window of length `len` in `a`.
pub open spec fn all_seeds(a: Seq<NucleotideAmbiguous>, len: int) -> Seq<Seq<Nucleotide>> {
    if a.len() >= len {
        seeds_before(a, len, (a.len() - len + 1) as nat)
    } else {
        seq![]
    }
}

proof fn lemma_seeds_before_len(a: Seq<NucleotideAmbiguous>, len: int, j: nat, k: int)
    requires
        0 <= len,
        0 <= k < seeds_before(a, len, j).len(),
    ensures
        seeds_before(a, len, j)[k].len() == len,
    decreases j,
{
    if j > 0 {
        let p = seeds_before(a, len, (j - 1) as nat);
        if k < p.len() {
            lemma_seeds_before_len(a, len, (j - 1) as nat, k);
        }
    }
}

/// Every seed of a length-`len` window has length `len`.
pub proof fn lemma_all_seeds_len(a: Seq<NucleotideAmbiguous>, len: int, k: int)
    requires
        0 <= len,
        0 <= k < all_seeds(a, len).len(),
    ensures
        all_seeds(a, len)[k].len() == len,
{
    if a.len() >= len {
        lemma_seeds_before_len(a, len, (a.len() - len + 1) as nat, k);
    }
}

fn unamb(a: NucleotideAmbiguous) -> (r: Option<Nucleotide>)
    ensures
        r == unamb_of(a),
{
    match a {
        NucleotideAmbiguous::A => Some(Nucleotide::A),
        NucleotideAmbiguous::T => Some(Nucleotide::T),
        NucleotideAmbiguous::C => Some(Nucleotide::C),
        NucleotideAmbiguous::G => Some(Nucleotide::G),
        _ => None,
    }
}

/// The forward and reverse-complement seeds of `amb[start..start + len]`, or
/// `None` when a symbol there is a degenerate code.
pub fn extract_window(amb: &[NucleotideAmbiguous], start: usize, len: usize) -> (r: Option<
    (Vec<Nucleotide>, Vec<Nucleotide>),
>)
    requires
        start + len <= amb@.len(),
    ensures
        r.is_some() == window_clean(amb@, start as int, len as int),
        r matches Some((fwd, rc)) ==> fwd@ == forward_of(amb@, start as int, len as int) && rc@
            == reverse_complement(fwd@),
{
    let mut fwd: Vec<Nucleotide> = Vec::new();
    let mut i: usize = 0;
    while i < len
        invariant
            i <= len,
            start + len <= amb@.len(),
            fwd@ =~= forward_of(amb@, start as int, i as int),
            window_clean(amb@, start as int, i as int),
        decreases len - i,
    {
        assert(amb@.len() == amb.len());
        match unamb(amb[start + i]) {
            Some(n) => {
                fwd.push(n);
            },
            None => {
                assert(!window_clean(amb@, start as int, len as int)) by {
                    assert(unamb_of(amb@[start + i]).is_none());
                }
                return None;
            },
        }
        i = i + 1;
        assert(window_clean(amb@, start as int, i as int)) by {
            assert forall|j: int| 0 <= j < i implies (#[trigger] unamb_of(
                amb@[start + j],
            )).is_some() by {
                if j < i - 1 {
                    assert(unamb_of(amb@[start + j]).is_some());
                }
            }
        }
    }
    let mut rc: Vec<Nucleotide> = Vec::new();
    let mut j: usize = 0;
    while j < len
        invariant
            j <= len,
            fwd@.len() == len,
            rc@ =~= reverse_complement(fwd@).take(j as int),
        decreases len - j,
    {
        rc.push(complement(fwd[len - 1 - j]));
        j = j + 1;
    }
    assert(rc@ =~= reverse_complement(fwd@));
    Some((fwd, rc))
}

/// Every window of length `len` of `amb`, in order, as its forward seed
/// followed by its reverse-complement seed; windows with a degenerate code
/// contribute nothing.
pub fn amb_nucleotides_to_unamb_kmers(amb: &[NucleotideAmbiguous], len: usize) -> (r: Vec<
    Vec<Nucleotide>,
>)
    requires
        len > 0,
    ensures
        r@.len() == all_seeds(amb@, len as int).len(),
        forall|k: int| 0 <= k < r@.len() ==> (#[trigger] r@[k])@ == all_seeds(amb@, len as int)[k],
{
    let mut out: Vec<Vec<Nucleotide>> = Vec::new();
    let n = amb.len();
    if n < len {
        return out;
    }
    let mut j: usize = 0;
    while j <= n - len
        invariant
            n == amb@.len(),
            0 < len <= n,
            j <= n - len + 1,
            out@.len() == seeds_before(amb@, len as int, j as nat).len(),
            forall|k: int|
                0 <= k < out@.len() ==> (#[trigger] out@[k])@ == seeds_before(
                    amb@,
                    len as int,
                    j as nat,
                )[k],
        decreases n - len + 1 - j,
    {
        let ghost before = out@;
        let ghost prev = seeds_before(amb@, len as int, j as nat);
        match extract_window(amb, j, len) {
            Some((fwd, rc)) => {
                out.push(fwd);
                out.push(rc);
            },
            None => {},
        }
        proof {
            let next = seeds_before(amb@, len as int, (j + 1) as nat);
            assert(next == prev + window_seeds(amb@, len as int, j as int));
            assert forall|k: int| 0 <= k < out@.len() implies (#[trigger] out@[k])@ == next[k] by {
                if k < before.len() {
                    assert(out@[k] == before[k]);
                }
            }
        }
        j = j + 1;
    }
    out
}

/// The key of every seed the length-`K` windows of `amb` yield, in the order
/// of `amb_nucleotides_to_unamb_kmers`.
pub fn seed_keys(amb: &[NucleotideAmbiguous]) -> (r: Vec<u64>)
    ensures
        r@.len() == all_seeds(amb@, K as int).len(),
        forall|k: int|
            0 <= k < r@.len() ==> #[trigger] r@[k] == key_of(all_seeds(amb@, K as int)[k])
                && r@[k] < KEY_SPACE,
{
    let kmers = amb_nucleotides_to_unamb_kmers(amb, K);
    let ghost all = all_seeds(amb@, K as int);
    let mut keys: Vec<u64> = Vec::new();
    let mut idx: usize = 0;
    while idx < kmers.len()
        invariant
            kmers@.len() == all.len(),
            forall|k: int| 0 <= k < kmers@.len() ==> (#[trigger] kmers@[k])@ == all[k],
            all == all_seeds(amb@, K as int),
            idx <= kmers@.len(),
            keys@.len() == idx,
            forall|k: int| 0 <= k < idx ==> #[trigger] keys@[k] == key_of(all[k]) && keys@[k] < KEY_SPACE,
        decreases kmers@.len() - idx,
    {
        let v = &kmers[idx];
        proof {
            lemma_all_seeds_len(amb@, K as int, idx as int);
            assert(v@.subrange(0, K as int) =~= v@);
        }
        let u = key_at(v.as_slice(), 0);
        keys.push(u);
        idx = idx + 1;
    }
    keys
}

} // verus!
