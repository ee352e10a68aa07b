//! The match scanner: slides a seed-length subwindow over a query window and
//! counts non-overlapping hits in the table.

use vstd::prelude::*;

use crate::nucleotide::{
    key_at, key_of, lemma_roll_equivalence, update_wmer_u64, Nucleotide, NucleotideAmbiguous, K, KEY_SPACE,
};
use crate::window::{all_seeds, amb_nucleotides_to_unamb_kmers, lemma_all_seeds_len};
use crate::wtab::Wtab;

verus! {

/// Length of a query window; it holds two non-overlapping seeds.
pub const W: usize = 42;

/// The scan of `w` from cursor `i` with `hits` matches so far, where `member`
/// tells which keys are present: whether a second non-overlapping hit is found.
pub open spec fn scan_from(
    w: Seq<Nucleotide>,
    member: spec_fn(nat) -> bool,
    i: int,
    hits: int,
) -> bool
    decreases (W - K) - i,
{
    if i >= W - K || i < 0 {
        false
    } else if member(key_of(w.subrange(i, i + K))) {
        if hits + 1 >= 2 {
            true
        } else if i > W - 2 * K {
            false
        } else {
            scan_from(w, member, i + K, hits + 1)
        }
    } else {
        scan_from(w, member, i + 1, hits)
    }
}

/// The seed at offset `i` of `w` is present.
pub open spec fn hit_at(w: Seq<Nucleotide>, member: spec_fn(nat) -> bool, i: int) -> bool {
    member(key_of(w.subrange(i, i + K)))
}

/// A window counts as matched exactly when it has two present seeds at
/// offsets `a` and `b` with `a + K <= b < W - K`: the scan finds a second,
/// non-overlapping hit whenever one exists.
pub proof fn lemma_window_hit_two_seeds(w: Seq<Nucleotide>, member: spec_fn(nat) -> bool)
    ensures
        window_hit(w, member) <==> exists|a: int, b: int|
            0 <= a && a + K <= b < W - K && #[trigger] hit_at(w, member, a) && #[trigger] hit_at(
                w,
                member,
                b,
            ),
{
    lemma_scan_pair(w, member, 0);
    if window_hit(w, member) {
        let (a, b) = choose|a: int, b: int|
            0 <= a && a + K <= b < W - K && hit_at(w, member, a) && hit_at(w, member, b);
        assert(hit_at(w, member, a) && hit_at(w, member, b));
    }
}

proof fn lemma_scan_second(w: Seq<Nucleotide>, member: spec_fn(nat) -> bool, i: int)
    requires
        0 <= i,
    ensures
        scan_from(w, member, i, 1) <==> exists|b: int|
            i <= b < W - K && #[trigger] hit_at(w, member, b),
    decreases (W - K) - i,
{
    if i < W - K {
        if !hit_at(w, member, i) {
            lemma_scan_second(w, member, i + 1);
            if exists|b: int| i <= b < W - K && #[trigger] hit_at(w, member, b) {
                let b = choose|b: int| i <= b < W - K && #[trigger] hit_at(w, member, b);
                assert(b != i);
                assert(hit_at(w, member, b));
            }
        } else {
            assert(hit_at(w, member, i));
        }
    }
}

proof fn lemma_scan_pair(w: Seq<Nucleotide>, member: spec_fn(nat) -> bool, i: int)
    requires
        0 <= i,
    ensures
        scan_from(w, member, i, 0) <==> exists|a: int, b: int|
            i <= a && a + K <= b < W - K && #[trigger] hit_at(w, member, a) && #[trigger] hit_at(
                w,
                member,
                b,
            ),
    decreases (W - K) - i,
{
    if i < W - K {
        if hit_at(w, member, i) {
            if i <= W - 2 * K {
                lemma_scan_second(w, member, i + K);
                if scan_from(w, member, i + K, 1) {
                    let b = choose|b: int| i + K <= b < W - K && #[trigger] hit_at(w, member, b);
                    assert(hit_at(w, member, i) && hit_at(w, member, b));
                }
                if exists|a: int, b: int|
                    i <= a && a + K <= b < W - K && #[trigger] hit_at(w, member, a)
                        && #[trigger] hit_at(w, member, b) {
                    let (a, b) = choose|a: int, b: int|
                        i <= a && a + K <= b < W - K && #[trigger] hit_at(w, member, a)
                            && #[trigger] hit_at(w, member, b);
                    assert(hit_at(w, member, b));
                }
            }
        } else {
            lemma_scan_pair(w, member, i + 1);
            if exists|a: int, b: int|
                i <= a && a + K <= b < W - K && #[trigger] hit_at(w, member, a)
                    && #[trigger] hit_at(w, member, b) {
                let (a, b) = choose|a: int, b: int|
                    i <= a && a + K <= b < W - K && #[trigger] hit_at(w, member, a)
                        && #[trigger] hit_at(w, member, b);
                assert(a != i);
                assert(hit_at(w, member, a) && hit_at(w, member, b));
            }
            if scan_from(w, member, i + 1, 0) {
                let (a, b) = choose|a: int, b: int|
                    i + 1 <= a && a + K <= b < W - K && #[trigger] hit_at(w, member, a)
                        && #[trigger] hit_at(w, member, b);
                assert(hit_at(w, member, a) && hit_at(w, member, b));
            }
        }
    }
}

/// Membership as a table's bits give it.
pub open spec fn table_member(bits: Seq<bool>) -> spec_fn(nat) -> bool {
    |k: nat| bits[k as int]
}

/// Whether a window of length `W` counts as matched against `member`.
pub open spec fn window_hit(w: Seq<Nucleotide>, member: spec_fn(nat) -> bool) -> bool {
    scan_from(w, member, 0, 0)
}

/// How many windows of `ws` count as matched against `member`.
pub open spec fn hits_in(ws: Seq<Seq<Nucleotide>>, member: spec_fn(nat) -> bool) -> nat
    decreases ws.len(),
{
    if ws.len() == 0 {
        0
    } else {
        hits_in(ws.drop_last(), member) + if window_hit(ws.last(), member) {
            1nat
        } else {
            0nat
        }
    }
}

/// `f` may be asked about any key.
pub open spec fn total<F: Fn(u64) -> bool>(f: &F) -> bool {
    forall|k: u64| k < KEY_SPACE ==> #[trigger] f.requires((k,))
}

/// Every answer `f` gives on a key is what `member` says of it.
pub open spec fn answers_by<F: Fn(u64) -> bool>(f: &F, member: spec_fn(nat) -> bool) -> bool {
    forall|k: u64, b: bool| k < KEY_SPACE && #[trigger] f.ensures((k,), b) ==> b == member(k as nat)
}

/// Whether `window` holds two non-overlapping present seeds, as found by a
/// left-to-right scan that skips past each hit; `member` answers whether a
/// key is present. The result is the scan's for every predicate that
/// `member` answers by.
pub fn window_matches_by<F: Fn(u64) -> bool>(window: &[Nucleotide], member: &F) -> (r: bool)
    requires
        total(member),
        window@.len() == W,
    ensures
        forall|m: spec_fn(nat) -> bool| answers_by(member, m) ==> r == window_hit(window@, m),
{
    let mut w_matches: u8 = 0;
    let mut i: usize = 0;
    let mut last: Option<(usize, u64)> = None;
    while i < W - K
        invariant
            total(member),
            window@.len() == W,
            i <= W - K,
            w_matches <= 1,
            forall|m: spec_fn(nat) -> bool|
                answers_by(member, m) ==> scan_from(window@, m, i as int, w_matches as int)
                    == window_hit(window@, m),
            last matches Some((li, key)) ==> li + K <= W && key == key_of(
                window@.subrange(li as int, li + K),
            ),
        decreases W - K - i,
    {
        assert(window@.len() == window.len());
        let key = match last {
            Some((li, prev)) => {
                if i == li + 1 {
                    proof {
                        let s = window@.subrange(li as int, li + K + 1);
                        lemma_roll_equivalence(s);
                        assert(s.subrange(0, K as int) =~= window@.subrange(li as int, li + K));
                        assert(s.subrange(1, K as int + 1) =~= window@.subrange(i as int, i + K));
                    }
                    update_wmer_u64(prev, window[i + K - 1])
                } else {
                    key_at(window, i)
                }
            },
            None => key_at(window, i),
        };
        last = Some((i, key));
        let ghost i0 = i;
        let ghost h0 = w_matches;
        let q = member(key);
        assert(forall|m: spec_fn(nat) -> bool| answers_by(member, m) ==> q == m(key as nat));
        if q {
            w_matches = w_matches + 1;
            if w_matches >= 2 {
                return true;
            } else if i > W - 2 * K {
                return false;
            } else {
                i = i + K;
            }
        } else {
            i = i + 1;
        }
        assert(forall|m: spec_fn(nat) -> bool|
            answers_by(member, m) ==> scan_from(window@, m, i0 as int, h0 as int) == scan_from(
                window@,
                m,
                i as int,
                w_matches as int,
            ));
    }
    false
}

/// `window_matches_by` with the table as the membership oracle.
pub fn window_matches(wtab: &Wtab, window: &[Nucleotide]) -> (r: bool)
    requires
        wtab.wf(),
        window@.len() == W,
    ensures
        r == window_hit(window@, table_member(wtab@)),
{
    let member = |k: u64| -> (b: bool)
        requires
            wtab.wf(),
            k < KEY_SPACE,
        ensures
            b == wtab@[k as int],
        { wtab.query_idx(k) };
    let r = window_matches_by(window, &member);
    assert(answers_by(&member, table_member(wtab@)));
    r
}

/// Scans every length-`W` window of `amb`, forward and reverse complement,
/// and returns (windows matched, windows scanned); windows with a degenerate
/// code are in neither count. `member` answers whether a key is present.
pub fn scan_sequence_by<F: Fn(u64) -> bool>(amb: &[NucleotideAmbiguous], member: &F) -> (r: (
    u64,
    u64,
))
    requires
        total(member),
    ensures
        r.1 == all_seeds(amb@, W as int).len(),
        forall|m: spec_fn(nat) -> bool|
            answers_by(member, m) ==> r.0 == hits_in(all_seeds(amb@, W as int), m),
{
    let windows = amb_nucleotides_to_unamb_kmers(amb, W);
    let ghost all = all_seeds(amb@, W as int);
    let mut n_matched: u64 = 0;
    let mut idx: usize = 0;
    while idx < windows.len()
        invariant
            total(member),
            windows@.len() == all.len(),
            forall|k: int| 0 <= k < windows@.len() ==> (#[trigger] windows@[k])@ == all[k],
            all == all_seeds(amb@, W as int),
            idx <= windows@.len(),
            n_matched <= idx,
            forall|m: spec_fn(nat) -> bool|
                answers_by(member, m) ==> n_matched == hits_in(all.take(idx as int), m),
        decreases windows@.len() - idx,
    {
        let v = &windows[idx];
        proof {
            lemma_all_seeds_len(amb@, W as int, idx as int);
            assert(all.take(idx + 1).drop_last() =~= all.take(idx as int));
            assert(all.take(idx + 1).last() == v@);
        }
        let hit = window_matches_by(v.as_slice(), member);
        if hit {
            n_matched = n_matched + 1;
        }
        idx = idx + 1;
    }
    assert(all.take(idx as int) =~= all);
    (n_matched, windows.len() as u64)
}

/// `scan_sequence_by` with the table as the membership oracle.
pub fn scan_sequence(wtab: &Wtab, amb: &[NucleotideAmbiguous]) -> (r: (u64, u64))
    requires
        wtab.wf(),
    ensures
        r.1 == all_seeds(amb@, W as int).len(),
        r.0 == hits_in(all_seeds(amb@, W as int), table_member(wtab@)),
{
    let member = |k: u64| -> (b: bool)
        requires
            wtab.wf(),
            k < KEY_SPACE,
        ensures
            b == wtab@[k as int],
        { wtab.query_idx(k) };
    let r = scan_sequence_by(amb, &member);
    assert(answers_by(&member, table_member(wtab@)));
    r
}

} // verus!
