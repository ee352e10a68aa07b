//! The membership table: one bit per possible seed key, addressed directly.

use vstd::endian::{endianness, Endian};
use vstd::prelude::*;

use bitvec::boxed::BitBox;
use bitvec::order::Lsb0;
use byte_slice_cast::{AsByteSlice, AsMutByteSlice};

use crate::nucleotide::{
    key_of, lemma_key_bound, lemma_pow4_18, wmer_to_u64, Nucleotide, NucleotideAmbiguous, K,
    KEY_SPACE,
};
use crate::window::{all_seeds, seed_keys};

verus! {

/// Size of the serialized table: one bit per key, eight bits per byte.
pub const TABLE_BYTES: u64 = 0x2_0000_0000;

/// Number of 64-bit words that hold the table's bits.
pub const TABLE_WORDS: usize = 0x4000_0000;

/// The packed bit storage behind a table.
#[verifier::external_body]
pub struct SeedBits {
    bits: BitBox<u64, Lsb0>,
}

/// The bits a `SeedBits` holds, in index order.
pub uninterp spec fn seed_bits(b: SeedBits) -> Seq<bool>;

/// The byte that holds bit `i` of 64-bit words laid out in native byte order:
/// bit `i % 64` of word `i / 64` lies in its byte `(i % 64) / 8`, counted from
/// the low end, which is the word's first byte in memory on a little-endian
/// target and its last on a big-endian one.
pub open spec fn byte_index(i: int) -> int {
    match endianness() {
        Endian::Little => i / 8,
        Endian::Big => (i / 64) * 8 + 7 - (i % 64) / 8,
    }
}

/// Bit `i` of a byte buffer that holds 64-bit words in native byte order,
/// each word least significant bit first: bit `i % 8` of byte `byte_index(i)`.
pub open spec fn byte_bit(bytes: Seq<u8>, i: int) -> bool {
    (bytes[byte_index(i)] >> ((i % 8) as u8)) & 1u8 == 1u8
}

/// `bytes` is the packed form of `bits`: exactly one byte per eight bits, and
/// each bit stored at its place.
pub open spec fn packs(bits: Seq<bool>, bytes: Seq<u8>) -> bool {
    &&& bytes.len() * 8 == bits.len()
    &&& forall|i: int| 0 <= i < bits.len() ==> #[trigger] bits[i] == byte_bit(bytes, i)
}

/// The number of set bits.
pub open spec fn ones(bits: Seq<bool>) -> nat {
    bits.filter(|b: bool| b).len()
}

/// `bits` with the bit of each seed of `seeds` set, in order.
pub open spec fn with_seeds(bits: Seq<bool>, seeds: Seq<Seq<Nucleotide>>) -> Seq<bool>
    decreases seeds.len(),
{
    if seeds.len() == 0 {
        bits
    } else {
        let b = with_seeds(bits, seeds.drop_last());
        let k = key_of(seeds.last()) as int;
        if k < b.len() {
            b.update(k, true)
        } else {
            b
        }
    }
}

impl SeedBits {
    /// Relies on bitvec's `BitBox::from_boxed_slice`: a box of `words` zero
    /// words becomes `64 * words` clear bits.
    #[verifier::external_body]
    fn zeroed(words: usize) -> (r: SeedBits)
        requires
            words * 64 <= usize::MAX / 8,
        ensures
            seed_bits(r) == Seq::new((words * 64) as nat, |i: int| false),
    {
        SeedBits { bits: BitBox::from_boxed_slice(vec![0u64; words].into_boxed_slice()) }
    }

    /// Relies on bitvec's `BitSlice::set`: writes bit `i`, panics past the end.
    #[verifier::external_body]
    fn set(&mut self, i: usize)
        requires
            i < seed_bits(*old(self)).len(),
        ensures
            seed_bits(*final(self)) == seed_bits(*old(self)).update(i as int, true),
    {
        self.bits.set(i, true)
    }

    /// Relies on indexing a bitvec `BitSlice`: reads bit `i`, panics past the end.
    #[verifier::external_body]
    fn get(&self, i: usize) -> (r: bool)
        requires
            i < seed_bits(*self).len(),
        ensures
            r == seed_bits(*self)[i as int],
    {
        self.bits[i]
    }

    /// Relies on bitvec's `BitSlice::count_ones`: the number of set bits.
    #[verifier::external_body]
    fn count_ones(&self) -> (r: usize)
        ensures
            r == ones(seed_bits(*self)),
    {
        self.bits.count_ones()
    }

    /// Relies on bitvec's `BitBox::as_raw_slice` (bit `i` is bit `i % 64` of
    /// word `i / 64`, least significant first) and byte-slice-cast's
    /// `as_byte_slice` (the words' memory, bytes in native order).
    #[verifier::external_body]
    fn as_bytes(&self) -> (r: &[u8])
        requires
            seed_bits(*self).len() % 64 == 0,
        ensures
            packs(seed_bits(*self), r@),
    {
        self.bits.as_raw_slice().as_byte_slice()
    }

    /// Relies on bitvec's `BitBox::as_raw_mut_slice` and byte-slice-cast's
    /// `as_mut_byte_slice`, with the layout `as_bytes` states, and on
    /// `copy_from_slice`, which panics unless the lengths agree.
    #[verifier::external_body]
    fn fill_from(&mut self, b: &[u8])
        requires
            seed_bits(*old(self)).len() % 64 == 0,
            b@.len() * 8 == seed_bits(*old(self)).len(),
        ensures
            seed_bits(*final(self)).len() == seed_bits(*old(self)).len(),
            packs(seed_bits(*final(self)), b@),
    {
        self.bits.as_raw_mut_slice().as_mut_byte_slice().copy_from_slice(b)
    }
}

/// A direct-addressed bit array with one bit per possible seed key.
pub struct Wtab {
    seeds: SeedBits,
}

impl View for Wtab {
    type V = Seq<bool>;

    closed spec fn view(&self) -> Seq<bool> {
        seed_bits(self.seeds)
    }
}

impl Wtab {
    /// The table covers the whole key space, which only a 64-bit target can address.
    pub open spec fn wf(&self) -> bool {
        &&& self@.len() == KEY_SPACE
        &&& usize::BITS == 64
    }

    /// An empty table: every key absent.
    pub fn new() -> (r: Self)
        requires
            usize::BITS == 64,
        ensures
            r.wf(),
            r@ == Seq::new(KEY_SPACE as nat, |i: int| false),
    {
        Wtab { seeds: SeedBits::zeroed(TABLE_WORDS) }
    }

    /// Marks the key of `seed` present.
    pub fn add_seed(&mut self, seed: &[Nucleotide; 18])
        requires
            old(self).wf(),
        ensures
            final(self)@ == old(self)@.update(key_of(seed@) as int, true),
            final(self)@ == with_seeds(old(self)@, seq![seed@]),
    {
        proof {
            lemma_key_bound(seed@);
            lemma_pow4_18();
            assert(seq![seed@].drop_last() =~= Seq::<Seq<Nucleotide>>::empty());
            assert(with_seeds(self@, Seq::<Seq<Nucleotide>>::empty()) == self@);
        }
        let u = wmer_to_u64(seed);
        self.seeds.set(u as usize);
    }

    /// Marks present the key of every seed that the length-`K` windows of
    /// `amb` yield, forward and reverse complement.
    pub fn add_sequence(&mut self, amb: &[NucleotideAmbiguous])
        requires
            old(self).wf(),
        ensures
            final(self)@ == with_seeds(old(self)@, all_seeds(amb@, K as int)),
    {
        let keys = seed_keys(amb);
        let ghost start = self@;
        let ghost all = all_seeds(amb@, K as int);
        let mut idx: usize = 0;
        while idx < keys.len()
            invariant
                keys@.len() == all.len(),
                forall|k: int|
                    0 <= k < keys@.len() ==> #[trigger] keys@[k] == key_of(all[k]) && keys@[k]
                        < KEY_SPACE,
                idx <= keys@.len(),
                start.len() == KEY_SPACE,
                usize::BITS == 64,
                self@ == with_seeds(start, all.take(idx as int)),
            decreases keys@.len() - idx,
        {
            let u = keys[idx];
            proof {
                lemma_with_seeds_len(start, all.take(idx as int));
                assert(all.take(idx + 1).drop_last() =~= all.take(idx as int));
                assert(all.take(idx + 1).last() == all[idx as int]);
                assert(u as usize == u);
            }
            self.seeds.set(u as usize);
            idx = idx + 1;
        }
        assert(all.take(idx as int) =~= all);
    }

    /// The number of keys present.
    pub fn count_ones(&self) -> (r: usize)
        ensures
            r == ones(self@),
    {
        self.seeds.count_ones()
    }

    /// Whether key `idx` is present.
    pub fn query_idx(&self, idx: u64) -> (r: bool)
        requires
            self.wf(),
            idx < KEY_SPACE,
        ensures
            r == self@[idx as int],
    {
        self.seeds.get(idx as usize)
    }

    /// Whether the key of `kmer` is present.
    pub fn query(&self, kmer: &[Nucleotide; 18]) -> (r: bool)
        requires
            self.wf(),
        ensures
            r == self@[key_of(kmer@) as int],
    {
        self.query_idx(wmer_to_u64(kmer))
    }

    /// The table's full serialized form: its bits packed eight to a byte, in
    /// the native layout of its 64-bit words.
    pub fn write(&self) -> (r: &[u8])
        requires
            self.wf(),
        ensures
            r@.len() == TABLE_BYTES,
            packs(self@, r@),
    {
        self.seeds.as_bytes()
    }

    /// A table read back from the first `TABLE_BYTES` bytes of `bytes`, or
    /// `None` when there are fewer.
    pub fn read(bytes: &[u8]) -> (r: Option<Self>)
        requires
            usize::BITS == 64,
        ensures
            r.is_some() == (bytes@.len() >= TABLE_BYTES),
            r matches Some(t) ==> t.wf() && packs(t@, bytes@.take(TABLE_BYTES as int)),
    {
        if (bytes.len() as u64) < TABLE_BYTES {
            return None;
        }
        let mut this = Self::new();
        let head = vstd::slice::slice_subrange(bytes, 0, TABLE_BYTES as usize);
        assert(head@ =~= bytes@.take(TABLE_BYTES as int));
        this.seeds.fill_from(head);
        Some(this)
    }
}

proof fn lemma_with_seeds_len(bits: Seq<bool>, seeds: Seq<Seq<Nucleotide>>)
    ensures
        with_seeds(bits, seeds).len() == bits.len(),
    decreases seeds.len(),
{
    if seeds.len() > 0 {
        lemma_with_seeds_len(bits, seeds.drop_last());
    }
}

/// A table read back from what `write` gave is the table written: `read`
/// unpacks the first `TABLE_BYTES` bytes, which are all that `write` gives,
/// and two bit arrays that pack to the same bytes are equal.
pub proof fn lemma_table_round_trip(written: Seq<bool>, bytes: Seq<u8>, read_back: Seq<bool>)
    requires
        bytes.len() == TABLE_BYTES,
        packs(written, bytes),
        packs(read_back, bytes.take(TABLE_BYTES as int)),
    ensures
        read_back == written,
{
    assert(bytes.take(TABLE_BYTES as int) =~= bytes);
    assert forall|i: int| 0 <= i < written.len() implies written[i] == read_back[i] by {
        assert(written[i] == byte_bit(bytes, i));
        assert(read_back[i] == byte_bit(bytes, i));
    }
    assert(written =~= read_back);
}

/// Adding seeds one after another is adding them as one run:
/// `add_seed` on each of `ys` and then on `y` gives `with_seeds(bits, ys.push(y))`.
pub proof fn lemma_with_seeds_push(
    bits: Seq<bool>,
    ys: Seq<Seq<Nucleotide>>,
    y: Seq<Nucleotide>,
)
    ensures
        with_seeds(with_seeds(bits, ys), seq![y]) == with_seeds(bits, ys.push(y)),
{
    let before = with_seeds(bits, ys);
    assert(seq![y].drop_last() =~= Seq::<Seq<Nucleotide>>::empty());
    assert(with_seeds(before, Seq::<Seq<Nucleotide>>::empty()) == before);
    assert(ys.push(y).drop_last() =~= ys);
    assert(seq![y].last() == y);
    assert(ys.push(y).last() == y);
}

/// Once a seed is added its key stays present: for any table `bits` (whatever
/// seeds were added before), after `add_seed(x)` and then any run `later` of
/// further `add_seed` calls (see `lemma_with_seeds_push`), the key of `x` is
/// present.
pub proof fn lemma_membership_monotonic(
    bits: Seq<bool>,
    x: Seq<Nucleotide>,
    later: Seq<Seq<Nucleotide>>,
)
    requires
        bits.len() == KEY_SPACE,
        x.len() == K,
    ensures
        with_seeds(with_seeds(bits, seq![x]), later)[key_of(x) as int],
{
    lemma_key_bound(x);
    lemma_pow4_18();
    assert(seq![x].drop_last() =~= Seq::<Seq<Nucleotide>>::empty());
    assert(with_seeds(bits, Seq::<Seq<Nucleotide>>::empty()) == bits);
    lemma_set_bit_stays(with_seeds(bits, seq![x]), key_of(x) as int, later);
}

proof fn lemma_set_bit_stays(bits: Seq<bool>, k: int, seeds: Seq<Seq<Nucleotide>>)
    requires
        0 <= k < bits.len(),
        bits[k],
    ensures
        with_seeds(bits, seeds)[k],
        with_seeds(bits, seeds).len() == bits.len(),
    decreases seeds.len(),
{
    if seeds.len() > 0 {
        lemma_set_bit_stays(bits, k, seeds.drop_last());
    }
}

} // verus!
