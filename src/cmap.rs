//! Collision maps: a random mask of fixed popcount selects bits of each codon
//! hash as a bucket index; codons sharing a bucket are compared pairwise.
use crate::bits::{
    bit_set, collapse, collapsed, distance, fits_width, hamming, lemma_ones_below_bound,
    lemma_ones_below_set, lemma_ones_below_zero, lemma_set_bit_other, popcount, test_bit, count_ones,
    lemma_empty_mask_one_bucket,
};
use crate::rng::{next_draw, seeded};
use vstd::arithmetic::power2::{lemma2_to64, lemma_pow2_strictly_increases, pow2};
use vstd::bits::{lemma_usize_pow2_no_overflow, lemma_usize_shl_is_mul};
use vstd::prelude::*;

verus! {

/// Draws after which mask generation gives up.
pub const MAX_MASK_DRAWS: u64 = 1_000_000;

/// Largest number of collision bits a map accepts. Its table holds
/// `2^collision_bits` buckets, allocated up front, so this bounds the
/// memory of a map (a 64-bit mask would ask for `2^64` buckets).
pub const MAX_COLLISION_BITS: u32 = 24;

/// A codon: its packed hash, the genome position it starts at, and the
/// running sum and count of the distances to the codons it was compared with.
#[derive(Clone, Copy, Debug)]
pub struct Entry {
    pub id: u64,
    pub hash: u64,
    pub total: u64,
    pub count: u64,
}

impl Entry {
    /// A fresh codon, not yet compared with any other.
    pub fn new(id: u64, hash: u64) -> (r: Entry)
        ensures
            r == (Entry { id, hash, total: 0, count: 0 }),
    {
        Entry { id, hash, total: 0, count: 0 }
    }
}

/// One rejection step of mask sampling: the draw picks a position below
/// `hash_bits`; a position already in the mask is rejected.
pub fn mask_step(mask: u64, draw: u64, hash_bits: u32) -> (r: u64)
    requires
        0 < hash_bits <= 64,
    ensures
        r == mask | (1u64 << (draw % hash_bits as u64)),
        bit_set(mask, (draw % hash_bits as u64) as nat) ==> r == mask,
        !bit_set(mask, (draw % hash_bits as u64) as nat) ==> popcount(r) == popcount(mask) + 1,
        fits_width(mask, hash_bits as nat) ==> fits_width(r, hash_bits as nat),
{
    let p = draw % (hash_bits as u64);
    let r = mask | (1u64 << p);
    if test_bit(mask, p) {
        assert(mask | (1u64 << p) == mask) by (bit_vector)
            requires
                p < 64,
                (mask >> p) & 1u64 == 1u64,
        ;
    } else {
        proof {
            lemma_ones_below_set(mask, p, 64);
        }
    }
    assert forall|i: nat| hash_bits as nat <= i < 64 && !bit_set(mask, i) implies !#[trigger] bit_set(r, i) by {
        lemma_set_bit_other(mask, p, i as u64);
    }
    r
}

/// The empty mask has no set bit, within any width.
proof fn lemma_empty_mask(w: nat)
    ensures
        popcount(0u64) == 0,
        fits_width(0u64, w),
{
    lemma_ones_below_zero(64);
    assert forall|i: nat| w <= i < 64 implies !#[trigger] bit_set(0u64, i) by {
        let j = i as u64;
        assert((0u64 >> j) & 1u64 == 0u64) by (bit_vector);
    }
}

/// A mask of `num_bits` set bits, all below `hash_bits`, sampled from the
/// generator seeded with `seed`: positions are drawn until `num_bits`
/// distinct ones are held. Gives `None` when `num_bits` exceeds `hash_bits`,
/// or when `MAX_MASK_DRAWS` draws were not enough.
pub fn gen_mask(num_bits: u32, hash_bits: u32, seed: u64) -> (r: Option<u64>)
    requires
        hash_bits <= 64,
    ensures
        num_bits > hash_bits ==> r is None,
        num_bits == 0 ==> r == Some(0u64),
        r matches Some(m) ==> popcount(m) == num_bits && fits_width(m, hash_bits as nat),
{
    if num_bits > hash_bits {
        return None;
    }
    if num_bits == 0 {
        proof {
            lemma_empty_mask(hash_bits as nat);
        }
        return Some(0);
    }
    let mut rng = seeded(seed);
    let mut m: u64 = 0;
    let mut held: u32 = 0;
    let mut draws: u64 = 0;
    proof {
        lemma_empty_mask(hash_bits as nat);
    }
    while held < num_bits
        invariant
            num_bits <= hash_bits <= 64,
            held <= num_bits,
            held == popcount(m),
            fits_width(m, hash_bits as nat),
            draws <= MAX_MASK_DRAWS,
        decreases MAX_MASK_DRAWS - draws,
    {
        if draws == MAX_MASK_DRAWS {
            return None;
        }
        let d = next_draw(&mut rng);
        let next = mask_step(m, d, hash_bits);
        if next != m {
            held = held + 1;
        }
        m = next;
        draws = draws + 1;
    }
    Some(m)
}

/// The buckets of a map, as sequences of (entry index, codon hash).
pub type Bucket = Vec<(usize, u64)>;

/// Total number of items held in the first `n` buckets.
pub open spec fn items_below(cells: Seq<Seq<(usize, u64)>>, n: int) -> nat
    decreases n,
{
    if n <= 0 {
        0
    } else {
        items_below(cells, n - 1) + cells[n - 1].len()
    }
}

/// What one comparison of the items at `p` and `q` of a bucket adds to entry
/// `i`: to its total when `dist` holds, to its count otherwise.
pub open spec fn pair_gain(b: Seq<(usize, u64)>, p: int, q: int, i: usize, dist: bool) -> nat {
    let w = if dist {
        hamming(b[p].1, b[q].1)
    } else {
        1nat
    };
    (if b[p].0 == i {
        w
    } else {
        0nat
    }) + (if b[q].0 == i {
        w
    } else {
        0nat
    })
}

/// Gain of entry `i` from comparing item `p` with the items `p + 1 .. qe`.
pub open spec fn row_gain(b: Seq<(usize, u64)>, p: int, qe: int, i: usize, dist: bool) -> nat
    decreases qe,
{
    if qe <= p + 1 || qe <= 0 {
        0
    } else {
        row_gain(b, p, qe - 1, i, dist) + pair_gain(b, p, qe - 1, i, dist)
    }
}

/// Gain of entry `i` from every pair of a bucket whose first item lies before `pe`.
pub open spec fn rows_gain(b: Seq<(usize, u64)>, pe: int, i: usize, dist: bool) -> nat
    decreases pe,
{
    if pe <= 0 {
        0
    } else {
        rows_gain(b, pe - 1, i, dist) + row_gain(b, pe - 1, b.len() as int, i, dist)
    }
}

/// Gain of entry `i` from every pair within each of the first `ce` buckets.
pub open spec fn map_gain(cells: Seq<Seq<(usize, u64)>>, ce: int, i: usize, dist: bool) -> nat
    decreases ce,
{
    if ce <= 0 {
        0
    } else {
        map_gain(cells, ce - 1, i, dist) + rows_gain(cells[ce - 1], cells[ce - 1].len() as int, i, dist)
    }
}

/// Number of items that lead a round of comparisons in the first `ce`
/// buckets: all but the last item of each non-empty bucket.
pub open spec fn leaders_below(cells: Seq<Seq<(usize, u64)>>, ce: int) -> nat
    decreases ce,
{
    if ce <= 0 {
        0
    } else {
        leaders_below(cells, ce - 1) + if cells[ce - 1].len() > 0 {
            (cells[ce - 1].len() - 1) as nat
        } else {
            0nat
        }
    }
}

pub proof fn lemma_items_below_mono(cells: Seq<Seq<(usize, u64)>>, a: int, b: int)
    requires
        0 <= a <= b,
    ensures
        items_below(cells, a) <= items_below(cells, b),
        leaders_below(cells, a) <= items_below(cells, a),
    decreases b,
{
    if b > a {
        lemma_items_below_mono(cells, a, b - 1);
    } else if a > 0 {
        lemma_items_below_mono(cells, a - 1, a - 1);
    }
}

pub proof fn lemma_items_below_update(cells: Seq<Seq<(usize, u64)>>, c: int, x: (usize, u64), n: int)
    requires
        0 <= c < cells.len(),
        0 <= n <= cells.len(),
    ensures
        items_below(cells.update(c, cells[c].push(x)), n) == items_below(cells, n) + if c < n {
            1nat
        } else {
            0nat
        },
    decreases n,
{
    if n > 0 {
        lemma_items_below_update(cells, c, x, n - 1);
    }
}

pub proof fn lemma_row_gain_mono(b: Seq<(usize, u64)>, p: int, q1: int, q2: int, i: usize, dist: bool)
    requires
        q1 <= q2,
    ensures
        row_gain(b, p, q1, i, dist) <= row_gain(b, p, q2, i, dist),
    decreases q2 - q1,
{
    if q2 > q1 {
        lemma_row_gain_mono(b, p, q1, q2 - 1, i, dist);
    }
}

pub proof fn lemma_rows_gain_mono(b: Seq<(usize, u64)>, p1: int, p2: int, i: usize, dist: bool)
    requires
        0 <= p1 <= p2,
    ensures
        rows_gain(b, p1, i, dist) <= rows_gain(b, p2, i, dist),
    decreases p2,
{
    if p2 > p1 {
        lemma_rows_gain_mono(b, p1, p2 - 1, i, dist);
    }
}

pub proof fn lemma_map_gain_mono(cells: Seq<Seq<(usize, u64)>>, c1: int, c2: int, i: usize, dist: bool)
    requires
        0 <= c1 <= c2,
    ensures
        map_gain(cells, c1, i, dist) <= map_gain(cells, c2, i, dist),
    decreases c2,
{
    if c2 > c1 {
        lemma_map_gain_mono(cells, c1, c2 - 1, i, dist);
    }
}

/// What has been gained while comparing item `p` with item `q - 1` of bucket
/// `c` never exceeds what the whole map gives.
pub proof fn lemma_partial_gain(cells: Seq<Seq<(usize, u64)>>, c: int, p: int, q: int, i: usize, dist: bool)
    requires
        0 <= c < cells.len(),
        0 <= p < q <= cells[c].len(),
    ensures
        map_gain(cells, c, i, dist) + rows_gain(cells[c], p, i, dist) + row_gain(cells[c], p, q, i, dist)
            <= map_gain(cells, cells.len() as int, i, dist),
{
    let b = cells[c];
    lemma_row_gain_mono(b, p, q, b.len() as int, i, dist);
    lemma_rows_gain_mono(b, p + 1, b.len() as int, i, dist);
    lemma_map_gain_mono(cells, c + 1, cells.len() as int, i, dist);
}

/// An approximate bucketing of codons: `cells` has `2^popcount(mask)`
/// buckets, and each item sits in the bucket that `mask` selects out of its
/// hash.
pub struct CollisionMap {
    pub cells: Vec<Bucket>,
    pub mask: u64,
    pub len: usize,
}

impl CollisionMap {
    /// The buckets, as sequences of (entry index, codon hash).
    pub open spec fn buckets(&self) -> Seq<Seq<(usize, u64)>> {
        self.cells@.map_values(|b: Bucket| b@)
    }

    pub open spec fn wf(&self) -> bool {
        &&& self.cells@.len() == pow2(popcount(self.mask))
        &&& forall|c: int, k: int|
            0 <= c < self.buckets().len() && 0 <= k < self.buckets()[c].len()
                ==> collapsed(#[trigger] self.buckets()[c][k].1, self.mask) == c
        &&& self.len == items_below(self.buckets(), self.buckets().len() as int)
    }

    /// An empty map over a mask of `num_bits` bits below `hash_bits`, drawn
    /// from the generator seeded with `seed` (see `gen_mask`). Gives `None`
    /// when no mask is drawn, or when `num_bits` exceeds
    /// `MAX_COLLISION_BITS`: the table holds `2^num_bits` buckets.
    pub fn new(num_bits: u32, hash_bits: u32, seed: u64) -> (r: Option<CollisionMap>)
        requires
            hash_bits <= 64,
        ensures
            num_bits > hash_bits || num_bits > MAX_COLLISION_BITS ==> r is None,
            num_bits == 0 ==> (r matches Some(m) && m.mask == 0 && m.cells@.len() == 1),
            r matches Some(m) ==> {
                &&& m.wf()
                &&& popcount(m.mask) == num_bits
                &&& fits_width(m.mask, hash_bits as nat)
                &&& m.len == 0
                &&& forall|c: int| 0 <= c < m.buckets().len() ==> (#[trigger] m.buckets()[c]).len() == 0
            },
    {
        if num_bits > MAX_COLLISION_BITS {
            return None;
        }
        let mask = match gen_mask(num_bits, hash_bits, seed) {
            Some(m) => m,
            None => return None,
        };
        proof {
            lemma2_to64();
        }
        Some(CollisionMap::with_mask(mask))
    }

    /// An empty map over `mask`: `2^popcount(mask)` empty buckets.
    pub fn with_mask(mask: u64) -> (r: CollisionMap)
        requires
            popcount(mask) <= MAX_COLLISION_BITS,
        ensures
            r.wf(),
            r.mask == mask,
            r.len == 0,
            forall|c: int| 0 <= c < r.buckets().len() ==> (#[trigger] r.buckets()[c]).len() == 0,
    {
        let num_bits = count_ones(mask);
        proof {
            lemma_pow2_strictly_increases(num_bits as nat, 32);
            lemma_usize_pow2_no_overflow(num_bits as nat);
            lemma_usize_shl_is_mul(1usize, num_bits as usize);
        }
        let size: usize = 1usize << (num_bits as usize);
        let mut cells: Vec<Bucket> = Vec::new();
        while cells.len() < size
            invariant
                cells@.len() <= size,
                forall|c: int| 0 <= c < cells@.len() ==> (#[trigger] cells@[c])@.len() == 0,
            decreases size - cells@.len(),
        {
            cells.push(Vec::new());
        }
        let m = CollisionMap { cells, mask, len: 0 };
        proof {
            let bs = m.buckets();
            assert forall|n: int| 0 <= n <= bs.len() implies items_below(bs, n) == 0 by {
                lemma_items_zero(bs, n);
            }
        }
        m
    }

    /// Puts entry `index`, whose codon hash is `hash`, into the bucket that
    /// the mask selects out of `hash`.
    pub fn insert(&mut self, index: usize, hash: u64)
        requires
            old(self).wf(),
            old(self).len < usize::MAX,
        ensures
            final(self).wf(),
            final(self).mask == old(self).mask,
            final(self).len == old(self).len + 1,
            collapsed(hash, old(self).mask) < old(self).buckets().len(),
            final(self).buckets() == old(self).buckets().update(
                collapsed(hash, old(self).mask) as int,
                old(self).buckets()[collapsed(hash, old(self).mask) as int].push((index, hash)),
            ),
    {
        let h = collapse(hash, self.mask);
        let n = self.cells.len();
        assert(h < n as u64);
        let c = h as usize;
        let ghost old_bs = self.buckets();
        self.cells[c].push((index, hash));
        self.len = self.len + 1;
        proof {
            assert(self.buckets() =~= old_bs.update(c as int, old_bs[c as int].push((index, hash))));
            lemma_items_below_update(old_bs, c as int, (index, hash), old_bs.len() as int);
            assert forall|b: int, k: int|
                0 <= b < self.buckets().len() && 0 <= k < self.buckets()[b].len()
                    implies collapsed(#[trigger] self.buckets()[b][k].1, self.mask) == b by {
                if b == c as int && k == old_bs[b].len() {
                } else {
                    assert(self.buckets()[b][k] == old_bs[b][k]);
                }
            }
        }
    }

    /// Compares every pair of items within each bucket: both entries of a
    /// pair get the pair's Hamming distance added to their total and one
    /// added to their count. Returns the number of items that led a round of
    /// comparisons: all but the last item of each non-empty bucket.
    pub fn score(&self, entries: &mut Vec<Entry>) -> (r: usize)
        requires
            self.wf(),
            forall|c: int, k: int|
                0 <= c < self.buckets().len() && 0 <= k < self.buckets()[c].len()
                    ==> (#[trigger] self.buckets()[c][k]).0 < old(entries)@.len(),
            forall|i: int|
                0 <= i < old(entries)@.len() ==> room_for(#[trigger] old(entries)@[i], self.buckets(), i as usize),
        ensures
            final(entries)@.len() == old(entries)@.len(),
            forall|i: int|
                0 <= i < old(entries)@.len() ==> scored(
                    old(entries)@[i],
                    #[trigger] final(entries)@[i],
                    self.buckets(),
                    i as usize,
                ),
            r == leaders_below(self.buckets(), self.buckets().len() as int),
    {
        let ghost bs = self.buckets();
        let ne_exec = entries.len();
        let ghost ne = ne_exec as nat;
        let ghost start = entries@;
        let mut r: usize = 0;
        let mut c: usize = 0;
        while c < self.cells.len()
            invariant
                self.wf(),
                bs == self.buckets(),
                0 <= c <= bs.len(),
                entries@.len() == ne,
                ne <= usize::MAX,
                ne == old(entries)@.len(),
                start == old(entries)@,
                forall|c: int, k: int|
                    0 <= c < bs.len() && 0 <= k < bs[c].len() ==> (#[trigger] bs[c][k]).0 < ne,
                forall|i: int| 0 <= i < ne ==> room_for(#[trigger] start[i], bs, i as usize),
                forall|i: int|
                    0 <= i < ne ==> credited(
                        start[i],
                        #[trigger] entries@[i],
                        map_gain(bs, c as int, i as usize, false),
                        map_gain(bs, c as int, i as usize, true),
                    ),
                r == leaders_below(bs, c as int),
            decreases bs.len() - c,
        {
            let bucket = &self.cells[c];
            let n = bucket.len();
            let ghost b = bs[c as int];
            assert(bucket@ == b);
            let mut p: usize = 0;
            while p + 1 < n
                invariant
                    self.wf(),
                    bs == self.buckets(),
                    0 <= c < bs.len(),
                    b == bs[c as int],
                    bucket@ == b,
                    n == b.len(),
                    p < n || n == 0,
                    p == 0 || p < n,
                    entries@.len() == ne,
                    ne <= usize::MAX,
                    start == old(entries)@,
                    forall|c: int, k: int|
                        0 <= c < bs.len() && 0 <= k < bs[c].len() ==> (#[trigger] bs[c][k]).0 < ne,
                    forall|i: int| 0 <= i < ne ==> room_for(#[trigger] start[i], bs, i as usize),
                    forall|i: int|
                        0 <= i < ne ==> credited(
                            start[i],
                            #[trigger] entries@[i],
                            map_gain(bs, c as int, i as usize, false) + rows_gain(b, p as int, i as usize, false),
                            map_gain(bs, c as int, i as usize, true) + rows_gain(b, p as int, i as usize, true),
                        ),
                    r == leaders_below(bs, c as int) + p,
                decreases n - p,
            {
                let (di, dh) = bucket[p];
                let mut q: usize = p + 1;
                while q < n
                    invariant
                        self.wf(),
                        bs == self.buckets(),
                        0 <= c < bs.len(),
                        b == bs[c as int],
                        bucket@ == b,
                        n == b.len(),
                        p < q <= n,
                        (di, dh) == b[p as int],
                        entries@.len() == ne,
                        ne <= usize::MAX,
                        start == old(entries)@,
                        forall|c: int, k: int|
                            0 <= c < bs.len() && 0 <= k < bs[c].len() ==> (#[trigger] bs[c][k]).0 < ne,
                        forall|i: int| 0 <= i < ne ==> room_for(#[trigger] start[i], bs, i as usize),
                        forall|i: int|
                            0 <= i < ne ==> credited(
                                start[i],
                                #[trigger] entries@[i],
                                map_gain(bs, c as int, i as usize, false) + rows_gain(b, p as int, i as usize, false)
                                    + row_gain(b, p as int, q as int, i as usize, false),
                                map_gain(bs, c as int, i as usize, true) + rows_gain(b, p as int, i as usize, true)
                                    + row_gain(b, p as int, q as int, i as usize, true),
                            ),
                    decreases n - q,
                {
                    let (ei, eh) = bucket[q];
                    let dst = distance(dh, eh) as u64;
                    assert(bs[c as int][p as int].0 < ne);
                    assert(bs[c as int][q as int].0 < ne);
                    proof {
                        lemma_partial_gain(bs, c as int, p as int, q as int + 1, di, false);
                        lemma_partial_gain(bs, c as int, p as int, q as int + 1, di, true);
                        lemma_partial_gain(bs, c as int, p as int, q as int + 1, ei, false);
                        lemma_partial_gain(bs, c as int, p as int, q as int + 1, ei, true);
                        assert(room_for(start[di as int], bs, di));
                        assert(room_for(start[ei as int], bs, ei));
                    }
                    let ghost before = entries@;
                    credit(entries, di, dst);
                    let ghost mid = entries@;
                    credit(entries, ei, dst);
                    proof {
                        assert forall|i: int| 0 <= i < ne implies credited(
                            start[i],
                            #[trigger] entries@[i],
                            map_gain(bs, c as int, i as usize, false) + rows_gain(b, p as int, i as usize, false)
                                + row_gain(b, p as int, q as int + 1, i as usize, false),
                            map_gain(bs, c as int, i as usize, true) + rows_gain(b, p as int, i as usize, true)
                                + row_gain(b, p as int, q as int + 1, i as usize, true),
                        ) by {
                            assert(credited(
                                start[i],
                                before[i],
                                map_gain(bs, c as int, i as usize, false) + rows_gain(b, p as int, i as usize, false)
                                    + row_gain(b, p as int, q as int, i as usize, false),
                                map_gain(bs, c as int, i as usize, true) + rows_gain(b, p as int, i as usize, true)
                                    + row_gain(b, p as int, q as int, i as usize, true),
                            ));
                            let w = hamming(b[p as int].1, b[q as int].1);
                            assert(dst == w);
                            let gd: int = if di as int == i { w as int } else { 0 };
                            let ge: int = if ei as int == i { w as int } else { 0 };
                            let cd: int = if di as int == i { 1 } else { 0 };
                            let ce: int = if ei as int == i { 1 } else { 0 };
                            assert(mid[i].total == before[i].total + gd);
                            assert(mid[i].count == before[i].count + cd);
                            assert(entries@[i].total == mid[i].total + ge);
                            assert(entries@[i].count == mid[i].count + ce);
                            assert(entries@[i].id == before[i].id && entries@[i].hash == before[i].hash);
                            assert(pair_gain(b, p as int, q as int, i as usize, true) == gd + ge);
                            assert(pair_gain(b, p as int, q as int, i as usize, false) == cd + ce);
                            assert(row_gain(b, p as int, q as int + 1, i as usize, false)
                                == row_gain(b, p as int, q as int, i as usize, false)
                                + pair_gain(b, p as int, q as int, i as usize, false));
                            assert(row_gain(b, p as int, q as int + 1, i as usize, true)
                                == row_gain(b, p as int, q as int, i as usize, true)
                                + pair_gain(b, p as int, q as int, i as usize, true));
                        }
                    }
                    q = q + 1;
                }
                proof {
                    lemma_items_below_mono(bs, c as int + 1, bs.len() as int);
                    assert(leaders_below(bs, c as int + 1) == leaders_below(bs, c as int) + n - 1);
                }
                p = p + 1;
                r = r + 1;
            }
            proof {
                if n > 0 {
                    assert(row_gain(b, n - 1, n as int, 0, false) == 0);
                }
                assert forall|i: int| 0 <= i < ne implies credited(
                    start[i],
                    #[trigger] entries@[i],
                    map_gain(bs, c as int + 1, i as usize, false),
                    map_gain(bs, c as int + 1, i as usize, true),
                ) by {
                    if n > 0 {
                        assert(row_gain(b, n - 1, n as int, i as usize, false) == 0);
                        assert(row_gain(b, n - 1, n as int, i as usize, true) == 0);
                    }
                }
            }
            c = c + 1;
        }
        r
    }
}

/// Room in `e`'s counters for everything that the buckets `cells` add to entry `i`.
pub open spec fn room_for(e: Entry, cells: Seq<Seq<(usize, u64)>>, i: usize) -> bool {
    &&& e.count + map_gain(cells, cells.len() as int, i, false) <= u64::MAX
    &&& e.total + map_gain(cells, cells.len() as int, i, true) <= u64::MAX
}

/// `n` is `o` with `count_gain` added to its count and `total_gain` to its total.
pub open spec fn credited(o: Entry, n: Entry, count_gain: nat, total_gain: nat) -> bool {
    &&& n.id == o.id
    &&& n.hash == o.hash
    &&& n.count == o.count + count_gain
    &&& n.total == o.total + total_gain
}

/// `n` is entry `i`, `o`, after every pair within the buckets `cells` was compared.
pub open spec fn scored(o: Entry, n: Entry, cells: Seq<Seq<(usize, u64)>>, i: usize) -> bool {
    credited(
        o,
        n,
        map_gain(cells, cells.len() as int, i, false),
        map_gain(cells, cells.len() as int, i, true),
    )
}

/// Adds one comparison at distance `w` to entry `i`.
fn credit(entries: &mut Vec<Entry>, i: usize, w: u64)
    requires
        i < old(entries)@.len(),
        old(entries)@[i as int].total + w <= u64::MAX,
        old(entries)@[i as int].count + 1 <= u64::MAX,
    ensures
        final(entries)@ == old(entries)@.update(
            i as int,
            Entry {
                total: (old(entries)@[i as int].total + w) as u64,
                count: (old(entries)@[i as int].count + 1) as u64,
                ..old(entries)@[i as int]
            },
        ),
{
    let mut e = entries[i];
    e.total = e.total + w;
    e.count = e.count + 1;
    entries.set(i, e);
}

/// Largest map size that `has_room` vouches for.
pub const MAX_ROOM_ITEMS: usize = 0x1000_0000;

proof fn lemma_pair_bound(b: Seq<(usize, u64)>, p: int, q: int, i: usize, dist: bool)
    ensures
        pair_gain(b, p, q, i, dist) <= 128,
{
    lemma_ones_below_bound(b[p].1 ^ b[q].1, 64);
}

proof fn lemma_row_bound(b: Seq<(usize, u64)>, p: int, qe: int, i: usize, dist: bool)
    requires
        0 <= qe,
    ensures
        row_gain(b, p, qe, i, dist) <= 128 * qe,
    decreases qe,
{
    if qe > p + 1 && qe > 0 {
        lemma_row_bound(b, p, qe - 1, i, dist);
        lemma_pair_bound(b, p, qe - 1, i, dist);
    }
}

proof fn lemma_rows_bound(b: Seq<(usize, u64)>, pe: int, i: usize, dist: bool)
    requires
        0 <= pe,
    ensures
        rows_gain(b, pe, i, dist) <= 128 * pe * b.len(),
    decreases pe,
{
    if pe > 0 {
        lemma_rows_bound(b, pe - 1, i, dist);
        lemma_row_bound(b, pe - 1, b.len() as int, i, dist);
        assert(128 * (pe - 1) * b.len() + 128 * b.len() == 128 * pe * b.len()) by (nonlinear_arith);
    }
}

/// Whatever the map adds to one entry is bounded by 128 times the square of
/// the number of items it holds.
pub proof fn lemma_map_gain_bound(cells: Seq<Seq<(usize, u64)>>, ce: int, i: usize, dist: bool)
    requires
        0 <= ce <= cells.len(),
    ensures
        map_gain(cells, ce, i, dist) <= 128 * items_below(cells, ce) * items_below(cells, ce),
    decreases ce,
{
    if ce > 0 {
        let b = cells[ce - 1];
        let s = items_below(cells, ce - 1) as int;
        let n = b.len() as int;
        lemma_map_gain_bound(cells, ce - 1, i, dist);
        lemma_rows_bound(b, n, i, dist);
        assert(128 * s * s + 128 * n * n <= 128 * (s + n) * (s + n)) by (nonlinear_arith)
            requires
                s >= 0,
                n >= 0,
        ;
    }
}

impl CollisionMap {
    /// Whether `score` may run on `entries`: every item of the map names an
    /// entry, the map holds at most `MAX_ROOM_ITEMS` items, and every
    /// entry's counters have room for `128 * len * len` more.
    pub fn has_room(&self, entries: &Vec<Entry>) -> (r: bool)
        requires
            self.wf(),
        ensures
            r == ((forall|c: int, k: int|
                0 <= c < self.buckets().len() && 0 <= k < self.buckets()[c].len()
                    ==> (#[trigger] self.buckets()[c][k]).0 < entries@.len()) && counters_fit(entries@, self.len as nat)),
            r ==> forall|i: int|
                0 <= i < entries@.len() ==> room_for(#[trigger] entries@[i], self.buckets(), i as usize),
    {
        if self.len > MAX_ROOM_ITEMS {
            return false;
        }
        let n = self.len as u64;
        assert(128 * n * n <= 0x8000_0000_0000_0000) by (nonlinear_arith)
            requires
                n <= 0x1000_0000,
        ;
        let bound: u64 = 128 * n * n;
        let mut i: usize = 0;
        while i < entries.len()
            invariant
                i <= entries@.len(),
                bound == 128 * self.len * self.len,
                bound <= 0x8000_0000_0000_0000,
                forall|j: int|
                    0 <= j < i ==> #[trigger] entries@[j].count + bound <= u64::MAX
                        && entries@[j].total + bound <= u64::MAX,
            decreases entries@.len() - i,
        {
            if entries[i].count > u64::MAX - bound || entries[i].total > u64::MAX - bound {
                return false;
            }
            i = i + 1;
        }
        let mut c: usize = 0;
        while c < self.cells.len()
            invariant
                c <= self.buckets().len(),
                forall|b: int, k: int|
                    0 <= b < c && 0 <= k < self.buckets()[b].len()
                        ==> (#[trigger] self.buckets()[b][k]).0 < entries@.len(),
            decreases self.buckets().len() - c,
        {
            let bucket = &self.cells[c];
            assert(bucket@ == self.buckets()[c as int]);
            let mut k: usize = 0;
            while k < bucket.len()
                invariant
                    c < self.buckets().len(),
                    bucket@ == self.buckets()[c as int],
                    k <= bucket@.len(),
                    forall|b: int, k2: int|
                        0 <= b < c && 0 <= k2 < self.buckets()[b].len()
                            ==> (#[trigger] self.buckets()[b][k2]).0 < entries@.len(),
                    forall|k2: int| 0 <= k2 < k ==> (#[trigger] self.buckets()[c as int][k2]).0 < entries@.len(),
                decreases bucket@.len() - k,
            {
                if bucket[k].0 >= entries.len() {
                    return false;
                }
                k = k + 1;
            }
            c = c + 1;
        }
        proof {
            let bs = self.buckets();
            assert forall|i: int| 0 <= i < entries@.len() implies room_for(#[trigger] entries@[i], bs, i as usize) by {
                lemma_map_gain_bound(bs, bs.len() as int, i as usize, false);
                lemma_map_gain_bound(bs, bs.len() as int, i as usize, true);
            }
        }
        true
    }
}

/// The buckets `bs` once the first `n` entries of `es` were inserted in
/// index order under `mask`.
pub open spec fn filled(bs: Seq<Seq<(usize, u64)>>, es: Seq<Entry>, mask: u64, n: int) -> Seq<Seq<(usize, u64)>>
    decreases n,
{
    if n <= 0 {
        bs
    } else {
        let f = filled(bs, es, mask, n - 1);
        let c = collapsed(es[n - 1].hash, mask) as int;
        f.update(c, f[c].push(((n - 1) as usize, es[n - 1].hash)))
    }
}

/// The empty table of a map over `mask`.
pub open spec fn empty_table(mask: u64) -> Seq<Seq<(usize, u64)>> {
    Seq::new(pow2(popcount(mask)), |c: int| Seq::<(usize, u64)>::empty())
}

/// The entries `es` after a scoring pass over the buckets `cells`: each
/// count and total grows by what the pairs of the buckets add to it.
pub open spec fn scored_entries(es: Seq<Entry>, cells: Seq<Seq<(usize, u64)>>) -> Seq<Entry> {
    Seq::new(
        es.len(),
        |i: int|
            Entry {
                count: (es[i].count + map_gain(cells, cells.len() as int, i as usize, false)) as u64,
                total: (es[i].total + map_gain(cells, cells.len() as int, i as usize, true)) as u64,
                ..es[i]
            },
    )
}

/// The entries `es` after one pass of a map over `mask` that holds every
/// entry once.
pub open spec fn pass_result(es: Seq<Entry>, mask: u64) -> Seq<Entry> {
    scored_entries(es, filled(empty_table(mask), es, mask, es.len() as int))
}

/// The entries `es` after a pass of a map over each mask of `masks`, in order.
pub open spec fn after_passes(es: Seq<Entry>, masks: Seq<u64>) -> Seq<Entry>
    decreases masks.len(),
{
    if masks.len() == 0 {
        es
    } else {
        pass_result(after_passes(es, masks.drop_last()), masks.last())
    }
}

/// Every counter of `es` has room for `128 * n * n` more, and `n` is at most
/// `MAX_ROOM_ITEMS`: what a pass over a map of `n` items needs.
pub open spec fn counters_fit(es: Seq<Entry>, n: nat) -> bool {
    &&& n <= MAX_ROOM_ITEMS
    &&& forall|i: int|
        0 <= i < es.len() ==> #[trigger] es[i].count + 128 * n * n <= u64::MAX && es[i].total + 128 * n * n
            <= u64::MAX
}

/// An item at position `k` of a bucket either stood there already in
/// `prior`, or names an entry of `es` and carries that entry's hash.
pub open spec fn placed(item: (usize, u64), prior: Seq<(usize, u64)>, k: int, es: Seq<Entry>) -> bool {
    (k < prior.len() && item == prior[k]) || (item.0 < es.len() && item.1 == es[item.0 as int].hash)
}

impl CollisionMap {
    /// Inserts every entry once, in index order: entry `i` goes to the back
    /// of the bucket that the mask selects out of its hash.
    pub fn insert_all(&mut self, entries: &Vec<Entry>)
        requires
            old(self).wf(),
            old(self).len + entries@.len() <= usize::MAX,
        ensures
            final(self).wf(),
            final(self).mask == old(self).mask,
            final(self).len == old(self).len + entries@.len(),
            final(self).buckets() == filled(old(self).buckets(), entries@, old(self).mask, entries@.len() as int),
            forall|c: int, k: int|
                0 <= c < final(self).buckets().len() && 0 <= k < final(self).buckets()[c].len() ==> placed(#[trigger] final(self).buckets()[c][k], old(self).buckets()[c], k, entries@),
    {
        let mut i: usize = 0;
        while i < entries.len()
            invariant
                self.wf(),
                self.mask == old(self).mask,
                i <= entries@.len(),
                self.len == old(self).len + i,
                old(self).len + entries@.len() <= usize::MAX,
                self.buckets().len() == old(self).buckets().len(),
                self.buckets() == filled(old(self).buckets(), entries@, old(self).mask, i as int),
                forall|c: int, k: int|
                    0 <= c < self.buckets().len() && 0 <= k < self.buckets()[c].len() ==> placed(#[trigger] self.buckets()[c][k], old(self).buckets()[c], k, entries@),
            decreases entries@.len() - i,
        {
            let ghost before = self.buckets();
            let h = entries[i].hash;
            self.insert(i, h);
            proof {
                let b = collapsed(h, self.mask) as int;
                assert(self.buckets() == before.update(b, before[b].push((i, h))));
                assert(before.len() == self.buckets().len());
                assert(self.buckets() == filled(old(self).buckets(), entries@, old(self).mask, i + 1));
                assert forall|c: int, k: int|
                    0 <= c < self.buckets().len() && 0 <= k < self.buckets()[c].len() implies placed(
                        #[trigger] self.buckets()[c][k],
                        old(self).buckets()[c],
                        k,
                        entries@,
                    ) by {
                    if c != b || k < before[c].len() {
                        if c != b {
                            assert(self.buckets()[c] == before[c]);
                        } else {
                            assert(self.buckets()[c] == before[c].push((i, h)));
                        }
                        assert(self.buckets()[c][k] == before[c][k]);
                        assert(placed(before[c][k], old(self).buckets()[c], k, entries@));
                    } else {
                        assert(self.buckets()[c][k] == (i, h));
                    }
                }
            }
            i = i + 1;
        }
    }
}

/// Why a scoring pass could not run.
#[derive(Clone, Copy, Debug, PartialEq, Eq, Structural)]
pub enum MapError {
    /// More collision bits than the codon hash has, or than `MAX_COLLISION_BITS`.
    Geometry,
    /// No mask was found within `MAX_MASK_DRAWS` draws.
    MaskNotFound,
    /// Too many codons, or counters too close to their limit, for a pass.
    NoRoom,
}

/// One scoring pass of an empty map: every entry is inserted once, in
/// index order; then, when the counters have room (`counters_fit`), the
/// entries that share a bucket are compared (`CollisionMap::score`).
/// Otherwise `NoRoom`, with the entries left as they were.
pub fn run_map(map: CollisionMap, entries: &mut Vec<Entry>) -> (r: Result<(), MapError>)
    requires
        map.wf(),
        map.len == 0,
        forall|c: int| 0 <= c < map.buckets().len() ==> (#[trigger] map.buckets()[c]).len() == 0,
    ensures
        r is Ok <==> counters_fit(old(entries)@, old(entries)@.len()),
        r is Err ==> r == Err::<(), MapError>(MapError::NoRoom) && final(entries)@ == old(entries)@,
        r is Ok ==> final(entries)@ == pass_result(old(entries)@, map.mask),
{
    let mut map = map;
    let n = entries.len();
    let ghost es = entries@;
    assert forall|c: int| 0 <= c < map.buckets().len() implies #[trigger] map.buckets()[c] == empty_table(
        map.mask,
    )[c] by {
        assert(map.buckets()[c] =~= Seq::<(usize, u64)>::empty());
    }
    assert(map.buckets() =~= empty_table(map.mask));
    map.insert_all(entries);
    let ghost bs = map.buckets();
    assert(bs == filled(empty_table(map.mask), es, map.mask, n as int));
    assert forall|c: int, k: int| 0 <= c < bs.len() && 0 <= k < bs[c].len() implies (#[trigger] bs[c][k]).0 < n by {
        assert(placed(bs[c][k], empty_table(map.mask)[c], k, es));
    }
    if !map.has_room(entries) {
        return Err(MapError::NoRoom);
    }
    map.score(entries);
    assert forall|i: int| 0 <= i < n implies #[trigger] entries@[i] == pass_result(es, map.mask)[i] by {
        assert(scored(es[i], entries@[i], bs, i as usize));
    }
    assert(entries@ =~= pass_result(es, map.mask));
    Ok(())
}

/// Scores the codons against `num_maps` collision maps, seeded `seed`,
/// `seed + 1`, ... (wrapping). Each map has a mask of `num_bits` bits below
/// `hash_bits` (see `gen_mask`), holds every codon once, and adds its
/// comparisons to the codons' counters (see `run_map`). Fails before any
/// map runs on a bad geometry; a map whose mask cannot be drawn, or whose
/// comparisons might overflow a counter, stops the pass there.
pub fn score_codons(entries: &mut Vec<Entry>, num_maps: u64, num_bits: u32, hash_bits: u32, seed: u64) -> (r: Result<(), MapError>)
    requires
        hash_bits <= 64,
    ensures
        final(entries)@.len() == old(entries)@.len(),
        forall|i: int|
            0 <= i < old(entries)@.len() ==> (#[trigger] final(entries)@[i]).id == old(entries)@[i].id
                && final(entries)@[i].hash == old(entries)@[i].hash,
        num_maps > 0 && (num_bits > hash_bits || num_bits > MAX_COLLISION_BITS) ==> r == Err::<(), MapError>(MapError::Geometry),
        num_maps == 0 ==> r is Ok && final(entries)@ == old(entries)@,
        r == Err::<(), MapError>(MapError::Geometry) ==> final(entries)@ == old(entries)@,
        r is Ok ==> exists|masks: Seq<u64>|
            #[trigger] valid_masks(masks, num_maps as nat, num_bits as nat, hash_bits as nat)
                && final(entries)@ == after_passes(old(entries)@, masks),
        num_bits == 0 && maps_fit(old(entries)@, num_maps as nat) ==> r is Ok && forall|i: int|
            0 <= i < old(entries)@.len() ==> (#[trigger] final(entries)@[i]).count == old(entries)@[i].count
                + num_maps * (old(entries)@.len() - 1),
{
    if num_maps == 0 {
        assert(valid_masks(Seq::<u64>::empty(), 0, num_bits as nat, hash_bits as nat));
        assert(after_passes(old(entries)@, Seq::<u64>::empty()) == old(entries)@);
        return Ok(());
    }
    if num_bits > hash_bits || num_bits > MAX_COLLISION_BITS {
        return Err(MapError::Geometry);
    }
    let n = entries.len();
    let ghost masks: Seq<u64> = Seq::empty();
    let ghost zero = num_bits == 0 && maps_fit(old(entries)@, num_maps as nat);
    let ghost big: int = 128 * n * n;
    let mut m: u64 = 0;
    assert(0 * (n - 1) == 0 && 0 * big == 0) by (nonlinear_arith);
    while m < num_maps
        invariant
            n == entries@.len(),
            zero == (num_bits == 0 && maps_fit(old(entries)@, num_maps as nat)),
            big == 128 * n * n,
            zero ==> forall|i: int|
                0 <= i < n ==> (#[trigger] entries@[i]).count == old(entries)@[i].count + m * (n - 1)
                    && entries@[i].total <= old(entries)@[i].total + m * big,
            hash_bits <= 64,
            num_bits <= hash_bits,
            num_bits <= MAX_COLLISION_BITS,
            m <= num_maps,
            entries@.len() == old(entries)@.len(),
            valid_masks(masks, m as nat, num_bits as nat, hash_bits as nat),
            entries@ == after_passes(old(entries)@, masks),
            forall|i: int|
                0 <= i < old(entries)@.len() ==> (#[trigger] entries@[i]).id == old(entries)@[i].id
                    && entries@[i].hash == old(entries)@[i].hash,
        decreases num_maps - m,
    {
        let map = match CollisionMap::new(num_bits, hash_bits, seed.wrapping_add(m)) {
            Some(map) => map,
            None => return Err(MapError::MaskNotFound),
        };
        let ghost mask = map.mask;
        let ghost before = entries@;
        proof {
            if zero {
                assert(n - 1 <= big) by (nonlinear_arith)
                    requires
                        big == 128 * n * n,
                ;
                assert(m * (n - 1) + big <= (m + 1) * big && (m + 1) * big <= num_maps * big) by (nonlinear_arith)
                    requires
                        n - 1 <= big,
                        m < num_maps,
                        0 <= big,
                ;
                assert forall|i: int| 0 <= i < n implies #[trigger] before[i].count + 128 * n * n <= u64::MAX
                    && before[i].total + 128 * n * n <= u64::MAX by {
                    assert(old(entries)@[i].count + num_maps * big <= u64::MAX);
                    assert(old(entries)@[i].total + num_maps * big <= u64::MAX);
                    assert(before[i] == entries@[i]);
                    assert(before[i].count == old(entries)@[i].count + m * (n - 1));
                    assert(before[i].total <= old(entries)@[i].total + m * big);
                    assert(m * big + big == (m + 1) * big) by (nonlinear_arith);
                }
                assert(counters_fit(before, n as nat));
            }
        }
        match run_map(map, entries) {
            Ok(()) => {},
            Err(e) => return Err(e),
        }
        proof {
            let next = masks.push(mask);
            assert(next.drop_last() =~= masks);
            assert(entries@ == after_passes(old(entries)@, next));
            assert(valid_masks(next, (m + 1) as nat, num_bits as nat, hash_bits as nat)) by {
                assert forall|k: int| 0 <= k < next.len() implies popcount(#[trigger] next[k]) == num_bits
                    && fits_width(next[k], hash_bits as nat) by {
                    if k < masks.len() {
                        assert(next[k] == masks[k]);
                    }
                }
            }
            assert forall|i: int| 0 <= i < old(entries)@.len() implies (#[trigger] entries@[i]).id == old(entries)@[i].id
                && entries@[i].hash == old(entries)@[i].hash by {
                assert(entries@[i] == pass_result(before, mask)[i]);
                assert(before[i].id == old(entries)@[i].id);
            }
            if zero {
                assert(mask == 0);
                assert forall|i: int| 0 <= i < n implies (#[trigger] entries@[i]).count == old(entries)@[i].count + (m
                    + 1) * (n - 1) && entries@[i].total <= old(entries)@[i].total + (m + 1) * big by {
                    lemma_empty_mask_pass(before, i);
                    assert(entries@[i] == pass_result(before, mask)[i]);
                    assert(before[i].count == old(entries)@[i].count + m * (n - 1));
                    assert(before[i].total <= old(entries)@[i].total + m * big);
                    assert((m + 1) * (n - 1) == m * (n - 1) + (n - 1) && (m + 1) * big == m * big + big)
                        by (nonlinear_arith);
                }
            }
            masks = next;
        }
        m = m + 1;
    }
    Ok(())
}

/// Every counter of `es` has room for what `maps` passes over all of `es`
/// may add: `128 * n * n` each, for `n` entries (see `counters_fit`).
pub open spec fn maps_fit(es: Seq<Entry>, maps: nat) -> bool {
    &&& es.len() <= MAX_ROOM_ITEMS
    &&& forall|i: int|
        0 <= i < es.len() ==> #[trigger] es[i].count + maps * (128 * es.len() * es.len()) <= u64::MAX
            && es[i].total + maps * (128 * es.len() * es.len()) <= u64::MAX
}

/// `masks` holds `count` masks, each of `num_bits` bits below `hash_bits`.
pub open spec fn valid_masks(masks: Seq<u64>, count: nat, num_bits: nat, hash_bits: nat) -> bool {
    &&& masks.len() == count
    &&& forall|k: int|
        0 <= k < masks.len() ==> popcount(#[trigger] masks[k]) == num_bits && fits_width(masks[k], hash_bits)
}

/// The items of the first `k` entries of `es`, in index order.
pub open spec fn index_items(es: Seq<Entry>, k: int) -> Seq<(usize, u64)> {
    Seq::new(k as nat, |j: int| (j as usize, es[j].hash))
}

/// With the empty mask, a map holding the first `k` entries has one bucket
/// that holds them all, in index order.
pub proof fn lemma_filled_empty_mask(es: Seq<Entry>, k: int)
    requires
        0 <= k <= es.len() <= usize::MAX,
    ensures
        filled(empty_table(0), es, 0, k) == seq![index_items(es, k)],
    decreases k,
{
    lemma2_to64();
    lemma_empty_mask(64);
    if k == 0 {
        assert(index_items(es, 0) =~= Seq::<(usize, u64)>::empty());
        assert(empty_table(0).len() == 1);
        assert(empty_table(0)[0] == index_items(es, 0));
        assert(empty_table(0) =~= seq![index_items(es, 0)]);
    } else {
        lemma_filled_empty_mask(es, k - 1);
        lemma_empty_mask_one_bucket(es[k - 1].hash, 64);
        assert(index_items(es, k - 1).push(((k - 1) as usize, es[k - 1].hash)) =~= index_items(es, k));
        assert(seq![index_items(es, k - 1)].update(0, index_items(es, k)) =~= seq![index_items(es, k)]);
    }
}

proof fn lemma_row_count(b: Seq<(usize, u64)>, p: int, qe: int, i: usize)
    requires
        forall|j: int| 0 <= j < b.len() ==> (#[trigger] b[j]).0 == j,
        0 <= p,
        p < qe <= b.len(),
        i < b.len(),
    ensures
        row_gain(b, p, qe, i, false) == if p == i {
            qe - p - 1
        } else if p < i && (i as int) < qe {
            1
        } else {
            0
        },
    decreases qe,
{
    if qe > p + 1 {
        lemma_row_count(b, p, qe - 1, i);
    }
}

proof fn lemma_rows_count(b: Seq<(usize, u64)>, pe: int, i: usize)
    requires
        forall|j: int| 0 <= j < b.len() ==> (#[trigger] b[j]).0 == j,
        0 <= pe <= b.len(),
        i < b.len(),
    ensures
        rows_gain(b, pe, i, false) == (if pe < i {
            pe
        } else {
            i as int
        }) + if pe > i {
            b.len() - i - 1
        } else {
            0
        },
    decreases pe,
{
    if pe > 0 {
        lemma_rows_count(b, pe - 1, i);
        lemma_row_count(b, pe - 1, b.len() as int, i);
    }
}

/// A map over the empty mask that holds every entry once compares each
/// entry with every other one: its count grows by `n - 1`, and by at most
/// `128 * n * n` in all.
pub proof fn lemma_empty_mask_pass(es: Seq<Entry>, i: int)
    requires
        0 <= i < es.len() <= usize::MAX,
    ensures
        filled(empty_table(0), es, 0, es.len() as int).len() == 1,
        map_gain(filled(empty_table(0), es, 0, es.len() as int), 1, i as usize, false) == es.len() - 1,
        map_gain(filled(empty_table(0), es, 0, es.len() as int), 1, i as usize, true) <= 128 * es.len()
            * es.len(),
{
    let n = es.len() as int;
    lemma_filled_empty_mask(es, n);
    let cells = filled(empty_table(0), es, 0, n);
    let b = index_items(es, n);
    assert(cells[0] == b);
    assert(cells.len() == 1);
    assert(b.len() == n);
    assert(items_below(cells, 0) == 0);
    assert(map_gain(cells, 0, i as usize, false) == 0);
    assert(map_gain(cells, 0, i as usize, true) == 0);
    assert forall|j: int| 0 <= j < b.len() implies (#[trigger] b[j]).0 == j by {
    }
    lemma_rows_count(b, n, i as usize);
    lemma_map_gain_bound(cells, 1, i as usize, true);
    assert(items_below(cells, 1) == n);
}

/// Two items with equal hashes add nothing to each other's totals.
pub proof fn lemma_equal_hashes_add_nothing(b: Seq<(usize, u64)>, p: int, q: int, i: usize)
    requires
        b[p].1 == b[q].1,
    ensures
        pair_gain(b, p, q, i, true) == 0,
{
    crate::bits::lemma_distance_symmetric(b[p].1, b[q].1);
}

pub proof fn lemma_items_zero(cells: Seq<Seq<(usize, u64)>>, n: int)
    requires
        0 <= n <= cells.len(),
        forall|c: int| 0 <= c < cells.len() ==> (#[trigger] cells[c]).len() == 0,
    ensures
        items_below(cells, n) == 0,
    decreases n,
{
    if n > 0 {
        lemma_items_zero(cells, n - 1);
    }
}

} // verus!
