//! Feature vectors of n-gram hash counts, random sign projections, and the
//! sign-based locality code of a feature vector.
use crate::rng::{coin, seeded};
use vstd::arithmetic::power2::{lemma2_to64, lemma_pow2_unfold, pow2};
use vstd::prelude::*;

verus! {

/// Widest locality code, in bits.
pub const MAX_WIDTH: usize = 8;

/// Bound on the magnitude of a vector that `center_doubled` accepts, so that twice a
/// component fits in an `i64`.
pub const CENTER_LIMIT: i64 = 0x2000_0000_0000_0000;

/// How many of the first `n` hashes fall into bucket `b` of `width` buckets.
pub open spec fn hits_below(hashes: Seq<u64>, width: nat, b: nat, n: int) -> nat
    decreases n,
{
    if n <= 0 {
        0
    } else {
        hits_below(hashes, width, b, n - 1) + if hashes[n - 1] as nat % width == b {
            1nat
        } else {
            0nat
        }
    }
}

/// Largest component of `v` (zero for an empty vector).
pub open spec fn seq_max(v: Seq<int>) -> int
    decreases v.len(),
{
    if v.len() == 0 {
        0
    } else if v.len() == 1 {
        v[0]
    } else {
        let m = seq_max(v.drop_last());
        if v.last() > m {
            v.last()
        } else {
            m
        }
    }
}

/// Smallest component of `v` (zero for an empty vector).
pub open spec fn seq_min(v: Seq<int>) -> int
    decreases v.len(),
{
    if v.len() == 0 {
        0
    } else if v.len() == 1 {
        v[0]
    } else {
        let m = seq_min(v.drop_last());
        if v.last() < m {
            v.last()
        } else {
            m
        }
    }
}

/// The components of `v` as integers.
pub open spec fn ints(v: Seq<i64>) -> Seq<int> {
    v.map_values(|x: i64| x as int)
}

/// Twice `v` centered: each component doubled, less the sum of the largest
/// and the smallest. Doubling keeps the midpoint integral; the signs of the
/// components, and of their dot products, are those of the centered vector.
pub open spec fn doubled_centered(v: Seq<int>) -> Seq<int> {
    Seq::new(v.len(), |i: int| 2 * v[i] - (seq_max(v) + seq_min(v)))
}

proof fn lemma_max_min_bounds(v: Seq<int>)
    requires
        v.len() > 0,
    ensures
        forall|i: int| 0 <= i < v.len() ==> seq_min(v) <= #[trigger] v[i] <= seq_max(v),
        exists|i: int| 0 <= i < v.len() && v[i] == seq_max(v),
        exists|i: int| 0 <= i < v.len() && v[i] == seq_min(v),
    decreases v.len(),
{
    if v.len() > 1 {
        let u = v.drop_last();
        lemma_max_min_bounds(u);
        assert forall|i: int| 0 <= i < v.len() implies seq_min(v) <= #[trigger] v[i] <= seq_max(v) by {
            if i < u.len() {
                assert(v[i] == u[i]);
            }
        }
        let jm = choose|j: int| 0 <= j < u.len() && u[j] == seq_max(u);
        let jn = choose|j: int| 0 <= j < u.len() && u[j] == seq_min(u);
        assert(v[jm] == u[jm]);
        assert(v[jn] == u[jn]);
        assert(v[v.len() - 1] == v.last());
        if v.last() > seq_max(u) {
            assert(v[v.len() - 1] == seq_max(v));
        } else {
            assert(v[jm] == seq_max(v));
        }
        if v.last() < seq_min(u) {
            assert(v[v.len() - 1] == seq_min(v));
        } else {
            assert(v[jn] == seq_min(v));
        }
    } else {
        assert(v[0] == seq_max(v));
        assert(v[0] == seq_min(v));
    }
}

/// A vector all of whose components are equal centers to zero, and
/// centering the zero vector leaves it as it is.
pub proof fn lemma_center_flat(v: Seq<int>)
    requires
        seq_max(v) == seq_min(v),
    ensures
        doubled_centered(v) == Seq::new(v.len(), |i: int| 0int),
        doubled_centered(doubled_centered(v)) == doubled_centered(v),
{
    let z = doubled_centered(v);
    if v.len() > 0 {
        lemma_max_min_bounds(v);
        assert forall|i: int| 0 <= i < v.len() implies #[trigger] z[i] == 0 by {
            assert(seq_min(v) <= v[i] <= seq_max(v));
        }
        lemma_zero_extremes(z);
    }
    assert(z =~= Seq::new(v.len(), |i: int| 0int));
    assert(doubled_centered(z) =~= z);
}

/// Centering yields a balanced vector: its largest and smallest components
/// sum to zero, so its midpoint is already zero.
pub proof fn lemma_centered_is_balanced(v: Seq<int>)
    requires
        v.len() > 0,
    ensures
        seq_max(doubled_centered(v)) + seq_min(doubled_centered(v)) == 0,
{
    let d = doubled_centered(v);
    let s = seq_max(v) + seq_min(v);
    lemma_max_min_bounds(v);
    lemma_max_min_bounds(d);
    let jmax = choose|j: int| 0 <= j < v.len() && v[j] == seq_max(v);
    let jmin = choose|j: int| 0 <= j < v.len() && v[j] == seq_min(v);
    let dmax = choose|j: int| 0 <= j < d.len() && d[j] == seq_max(d);
    let dmin = choose|j: int| 0 <= j < d.len() && d[j] == seq_min(d);
    assert(d[jmax] == 2 * seq_max(v) - s);
    assert(d[jmin] == 2 * seq_min(v) - s);
    assert(d[dmax] == 2 * v[dmax] - s);
    assert(d[dmin] == 2 * v[dmin] - s);
    assert(seq_max(d) == seq_max(v) - seq_min(v));
    assert(seq_min(d) == seq_min(v) - seq_max(v));
}

proof fn lemma_zero_extremes(z: Seq<int>)
    requires
        forall|i: int| 0 <= i < z.len() ==> #[trigger] z[i] == 0,
    ensures
        seq_max(z) == 0,
        seq_min(z) == 0,
    decreases z.len(),
{
    if z.len() > 1 {
        let u = z.drop_last();
        assert forall|i: int| 0 <= i < u.len() implies #[trigger] u[i] == 0 by {
            assert(u[i] == z[i]);
        }
        lemma_zero_extremes(u);
        assert(z.last() == z[z.len() - 1]);
    } else if z.len() == 1 {
        assert(z[0] == 0);
    }
}

/// Counts, for each of `width` buckets, the hashes that fall into it
/// (a hash falls into bucket `hash % width`).
pub fn bucket_counts(hashes: &Vec<u64>, width: usize) -> (r: Vec<u32>)
    requires
        width > 0,
        hashes@.len() <= u32::MAX,
    ensures
        r@.len() == width,
        forall|b: int|
            0 <= b < width ==> #[trigger] r@[b] == hits_below(hashes@, width as nat, b as nat, hashes@.len() as int),
{
    let mut r: Vec<u32> = Vec::new();
    while r.len() < width
        invariant
            r@.len() <= width,
            forall|b: int| 0 <= b < r@.len() ==> #[trigger] r@[b] == 0,
        decreases width - r@.len(),
    {
        r.push(0);
    }
    let mut x: usize = 0;
    while x < hashes.len()
        invariant
            x <= hashes@.len() <= u32::MAX,
            width > 0,
            r@.len() == width,
            forall|b: int|
                0 <= b < width ==> #[trigger] r@[b] == hits_below(hashes@, width as nat, b as nat, x as int),
            forall|b: int| 0 <= b < width ==> #[trigger] hits_below(hashes@, width as nat, b as nat, x as int) <= x,
        decreases hashes@.len() - x,
    {
        let key = (hashes[x] % (width as u64)) as usize;
        assert(r@[key as int] <= x);
        let v = r[key] + 1;
        r.set(key, v);
        x = x + 1;
        assert forall|b: int| 0 <= b < width implies #[trigger] hits_below(hashes@, width as nat, b as nat, x as int) <= x by {
            assert(hits_below(hashes@, width as nat, b as nat, x - 1) <= x - 1);
        }
    }
    r
}

/// Twice `v` centered (see `doubled_centered`).
pub fn center_doubled(v: &Vec<i64>) -> (r: Vec<i64>)
    requires
        forall|i: int| 0 <= i < v@.len() ==> -CENTER_LIMIT < #[trigger] v@[i] < CENTER_LIMIT,
    ensures
        ints(r@) == doubled_centered(ints(v@)),
{
    let n = v.len();
    if n == 0 {
        let r: Vec<i64> = Vec::new();
        assert(ints(r@) =~= doubled_centered(ints(v@)));
        return r;
    }
    let ghost iv = ints(v@);
    let mut mx: i64 = v[0];
    let mut mn: i64 = v[0];
    let mut k: usize = 1;
    while k < n
        invariant
            1 <= k <= n == v@.len(),
            iv == ints(v@),
            mx == seq_max(iv.subrange(0, k as int)),
            mn == seq_min(iv.subrange(0, k as int)),
        decreases n - k,
    {
        proof {
            assert(iv.subrange(0, k as int + 1).drop_last() =~= iv.subrange(0, k as int));
        }
        if v[k] > mx {
            mx = v[k];
        }
        if v[k] < mn {
            mn = v[k];
        }
        k = k + 1;
    }
    proof {
        assert(iv.subrange(0, n as int) =~= iv);
        lemma_max_min_bounds(iv);
    }
    let mid = mx + mn;
    let mut r: Vec<i64> = Vec::new();
    let mut i: usize = 0;
    while i < n
        invariant
            i <= n == v@.len(),
            iv == ints(v@),
            mid == seq_max(iv) + seq_min(iv),
            -CENTER_LIMIT < seq_min(iv),
            seq_max(iv) < CENTER_LIMIT,
            forall|j: int| 0 <= j < v@.len() ==> -CENTER_LIMIT < #[trigger] v@[j] < CENTER_LIMIT,
            r@.len() == i,
            forall|j: int| 0 <= j < i ==> #[trigger] r@[j] == 2 * v@[j] - mid,
        decreases n - i,
    {
        r.push(2 * v[i] - mid);
        i = i + 1;
    }
    assert(ints(r@) =~= doubled_centered(iv));
    r
}

/// The bucket counts of the n-gram hashes, as integers.
pub open spec fn counts_of(hashes: Seq<u64>, width: nat) -> Seq<int> {
    Seq::new(width, |b: int| hits_below(hashes, width, b as nat, hashes.len() as int) as int)
}

/// The feature vector of a window from the hashes of its n-grams: the
/// counts per bucket (`bucket_counts`), centered (`center_doubled`).
pub fn feature_vector(hashes: &Vec<u64>, width: usize) -> (r: Vec<i64>)
    requires
        width > 0,
        hashes@.len() <= u32::MAX,
    ensures
        ints(r@) == doubled_centered(counts_of(hashes@, width as nat)),
{
    let counts = bucket_counts(hashes, width);
    let mut v: Vec<i64> = Vec::new();
    let mut b: usize = 0;
    while b < width
        invariant
            b <= width == counts@.len(),
            v@.len() == b,
            forall|j: int| 0 <= j < b ==> #[trigger] v@[j] == counts@[j] as i64,
        decreases width - b,
    {
        v.push(counts[b] as i64);
        b = b + 1;
    }
    assert(ints(v@) =~= counts_of(hashes@, width as nat));
    center_doubled(&v)
}

/// Dot product of `v` with a sign vector over the first `n` components:
/// `true` stands for +1, `false` for -1.
pub open spec fn signed_dot(v: Seq<i64>, p: Seq<bool>, n: int) -> int
    decreases n,
{
    if n <= 0 {
        0
    } else {
        signed_dot(v, p, n - 1) + if p[n - 1] {
            v[n - 1] as int
        } else {
            -(v[n - 1] as int)
        }
    }
}

/// Number of components that a vector and a projection share.
pub open spec fn common_len(v: Seq<i64>, p: Seq<bool>) -> int {
    if v.len() < p.len() {
        v.len() as int
    } else {
        p.len() as int
    }
}

/// Whether `v` lies on the positive side of the hyperplane normal to `p`.
pub open spec fn positive_side(v: Seq<i64>, p: Seq<bool>) -> bool {
    signed_dot(v, p, common_len(v, p)) > 0
}

/// Signs packed into a code: the first sign gives the most significant bit.
pub open spec fn code_of(signs: Seq<bool>) -> nat
    decreases signs.len(),
{
    if signs.len() == 0 {
        0
    } else {
        2 * code_of(signs.drop_last()) + if signs.last() {
            1nat
        } else {
            0nat
        }
    }
}

/// The sign bits of `v` against the first `width` projections.
pub open spec fn signs_of(v: Seq<i64>, width: nat, projs: Seq<Seq<bool>>) -> Seq<bool> {
    Seq::new(width, |i: int| positive_side(v, projs[i]))
}

/// Whether the dot product of `v` with the sign vector `p` (over their
/// common components) is positive.
pub fn dot_positive(v: &Vec<i64>, p: &Vec<bool>) -> (r: bool)
    ensures
        r == positive_side(v@, p@),
{
    let n = if v.len() < p.len() {
        v.len()
    } else {
        p.len()
    };
    let mut acc: i128 = 0;
    let mut k: usize = 0;
    while k < n
        invariant
            k <= n,
            n as int == common_len(v@, p@),
            acc == signed_dot(v@, p@, k as int),
            -(k as int) * 0x8000_0000_0000_0000 <= acc <= (k as int) * 0x8000_0000_0000_0000,
        decreases n - k,
    {
        if p[k] {
            acc = acc + v[k] as i128;
        } else {
            acc = acc - v[k] as i128;
        }
        k = k + 1;
    }
    acc > 0
}

/// Packs sign bits into a code, the first sign into the most significant
/// of `signs.len()` bits.
pub fn pack_sign_bits(signs: &Vec<bool>) -> (r: u8)
    requires
        signs@.len() <= MAX_WIDTH,
    ensures
        r == code_of(signs@),
        r < pow2(signs@.len()),
{
    let mut r: u8 = 0;
    let mut i: usize = 0;
    proof {
        lemma2_to64();
    }
    while i < signs.len()
        invariant
            i <= signs@.len() <= MAX_WIDTH,
            r == code_of(signs@.subrange(0, i as int)),
            r < pow2(i as nat),
        decreases signs@.len() - i,
    {
        proof {
            lemma2_to64();
            lemma_pow2_unfold((i + 1) as nat);
            assert(signs@.subrange(0, i as int + 1).drop_last() =~= signs@.subrange(0, i as int));
        }
        if signs[i] {
            r = 2 * r + 1;
        } else {
            r = 2 * r;
        }
        i = i + 1;
    }
    assert(signs@.subrange(0, i as int) =~= signs@);
    r
}

/// The locality code of a feature vector: bit `width - 1 - i` is set when
/// the vector lies on the positive side of projection `i`. An absent vector
/// gives the zero code.
pub fn locality_hash_vector(invec: &Option<Vec<i64>>, width: usize, proj_vecs: &Vec<Vec<bool>>) -> (r: u8)
    requires
        width <= MAX_WIDTH,
        invec is Some ==> width <= proj_vecs@.len(),
    ensures
        r < pow2(width as nat),
        invec is None ==> r == 0,
        invec matches Some(v) ==> r == code_of(
            signs_of(v@, width as nat, proj_vecs@.map_values(|p: Vec<bool>| p@)),
        ),
{
    match invec {
        None => {
            proof {
                lemma2_to64();
                vstd::arithmetic::power2::lemma_pow2_pos(width as nat);
            }
            0
        },
        Some(v) => {
            let ghost projs = proj_vecs@.map_values(|p: Vec<bool>| p@);
            let mut signs: Vec<bool> = Vec::new();
            let mut i: usize = 0;
            while i < width
                invariant
                    i <= width <= proj_vecs@.len(),
                    projs == proj_vecs@.map_values(|p: Vec<bool>| p@),
                    signs@ == signs_of(v@, i as nat, projs),
                decreases width - i,
            {
                let s = dot_positive(v, &proj_vecs[i]);
                signs.push(s);
                i = i + 1;
                assert(signs@ =~= signs_of(v@, i as nat, projs));
            }
            pack_sign_bits(&signs)
        },
    }
}

/// `alphabet_width` sign vectors of `feature_width` components each, drawn
/// from the generator seeded with `seed` (`true` stands for +1, `false` for
/// -1).
pub fn generate_binary_projection(alphabet_width: usize, feature_width: usize, seed: u64) -> (r: Vec<Vec<bool>>)
    ensures
        r@.len() == alphabet_width,
        forall|i: int| 0 <= i < alphabet_width ==> (#[trigger] r@[i])@.len() == feature_width,
{
    let mut rng = seeded(seed);
    let mut r: Vec<Vec<bool>> = Vec::new();
    while r.len() < alphabet_width
        invariant
            r@.len() <= alphabet_width,
            forall|i: int| 0 <= i < r@.len() ==> (#[trigger] r@[i])@.len() == feature_width,
        decreases alphabet_width - r@.len(),
    {
        let mut row: Vec<bool> = Vec::new();
        while row.len() < feature_width
            invariant
                row@.len() <= feature_width,
            decreases feature_width - row@.len(),
        {
            row.push(coin(&mut rng));
        }
        r.push(row);
    }
    r
}

} // verus!
