//! Codons: fixed-width slices of the genome, packed into one integer each.
use crate::cmap::Entry;
use vstd::arithmetic::power2::{lemma2_to64, lemma2_to64_rest, lemma_pow2_adds, pow2};
use vstd::prelude::*;

verus! {

/// Most codes a packed codon holds: one byte each in a `u64`.
pub const MAX_CODON_WIDTH: usize = 8;

/// The little-endian value of a byte string: its first byte is the least
/// significant.
pub open spec fn le_value(s: Seq<u8>) -> nat
    decreases s.len(),
{
    if s.len() == 0 {
        0
    } else {
        (s[0] + 256 * le_value(s.drop_first())) as nat
    }
}

/// Reads an integer of `size` bytes from the front of `s`, little-endian
/// (the first byte is the least significant); bytes after the first `size`
/// are ignored. `None` when `s` is shorter than `size`.
pub fn slice_to_int(s: &[u8], size: usize) -> (r: Option<u64>)
    requires
        size <= 8,
    ensures
        s@.len() < size ==> r is None,
        s@.len() >= size ==> (r matches Some(v) && v == le_value(s@.subrange(0, size as int))),
{
    if s.len() < size {
        return None;
    }
    let n = size;
    let ghost t = s@.subrange(0, size as int);
    let mut r: u64 = 0;
    let mut i: usize = n;
    proof {
        lemma2_to64();
        assert(t.subrange(n as int, n as int) =~= Seq::<u8>::empty());
    }
    while i > 0
        invariant
            i <= n == t.len() <= 8,
            n <= s@.len(),
            t == s@.subrange(0, n as int),
            r == le_value(t.subrange(i as int, n as int)),
            r < pow2(8 * (n - i) as nat),
        decreases i,
    {
        let ghost k = (8 * (n - i)) as nat;
        proof {
            lemma2_to64();
            lemma_pow2_adds(k, 8);
            assert(t.subrange(i - 1, n as int).drop_first() =~= t.subrange(i as int, n as int));
            assert(t[i - 1] == s@[i - 1]);
            assert(k <= 56);
            assert(r < pow2(k));
            if k < 56 {
                vstd::arithmetic::power2::lemma_pow2_strictly_increases(k, 56);
            }
            lemma2_to64_rest();
            assert(r < 0x100_0000_0000_0000);
        }
        r = r * 256 + s[i - 1] as u64;
        i = i - 1;
        assert(8 * (n - i) == k + 8);
    }
    assert(t.subrange(0, n as int) =~= t);
    Some(r)
}

/// Distance between the starts of consecutive codons.
pub open spec fn stride(width: nat, overlapping: bool) -> nat {
    if overlapping {
        1
    } else {
        width
    }
}

/// `e` is the fresh codon number `j` of the genome, for codons of `width`
/// codes sliced as `overlapping` says.
pub open spec fn codon_at(genome: Seq<u8>, width: nat, overlapping: bool, j: int, e: Entry) -> bool {
    let at = j * stride(width, overlapping);
    &&& at + width <= genome.len()
    &&& e.id == at
    &&& e.hash == le_value(genome.subrange(at, at + width))
    &&& e.total == 0
    &&& e.count == 0
}

/// Copies `genome[start .. start + width]`.
pub fn window_of(genome: &Vec<u8>, start: usize, width: usize) -> (r: Vec<u8>)
    requires
        start + width <= genome@.len(),
    ensures
        r@ == genome@.subrange(start as int, start + width),
{
    let len = genome.len();
    let mut r: Vec<u8> = Vec::new();
    let mut k: usize = 0;
    while k < width
        invariant
            k <= width,
            len == genome@.len(),
            start + width <= genome@.len(),
            r@ == genome@.subrange(start as int, start + k),
        decreases width - k,
    {
        r.push(genome[start + k]);
        k = k + 1;
        assert(r@ =~= genome@.subrange(start as int, start + k));
    }
    r
}

/// Slices the genome into codons of `width` codes: one at every position
/// when `overlapping`, else one every `width` positions; a tail shorter than
/// a codon is dropped. Each codon is packed little-endian (its first code is
/// the least significant byte) and tagged with its starting position.
pub fn build_codons(genome: &Vec<u8>, width: usize, overlapping: bool) -> (r: Vec<Entry>)
    requires
        1 <= width <= MAX_CODON_WIDTH,
    ensures
        r@.len() * stride(width as nat, overlapping) + width > genome@.len(),
        forall|j: int|
            0 <= j < r@.len() ==> codon_at(genome@, width as nat, overlapping, j, #[trigger] r@[j]),
{
    let step: usize = if overlapping {
        1
    } else {
        width
    };
    let n = genome.len();
    let mut r: Vec<Entry> = Vec::new();
    let mut g: usize = 0;
    assert(0 * step == 0) by (nonlinear_arith);
    while g <= n && width <= n - g
        invariant
            n == genome@.len(),
            1 <= width <= MAX_CODON_WIDTH,
            step == stride(width as nat, overlapping),
            g == r@.len() * step,
            g <= n + width,
            forall|j: int|
                0 <= j < r@.len() ==> codon_at(genome@, width as nat, overlapping, j, #[trigger] r@[j]),
        decreases n + width - g,
    {
        let w = window_of(genome, g, width);
        assert(w@.subrange(0, width as int) =~= w@);
        let hash = match slice_to_int(w.as_slice(), width) {
            Some(h) => h,
            None => 0,
        };
        let ghost before = r@;
        r.push(Entry::new(g as u64, hash));
        proof {
            let m = before.len() as int;
            assert((m + 1) * step == m * step + step) by (nonlinear_arith);
            assert forall|j: int| 0 <= j < r@.len() implies codon_at(genome@, width as nat, overlapping, j, #[trigger] r@[j]) by {
                if j < m {
                    assert(r@[j] == before[j]);
                } else {
                    assert(j * stride(width as nat, overlapping) == g);
                }
            }
        }
        g = g + step;
    }
    r
}

/// The windows of `width` codes at every position of the genome.
pub open spec fn windows(genome: Seq<u8>, width: nat) -> Seq<Seq<u8>> {
    let n: int = if width > genome.len() + 1 {
        0
    } else {
        genome.len() + 1 - width
    };
    Seq::new(n as nat, |i: int| genome.subrange(i, i + width))
}

/// How many of the first `n` windows equal `key`.
pub open spec fn occurrences(ws: Seq<Seq<u8>>, key: Seq<u8>, n: int) -> nat
    decreases n,
{
    if n <= 0 {
        0
    } else {
        occurrences(ws, key, n - 1) + if ws[n - 1] == key {
            1nat
        } else {
            0nat
        }
    }
}

proof fn lemma_occurrences(ws: Seq<Seq<u8>>, key: Seq<u8>, n: int)
    requires
        0 <= n,
    ensures
        occurrences(ws, key, n) <= n,
        occurrences(ws, key, n) > 0 ==> exists|j: int| 0 <= j < n && ws[j] == key,
    decreases n,
{
    if n > 0 {
        lemma_occurrences(ws, key, n - 1);
        if ws[n - 1] == key {
            assert(ws[n - 1] == key);
        }
    }
}

/// Whether two byte strings are equal.
pub fn bytes_eq(a: &Vec<u8>, b: &Vec<u8>) -> (r: bool)
    ensures
        r == (a@ == b@),
{
    if a.len() != b.len() {
        return false;
    }
    let mut k: usize = 0;
    while k < a.len()
        invariant
            k <= a@.len() == b@.len(),
            a@.subrange(0, k as int) == b@.subrange(0, k as int),
        decreases a@.len() - k,
    {
        if a[k] != b[k] {
            return false;
        }
        k = k + 1;
        assert(a@.subrange(0, k as int) =~= a@.subrange(0, k - 1).push(a@[k - 1]));
        assert(b@.subrange(0, k as int) =~= b@.subrange(0, k - 1).push(b@[k - 1]));
    }
    assert(a@ =~= a@.subrange(0, k as int));
    assert(b@ =~= b@.subrange(0, k as int));
    true
}

/// Position of `key` among the keys of `counts`, if it is there.
fn find_key(counts: &Vec<(Vec<u8>, usize)>, key: &Vec<u8>) -> (r: Option<usize>)
    ensures
        r matches Some(t) ==> t < counts@.len() && counts@[t as int].0@ == key@,
        r is None ==> forall|t: int| 0 <= t < counts@.len() ==> (#[trigger] counts@[t]).0@ != key@,
{
    let mut t: usize = 0;
    while t < counts.len()
        invariant
            t <= counts@.len(),
            forall|u: int| 0 <= u < t ==> (#[trigger] counts@[u]).0@ != key@,
        decreases counts@.len() - t,
    {
        if bytes_eq(&counts[t].0, key) {
            return Some(t);
        }
        t = t + 1;
    }
    None
}

/// Whether `key` is one of the keys of `counts`.
pub open spec fn listed(counts: Seq<(Vec<u8>, usize)>, key: Seq<u8>) -> bool {
    exists|t: int| 0 <= t < counts.len() && (#[trigger] counts[t]).0@ == key
}

/// Every window of `width` codes of the genome, in order, and for each
/// distinct window the number of positions it occurs at, each distinct
/// window listed once. A genome shorter than a codon has no windows.
pub fn generate_codon(genome: &Vec<u8>, width: usize) -> (r: (Vec<Vec<u8>>, Vec<(Vec<u8>, usize)>))
    requires
        1 <= width,
    ensures
        r.0@.len() == windows(genome@, width as nat).len(),
        forall|i: int| 0 <= i < r.0@.len() ==> (#[trigger] r.0@[i])@ == windows(genome@, width as nat)[i],
        forall|s: int, t: int|
            0 <= s < t < r.1@.len() ==> (#[trigger] r.1@[s]).0@ != (#[trigger] r.1@[t]).0@,
        forall|t: int|
            0 <= t < r.1@.len() ==> {
                let ws = windows(genome@, width as nat);
                &&& (#[trigger] r.1@[t]).1 == occurrences(ws, r.1@[t].0@, ws.len() as int)
                &&& r.1@[t].1 > 0
            },
        forall|i: int| 0 <= i < r.0@.len() ==> listed(r.1@, (#[trigger] r.0@[i])@),
{
    let ghost ws = windows(genome@, width as nat);
    let num_keys: usize = if width > genome.len() {
        0
    } else {
        genome.len() - (width - 1)
    };
    let mut codons: Vec<Vec<u8>> = Vec::new();
    let mut counts: Vec<(Vec<u8>, usize)> = Vec::new();
    let mut i: usize = 0;
    while i < num_keys
        invariant
            num_keys == ws.len(),
            ws == windows(genome@, width as nat),
            1 <= width,
            num_keys > 0 ==> width <= genome@.len(),
            i <= num_keys,
            codons@.len() == i,
            forall|j: int| 0 <= j < i ==> (#[trigger] codons@[j])@ == ws[j],
            forall|s: int, t: int|
                0 <= s < t < counts@.len() ==> (#[trigger] counts@[s]).0@ != (#[trigger] counts@[t]).0@,
            forall|t: int|
                0 <= t < counts@.len() ==> (#[trigger] counts@[t]).1 == occurrences(ws, counts@[t].0@, i as int)
                    && counts@[t].1 > 0,
            forall|j: int|
                #![trigger ws[j]]
                0 <= j < i ==> exists|t: int| 0 <= t < counts@.len() && (#[trigger] counts@[t]).0@ == ws[j],
        decreases num_keys - i,
    {
        let key = window_of(genome, i, width);
        assert(key@ == ws[i as int]);
        let ghost before = counts@;
        match find_key(&counts, &key) {
            Some(t) => {
                proof {
                    lemma_occurrences(ws, key@, i as int);
                }
                let v = counts[t].1 + 1;
                counts[t].1 = v;
                proof {
                    assert forall|u: int| 0 <= u < counts@.len() implies (#[trigger] counts@[u]).1 == occurrences(
                        ws,
                        counts@[u].0@,
                        i + 1,
                    ) && counts@[u].1 > 0 by {
                        if u != t {
                            assert(counts@[u] == before[u]);
                            if u < t {
                                assert(before[u].0@ != before[t as int].0@);
                            } else {
                                assert(before[t as int].0@ != before[u].0@);
                            }
                        }
                    }
                    assert forall|j: int| #![trigger ws[j]] 0 <= j < i + 1 implies exists|u: int|
                        0 <= u < counts@.len() && (#[trigger] counts@[u]).0@ == ws[j] by {
                        if j < i {
                            let u = choose|u: int| 0 <= u < before.len() && (#[trigger] before[u]).0@ == ws[j];
                            assert(counts@[u].0@ == ws[j]);
                        } else {
                            assert(counts@[t as int].0@ == ws[j]);
                        }
                    }
                }
            },
            None => {
                proof {
                    lemma_occurrences(ws, key@, i as int);
                    if occurrences(ws, key@, i as int) > 0 {
                        let j = choose|j: int| 0 <= j < i && ws[j] == key@;
                        let u = choose|u: int| 0 <= u < before.len() && (#[trigger] before[u]).0@ == ws[j];
                        assert(before[u].0@ != key@);
                    }
                }
                let fresh = window_of(genome, i, width);
                counts.push((fresh, 1));
                proof {
                    assert forall|u: int| 0 <= u < counts@.len() implies (#[trigger] counts@[u]).1 == occurrences(
                        ws,
                        counts@[u].0@,
                        i + 1,
                    ) && counts@[u].1 > 0 by {
                        if u < before.len() {
                            assert(counts@[u] == before[u]);
                        }
                    }
                    assert forall|j: int| #![trigger ws[j]] 0 <= j < i + 1 implies exists|u: int|
                        0 <= u < counts@.len() && (#[trigger] counts@[u]).0@ == ws[j] by {
                        if j < i {
                            let u = choose|u: int| 0 <= u < before.len() && (#[trigger] before[u]).0@ == ws[j];
                            assert(counts@[u] == before[u]);
                        } else {
                            assert(counts@[before.len() as int].0@ == ws[j]);
                        }
                    }
                }
            },
        }
        codons.push(key);
        i = i + 1;
    }
    assert forall|j: int| 0 <= j < codons@.len() implies listed(counts@, (#[trigger] codons@[j])@) by {
        assert(codons@[j]@ == ws[j]);
    }
    (codons, counts)
}

} // verus!
