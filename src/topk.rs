//! Selection of the highest-scoring codons.
use crate::cmap::Entry;
use vstd::prelude::*;

verus! {

/// Numerator of an entry's score, the average distance `total / count`; an
/// entry that was never compared scores zero.
pub open spec fn score_num(e: Entry) -> int {
    if e.count == 0 {
        0
    } else {
        e.total as int
    }
}

/// Denominator of an entry's score; one for an entry never compared.
pub open spec fn score_den(e: Entry) -> int {
    if e.count == 0 {
        1
    } else {
        e.count as int
    }
}

/// Entry `i` ranks above entry `j`: its score is higher, or equal with a
/// smaller index.
pub open spec fn ranks_above(es: Seq<Entry>, i: int, j: int) -> bool {
    let a = score_num(es[i]) * score_den(es[j]);
    let b = score_num(es[j]) * score_den(es[i]);
    a > b || (a == b && i < j)
}

proof fn lemma_cross(ni: int, di: int, nj: int, dj: int, nl: int, dl: int)
    requires
        di > 0,
        dj > 0,
        dl > 0,
        ni * dj >= nj * di,
        nj * dl >= nl * dj,
    ensures
        ni * dl >= nl * di,
        (ni * dj > nj * di || nj * dl > nl * dj) ==> ni * dl > nl * di,
{
    assert(ni * dj * dl >= nj * di * dl) by (nonlinear_arith)
        requires
            ni * dj >= nj * di,
            dl > 0,
    ;
    assert(nj * dl * di >= nl * dj * di) by (nonlinear_arith)
        requires
            nj * dl >= nl * dj,
            di > 0,
    ;
    assert(ni * dj * dl == (ni * dl) * dj && nj * di * dl == (nj * dl) * di && nl * dj * di == (nl * di) * dj)
        by (nonlinear_arith);
    assert(ni * dl >= nl * di) by (nonlinear_arith)
        requires
            (ni * dl) * dj >= (nl * di) * dj,
            dj > 0,
    ;
    if ni * dj > nj * di {
        assert(ni * dj * dl > nj * di * dl) by (nonlinear_arith)
            requires
                ni * dj > nj * di,
                dl > 0,
        ;
        assert(ni * dl > nl * di) by (nonlinear_arith)
            requires
                (ni * dl) * dj > (nl * di) * dj,
                dj > 0,
        ;
    }
    if nj * dl > nl * dj {
        assert(nj * dl * di > nl * dj * di) by (nonlinear_arith)
            requires
                nj * dl > nl * dj,
                di > 0,
        ;
        assert(ni * dl > nl * di) by (nonlinear_arith)
            requires
                (ni * dl) * dj > (nl * di) * dj,
                dj > 0,
        ;
    }
}

/// Ranking is transitive.
pub proof fn lemma_ranks_transitive(es: Seq<Entry>, i: int, j: int, l: int)
    requires
        ranks_above(es, i, j),
        ranks_above(es, j, l),
    ensures
        ranks_above(es, i, l),
{
    lemma_cross(
        score_num(es[i]),
        score_den(es[i]),
        score_num(es[j]),
        score_den(es[j]),
        score_num(es[l]),
        score_den(es[l]),
    );
}

/// Of two distinct entries, one ranks above the other.
pub proof fn lemma_ranks_total(es: Seq<Entry>, i: int, j: int)
    requires
        i != j,
    ensures
        ranks_above(es, i, j) || ranks_above(es, j, i),
{
}

/// Every entry listed in `r` ranks above entry `j`.
pub open spec fn below_all(es: Seq<Entry>, r: Seq<usize>, j: int) -> bool {
    forall|a: int| 0 <= a < r.len() ==> ranks_above(es, #[trigger] r[a] as int, j)
}

/// Whether entry `i` ranks above entry `j`.
pub fn rank_above(entries: &Vec<Entry>, i: usize, j: usize) -> (r: bool)
    requires
        i < entries@.len(),
        j < entries@.len(),
    ensures
        r == ranks_above(entries@, i as int, j as int),
{
    let ei = entries[i];
    let ej = entries[j];
    let (ni, di): (u128, u128) = if ei.count == 0 {
        (0, 1)
    } else {
        (ei.total as u128, ei.count as u128)
    };
    let (nj, dj): (u128, u128) = if ej.count == 0 {
        (0, 1)
    } else {
        (ej.total as u128, ej.count as u128)
    };
    assert(ni * dj <= u128::MAX && nj * di <= u128::MAX) by (nonlinear_arith)
        requires
            ni <= u64::MAX,
            di <= u64::MAX,
            nj <= u64::MAX,
            dj <= u64::MAX,
    ;
    let a = ni * dj;
    let b = nj * di;
    a > b || (a == b && i < j)
}

/// The indices of the `k` highest-ranked entries (all of them when there
/// are fewer), best first: by score, the average distance, descending, and
/// among equal scores by index, ascending.
pub fn top_k(entries: &Vec<Entry>, k: usize) -> (r: Vec<usize>)
    ensures
        r@.len() == if k < entries@.len() {
            k as int
        } else {
            entries@.len() as int
        },
        forall|a: int| 0 <= a < r@.len() ==> #[trigger] r@[a] < entries@.len(),
        forall|a: int, b: int|
            0 <= a < b < r@.len() ==> ranks_above(entries@, #[trigger] r@[a] as int, #[trigger] r@[b] as int),
        forall|j: int| 0 <= j < entries@.len() && !r@.contains(j as usize) ==> #[trigger] below_all(entries@, r@, j),
{
    let n = entries.len();
    let ghost es = entries@;
    let mut r: Vec<usize> = Vec::new();
    let mut i: usize = 0;
    while i < n
        invariant
            i <= n == es.len(),
            es == entries@,
            r@.len() == if k < i {
                k as int
            } else {
                i as int
            },
            forall|a: int| 0 <= a < r@.len() ==> #[trigger] r@[a] < i,
            forall|a: int, b: int|
                0 <= a < b < r@.len() ==> ranks_above(es, #[trigger] r@[a] as int, #[trigger] r@[b] as int),
            forall|j: int| 0 <= j < i && !r@.contains(j as usize) ==> #[trigger] below_all(es, r@, j),
            i <= k ==> forall|j: int| 0 <= j < i ==> #[trigger] r@.contains(j as usize),
        decreases n - i,
    {
        let mut pos: usize = 0;
        while pos < r.len() && !rank_above(entries, i, r[pos])
            invariant
                i < n == es.len(),
                es == entries@,
                pos <= r@.len(),
                forall|a: int| 0 <= a < r@.len() ==> #[trigger] r@[a] < i,
                forall|a: int| 0 <= a < pos ==> ranks_above(es, #[trigger] r@[a] as int, i as int),
            decreases r@.len() - pos,
        {
            proof {
                lemma_ranks_total(es, i as int, r@[pos as int] as int);
            }
            pos = pos + 1;
        }
        let ghost old_r = r@;
        if pos < k {
            r.insert(pos, i);
            let ghost ins = r@;
            proof {
                assert forall|a: int, b: int|
                    0 <= a < b < ins.len() implies ranks_above(es, #[trigger] ins[a] as int, #[trigger] ins[b] as int) by {
                    if b < pos {
                    } else if a > pos {
                        assert(ins[a] == old_r[a - 1] && ins[b] == old_r[b - 1]);
                    } else if a == pos {
                        assert(ins[b] == old_r[b - 1]);
                        if b - 1 > pos {
                            lemma_ranks_transitive(es, i as int, old_r[pos as int] as int, old_r[b - 1] as int);
                        }
                    } else if b == pos {
                    } else {
                        assert(ins[b] == old_r[b - 1]);
                        assert(ins[a] == old_r[a]);
                        if b - 1 > pos {
                            lemma_ranks_transitive(es, i as int, old_r[pos as int] as int, old_r[b - 1] as int);
                        }
                        lemma_ranks_transitive(es, ins[a] as int, i as int, old_r[b - 1] as int);
                    }
                }
            }
            if r.len() > k {
                r.pop();
            }
            proof {
                let fin = r@;
                assert forall|a: int, b: int|
                    0 <= a < b < fin.len() implies ranks_above(es, #[trigger] fin[a] as int, #[trigger] fin[b] as int) by {
                    assert(fin[a] == ins[a] && fin[b] == ins[b]);
                }
                assert forall|a: int| 0 <= a < fin.len() implies #[trigger] fin[a] < i + 1 by {
                    assert(fin[a] == ins[a]);
                    if a > pos {
                        assert(ins[a] == old_r[a - 1]);
                    }
                }
                assert forall|j: int| 0 <= j < i + 1 && !fin.contains(j as usize) implies #[trigger] below_all(es, fin, j) by {
                    if j < i && !old_r.contains(j as usize) {
                        assert(below_all(es, old_r, j));
                    }
                    assert forall|a: int| 0 <= a < fin.len() implies ranks_above(es, #[trigger] fin[a] as int, j) by {
                    assert(fin[a] == ins[a]);
                    assert(fin[pos as int] == i);
                    if ins.len() > fin.len() && j == ins[ins.len() - 1] as int {
                        assert(ranks_above(es, ins[a] as int, ins[ins.len() - 1] as int));
                    } else {
                        assert(j < i);
                        if old_r.contains(j as usize) {
                            let c = choose|c: int| 0 <= c < old_r.len() && old_r[c] == j as usize;
                            if c < pos {
                                assert(fin[c] == j as usize);
                            } else {
                                assert(ins[c + 1] == j as usize);
                                if c + 1 < fin.len() {
                                    assert(fin[c + 1] == j as usize);
                                }
                            }
                        }
                        assert(ranks_above(es, old_r[pos as int] as int, j));
                        lemma_ranks_transitive(es, i as int, old_r[pos as int] as int, j);
                        if a < pos {
                            assert(ins[a] == old_r[a]);
                        } else if a > pos {
                            assert(ins[a] == old_r[a - 1]);
                        }
                    }
                    }
                }
                if i + 1 <= k {
                    assert forall|j: int| 0 <= j < i + 1 implies #[trigger] fin.contains(j as usize) by {
                        if j == i {
                            assert(fin[pos as int] == j as usize);
                        } else {
                            assert(old_r.contains(j as usize));
                            let c = choose|c: int| 0 <= c < old_r.len() && old_r[c] == j as usize;
                            if c < pos {
                                assert(fin[c] == j as usize);
                            } else {
                                assert(fin[c + 1] == j as usize);
                            }
                        }
                    }
                }
            }
        } else {
            proof {
                assert forall|j: int| 0 <= j < i + 1 && !r@.contains(j as usize) implies #[trigger] below_all(es, r@, j) by {
                    if j == i {
                        assert forall|a: int| 0 <= a < r@.len() implies ranks_above(es, #[trigger] r@[a] as int, j) by {
                            assert(ranks_above(es, r@[a] as int, i as int));
                        }
                    }
                }
            }
        }
        i = i + 1;
    }
    r
}

} // verus!
