//! Properties of the metric, the builder and the selector, stated and
//! proved over their specifications.

use vstd::prelude::*;
use vstd::seq_lib::seq_to_set_is_finite;
use vstd::set_lib::lemma_len_subset;
use vstd::set_lib::lemma_set_empty_equivalency_len;
use vstd::set_lib::lemma_subset_equality;

use crate::builder::matrix_model;
use crate::builder::row_model;
use crate::jaccard::dist_num;
use crate::jaccard::dist_ratio;
use crate::jaccard::sim_den;
use crate::jaccard::sim_num;
use crate::jaccard::token_set;
use crate::prio::seed_idx;
use crate::prio::select_loop;
use crate::prio::spec_select;
use crate::ratio::Ratio;

verus! {

/// Distance is symmetric: both endpoints of a pair see the same distance,
/// so storing each unordered pair once loses nothing.
pub proof fn lemma_distance_symmetric(a: Seq<char>, b: Seq<char>)
    ensures
        sim_num(a, b) == sim_num(b, a),
        sim_den(a, b) == sim_den(b, a),
        dist_num(a, b) == dist_num(b, a),
        dist_ratio(a, b) == dist_ratio(b, a),
{
    assert(token_set(a).union(token_set(b)) =~= token_set(b).union(token_set(a)));
    assert(token_set(a).intersect(token_set(b)) =~= token_set(b).intersect(token_set(a)));
}

/// Distance lies in `[0, 1]`; it is 0 exactly when the token sets are
/// identical, and 1 exactly when they are disjoint and not both empty.
pub proof fn lemma_distance_range(a: Seq<char>, b: Seq<char>)
    ensures
        0 < sim_den(a, b),
        dist_num(a, b) <= sim_den(a, b),
        dist_num(a, b) == 0 <==> token_set(a) == token_set(b),
        dist_num(a, b) == sim_den(a, b) <==> (token_set(a).disjoint(token_set(b)) && !(token_set(
            a,
        ).union(token_set(b)).is_empty())),
{
    broadcast use seq_to_set_is_finite;

    let sa = token_set(a);
    let sb = token_set(b);
    let uni = sa.union(sb);
    let inter = sa.intersect(sb);
    lemma_len_subset(inter, uni);
    if uni.len() == 0 {
        lemma_set_empty_equivalency_len(uni);
        assert(uni =~= Set::<Seq<char>>::empty());
        assert forall|x: Seq<char>| !(#[trigger] sa.contains(x)) by {
            if sa.contains(x) {
                assert(uni.contains(x));
            }
        }
        assert forall|x: Seq<char>| !(#[trigger] sb.contains(x)) by {
            if sb.contains(x) {
                assert(uni.contains(x));
            }
        }
        assert(sa =~= sb);
        assert(dist_num(a, b) == 0);
    } else {
        assert(sim_num(a, b) == inter.len() && sim_den(a, b) == uni.len());
        assert(!uni.is_empty()) by {
            lemma_set_empty_equivalency_len(uni);
        }
        // distance 0 <==> the sets coincide
        if inter.len() == uni.len() {
            lemma_subset_equality(inter, uni);
            assert(inter == uni);
            assert forall|x: Seq<char>| #[trigger] sa.contains(x) implies sb.contains(x) by {
                assert(uni.contains(x));
                assert(inter.contains(x));
            }
            assert forall|x: Seq<char>| #[trigger] sb.contains(x) implies sa.contains(x) by {
                assert(uni.contains(x));
                assert(inter.contains(x));
            }
            assert(sa =~= sb);
        }
        if sa == sb {
            assert(inter =~= uni);
        }
        // distance 1 <==> disjoint and not both empty
        if inter.len() == 0 {
            lemma_set_empty_equivalency_len(inter);
            assert(inter =~= Set::<Seq<char>>::empty());
            assert forall|x: Seq<char>| #[trigger] sa.contains(x) implies !sb.contains(x) by {
                if sb.contains(x) {
                    assert(inter.contains(x));
                }
            }
            assert(sa.disjoint(sb));
        }
        if sa.disjoint(sb) {
            assert(inter =~= Set::<Seq<char>>::empty());
        }
    }
}

/// Chaining a non-strict with a strict comparison stays strict.
pub proof fn lemma_ratio_le_lt_trans(x: Ratio, y: Ratio, z: Ratio)
    requires
        0 < x.den,
        0 < y.den,
        0 < z.den,
        x.spec_le(y),
        y.spec_lt(z),
    ensures
        x.spec_lt(z),
{
    assert((x.num as int) * (z.den as int) < (z.num as int) * (x.den as int))
        by (nonlinear_arith)
        requires
            0 < x.den as int,
            0 < y.den as int,
            0 < z.den as int,
            (x.num as int) * (y.den as int) <= (y.num as int) * (x.den as int),
            (y.num as int) * (z.den as int) < (z.num as int) * (y.den as int),
    ;
}

/// The seed entry holds the maximum distance of the matrix, and every
/// earlier entry is strictly below it: the first pair at the maximum wins.
pub proof fn lemma_seed_max(m: Seq<((Seq<char>, Seq<char>), Ratio)>)
    requires
        m.len() > 0,
        forall|k: int| 0 <= k < m.len() ==> 0 < (#[trigger] m[k]).1.den,
    ensures
        0 <= seed_idx(m) < m.len(),
        forall|k: int| 0 <= k < m.len() ==> (#[trigger] m[k]).1.spec_le(m[seed_idx(m)].1),
        forall|k: int| 0 <= k < seed_idx(m) ==> (#[trigger] m[k]).1.spec_lt(m[seed_idx(m)].1),
    decreases m.len(),
{
    crate::prio::lemma_seed_in_range(m);
    if m.len() > 1 {
        let t = m.drop_last();
        let last = m.len() - 1;
        assert(forall|k: int| 0 <= k < t.len() ==> t[k] == (#[trigger] m[k]));
        lemma_seed_max(t);
        let r = seed_idx(t);
        assert(0 <= r < last);
        if (m[r].1).spec_lt(m[last].1) {
            assert(seed_idx(m) == last);
            assert forall|k: int| 0 <= k < m.len() implies (#[trigger] m[k]).1.spec_le(
                m[last].1,
            ) by {
                if k < last {
                    assert(m[k].1.spec_le(m[r].1));
                    lemma_ratio_le_lt_trans(m[k].1, m[r].1, m[last].1);
                }
            }
            assert forall|k: int| 0 <= k < last implies (#[trigger] m[k]).1.spec_lt(
                m[last].1,
            ) by {
                assert(m[k].1.spec_le(m[r].1));
                lemma_ratio_le_lt_trans(m[k].1, m[r].1, m[last].1);
            }
        } else {
            assert(seed_idx(m) == r);
            assert(m[last].1.spec_le(m[r].1));
            assert(forall|k: int| 0 <= k < last ==> (#[trigger] m[k]).1.spec_le(m[r].1));
            assert(forall|k: int| 0 <= k < r ==> (#[trigger] m[k]).1.spec_lt(m[r].1));
        }
    }
}

/// The selection rounds only append: what is in the order stays, in place.
pub proof fn lemma_select_loop_prefix(
    st: Seq<(Seq<char>, Option<Ratio>)>,
    m: Seq<((Seq<char>, Seq<char>), Ratio)>,
    acc: Seq<Seq<char>>,
    fuel: nat,
)
    ensures
        select_loop(st, m, acc, fuel).len() >= acc.len(),
        forall|k: int| 0 <= k < acc.len() ==> #[trigger] select_loop(st, m, acc, fuel)[k] == acc[k],
    decreases fuel,
{
    if fuel > 0 {
        let st1 = crate::prio::sweep(st, m);
        match crate::prio::best(st1) {
            None => {},
            Some(i) => {
                lemma_select_loop_prefix(
                    st1.update(i, (st1[i].0, None)),
                    m,
                    acc.push(st1[i].0),
                    (fuel - 1) as nat,
                );
            },
        }
    }
}

/// Seed correctness: the execution order opens with exactly the two
/// endpoints of the first maximum-distance pair, in their stored order.
pub proof fn lemma_seed_correct(m: Seq<((Seq<char>, Seq<char>), Ratio)>)
    requires
        m.len() > 0,
        forall|k: int| 0 <= k < m.len() ==> 0 < (#[trigger] m[k]).1.den,
    ensures
        spec_select(m).len() >= 2,
        spec_select(m)[0] == m[seed_idx(m)].0.0,
        spec_select(m)[1] == m[seed_idx(m)].0.1,
        forall|k: int| 0 <= k < m.len() ==> (#[trigger] m[k]).1.spec_le(m[seed_idx(m)].1),
        forall|k: int| 0 <= k < seed_idx(m) ==> (#[trigger] m[k]).1.spec_lt(m[seed_idx(m)].1),
{
    lemma_seed_max(m);
    let s = seed_idx(m);
    let a = m[s].0.0;
    let b = m[s].0.1;
    let st0 = seq![(a, Option::<Ratio>::None), (b, Option::<Ratio>::None)];
    lemma_select_loop_prefix(st0, m, seq![a, b], crate::matrix::doc_seq(m).len());
    assert(seq![a, b][0] == a && seq![a, b][1] == b);
}

/// The matrix over `i` leading documents holds `i * (2n - i - 1) / 2`
/// pairs; over all `n` documents that is `n * (n - 1) / 2`.
pub proof fn lemma_model_len(fs: Seq<Seq<char>>, ts: Seq<Seq<char>>, i: int)
    requires
        0 <= i <= fs.len(),
    ensures
        2 * matrix_model(fs, ts, i).len() == i * (2 * fs.len() - i - 1),
    decreases i,
{
    let n = fs.len() as int;
    lemma_row_len(fs, ts, i - 1, n);
    if i == 0 {
        assert(matrix_model(fs, ts, 0) =~= Seq::<((Seq<char>, Seq<char>), Ratio)>::empty());
        assert(i * (2 * fs.len() - i - 1) == 0) by (nonlinear_arith)
            requires
                i == 0,
        ;
    }
    if i > 0 {
        lemma_model_len(fs, ts, i - 1);
        assert(matrix_model(fs, ts, i).len() == matrix_model(fs, ts, i - 1).len() + row_model(
            fs,
            ts,
            i - 1,
            n,
        ).len());
        assert(matrix_model(fs, ts, i).len() == matrix_model(fs, ts, i - 1).len() + (fs.len()
            - i));
        assert(2 * matrix_model(fs, ts, i).len() == i * (2 * fs.len() - i - 1))
            by (nonlinear_arith)
            requires
                2 * matrix_model(fs, ts, i - 1).len() == (i - 1) * (2 * fs.len() - (i - 1) - 1),
                matrix_model(fs, ts, i).len() == matrix_model(fs, ts, i - 1).len() + (fs.len()
                    - i),
        ;
    }
}

/// A row pairing document `i` with documents `i+1 .. j` has `j - i - 1`
/// entries.
pub proof fn lemma_row_len(fs: Seq<Seq<char>>, ts: Seq<Seq<char>>, i: int, j: int)
    ensures
        j <= i + 1 ==> row_model(fs, ts, i, j).len() == 0,
        j > i + 1 ==> row_model(fs, ts, i, j).len() == j - i - 1,
    decreases j - i,
{
    if j > i + 1 {
        lemma_row_len(fs, ts, i, j - 1);
    }
}

/// Shape of one row: entry `x` pairs document `i` with document
/// `i + 1 + x`.
proof fn lemma_row_shape(fs: Seq<Seq<char>>, ts: Seq<Seq<char>>, i: int, j: int)
    ensures
        forall|x: int|
            0 <= x < row_model(fs, ts, i, j).len() ==> (#[trigger] row_model(fs, ts, i, j)[x]).0.0
                == fs[i] && row_model(fs, ts, i, j)[x].0.1 == fs[i + 1 + x],
    decreases j - i,
{
    if j > i + 1 {
        lemma_row_shape(fs, ts, i, j - 1);
        lemma_row_len(fs, ts, i, j);
        lemma_row_len(fs, ts, i, j - 1);
    }
}

/// The documents of the first row, from its start, are the first `j`
/// documents in order.
proof fn lemma_row_doc0(fs: Seq<Seq<char>>, ts: Seq<Seq<char>>, j: int)
    requires
        forall|x: int, y: int| 0 <= x < y < fs.len() ==> fs[x] != fs[y],
        2 <= j <= fs.len(),
    ensures
        crate::matrix::doc_seq_from(Seq::empty(), row_model(fs, ts, 0, j)) == fs.take(j),
    decreases j,
{
    let e = ((fs[0], fs[j - 1]), dist_ratio(ts[0], ts[j - 1]));
    if j == 2 {
        assert(row_model(fs, ts, 0, 2) == row_model(fs, ts, 0, 1).push(e));
        assert(row_model(fs, ts, 0, 1) =~= Seq::<((Seq<char>, Seq<char>), Ratio)>::empty());
        crate::matrix::lemma_doc_seq_from_push(
            Seq::empty(),
            Seq::<((Seq<char>, Seq<char>), Ratio)>::empty(),
            e,
        );
        let d0 = crate::matrix::insert_doc(Seq::empty(), fs[0]);
        assert(!Seq::<Seq<char>>::empty().contains(fs[0]));
        assert(d0 =~= seq![fs[0]]);
        assert(!d0.contains(fs[1])) by {
            if d0.contains(fs[1]) {
                assert(d0[0] == fs[1]);
            }
        }
        assert(crate::matrix::insert_doc(d0, fs[1]) =~= fs.take(2));
    } else {
        lemma_row_doc0(fs, ts, j - 1);
        assert(row_model(fs, ts, 0, j) == row_model(fs, ts, 0, j - 1).push(e));
        crate::matrix::lemma_doc_seq_from_push(Seq::empty(), row_model(fs, ts, 0, j - 1), e);
        let p = fs.take(j - 1);
        assert(p.contains(fs[0])) by {
            assert(p[0] == fs[0]);
        }
        assert(crate::matrix::insert_doc(p, fs[0]) == p);
        assert(!p.contains(fs[j - 1])) by {
            if p.contains(fs[j - 1]) {
                let x = choose|x: int| 0 <= x < p.len() && p[x] == fs[j - 1];
                assert(fs[x] == fs[j - 1]);
            }
        }
        assert(crate::matrix::insert_doc(p, fs[j - 1]) =~= fs.take(j));
    }
}

/// A later row adds no new documents to a sequence that already holds all
/// of them.
proof fn lemma_row_doc_later(
    ds: Seq<Seq<char>>,
    fs: Seq<Seq<char>>,
    ts: Seq<Seq<char>>,
    i: int,
    j: int,
)
    requires
        forall|x: int| 0 <= x < fs.len() ==> ds.contains(#[trigger] fs[x]),
        0 <= i,
        j <= fs.len(),
    ensures
        crate::matrix::doc_seq_from(ds, row_model(fs, ts, i, j)) == ds,
    decreases j - i,
{
    if j > i + 1 {
        let e = ((fs[i], fs[j - 1]), dist_ratio(ts[i], ts[j - 1]));
        lemma_row_doc_later(ds, fs, ts, i, j - 1);
        assert(row_model(fs, ts, i, j) == row_model(fs, ts, i, j - 1).push(e));
        crate::matrix::lemma_doc_seq_from_push(ds, row_model(fs, ts, i, j - 1), e);
        assert(ds.contains(fs[i]));
        assert(ds.contains(fs[j - 1]));
    }
}

/// The matrix over the first `i` rows references exactly the documents of
/// the input list, in input order.
proof fn lemma_model_doc(fs: Seq<Seq<char>>, ts: Seq<Seq<char>>, i: int)
    requires
        forall|x: int, y: int| 0 <= x < y < fs.len() ==> fs[x] != fs[y],
        fs.len() >= 2,
        1 <= i <= fs.len(),
    ensures
        crate::matrix::doc_seq(matrix_model(fs, ts, i)) == fs,
    decreases i,
{
    let n = fs.len() as int;
    if i == 1 {
        assert(matrix_model(fs, ts, 0) =~= Seq::<((Seq<char>, Seq<char>), Ratio)>::empty());
        assert(matrix_model(fs, ts, 1) == matrix_model(fs, ts, 0) + row_model(fs, ts, 0, n));
        assert(matrix_model(fs, ts, 1) =~= row_model(fs, ts, 0, n));
        lemma_row_doc0(fs, ts, n);
        assert(fs.take(n) =~= fs);
    } else {
        lemma_model_doc(fs, ts, i - 1);
        crate::matrix::lemma_doc_seq_from_append(
            Seq::empty(),
            matrix_model(fs, ts, i - 1),
            row_model(fs, ts, i - 1, n),
        );
        assert forall|x: int| 0 <= x < fs.len() implies fs.contains(#[trigger] fs[x]) by {
            assert(fs[x] == fs[x]);
        }
        lemma_row_doc_later(fs, fs, ts, i - 1, n);
    }
}

/// Every index pair `(a, b)` with `a < b` below `i` has its entry in the
/// matrix over the first `i` rows.
proof fn lemma_model_pairs_exist(fs: Seq<Seq<char>>, ts: Seq<Seq<char>>, i: int)
    requires
        0 <= i <= fs.len(),
    ensures
        forall|a: int, b: int|
            #![trigger fs[a], fs[b]]
            0 <= a < b < fs.len() && a < i ==> exists|k: int|
                0 <= k < matrix_model(fs, ts, i).len() && (#[trigger] matrix_model(fs, ts, i)[k]).0
                    == (fs[a], fs[b]),
    decreases i,
{
    let n = fs.len() as int;
    if i > 0 {
        lemma_model_pairs_exist(fs, ts, i - 1);
        let m1 = matrix_model(fs, ts, i - 1);
        let m2 = row_model(fs, ts, i - 1, n);
        lemma_row_shape(fs, ts, i - 1, n);
        lemma_row_len(fs, ts, i - 1, n);
        assert forall|a: int, b: int|
            #![trigger fs[a], fs[b]]
            0 <= a < b < fs.len() && a < i implies exists|k: int|
                0 <= k < matrix_model(fs, ts, i).len() && (#[trigger] matrix_model(fs, ts, i)[k]).0
                    == (fs[a], fs[b]) by {
            if a < i - 1 {
                let k = choose|k: int| 0 <= k < m1.len() && (#[trigger] m1[k]).0 == (fs[a], fs[b]);
                assert(matrix_model(fs, ts, i)[k] == m1[k]);
            } else {
                let x = b - a - 1;
                assert(m2[x].0.0 == fs[i - 1] && m2[x].0.1 == fs[i - 1 + 1 + x]);
                assert(matrix_model(fs, ts, i)[m1.len() + x] == m2[x]);
                assert(matrix_model(fs, ts, i)[m1.len() + x].0 == (fs[a], fs[b]));
            }
        }
    }
}

/// Entry endpoints always differ when the documents are distinct.
proof fn lemma_model_endpoints(fs: Seq<Seq<char>>, ts: Seq<Seq<char>>, i: int)
    requires
        forall|x: int, y: int| 0 <= x < y < fs.len() ==> fs[x] != fs[y],
        0 <= i <= fs.len(),
    ensures
        forall|k: int|
            0 <= k < matrix_model(fs, ts, i).len() ==> (#[trigger] matrix_model(fs, ts, i)[k]).0.0
                != matrix_model(fs, ts, i)[k].0.1,
    decreases i,
{
    let n = fs.len() as int;
    if i > 0 {
        lemma_model_endpoints(fs, ts, i - 1);
        let m1 = matrix_model(fs, ts, i - 1);
        let m2 = row_model(fs, ts, i - 1, n);
        lemma_row_shape(fs, ts, i - 1, n);
        lemma_row_len(fs, ts, i - 1, n);
        assert forall|k: int|
            0 <= k < matrix_model(fs, ts, i).len() implies (#[trigger] matrix_model(
            fs,
            ts,
            i,
        )[k]).0.0 != matrix_model(fs, ts, i)[k].0.1 by {
            if k < m1.len() {
                assert(matrix_model(fs, ts, i)[k] == m1[k]);
            } else {
                assert(matrix_model(fs, ts, i)[k] == m2[k - m1.len()]);
            }
        }
    }
}

/// Completeness of the pipeline: for `n` distinct input documents the
/// matrix holds exactly `n * (n - 1) / 2` pairs, references exactly the
/// input documents, and the selector's order is a permutation of them.
pub proof fn lemma_pipeline_permutation(fs: Seq<Seq<char>>, ts: Seq<Seq<char>>)
    requires
        forall|x: int, y: int| 0 <= x < y < fs.len() ==> fs[x] != fs[y],
        fs.len() >= 2,
    ensures
        2 * matrix_model(fs, ts, fs.len() as int).len() == fs.len() * (fs.len() - 1),
        crate::matrix::doc_seq(matrix_model(fs, ts, fs.len() as int)) == fs,
        crate::matrix::complete(matrix_model(fs, ts, fs.len() as int)),
        spec_select(matrix_model(fs, ts, fs.len() as int)).no_duplicates(),
        spec_select(matrix_model(fs, ts, fs.len() as int)).to_set() =~= fs.to_set(),
        spec_select(matrix_model(fs, ts, fs.len() as int)).len() == fs.len(),
{
    let n = fs.len() as int;
    let mm = matrix_model(fs, ts, n);
    lemma_model_len(fs, ts, n);
    lemma_model_doc(fs, ts, n);
    lemma_model_pairs_exist(fs, ts, n);
    lemma_model_endpoints(fs, ts, n);
    assert(2 * mm.len() == fs.len() * (fs.len() - 1)) by (nonlinear_arith)
        requires
            n == fs.len() as int,
            2 * mm.len() == n * (2 * fs.len() - n - 1),
    ;
    assert(mm.len() >= 1) by (nonlinear_arith)
        requires
            2 * mm.len() == fs.len() * (fs.len() - 1),
            fs.len() >= 2,
    ;
    assert(crate::matrix::doc_set(mm) == fs.to_set());
    assert forall|d1: Seq<char>, d2: Seq<char>|
        crate::matrix::doc_set(mm).contains(d1) && crate::matrix::doc_set(mm).contains(d2) && d1
            != d2 implies exists|k: int|
        0 <= k < mm.len() && crate::matrix::same_pair((#[trigger] mm[k]).0, (d1, d2)) by {
        assert(fs.contains(d1) && fs.contains(d2));
        let a = choose|a: int| 0 <= a < fs.len() && fs[a] == d1;
        let b = choose|b: int| 0 <= b < fs.len() && fs[b] == d2;
        assert(a != b);
        if a < b {
            let k = choose|k: int| 0 <= k < mm.len() && (#[trigger] mm[k]).0 == (fs[a], fs[b]);
            assert(crate::matrix::same_pair(mm[k].0, (d1, d2)));
        } else {
            let k = choose|k: int| 0 <= k < mm.len() && (#[trigger] mm[k]).0 == (fs[b], fs[a]);
            assert(crate::matrix::same_pair(mm[k].0, (d1, d2)));
        }
    }
    assert(crate::matrix::complete(mm));
    crate::perm::lemma_priority_list_permutation(mm);
    assert(spec_select(mm).to_set() =~= fs.to_set());
    assert(spec_select(mm).len() == fs.len()) by {
        assert(crate::matrix::doc_seq(mm).len() == fs.len());
    }
}

} // verus!
