//! Building the distance matrix.
//!
//! All unordered pairs of the input documents are enumerated in a fixed
//! order (outer index before inner index), and each pair is mapped to
//! `1 - similarity` of the two documents' extracted texts. Extraction
//! happens once per document, outside this module; a document whose text is
//! missing aborts the whole build, because the selector depends on the
//! matrix being complete.

use vstd::prelude::*;

use crate::jaccard::dist_num;
use crate::jaccard::dist_ratio;
use crate::jaccard::jaccard_index_word;
use crate::jaccard::sim_den;
use crate::matrix::same_pair;
use crate::matrix::DistanceMatrix;
use crate::ratio::Ratio;

verus! {

/// The extracted texts, one per document; a missing text is modeled as the
/// empty sequence (the builder fails before ever using it).
pub open spec fn texts_view(ts: Seq<Option<String>>) -> Seq<Seq<char>> {
    Seq::new(
        ts.len(),
        |i: int|
            if ts[i] is Some {
                (ts[i]->0)@
            } else {
                Seq::empty()
            },
    )
}

/// The matrix entries pairing document `i` with documents `i+1 .. j`.
pub open spec fn row_model(fs: Seq<Seq<char>>, ts: Seq<Seq<char>>, i: int, j: int) -> Seq<
    ((Seq<char>, Seq<char>), Ratio),
>
    decreases j - i,
{
    if j <= i + 1 {
        Seq::empty()
    } else {
        row_model(fs, ts, i, j - 1).push(((fs[i], fs[j - 1]), dist_ratio(ts[i], ts[j - 1])))
    }
}

/// The matrix entries for all pairs whose outer index is below `i`, in
/// enumeration order.
pub open spec fn matrix_model(fs: Seq<Seq<char>>, ts: Seq<Seq<char>>, i: int) -> Seq<
    ((Seq<char>, Seq<char>), Ratio),
>
    decreases i,
{
    if i <= 0 {
        Seq::empty()
    } else {
        matrix_model(fs, ts, i - 1) + row_model(fs, ts, i - 1, fs.len() as int)
    }
}

/// The state of the matrix while the pair whose indices are `(i, j)` is
/// about to be computed: all rows before `i`, and row `i` up to column `j`.
pub open spec fn prefix_model(fs: Seq<Seq<char>>, ts: Seq<Seq<char>>, i: int, j: int) -> Seq<
    ((Seq<char>, Seq<char>), Ratio),
> {
    matrix_model(fs, ts, i) + row_model(fs, ts, i, j)
}

/// Two entries built from distinct documents name the same unordered pair
/// only when their index pairs agree.
proof fn lemma_distinct_pair_index(fv: Seq<Seq<char>>, n: int, a: int, b: int, i: int, j: int)
    requires
        fv.len() == n,
        forall|x: int, y: int| 0 <= x < y < n ==> fv[x] != fv[y],
        0 <= a < b < n,
        0 <= i < j < n,
        same_pair((fv[a], fv[b]), (fv[i], fv[j])),
    ensures
        a == i && b == j,
{
    if fv[a] == fv[i] && fv[b] == fv[j] {
        assert(a == i) by {
            if a < i {
                assert(fv[a] != fv[i]);
            }
            if i < a {
                assert(fv[i] != fv[a]);
            }
        }
        assert(b == j) by {
            if b < j {
                assert(fv[b] != fv[j]);
            }
            if j < b {
                assert(fv[j] != fv[b]);
            }
        }
    } else {
        assert(fv[a] == fv[j] && fv[b] == fv[i]);
        assert(a == j) by {
            if a < j {
                assert(fv[a] != fv[j]);
            }
            if j < a {
                assert(fv[j] != fv[a]);
            }
        }
        assert(b == i) by {
            if b < i {
                assert(fv[b] != fv[i]);
            }
            if i < b {
                assert(fv[i] != fv[b]);
            }
        }
        assert(false);
    }
}

/// Every pair already in the matrix when pair `(a, b)` comes up in the
/// enumeration differs from `(a, b)` as an unordered pair: pairs are
/// enumerated in strictly increasing lexicographic index order.
proof fn lemma_prefix_no_pair(
    fv: Seq<Seq<char>>,
    tv: Seq<Seq<char>>,
    i: int,
    j: int,
    a: int,
    b: int,
)
    requires
        forall|x: int, y: int| 0 <= x < y < fv.len() ==> fv[x] != fv[y],
        0 <= a < b < fv.len(),
        0 <= i,
        i + 1 <= j <= fv.len(),
        i < a || (i == a && j <= b),
    ensures
        forall|k: int|
            0 <= k < prefix_model(fv, tv, i, j).len() ==> !same_pair(
                (#[trigger] prefix_model(fv, tv, i, j)[k]).0,
                (fv[a], fv[b]),
            ),
    decreases i, j,
{
    let n = fv.len() as int;
    if j > i + 1 {
        lemma_prefix_no_pair(fv, tv, i, j - 1, a, b);
        assert(prefix_model(fv, tv, i, j) =~= prefix_model(fv, tv, i, j - 1).push(
            ((fv[i], fv[j - 1]), dist_ratio(tv[i], tv[j - 1])),
        ));
        assert(!same_pair((fv[i], fv[j - 1]), (fv[a], fv[b]))) by {
            if same_pair((fv[i], fv[j - 1]), (fv[a], fv[b])) {
                lemma_distinct_pair_index(fv, n, a, b, i, j - 1);
            }
        }
    } else {
        assert(row_model(fv, tv, i, j) =~= Seq::<((Seq<char>, Seq<char>), Ratio)>::empty());
        if i == 0 {
            assert(prefix_model(fv, tv, i, j) =~= Seq::<((Seq<char>, Seq<char>), Ratio)>::empty());
        } else {
            assert(prefix_model(fv, tv, i, j) =~= prefix_model(fv, tv, i - 1, n));
            lemma_prefix_no_pair(fv, tv, i - 1, n, a, b);
        }
    }
}

/// A document whose text could not be extracted; building the matrix fails
/// with the first such document.
#[derive(Debug)]
pub struct ExtractionFailure {
    pub doc: String,
}

/// Builds the full distance matrix over `files`, where `texts[i]` is the
/// extracted text of `files[i]` (`None` when extraction failed). With at
/// least two documents, every document is referenced by some pair, so any
/// missing text fails the build and names the first affected document; with
/// fewer the matrix is empty. On success the matrix holds all
/// `n * (n - 1) / 2` pairs in enumeration order.
pub fn calculate_distances(files: &Vec<String>, texts: &Vec<Option<String>>) -> (r: Result<
    DistanceMatrix,
    ExtractionFailure,
>)
    requires
        files@.len() == texts@.len(),
        forall|i: int, j: int|
            0 <= i < j < files@.len() ==> files.deep_view()[i] != files.deep_view()[j],
    ensures
        match r {
            Ok(m) => {
                &&& m@ == matrix_model(
                    files.deep_view(),
                    texts_view(texts@),
                    files@.len() as int,
                )
                &&& m.wf()
                &&& files@.len() >= 2 ==> forall|i: int|
                    0 <= i < texts@.len() ==> texts@[i] is Some
                &&& files@.len() < 2 ==> m@.len() == 0
            },
            Err(e) => {
                &&& files@.len() >= 2
                &&& exists|i: int|
                    0 <= i < texts@.len() && (#[trigger] texts@[i]) is None && e.doc@
                        == files.deep_view()[i] && forall|j: int| 0 <= j < i ==> texts@[j] is Some
            },
        },
{
    let ghost fv = files.deep_view();
    let ghost tv = texts_view(texts@);
    let n = files.len();
    proof {
        assert(fv.len() == files@.len());
        assert(tv.len() == texts@.len());
    }
    if n < 2 {
        let m = DistanceMatrix::new();
        proof {
            assert(matrix_model(fv, tv, 0) =~= Seq::<((Seq<char>, Seq<char>), Ratio)>::empty());
            if n == 1 {
                assert(matrix_model(fv, tv, 1) =~= matrix_model(fv, tv, 0) + row_model(
                    fv,
                    tv,
                    0,
                    1,
                ));
                assert(matrix_model(fv, tv, 1) =~= Seq::<((Seq<char>, Seq<char>), Ratio)>::empty());
            }
        }
        return Ok(m);
    }
    let mut s: usize = 0;
    while s < n
        invariant
            n >= 2,
            n == texts@.len(),
            n == files@.len(),
            fv == files.deep_view(),
            s <= n,
            forall|k: int| 0 <= k < s ==> texts@[k] is Some,
        decreases n - s,
    {
        if texts[s].is_none() {
            let failure = ExtractionFailure { doc: files[s].clone() };
            proof {
                assert(failure.doc@ == files.deep_view()[s as int]);
                assert(texts@[s as int] is None);
            }
            return Err(failure);
        }
        s = s + 1;
    }
    let mut m = DistanceMatrix::new();
    let mut i: usize = 0;
    proof {
        assert(m@ =~= matrix_model(fv, tv, 0));
    }
    while i < n
        invariant
            n == files@.len(),
            n == texts@.len(),
            n >= 2,
            fv == files.deep_view(),
            tv == texts_view(texts@),
            fv.len() == n,
            tv.len() == n,
            forall|a: int, b: int| 0 <= a < b < n ==> fv[a] != fv[b],
            forall|k: int| 0 <= k < n ==> texts@[k] is Some,
            i <= n,
            m.wf(),
            m@ == matrix_model(fv, tv, i as int),
        decreases n - i,
    {
        let mut j = i + 1;
        proof {
            assert(row_model(fv, tv, i as int, i + 1) =~= Seq::<
                ((Seq<char>, Seq<char>), Ratio),
            >::empty());
            assert(m@ =~= prefix_model(fv, tv, i as int, i + 1));
        }
        while j < n
            invariant
                n == files@.len(),
                n == texts@.len(),
                n >= 2,
                fv == files.deep_view(),
                tv == texts_view(texts@),
                fv.len() == n,
                tv.len() == n,
                forall|a: int, b: int| 0 <= a < b < n ==> fv[a] != fv[b],
                forall|k: int| 0 <= k < n ==> texts@[k] is Some,
                i < n,
                i < j <= n,
                m.wf(),
                m@ == prefix_model(fv, tv, i as int, j as int),
            decreases n - j,
        {
            let t1 = match &texts[i] {
                Some(t) => t,
                None => vstd::pervasive::unreached(),
            };
            let t2 = match &texts[j] {
                Some(t) => t,
                None => vstd::pervasive::unreached(),
            };
            let sim = jaccard_index_word(t1.as_str(), t2.as_str());
            let d = sim.one_minus();
            proof {
                assert(t1@ == tv[i as int]);
                assert(t2@ == tv[j as int]);
                assert(d.num == dist_num(tv[i as int], tv[j as int]));
                assert(d.den == sim_den(tv[i as int], tv[j as int]));
                assert(d == dist_ratio(tv[i as int], tv[j as int]));
                lemma_prefix_no_pair(fv, tv, i as int, j as int, i as int, j as int);
                assert(fv[i as int] != fv[j as int]);
            }
            m.push(files[i].clone(), files[j].clone(), d);
            proof {
                assert(row_model(fv, tv, i as int, j + 1) == row_model(fv, tv, i as int, j as int)
                    .push(((fv[i as int], fv[j as int]), dist_ratio(tv[i as int], tv[j as int]))));
                assert(m@ =~= prefix_model(fv, tv, i as int, j + 1));
            }
            j = j + 1;
        }
        proof {
            assert(matrix_model(fv, tv, i + 1) == matrix_model(fv, tv, i as int) + row_model(
                fv,
                tv,
                i as int,
                n as int,
            ));
        }
        i = i + 1;
    }
    Ok(m)
}

} // verus!
