//! Greedy diversification: turning the distance matrix into an execution
//! order.
//!
//! The selector seeds the order with the two endpoints of the most distant
//! pair (first such pair in matrix order on ties), then repeatedly sweeps
//! the matrix to relax every unselected document's candidate score (its
//! best known distance to the selected set) and appends the candidate with
//! the highest score (first such candidate in selection-state order on
//! ties). The whole algorithm is a function of the matrix alone, stated by
//! [`spec_select`]; the executable selector is proved to return exactly
//! that sequence.

use vstd::prelude::*;
use vstd::pervasive::VecAdditionalExecFns;

use crate::matrix::doc_seq;
use crate::matrix::DistanceMatrix;
use crate::ratio::Ratio;

verus! {

/// The selection state: per touched document, `None` once it is selected,
/// or `Some(score)` while it is a candidate. Entries keep insertion order.
pub open spec fn state_view(v: Vec<(String, Option<Ratio>)>) -> Seq<(Seq<char>, Option<Ratio>)> {
    Seq::new(v@.len(), |i: int| (v@[i].0@, v@[i].1))
}

/// Index of the first state entry for document `d`, or `-1` when there is
/// none.
pub open spec fn find_idx(st: Seq<(Seq<char>, Option<Ratio>)>, d: Seq<char>) -> int
    decreases st.len(),
{
    if st.len() == 0 {
        -1
    } else if st[0].0 == d {
        0
    } else {
        let r = find_idx(st.drop_first(), d);
        if r < 0 {
            -1
        } else {
            r + 1
        }
    }
}

/// `find_idx` finds the first entry for `d`, and `-1` exactly when no
/// entry exists.
pub proof fn lemma_find_idx(st: Seq<(Seq<char>, Option<Ratio>)>, d: Seq<char>)
    ensures
        find_idx(st, d) == -1 ==> forall|k: int| 0 <= k < st.len() ==> (#[trigger] st[k]).0 != d,
        find_idx(st, d) != -1 ==> 0 <= find_idx(st, d) < st.len() && st[find_idx(st, d)].0 == d
            && forall|k: int| 0 <= k < find_idx(st, d) ==> (#[trigger] st[k]).0 != d,
    decreases st.len(),
{
    if st.len() > 0 && st[0].0 != d {
        let t = st.drop_first();
        lemma_find_idx(t, d);
        if find_idx(t, d) == -1 {
            assert forall|k: int| 0 <= k < st.len() implies (#[trigger] st[k]).0 != d by {
                if k >= 1 {
                    assert(t[k - 1] == st[k]);
                    assert(t[k - 1].0 != d);
                }
            }
        } else {
            let r = find_idx(t, d);
            assert(find_idx(st, d) == r + 1);
            assert(t[r] == st[r + 1]);
            assert forall|k: int| 0 <= k < find_idx(st, d) implies (#[trigger] st[k]).0 != d by {
                if k >= 1 {
                    assert(t[k - 1] == st[k]);
                    assert(t[k - 1].0 != d);
                }
            }
        }
    }
}

/// One relaxation step against the pair `(u, v)` at distance `d`, with the
/// rule precedence of the selector: a pair with one selected endpoint
/// enrolls the untouched other endpoint at score `d`; otherwise a candidate
/// second endpoint, and only then a candidate first endpoint, lowers its
/// score to `min(score, d)`; any other pair changes nothing.
pub open spec fn relax(
    st: Seq<(Seq<char>, Option<Ratio>)>,
    e: ((Seq<char>, Seq<char>), Ratio),
) -> Seq<(Seq<char>, Option<Ratio>)> {
    let u = e.0.0;
    let v = e.0.1;
    let d = e.1;
    let iu = find_idx(st, u);
    let iv = find_idx(st, v);
    if iu >= 0 && st[iu].1 is None && iv < 0 {
        st.push((v, Some(d)))
    } else if iv >= 0 && st[iv].1 is None && iu < 0 {
        st.push((u, Some(d)))
    } else if iv >= 0 && st[iv].1 is Some {
        st.update(iv, (v, Some((st[iv].1->0).spec_min(d))))
    } else if iu >= 0 && st[iu].1 is Some {
        st.update(iu, (u, Some((st[iu].1->0).spec_min(d))))
    } else {
        st
    }
}

/// One full sweep: every matrix entry relaxed once, in matrix order.
pub open spec fn sweep(
    st: Seq<(Seq<char>, Option<Ratio>)>,
    m: Seq<((Seq<char>, Seq<char>), Ratio)>,
) -> Seq<(Seq<char>, Option<Ratio>)>
    decreases m.len(),
{
    if m.len() == 0 {
        st
    } else {
        sweep(relax(st, m[0]), m.drop_first())
    }
}

/// Index of the candidate with the highest score, earliest such entry on
/// value ties; `None` when no candidate is left.
pub open spec fn best(st: Seq<(Seq<char>, Option<Ratio>)>) -> Option<int>
    decreases st.len(),
{
    if st.len() == 0 {
        None
    } else {
        let r = best(st.drop_last());
        if st[st.len() - 1].1 is Some {
            match r {
                None => Some(st.len() - 1),
                Some(i) => if (st[i].1->0).spec_lt(st[st.len() - 1].1->0) {
                    Some(st.len() - 1)
                } else {
                    Some(i)
                },
            }
        } else {
            r
        }
    }
}

/// A chosen best index is in range and names a candidate.
pub proof fn lemma_best_in_range(st: Seq<(Seq<char>, Option<Ratio>)>)
    ensures
        best(st) matches Some(i) ==> 0 <= i < st.len() && st[i].1 is Some,
    decreases st.len(),
{
    if st.len() > 0 {
        lemma_best_in_range(st.drop_last());
    }
}

/// Index of the first entry holding the maximum distance of the matrix:
/// a later entry replaces the running maximum only when strictly greater.
pub open spec fn seed_idx(m: Seq<((Seq<char>, Seq<char>), Ratio)>) -> int
    decreases m.len(),
{
    if m.len() <= 1 {
        0
    } else {
        let r = seed_idx(m.drop_last());
        if (m[r].1).spec_lt(m[m.len() - 1].1) {
            m.len() - 1
        } else {
            r
        }
    }
}

/// The seed index is in range.
pub proof fn lemma_seed_in_range(m: Seq<((Seq<char>, Seq<char>), Ratio)>)
    requires
        m.len() > 0,
    ensures
        0 <= seed_idx(m) < m.len(),
    decreases m.len(),
{
    if m.len() > 1 {
        lemma_seed_in_range(m.drop_last());
    }
}

/// The selection rounds: sweep, append the best candidate, mark it
/// selected; stop when no candidate remains or the fuel is exhausted
/// (the fuel is an upper bound on the number of rounds, one per document).
pub open spec fn select_loop(
    st: Seq<(Seq<char>, Option<Ratio>)>,
    m: Seq<((Seq<char>, Seq<char>), Ratio)>,
    acc: Seq<Seq<char>>,
    fuel: nat,
) -> Seq<Seq<char>>
    decreases fuel,
{
    if fuel == 0 {
        acc
    } else {
        let st1 = sweep(st, m);
        match best(st1) {
            None => acc,
            Some(i) => select_loop(
                st1.update(i, (st1[i].0, None)),
                m,
                acc.push(st1[i].0),
                (fuel - 1) as nat,
            ),
        }
    }
}

/// The execution order the selector produces for a non-empty matrix: the
/// endpoints of the first maximum-distance pair, followed by the selection
/// rounds.
pub open spec fn spec_select(m: Seq<((Seq<char>, Seq<char>), Ratio)>) -> Seq<Seq<char>> {
    let s = seed_idx(m);
    let a = m[s].0.0;
    let b = m[s].0.1;
    select_loop(
        seq![(a, Option::<Ratio>::None), (b, Option::<Ratio>::None)],
        m,
        seq![a, b],
        doc_seq(m).len(),
    )
}

/// The selector fails only on an empty matrix.
#[derive(Clone, Copy, Debug, PartialEq, Eq, Structural)]
pub enum SelectError {
    EmptyMatrix,
}

/// Whether some state entry is for document `d`; result tied to `find_idx`.
fn find_doc(st: &Vec<(String, Option<Ratio>)>, d: &String) -> (r: Option<usize>)
    ensures
        match r {
            Some(i) => i < st@.len() && find_idx(state_view(*st), d@) == i,
            None => find_idx(state_view(*st), d@) == -1,
        },
{
    let ghost sv = state_view(*st);
    let mut i: usize = 0;
    while i < st.len()
        invariant
            sv == state_view(*st),
            sv.len() == st@.len(),
            i <= st@.len(),
            forall|k: int| 0 <= k < i ==> (#[trigger] sv[k]).0 != d@,
        decreases st@.len() - i,
    {
        if st[i].0.eq(d) {
            proof {
                lemma_find_idx(sv, d@);
                assert(sv[i as int].0 == d@);
            }
            return Some(i);
        }
        i = i + 1;
    }
    proof {
        lemma_find_idx(sv, d@);
        if find_idx(sv, d@) != -1 {
            assert(sv[find_idx(sv, d@)].0 == d@);
        }
    }
    None
}

/// Applies one relaxation step to the state, implementing `relax`.
fn relax_step(st: Vec<(String, Option<Ratio>)>, a: &String, b: &String, d: Ratio) -> (r: Vec<
    (String, Option<Ratio>),
>)
    ensures
        state_view(r) == relax(state_view(st), ((a@, b@), d)),
{
    let ghost sv = state_view(st);
    let mut st = st;
    let i1 = find_doc(&st, a);
    let i2 = find_doc(&st, b);
    let sel1 = match i1 {
        Some(i) => st[i].1.is_none(),
        None => false,
    };
    let sel2 = match i2 {
        Some(i) => st[i].1.is_none(),
        None => false,
    };
    if sel1 && i2.is_none() {
        st.push((b.clone(), Some(d)));
        proof {
            assert(state_view(st) =~= sv.push((b@, Some(d))));
        }
    } else if sel2 && i1.is_none() {
        st.push((a.clone(), Some(d)));
        proof {
            assert(state_view(st) =~= sv.push((a@, Some(d))));
        }
    } else if i2.is_some() && st[i2.unwrap()].1.is_some() {
        let i = i2.unwrap();
        let cur = st[i].1.unwrap();
        st.set(i, (b.clone(), Some(cur.min_with(d))));
        proof {
            assert(state_view(st) =~= sv.update(i as int, (b@, Some(cur.spec_min(d)))));
        }
    } else if i1.is_some() && st[i1.unwrap()].1.is_some() {
        let i = i1.unwrap();
        let cur = st[i].1.unwrap();
        st.set(i, (a.clone(), Some(cur.min_with(d))));
        proof {
            assert(state_view(st) =~= sv.update(i as int, (a@, Some(cur.spec_min(d)))));
        }
    } else {
        proof {
            assert(state_view(st) =~= sv);
        }
    }
    st
}

/// Sweeps the whole matrix once over the state, implementing `sweep`.
fn sweep_exec(m: &DistanceMatrix, st: Vec<(String, Option<Ratio>)>) -> (r: Vec<
    (String, Option<Ratio>),
>)
    ensures
        state_view(r) == sweep(state_view(st), m@),
{
    let ghost sv0 = state_view(st);
    let mut st = st;
    let mut k: usize = 0;
    proof {
        assert(m@.skip(0) =~= m@);
    }
    while k < m.entries.len()
        invariant
            m@.len() == m.entries@.len(),
            k <= m.entries@.len(),
            sweep(sv0, m@) == sweep(state_view(st), m@.skip(k as int)),
        decreases m.entries@.len() - k,
    {
        let e = &m.entries[k];
        proof {
            assert(m@.skip(k as int).len() > 0);
            assert(m@.skip(k as int)[0] == m@[k as int]);
            assert(m@.skip(k as int).drop_first() =~= m@.skip(k + 1));
            assert(m@[k as int] == ((e.0.0@, e.0.1@), e.1));
        }
        st = relax_step(st, &e.0.0, &e.0.1, e.1);
        k = k + 1;
    }
    proof {
        assert(m@.skip(m@.len() as int) =~= Seq::<((Seq<char>, Seq<char>), Ratio)>::empty());
    }
    st
}

/// Finds the best candidate of the state, implementing `best`.
fn find_best(st: &Vec<(String, Option<Ratio>)>) -> (r: Option<usize>)
    ensures
        match r {
            Some(i) => i < st@.len() && best(state_view(*st)) == Some(i as int),
            None => best(state_view(*st)) is None,
        },
{
    let ghost sv = state_view(*st);
    let mut run: Option<(usize, Ratio)> = None;
    let mut k: usize = 0;
    proof {
        assert(sv.take(0) =~= Seq::<(Seq<char>, Option<Ratio>)>::empty());
    }
    while k < st.len()
        invariant
            sv == state_view(*st),
            sv.len() == st@.len(),
            k <= st@.len(),
            match run {
                None => best(sv.take(k as int)) is None,
                Some((bi, bv)) => bi < k && best(sv.take(k as int)) == Some(bi as int)
                    && sv[bi as int].1 == Some(bv),
            },
        decreases st@.len() - k,
    {
        proof {
            assert(sv.take(k + 1).drop_last() =~= sv.take(k as int));
            assert(sv.take(k + 1)[k as int] == sv[k as int]);
        }
        match st[k].1 {
            Some(v) => {
                match run {
                    None => {
                        run = Some((k, v));
                    },
                    Some((bi, bv)) => {
                        if bv.lt(v) {
                            run = Some((k, v));
                        }
                    },
                }
            },
            None => {},
        }
        k = k + 1;
    }
    proof {
        assert(sv.take(sv.len() as int) =~= sv);
    }
    match run {
        Some((bi, _)) => Some(bi),
        None => None,
    }
}

/// Finds the first index holding the maximum distance, implementing
/// `seed_idx`.
fn find_seed(m: &DistanceMatrix) -> (s: usize)
    requires
        m@.len() > 0,
    ensures
        s < m@.len(),
        s == seed_idx(m@),
{
    let ghost mv = m@;
    let mut s: usize = 0;
    let mut sval: Ratio = m.entries[0].1;
    let mut k: usize = 1;
    proof {
        assert(mv.take(1).len() == 1);
        assert(mv.take(1)[0] == mv[0]);
        assert(mv[0].1 == m.entries@[0].1);
    }
    while k < m.entries.len()
        invariant
            mv == m@,
            mv.len() == m.entries@.len(),
            1 <= k <= mv.len(),
            s < k,
            s == seed_idx(mv.take(k as int)),
            sval == mv[s as int].1,
        decreases mv.len() - k,
    {
        let v = m.entries[k].1;
        proof {
            assert(mv.take(k + 1).drop_last() =~= mv.take(k as int));
            assert(mv.take(k + 1)[k as int] == mv[k as int]);
            assert(mv[k as int].1 == m.entries@[k as int].1);
            lemma_seed_in_range(mv.take(k + 1));
            assert(forall|x: int| 0 <= x < k ==> mv.take(k + 1)[x] == mv.take(k as int)[x]);
        }
        if sval.lt(v) {
            s = k;
            sval = v;
        }
        k = k + 1;
    }
    proof {
        assert(mv.take(mv.len() as int) =~= mv);
    }
    s
}

/// Collects the documents referenced by the matrix, in first-occurrence
/// order, implementing `doc_seq`.
fn collect_docs(m: &DistanceMatrix) -> (docs: Vec<String>)
    ensures
        docs.deep_view() == doc_seq(m@),
{
    let ghost mv = m@;
    let mut docs: Vec<String> = Vec::new();
    let mut k: usize = 0;
    proof {
        assert(mv.skip(0) =~= mv);
        assert(docs.deep_view() =~= Seq::<Seq<char>>::empty());
    }
    while k < m.entries.len()
        invariant
            mv == m@,
            mv.len() == m.entries@.len(),
            k <= mv.len(),
            doc_seq(mv) == crate::matrix::doc_seq_from(docs.deep_view(), mv.skip(k as int)),
        decreases mv.len() - k,
    {
        let e = &m.entries[k];
        proof {
            assert(mv.skip(k as int).len() > 0);
            assert(mv.skip(k as int)[0] == mv[k as int]);
            assert(mv.skip(k as int).drop_first() =~= mv.skip(k + 1));
            assert(mv[k as int].0.0 == e.0.0@);
            assert(mv[k as int].0.1 == e.0.1@);
        }
        let ghost before = docs.deep_view();
        if !crate::jaccard::contains_token(&docs, &e.0.0) {
            docs.push(e.0.0.clone());
            proof {
                assert(docs.deep_view() =~= before.push(e.0.0@));
            }
        }
        proof {
            assert(docs.deep_view() == crate::matrix::insert_doc(before, mv[k as int].0.0));
        }
        let ghost mid = docs.deep_view();
        if !crate::jaccard::contains_token(&docs, &e.0.1) {
            docs.push(e.0.1.clone());
            proof {
                assert(docs.deep_view() =~= mid.push(e.0.1@));
            }
        }
        proof {
            assert(docs.deep_view() == crate::matrix::insert_doc(mid, mv[k as int].0.1));
        }
        k = k + 1;
    }
    proof {
        assert(mv.skip(mv.len() as int) =~= Seq::<((Seq<char>, Seq<char>), Ratio)>::empty());
    }
    docs
}

/// Orders all documents referenced by the matrix, most diverse first:
/// exactly the sequence `spec_select` describes. Fails if and only if the
/// matrix is empty, there being no seed pair to start from.
pub fn prioritize_distances(m: &DistanceMatrix) -> (r: Result<Vec<String>, SelectError>)
    ensures
        match r {
            Ok(v) => m@.len() > 0 && v.deep_view() == spec_select(m@),
            Err(e) => m@.len() == 0 && e == SelectError::EmptyMatrix,
        },
{
    if m.len() == 0 {
        return Err(SelectError::EmptyMatrix);
    }
    let docs = collect_docs(m);
    let seed = find_seed(m);
    let a = m.entries[seed].0.0.clone();
    let b = m.entries[seed].0.1.clone();
    proof {
        assert(a@ == m@[seed as int].0.0);
        assert(b@ == m@[seed as int].0.1);
    }
    let mut st: Vec<(String, Option<Ratio>)> = Vec::new();
    st.push((a.clone(), None));
    st.push((b.clone(), None));
    let mut prio: Vec<String> = Vec::new();
    prio.push(a);
    prio.push(b);
    let mut fuel: usize = docs.len();
    proof {
        assert(state_view(st) =~= seq![
            (m@[seed_idx(m@)].0.0, Option::<Ratio>::None),
            (m@[seed_idx(m@)].0.1, Option::<Ratio>::None),
        ]);
        assert(prio.deep_view() =~= seq![m@[seed_idx(m@)].0.0, m@[seed_idx(m@)].0.1]);
        assert(fuel == doc_seq(m@).len());
    }
    let mut done = false;
    while !done && fuel > 0
        invariant
            spec_select(m@) == if done {
                prio.deep_view()
            } else {
                select_loop(state_view(st), m@, prio.deep_view(), fuel as nat)
            },
        decreases fuel, if done {
            0int
        } else {
            1int
        },
    {
        let ghost pre = state_view(st);
        st = sweep_exec(m, st);
        proof {
            lemma_best_in_range(state_view(st));
        }
        match find_best(&st) {
            None => {
                done = true;
            },
            Some(bi) => {
                let ghost st1 = state_view(st);
                let doc = st[bi].0.clone();
                proof {
                    assert(doc@ == st1[bi as int].0);
                }
                st.set(bi, (doc.clone(), None));
                let ghost before = prio.deep_view();
                prio.push(doc);
                proof {
                    assert(state_view(st) =~= st1.update(
                        bi as int,
                        (st1[bi as int].0, Option::<Ratio>::None),
                    ));
                    assert(prio.deep_view() =~= before.push(st1[bi as int].0));
                }
                fuel = fuel - 1;
            },
        }
    }
    Ok(prio)
}

} // verus!
