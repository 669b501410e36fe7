//! The selector covers every document: over a complete matrix, the
//! priority list is a permutation of all referenced documents.

use vstd::prelude::*;

use crate::matrix::complete;
use crate::matrix::doc_seq;
use crate::matrix::doc_set;
use crate::matrix::lemma_doc_seq_from_contains;
use crate::matrix::same_pair;
use crate::prio::best;
use crate::prio::find_idx;
use crate::prio::lemma_best_in_range;
use crate::prio::lemma_find_idx;
use crate::prio::relax;
use crate::prio::select_loop;
use crate::prio::spec_select;
use crate::prio::sweep;
use crate::ratio::Ratio;

verus! {

/// The state has an entry for document `d`.
pub open spec fn is_present(st: Seq<(Seq<char>, Option<Ratio>)>, d: Seq<char>) -> bool {
    find_idx(st, d) >= 0
}

/// Document `d` is marked selected in the state.
pub open spec fn is_selected(st: Seq<(Seq<char>, Option<Ratio>)>, d: Seq<char>) -> bool {
    find_idx(st, d) >= 0 && st[find_idx(st, d)].1 is None
}

/// No document has two state entries.
pub open spec fn keys_distinct(st: Seq<(Seq<char>, Option<Ratio>)>) -> bool {
    forall|k: int, l: int| 0 <= k < l < st.len() ==> (#[trigger] st[k]).0 != (#[trigger] st[l]).0
}

/// Appending an entry leaves existing lookups untouched and makes the new
/// key found at the end.
proof fn lemma_find_idx_push(
    st: Seq<(Seq<char>, Option<Ratio>)>,
    en: (Seq<char>, Option<Ratio>),
    d: Seq<char>,
)
    ensures
        find_idx(st, d) >= 0 ==> find_idx(st.push(en), d) == find_idx(st, d),
        find_idx(st, d) == -1 && en.0 == d ==> find_idx(st.push(en), d) == st.len(),
        find_idx(st, d) == -1 && en.0 != d ==> find_idx(st.push(en), d) == -1,
    decreases st.len(),
{
    if st.len() == 0 {
        assert(st.push(en).len() == 1 && st.push(en)[0] == en);
        assert(st.push(en).drop_first() =~= Seq::<(Seq<char>, Option<Ratio>)>::empty());
        assert(find_idx(Seq::<(Seq<char>, Option<Ratio>)>::empty(), d) == -1);
    } else {
        assert(st.push(en)[0] == st[0]);
        if st[0].0 != d {
            assert(st.push(en).drop_first() =~= st.drop_first().push(en));
            lemma_find_idx_push(st.drop_first(), en, d);
        }
    }
}

/// Two states with the same keys in the same places agree on lookups.
proof fn lemma_find_idx_same_keys(
    s1: Seq<(Seq<char>, Option<Ratio>)>,
    s2: Seq<(Seq<char>, Option<Ratio>)>,
    d: Seq<char>,
)
    requires
        s1.len() == s2.len(),
        forall|k: int| 0 <= k < s1.len() ==> (#[trigger] s1[k]).0 == s2[k].0,
    ensures
        find_idx(s1, d) == find_idx(s2, d),
    decreases s1.len(),
{
    if s1.len() > 0 {
        assert(s1[0].0 == s2[0].0);
        if s1[0].0 != d {
            assert(forall|k: int|
                0 <= k < s1.drop_first().len() ==> (#[trigger] s1.drop_first()[k]).0
                    == s2.drop_first()[k].0);
            lemma_find_idx_same_keys(s1.drop_first(), s2.drop_first(), d);
        }
    }
}

/// With distinct keys, looking up the key stored at `k` gives `k`.
proof fn lemma_find_idx_at(st: Seq<(Seq<char>, Option<Ratio>)>, k: int)
    requires
        keys_distinct(st),
        0 <= k < st.len(),
    ensures
        find_idx(st, st[k].0) == k,
{
    let d = st[k].0;
    lemma_find_idx(st, d);
    if find_idx(st, d) == -1 {
        assert(st[k].0 != d);
    } else {
        let r = find_idx(st, d);
        if r < k {
            assert(st[r].0 != st[k].0);
        }
        if r > k {
            assert(st[k].0 != d);
        }
    }
}

/// What one relaxation step does to lookups: keys stay distinct, existing
/// entries keep their key and position, the selected set is unchanged,
/// present documents stay present, and a pair with one selected endpoint
/// leaves the other endpoint present.
proof fn lemma_relax_props(st: Seq<(Seq<char>, Option<Ratio>)>, e: ((Seq<char>, Seq<char>), Ratio))
    requires
        keys_distinct(st),
    ensures
        keys_distinct(relax(st, e)),
        st.len() <= relax(st, e).len(),
        forall|k: int| 0 <= k < st.len() ==> (#[trigger] relax(st, e)[k]).0 == st[k].0,
        forall|k: int|
            st.len() <= k < relax(st, e).len() ==> (#[trigger] relax(st, e)[k]).0 == e.0.0 || relax(
                st,
                e,
            )[k].0 == e.0.1,
        forall|d: Seq<char>| #[trigger] is_selected(relax(st, e), d) == is_selected(st, d),
        forall|d: Seq<char>| is_present(st, d) ==> #[trigger] is_present(relax(st, e), d),
        is_selected(st, e.0.0) ==> is_present(relax(st, e), e.0.1),
        is_selected(st, e.0.1) ==> is_present(relax(st, e), e.0.0),
{
    let u = e.0.0;
    let v = e.0.1;
    let iu = find_idx(st, u);
    let iv = find_idx(st, v);
    lemma_find_idx(st, u);
    lemma_find_idx(st, v);
    let r = relax(st, e);
    if iu >= 0 && st[iu].1 is None && iv < 0 {
        let en = (v, Some(e.1));
        assert(r == st.push(en));
        assert forall|d: Seq<char>| #[trigger] is_selected(r, d) == is_selected(st, d) by {
            lemma_find_idx_push(st, en, d);
            lemma_find_idx(st, d);
            if find_idx(st, d) == -1 && d == v {
                assert(r[st.len() as int].1 is Some);
            }
        }
        assert forall|d: Seq<char>| is_present(st, d) implies #[trigger] is_present(r, d) by {
            lemma_find_idx_push(st, en, d);
        }
        assert(keys_distinct(r)) by {
            assert(forall|k: int| 0 <= k < st.len() ==> (#[trigger] st[k]).0 != v);
        }
        lemma_find_idx_push(st, en, v);
        assert(is_present(r, v));
    } else if iv >= 0 && st[iv].1 is None && iu < 0 {
        let en = (u, Some(e.1));
        assert(r == st.push(en));
        assert forall|d: Seq<char>| #[trigger] is_selected(r, d) == is_selected(st, d) by {
            lemma_find_idx_push(st, en, d);
            lemma_find_idx(st, d);
            if find_idx(st, d) == -1 && d == u {
                assert(r[st.len() as int].1 is Some);
            }
        }
        assert forall|d: Seq<char>| is_present(st, d) implies #[trigger] is_present(r, d) by {
            lemma_find_idx_push(st, en, d);
        }
        assert(keys_distinct(r)) by {
            assert(forall|k: int| 0 <= k < st.len() ==> (#[trigger] st[k]).0 != u);
        }
        lemma_find_idx_push(st, en, u);
        assert(is_present(r, u));
    } else if iv >= 0 && st[iv].1 is Some {
        assert(st[iv].0 == v);
        assert(r == st.update(iv, (v, Some((st[iv].1->0).spec_min(e.1)))));
        assert(forall|k: int| 0 <= k < st.len() ==> (#[trigger] r[k]).0 == st[k].0);
        assert forall|d: Seq<char>| #[trigger] is_selected(r, d) == is_selected(st, d) by {
            lemma_find_idx_same_keys(st, r, d);
            lemma_find_idx(st, d);
            if find_idx(st, d) >= 0 && find_idx(st, d) != iv {
                assert(r[find_idx(st, d)] == st[find_idx(st, d)]);
            }
        }
        assert forall|d: Seq<char>| is_present(st, d) implies #[trigger] is_present(r, d) by {
            lemma_find_idx_same_keys(st, r, d);
        }
        if is_selected(st, u) {
            lemma_find_idx_same_keys(st, r, v);
        }
        if is_selected(st, v) {
            assert(st[iv].1 is Some);
        }
    } else if iu >= 0 && st[iu].1 is Some {
        assert(st[iu].0 == u);
        assert(r == st.update(iu, (u, Some((st[iu].1->0).spec_min(e.1)))));
        assert(forall|k: int| 0 <= k < st.len() ==> (#[trigger] r[k]).0 == st[k].0);
        assert forall|d: Seq<char>| #[trigger] is_selected(r, d) == is_selected(st, d) by {
            lemma_find_idx_same_keys(st, r, d);
            lemma_find_idx(st, d);
            if find_idx(st, d) >= 0 && find_idx(st, d) != iu {
                assert(r[find_idx(st, d)] == st[find_idx(st, d)]);
            }
        }
        assert forall|d: Seq<char>| is_present(st, d) implies #[trigger] is_present(r, d) by {
            lemma_find_idx_same_keys(st, r, d);
        }
        if is_selected(st, u) {
            assert(st[iu].1 is Some);
        }
        if is_selected(st, v) {
            lemma_find_idx_same_keys(st, r, u);
        }
    } else {
        assert(r == st);
        if is_selected(st, u) {
            assert(iu >= 0 && st[iu].1 is None);
            assert(iv >= 0);
        }
        if is_selected(st, v) {
            assert(iv >= 0 && st[iv].1 is None);
            assert(iu >= 0);
        }
    }
}

/// A sweep keeps keys distinct, never removes an entry, leaves the
/// selected set unchanged, and keeps present documents present.
proof fn lemma_sweep_preserves(
    st: Seq<(Seq<char>, Option<Ratio>)>,
    mm: Seq<((Seq<char>, Seq<char>), Ratio)>,
)
    requires
        keys_distinct(st),
    ensures
        keys_distinct(sweep(st, mm)),
        forall|d: Seq<char>| #[trigger] is_selected(sweep(st, mm), d) == is_selected(st, d),
        forall|d: Seq<char>| is_present(st, d) ==> #[trigger] is_present(sweep(st, mm), d),
    decreases mm.len(),
{
    if mm.len() > 0 {
        lemma_relax_props(st, mm[0]);
        lemma_sweep_preserves(relax(st, mm[0]), mm.drop_first());
    }
}

/// After a sweep, every state key is a document of the matrix, provided
/// all keys were documents before.
proof fn lemma_sweep_keys(
    st: Seq<(Seq<char>, Option<Ratio>)>,
    mm: Seq<((Seq<char>, Seq<char>), Ratio)>,
    dset: Set<Seq<char>>,
)
    requires
        keys_distinct(st),
        forall|k: int| 0 <= k < st.len() ==> dset.contains((#[trigger] st[k]).0),
        forall|k: int|
            0 <= k < mm.len() ==> dset.contains((#[trigger] mm[k]).0.0) && dset.contains(
                mm[k].0.1,
            ),
    ensures
        forall|k: int| 0 <= k < sweep(st, mm).len() ==> dset.contains((#[trigger] sweep(st, mm)[k]).0),
    decreases mm.len(),
{
    if mm.len() == 0 {
        assert(sweep(st, mm) == st);
    } else {
        lemma_relax_props(st, mm[0]);
        let st1 = relax(st, mm[0]);
        assert(forall|k: int| 0 <= k < st1.len() ==> dset.contains((#[trigger] st1[k]).0));
        assert forall|k: int|
            0 <= k < mm.drop_first().len() implies dset.contains(
            (#[trigger] mm.drop_first()[k]).0.0,
        ) && dset.contains(mm.drop_first()[k].0.1) by {
            assert(mm.drop_first()[k] == mm[k + 1]);
        }
        lemma_sweep_keys(st1, mm.drop_first(), dset);
        assert(sweep(st, mm) == sweep(st1, mm.drop_first()));
    }
}

/// A pair with a selected endpoint leaves its other endpoint present after
/// the sweep that processes it.
proof fn lemma_sweep_reaches(
    st: Seq<(Seq<char>, Option<Ratio>)>,
    mm: Seq<((Seq<char>, Seq<char>), Ratio)>,
    k: int,
    s: Seq<char>,
    d: Seq<char>,
)
    requires
        keys_distinct(st),
        0 <= k < mm.len(),
        is_selected(st, s),
        (mm[k].0.0 == s && mm[k].0.1 == d) || (mm[k].0.0 == d && mm[k].0.1 == s),
    ensures
        is_present(sweep(st, mm), d),
    decreases mm.len(),
{
    lemma_relax_props(st, mm[0]);
    let st1 = relax(st, mm[0]);
    if k == 0 {
        assert(is_present(st1, d));
        lemma_sweep_preserves(st1, mm.drop_first());
    } else {
        assert(mm.drop_first()[k - 1] == mm[k]);
        lemma_sweep_reaches(st1, mm.drop_first(), k - 1, s, d);
    }
}

/// When no best candidate exists, every entry is marked selected.
proof fn lemma_best_none(st: Seq<(Seq<char>, Option<Ratio>)>)
    ensures
        best(st) is None ==> forall|i: int| 0 <= i < st.len() ==> (#[trigger] st[i]).1 is None,
    decreases st.len(),
{
    if st.len() > 0 {
        lemma_best_none(st.drop_last());
        if best(st) is None {
            assert(best(st.drop_last()) is None);
            assert(st[st.len() - 1].1 is None);
            assert forall|i: int| 0 <= i < st.len() implies (#[trigger] st[i]).1 is None by {
                if i < st.len() - 1 {
                    assert(st.drop_last()[i] == st[i]);
                    assert(st.drop_last()[i].1 is None);
                }
            }
        }
    }
}

/// The selection rounds end with an order that lists every document of a
/// complete matrix exactly once, extending the accumulated order.
proof fn lemma_select_loop_perm(
    st: Seq<(Seq<char>, Option<Ratio>)>,
    m: Seq<((Seq<char>, Seq<char>), Ratio)>,
    acc: Seq<Seq<char>>,
    fuel: nat,
)
    requires
        doc_seq(m).no_duplicates(),
        complete(m),
        keys_distinct(st),
        forall|k: int| 0 <= k < st.len() ==> doc_set(m).contains((#[trigger] st[k]).0),
        acc.no_duplicates(),
        acc.len() > 0,
        forall|d: Seq<char>|
            #[trigger] doc_set(m).contains(d) ==> (is_selected(st, d) <==> acc.contains(d)),
        forall|k: int| 0 <= k < acc.len() ==> doc_set(m).contains(#[trigger] acc[k]),
        fuel + acc.len() >= doc_seq(m).len() + 1,
    ensures
        select_loop(st, m, acc, fuel).no_duplicates(),
        select_loop(st, m, acc, fuel).to_set() =~= doc_set(m),
        select_loop(st, m, acc, fuel).len() == doc_seq(m).len(),
    decreases fuel,
{
    broadcast use vstd::seq_lib::seq_to_set_is_finite;

    let n = doc_seq(m).len();
    doc_seq(m).unique_seq_to_set();
    acc.unique_seq_to_set();
    vstd::set_lib::lemma_len_subset(acc.to_set(), doc_set(m));
    assert(acc.len() <= n);
    lemma_doc_seq_from_contains(Seq::empty(), m);
    if fuel == 0 {
        assert(false);
    } else {
        lemma_sweep_preserves(st, m);
        lemma_sweep_keys(st, m, doc_set(m));
        let st1 = sweep(st, m);
        lemma_best_in_range(st1);
        match best(st1) {
            None => {
                lemma_best_none(st1);
                assert forall|d: Seq<char>| #[trigger] doc_set(m).contains(d) implies acc.contains(
                    d,
                ) by {
                    if !acc.contains(d) {
                        let s = acc[0];
                        assert(acc.contains(s));
                        assert(doc_set(m).contains(s));
                        assert(d != s);
                        assert(is_selected(st, s));
                        let k = choose|k: int|
                            0 <= k < m.len() && same_pair((#[trigger] m[k]).0, (d, s));
                        assert(same_pair(m[k].0, (d, s)));
                        lemma_sweep_reaches(st, m, k, s, d);
                        let i = find_idx(st1, d);
                        lemma_find_idx(st1, d);
                        assert(st1[i].1 is None);
                        assert(is_selected(st1, d));
                        assert(is_selected(st, d));
                    }
                }
                assert(acc.to_set() =~= doc_set(m));
                assert(acc.len() == n);
            },
            Some(i) => {
                let doc = st1[i].0;
                lemma_find_idx_at(st1, i);
                assert(!is_selected(st1, doc));
                assert(doc_set(m).contains(doc));
                assert(!acc.contains(doc));
                let acc2 = acc.push(doc);
                let st2 = st1.update(i, (doc, None));
                assert(acc2.no_duplicates()) by {
                    assert(forall|x: int| 0 <= x < acc.len() ==> acc2[x] == (#[trigger] acc[x]));
                    assert(acc2[acc.len() as int] == doc);
                }
                assert(keys_distinct(st2) && forall|k: int|
                    0 <= k < st2.len() ==> doc_set(m).contains((#[trigger] st2[k]).0)) by {
                    assert(forall|k: int| 0 <= k < st1.len() ==> (#[trigger] st2[k]).0 == st1[k].0);
                }
                assert forall|d: Seq<char>| #[trigger] doc_set(m).contains(d) implies (is_selected(
                    st2,
                    d,
                ) <==> acc2.contains(d)) by {
                    lemma_find_idx_same_keys(st1, st2, d);
                    lemma_find_idx(st1, d);
                    if d == doc {
                        assert(find_idx(st2, d) == i);
                        assert(st2[i].1 is None);
                        assert(acc2[acc.len() as int] == doc);
                    } else {
                        if find_idx(st1, d) >= 0 {
                            assert(find_idx(st1, d) != i) by {
                                if find_idx(st1, d) == i {
                                    assert(st1[i].0 == d);
                                }
                            }
                            assert(st2[find_idx(st1, d)] == st1[find_idx(st1, d)]);
                        }
                        assert(is_selected(st2, d) == is_selected(st1, d));
                        assert(acc2.contains(d) == acc.contains(d)) by {
                            if acc2.contains(d) {
                                let x = choose|x: int| 0 <= x < acc2.len() && acc2[x] == d;
                                assert(x < acc.len() && acc[x] == d);
                            }
                            if acc.contains(d) {
                                let x = choose|x: int| 0 <= x < acc.len() && acc[x] == d;
                                assert(acc2[x] == d);
                            }
                        }
                    }
                }
                assert(forall|k: int|
                    0 <= k < acc2.len() ==> doc_set(m).contains(#[trigger] acc2[k]));
                lemma_select_loop_perm(st2, m, acc2, (fuel - 1) as nat);
                assert(select_loop(st, m, acc, fuel) == select_loop(st2, m, acc2, (fuel - 1) as nat));
            },
        }
    }
}

/// Completeness of the order: over a complete matrix the selector's order
/// lists every referenced document exactly once, a permutation of the
/// matrix's document sequence.
pub proof fn lemma_priority_list_permutation(m: Seq<((Seq<char>, Seq<char>), Ratio)>)
    requires
        m.len() > 0,
        complete(m),
        forall|k: int| 0 <= k < m.len() ==> (#[trigger] m[k]).0.0 != m[k].0.1,
    ensures
        spec_select(m).no_duplicates(),
        spec_select(m).to_set() =~= doc_set(m),
        spec_select(m).len() == doc_seq(m).len(),
{
    crate::matrix::lemma_doc_seq_from_nodup(Seq::empty(), m);
    crate::prio::lemma_seed_in_range(m);
    let s = crate::prio::seed_idx(m);
    let a = m[s].0.0;
    let b = m[s].0.1;
    assert(a != b);
    let st0 = seq![(a, Option::<Ratio>::None), (b, Option::<Ratio>::None)];
    let acc0 = seq![a, b];
    lemma_doc_seq_from_contains(Seq::empty(), m);
    assert(doc_seq(m).contains(a) && doc_seq(m).contains(b));
    assert(st0.len() == 2 && st0[0] == (a, Option::<Ratio>::None) && st0[1] == (
        b,
        Option::<Ratio>::None,
    ));
    assert(keys_distinct(st0));
    assert(find_idx(st0, a) == 0);
    assert(st0.drop_first() =~= seq![(b, Option::<Ratio>::None)]);
    assert(find_idx(st0.drop_first(), b) == 0);
    assert(find_idx(st0, b) == 1);
    assert(is_selected(st0, a) && is_selected(st0, b));
    assert(acc0.len() == 2 && acc0[0] == a && acc0[1] == b);
    assert(acc0.no_duplicates());
    assert forall|d: Seq<char>| #[trigger] doc_set(m).contains(d) implies (is_selected(st0, d)
        <==> acc0.contains(d)) by {
        if d == a || d == b {
            assert(is_selected(st0, d));
            assert(acc0.contains(d));
        } else {
            lemma_find_idx(st0, d);
            if find_idx(st0, d) >= 0 {
                assert(st0[find_idx(st0, d)].0 == d);
            }
            assert(!is_selected(st0, d));
            if acc0.contains(d) {
                let x = choose|x: int| 0 <= x < acc0.len() && acc0[x] == d;
                assert(x == 0 || x == 1);
            }
        }
    }
    assert(forall|k: int| 0 <= k < acc0.len() ==> doc_set(m).contains(#[trigger] acc0[k]));
    assert(forall|k: int| 0 <= k < st0.len() ==> doc_set(m).contains((#[trigger] st0[k]).0));
    let n = doc_seq(m).len();
    assert(n >= 2) by {
        broadcast use vstd::seq_lib::seq_to_set_is_finite;

        acc0.unique_seq_to_set();
        vstd::set_lib::lemma_len_subset(acc0.to_set(), doc_set(m));
        doc_seq(m).unique_seq_to_set();
    }
    lemma_select_loop_perm(st0, m, acc0, n);
}

} // verus!
