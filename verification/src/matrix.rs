//! The pairwise distance matrix.
//!
//! An insertion-ordered mapping from unordered pairs of documents to their
//! distance. A document is identified by its textual path. The matrix is a
//! sequence of entries whose invariant says that the two endpoints of every
//! pair differ and that no unordered pair occurs twice; downstream code
//! relies on the iteration order, so the order of insertion is kept.

use vstd::prelude::*;

use crate::ratio::Ratio;

verus! {

/// `p` and `q` name the same unordered pair of documents.
pub open spec fn same_pair(p: (Seq<char>, Seq<char>), q: (Seq<char>, Seq<char>)) -> bool {
    (p.0 == q.0 && p.1 == q.1) || (p.0 == q.1 && p.1 == q.0)
}

/// An insertion-ordered mapping from unordered document pairs to distances.
#[derive(Debug)]
pub struct DistanceMatrix {
    pub entries: Vec<((String, String), Ratio)>,
}

impl View for DistanceMatrix {
    type V = Seq<((Seq<char>, Seq<char>), Ratio)>;

    open spec fn view(&self) -> Seq<((Seq<char>, Seq<char>), Ratio)> {
        Seq::new(
            self.entries@.len(),
            |i: int| ((self.entries@[i].0.0@, self.entries@[i].0.1@), self.entries@[i].1),
        )
    }
}

impl DistanceMatrix {
    /// The matrix invariant: distances lie in `[0, 1]`, both endpoints of a
    /// pair differ, and every unordered pair occurs at most once.
    pub open spec fn wf(self) -> bool {
        &&& forall|k: int|
            0 <= k < self@.len() ==> (#[trigger] self@[k]).0.0 != self@[k].0.1 && self@[k].1.wf()
        &&& forall|k: int, l: int|
            0 <= k < l < self@.len() ==> !same_pair(self@[k].0, self@[l].0)
    }

    /// An empty matrix.
    pub fn new() -> (m: DistanceMatrix)
        ensures
            m@ =~= Seq::<((Seq<char>, Seq<char>), Ratio)>::empty(),
            m.wf(),
    {
        DistanceMatrix { entries: Vec::new() }
    }

    /// Number of pairs in the matrix.
    pub fn len(&self) -> (n: usize)
        ensures
            n == self@.len(),
    {
        self.entries.len()
    }

    /// Appends the pair `(a, b)` with distance `d`. The pair must be new and
    /// its endpoints distinct, so that the matrix invariant is kept.
    pub fn push(&mut self, a: String, b: String, d: Ratio)
        requires
            old(self).wf(),
            a@ != b@,
            d.wf(),
            forall|k: int| 0 <= k < old(self)@.len() ==> !same_pair(old(self)@[k].0, (a@, b@)),
        ensures
            final(self)@ == old(self)@.push(((a@, b@), d)),
            final(self).wf(),
    {
        self.entries.push(((a, b), d));
        proof {
            assert(self@ =~= old(self)@.push(((a@, b@), d)));
        }
    }
}

/// `ds` with `d` appended unless already present; first-occurrence order.
pub open spec fn insert_doc(ds: Seq<Seq<char>>, d: Seq<char>) -> Seq<Seq<char>> {
    if ds.contains(d) {
        ds
    } else {
        ds.push(d)
    }
}

/// Folds the endpoints of the entries of `m` into `ds`, in entry order,
/// first endpoint before second, keeping first occurrences only.
pub open spec fn doc_seq_from(
    ds: Seq<Seq<char>>,
    m: Seq<((Seq<char>, Seq<char>), Ratio)>,
) -> Seq<Seq<char>>
    decreases m.len(),
{
    if m.len() == 0 {
        ds
    } else {
        doc_seq_from(insert_doc(insert_doc(ds, m[0].0.0), m[0].0.1), m.drop_first())
    }
}

/// The documents referenced by the matrix, in first-occurrence order.
pub open spec fn doc_seq(m: Seq<((Seq<char>, Seq<char>), Ratio)>) -> Seq<Seq<char>> {
    doc_seq_from(Seq::empty(), m)
}

/// The set of documents referenced by the matrix.
pub open spec fn doc_set(m: Seq<((Seq<char>, Seq<char>), Ratio)>) -> Set<Seq<char>> {
    doc_seq(m).to_set()
}

/// Every unordered pair of distinct referenced documents has an entry.
pub open spec fn complete(m: Seq<((Seq<char>, Seq<char>), Ratio)>) -> bool {
    forall|d1: Seq<char>, d2: Seq<char>|
        doc_set(m).contains(d1) && doc_set(m).contains(d2) && d1 != d2 ==> exists|k: int|
            0 <= k < m.len() && same_pair((#[trigger] m[k]).0, (d1, d2))
}

/// `insert_doc` adds its document and keeps the ones already present.
pub proof fn lemma_insert_doc_contains(ds: Seq<Seq<char>>, d: Seq<char>)
    ensures
        insert_doc(ds, d).contains(d),
        forall|x: Seq<char>| ds.contains(x) ==> insert_doc(ds, d).contains(x),
{
    if !ds.contains(d) {
        assert(ds.push(d)[ds.len() as int] == d);
        assert forall|x: Seq<char>| ds.contains(x) implies insert_doc(ds, d).contains(x) by {
            let i = choose|i: int| 0 <= i < ds.len() && ds[i] == x;
            assert(ds.push(d)[i] == x);
        }
    }
}

/// Folding distributes over concatenation of entry sequences.
pub proof fn lemma_doc_seq_from_append(
    ds: Seq<Seq<char>>,
    m1: Seq<((Seq<char>, Seq<char>), Ratio)>,
    m2: Seq<((Seq<char>, Seq<char>), Ratio)>,
)
    ensures
        doc_seq_from(ds, m1 + m2) == doc_seq_from(doc_seq_from(ds, m1), m2),
    decreases m1.len(),
{
    if m1.len() == 0 {
        assert(m1 + m2 =~= m2);
    } else {
        let ds1 = insert_doc(insert_doc(ds, m1[0].0.0), m1[0].0.1);
        assert((m1 + m2).drop_first() =~= m1.drop_first() + m2);
        lemma_doc_seq_from_append(ds1, m1.drop_first(), m2);
    }
}

/// Appending one entry folds its two endpoints into the document sequence.
pub proof fn lemma_doc_seq_from_push(
    ds: Seq<Seq<char>>,
    m: Seq<((Seq<char>, Seq<char>), Ratio)>,
    e: ((Seq<char>, Seq<char>), Ratio),
)
    ensures
        doc_seq_from(ds, m.push(e)) == insert_doc(insert_doc(doc_seq_from(ds, m), e.0.0), e.0.1),
{
    assert(m.push(e) =~= m + seq![e]);
    lemma_doc_seq_from_append(ds, m, seq![e]);
    let x = doc_seq_from(ds, m);
    assert(seq![e].len() == 1 && seq![e][0] == e);
    assert(seq![e].drop_first() =~= Seq::<((Seq<char>, Seq<char>), Ratio)>::empty());
    assert(doc_seq_from(x, seq![e]) == doc_seq_from(
        insert_doc(insert_doc(x, e.0.0), e.0.1),
        Seq::<((Seq<char>, Seq<char>), Ratio)>::empty(),
    ));
}

/// Every endpoint of every entry occurs in the folded document sequence,
/// and documents present in `ds` stay present.
pub proof fn lemma_doc_seq_from_contains(
    ds: Seq<Seq<char>>,
    m: Seq<((Seq<char>, Seq<char>), Ratio)>,
)
    ensures
        forall|d: Seq<char>| ds.contains(d) ==> doc_seq_from(ds, m).contains(d),
        forall|k: int|
            0 <= k < m.len() ==> doc_seq_from(ds, m).contains((#[trigger] m[k]).0.0)
                && doc_seq_from(ds, m).contains(m[k].0.1),
    decreases m.len(),
{
    if m.len() > 0 {
        let ds0 = insert_doc(ds, m[0].0.0);
        let ds1 = insert_doc(ds0, m[0].0.1);
        lemma_insert_doc_contains(ds, m[0].0.0);
        lemma_insert_doc_contains(ds0, m[0].0.1);
        assert(forall|d: Seq<char>| ds.contains(d) ==> ds1.contains(d));
        assert(ds1.contains(m[0].0.0));
        assert(ds1.contains(m[0].0.1));
        lemma_doc_seq_from_contains(ds1, m.drop_first());
        assert(forall|k: int|
            1 <= k < m.len() ==> m.drop_first()[k - 1] == m[k] && 0 <= k - 1
                < m.drop_first().len());
    }
}

/// The folded document sequence never holds a document twice.
pub proof fn lemma_doc_seq_from_nodup(
    ds: Seq<Seq<char>>,
    m: Seq<((Seq<char>, Seq<char>), Ratio)>,
)
    requires
        ds.no_duplicates(),
    ensures
        doc_seq_from(ds, m).no_duplicates(),
    decreases m.len(),
{
    if m.len() > 0 {
        let ds0 = insert_doc(ds, m[0].0.0);
        let ds1 = insert_doc(ds0, m[0].0.1);
        lemma_insert_doc_nodup(ds, m[0].0.0);
        lemma_insert_doc_nodup(ds0, m[0].0.1);
        lemma_doc_seq_from_nodup(ds1, m.drop_first());
    }
}

/// Inserting a document keeps the sequence free of duplicates.
pub proof fn lemma_insert_doc_nodup(ds: Seq<Seq<char>>, d: Seq<char>)
    requires
        ds.no_duplicates(),
    ensures
        insert_doc(ds, d).no_duplicates(),
{
    if !ds.contains(d) {
        let r = ds.push(d);
        assert forall|k: int, l: int| 0 <= k < l < r.len() implies r[k] != r[l] by {
            if l < ds.len() {
                assert(ds[k] != ds[l]);
            } else {
                assert(r[l] == d);
                if r[k] == d {
                    assert(ds[k] == d);
                    assert(ds.contains(d));
                }
            }
        }
    }
}

} // verus!
