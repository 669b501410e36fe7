//! Word-set Jaccard similarity between two texts.
//!
//! A text is tokenized on whitespace into a set of distinct tokens
//! (case-sensitive, punctuation kept). The similarity of two texts is the
//! size of the intersection of their token sets over the size of the union,
//! an exact rational in `[0, 1]`. Two texts that both tokenize to the empty
//! set are treated as identical (similarity 1), pinning down the degenerate
//! 0/0 case of the formula.

use vstd::prelude::*;
use vstd::seq_lib::seq_to_set_is_finite;
use vstd::set_lib::lemma_len_subset;
use vstd::string::StrSliceExecFns;

use crate::ratio::Ratio;

verus! {

/// The tokenizer's whitespace characters.
pub open spec fn is_space(c: char) -> bool {
    c == ' ' || c == '\t' || c == '\n' || c == '\r' || c == '\u{0b}' || c == '\u{0c}'
}

/// Length of the leading run of non-space characters of `s`.
pub open spec fn run_len(s: Seq<char>) -> nat
    decreases s.len(),
{
    if s.len() == 0 || is_space(s[0]) {
        0
    } else {
        1 + run_len(s.drop_first())
    }
}

/// The whitespace-separated tokens of `s`, in order of appearance, with
/// repetitions kept.
pub open spec fn token_seq(s: Seq<char>) -> Seq<Seq<char>>
    decreases s.len(),
    via token_seq_dec
{
    if s.len() == 0 {
        Seq::empty()
    } else if is_space(s[0]) {
        token_seq(s.drop_first())
    } else {
        seq![s.take(run_len(s) as int)] + token_seq(s.skip(run_len(s) as int))
    }
}

/// `run_len` never exceeds the length of the sequence.
proof fn lemma_run_len_le(s: Seq<char>)
    ensures
        run_len(s) <= s.len(),
    decreases s.len(),
{
    if s.len() > 0 && !is_space(s[0]) {
        lemma_run_len_le(s.drop_first());
    }
}

#[via_fn]
proof fn token_seq_dec(s: Seq<char>) {
    if s.len() > 0 && !is_space(s[0]) {
        lemma_run_len_le(s);
    }
}

/// The set of distinct tokens of `s`.
pub open spec fn token_set(s: Seq<char>) -> Set<Seq<char>> {
    token_seq(s).to_set()
}

/// Numerator of the word-set Jaccard similarity of `a` and `b`:
/// the number of shared tokens, or 1 in the degenerate empty/empty case.
pub open spec fn sim_num(a: Seq<char>, b: Seq<char>) -> nat {
    if token_set(a).union(token_set(b)).len() == 0 {
        1
    } else {
        token_set(a).intersect(token_set(b)).len()
    }
}

/// Denominator of the word-set Jaccard similarity of `a` and `b`:
/// the number of distinct tokens overall, or 1 in the empty/empty case.
pub open spec fn sim_den(a: Seq<char>, b: Seq<char>) -> nat {
    if token_set(a).union(token_set(b)).len() == 0 {
        1
    } else {
        token_set(a).union(token_set(b)).len()
    }
}

/// Numerator of the distance `1 - similarity` of `a` and `b`, over the
/// denominator `sim_den(a, b)`.
pub open spec fn dist_num(a: Seq<char>, b: Seq<char>) -> nat {
    (sim_den(a, b) - sim_num(a, b)) as nat
}

/// The distance `1 - similarity` of `a` and `b` as a rational.
pub open spec fn dist_ratio(a: Seq<char>, b: Seq<char>) -> Ratio {
    Ratio { num: dist_num(a, b) as u64, den: sim_den(a, b) as u64 }
}

/// `run_len` is the unique `r` bounding a non-space run that ends at a space
/// or at the end of the sequence.
proof fn lemma_run_len_char(t: Seq<char>, r: int)
    requires
        0 <= r <= t.len(),
        forall|k: int| 0 <= k < r ==> !is_space(t[k]),
        r == t.len() || is_space(t[r]),
    ensures
        run_len(t) == r,
    decreases r,
{
    if r == 0 {
    } else {
        lemma_run_len_char(t.drop_first(), r - 1);
    }
}

/// Splitting off a maximal non-space run `s[start..j]` peels exactly one
/// token off `token_seq(s.skip(start))`.
proof fn lemma_token_step(s: Seq<char>, start: int, j: int)
    requires
        0 <= start < j <= s.len(),
        forall|k: int| start <= k < j ==> !is_space(s[k]),
        j == s.len() || is_space(s[j]),
    ensures
        token_seq(s.skip(start)) == seq![s.subrange(start, j)] + token_seq(s.skip(j)),
{
    let t = s.skip(start);
    assert(t.len() == s.len() - start);
    assert(forall|k: int| 0 <= k < j - start ==> t[k] == s[k + start] && !is_space(t[k]));
    if j < s.len() {
        assert(is_space(t[j - start]));
    }
    lemma_run_len_char(t, j - start);
    assert(!is_space(t[0]));
    assert(token_seq(t) == seq![t.take(j - start)] + token_seq(t.skip(j - start)));
    assert(t.take(j - start) =~= s.subrange(start, j));
    assert(t.skip(j - start) =~= s.skip(j));
}

/// Whether `c` separates tokens.
fn char_is_space(c: char) -> (b: bool)
    ensures
        b == is_space(c),
{
    c == ' ' || c == '\t' || c == '\n' || c == '\r' || c == '\u{0b}' || c == '\u{0c}'
}

/// All whitespace-separated tokens of `s`, in order, with repetitions kept.
pub fn tokenize(s: &str) -> (toks: Vec<String>)
    ensures
        toks.deep_view() == token_seq(s@),
{
    let n = s.unicode_len();
    let mut toks: Vec<String> = Vec::new();
    let mut i: usize = 0;
    proof {
        assert(s@.skip(0) =~= s@);
        assert(toks.deep_view() + token_seq(s@) =~= token_seq(s@));
    }
    while i < n
        invariant
            n == s@.len(),
            i <= n,
            token_seq(s@) == toks.deep_view() + token_seq(s@.skip(i as int)),
        decreases n - i,
    {
        let c = s.get_char(i);
        if char_is_space(c) {
            proof {
                assert(s@.skip(i as int).drop_first() =~= s@.skip(i + 1));
            }
            i = i + 1;
        } else {
            let start = i;
            let mut j = i + 1;
            while j < n && !char_is_space(s.get_char(j))
                invariant
                    n == s@.len(),
                    start < j <= n,
                    forall|k: int| start < k < j ==> !is_space(s@[k]),
                decreases n - j,
            {
                j = j + 1;
            }
            let tok = s.substring_char(start, j);
            let ghost before = toks.deep_view();
            toks.push(tok.to_owned());
            proof {
                assert(toks.deep_view() =~= before.push(s@.subrange(start as int, j as int)));
                lemma_token_step(s@, start as int, j as int);
                assert(toks.deep_view() + token_seq(s@.skip(j as int)) =~= before + token_seq(
                    s@.skip(start as int),
                ));
            }
            i = j;
        }
    }
    proof {
        assert(s@.skip(n as int) =~= Seq::<char>::empty());
        assert(toks.deep_view() + token_seq(s@.skip(n as int)) =~= toks.deep_view());
    }
    toks
}

/// Whether some element of `v` has the same characters as `t`.
pub(crate) fn contains_token(v: &Vec<String>, t: &String) -> (b: bool)
    ensures
        b == v.deep_view().contains(t@),
{
    let mut i: usize = 0;
    while i < v.len()
        invariant
            i <= v@.len(),
            v.deep_view().len() == v@.len(),
            forall|k: int| 0 <= k < i ==> v.deep_view()[k] != t@,
        decreases v@.len() - i,
    {
        if t.eq(&v[i]) {
            proof {
                assert(v.deep_view()[i as int] == t@);
            }
            return true;
        }
        i = i + 1;
    }
    false
}

/// The distinct elements of `toks`, keeping the first occurrence of each.
pub fn dedup_tokens(toks: &Vec<String>) -> (r: Vec<String>)
    ensures
        r.deep_view().no_duplicates(),
        r.deep_view().to_set() == toks.deep_view().to_set(),
{
    let ghost tv = toks.deep_view();
    let mut out: Vec<String> = Vec::new();
    let mut i: usize = 0;
    while i < toks.len()
        invariant
            i <= tv.len(),
            tv == toks.deep_view(),
            tv.len() == toks@.len(),
            out.deep_view().no_duplicates(),
            out.deep_view().to_set() == tv.take(i as int).to_set(),
        decreases tv.len() - i,
    {
        let ghost before = out.deep_view();
        if !contains_token(&out, &toks[i]) {
            out.push(toks[i].clone());
            proof {
                assert(out.deep_view() =~= before.push(tv[i as int]));
                before.lemma_push_to_set_commute(tv[i as int]);
            }
        }
        proof {
            assert(tv.take(i + 1) =~= tv.take(i as int).push(tv[i as int]));
            tv.take(i as int).lemma_push_to_set_commute(tv[i as int]);
            if before.contains(tv[i as int]) {
                assert(out.deep_view().to_set() =~= tv.take(i + 1).to_set());
            } else {
                assert(out.deep_view().to_set() =~= tv.take(i + 1).to_set());
            }
        }
        i = i + 1;
    }
    proof {
        assert(tv.take(tv.len() as int) =~= tv);
    }
    out
}

/// Number of elements of `a` (all distinct) that also occur in `b`; the
/// cardinality of the intersection of the two token sets.
fn count_common(a: &Vec<String>, b: &Vec<String>) -> (r: usize)
    requires
        a.deep_view().no_duplicates(),
    ensures
        r == a.deep_view().to_set().intersect(b.deep_view().to_set()).len(),
{
    broadcast use vstd::seq_lib::seq_to_set_is_finite;

    let ghost av = a.deep_view();
    let ghost bset = b.deep_view().to_set();
    let mut count: usize = 0;
    let mut i: usize = 0;
    proof {
        assert(av.take(0).to_set() =~= Set::<Seq<char>>::empty());
        assert(Set::<Seq<char>>::empty().intersect(bset) =~= Set::<Seq<char>>::empty());
        assert(Set::<Seq<char>>::empty().len() == 0);
    }
    while i < a.len()
        invariant
            i <= av.len(),
            av == a.deep_view(),
            av.len() == a@.len(),
            av.no_duplicates(),
            bset == b.deep_view().to_set(),
            count <= i,
            count == av.take(i as int).to_set().intersect(bset).len(),
        decreases av.len() - i,
    {
        let present = contains_token(b, &a[i]);
        proof {
            let pre = av.take(i as int).to_set();
            assert(av.take(i + 1) =~= av.take(i as int).push(av[i as int]));
            av.take(i as int).lemma_push_to_set_commute(av[i as int]);
            seq_to_set_is_finite(av.take(i as int));
            assert(!av.take(i as int).contains(av[i as int]));
            assert(!pre.contains(av[i as int]));
            if present {
                assert(av.take(i + 1).to_set().intersect(bset) =~= pre.intersect(bset).insert(
                    av[i as int],
                ));
                assert(pre.intersect(bset).finite());
                assert(!pre.intersect(bset).contains(av[i as int]));
            } else {
                assert(av.take(i + 1).to_set().intersect(bset) =~= pre.intersect(bset));
            }
        }
        if present {
            count = count + 1;
        }
        i = i + 1;
    }
    proof {
        assert(av.take(av.len() as int) =~= av);
    }
    count
}

/// The elements of `a` followed by the elements of `b` not in `a`; its
/// length is the cardinality of the union of the two token sets.
fn union_tokens(a: &Vec<String>, b: &Vec<String>) -> (r: Vec<String>)
    requires
        a.deep_view().no_duplicates(),
        b.deep_view().no_duplicates(),
    ensures
        r.deep_view().no_duplicates(),
        r.deep_view().to_set() == a.deep_view().to_set().union(b.deep_view().to_set()),
{
    let ghost av = a.deep_view();
    let ghost bv = b.deep_view();
    let mut out: Vec<String> = Vec::new();
    let mut i: usize = 0;
    while i < a.len()
        invariant
            i <= av.len(),
            av == a.deep_view(),
            av.len() == a@.len(),
            av.no_duplicates(),
            out.deep_view().no_duplicates(),
            out.deep_view() == av.take(i as int),
        decreases av.len() - i,
    {
        let ghost before = out.deep_view();
        out.push(a[i].clone());
        proof {
            assert(out.deep_view() =~= before.push(av[i as int]));
            assert(before.push(av[i as int]) =~= av.take(i + 1));
            assert(av.take(i + 1).no_duplicates());
        }
        i = i + 1;
    }
    proof {
        assert(av.take(av.len() as int) =~= av);
    }
    let mut j: usize = 0;
    while j < b.len()
        invariant
            j <= bv.len(),
            av == a.deep_view(),
            bv == b.deep_view(),
            bv.len() == b@.len(),
            out.deep_view().no_duplicates(),
            out.deep_view().to_set() == av.to_set().union(bv.take(j as int).to_set()),
        decreases bv.len() - j,
    {
        let ghost before = out.deep_view();
        if !contains_token(&out, &b[j]) {
            out.push(b[j].clone());
            proof {
                assert(out.deep_view() =~= before.push(bv[j as int]));
                before.lemma_push_to_set_commute(bv[j as int]);
            }
        }
        proof {
            assert(bv.take(j + 1) =~= bv.take(j as int).push(bv[j as int]));
            bv.take(j as int).lemma_push_to_set_commute(bv[j as int]);
            assert(out.deep_view().to_set() =~= av.to_set().union(bv.take(j + 1).to_set()));
        }
        j = j + 1;
    }
    proof {
        assert(bv.take(bv.len() as int) =~= bv);
    }
    out
}

/// The pluggable similarity strategies: word-set Jaccard, and a
/// character-q-gram variant kept as an extension point.
pub enum Strategy {
    Word,
    QGrams(usize),
}

/// Word-set Jaccard similarity of the two texts, as an exact rational:
/// shared distinct tokens over distinct tokens overall, and 1 when both
/// texts have no tokens at all.
pub fn jaccard_index_word(str_1: &str, str_2: &str) -> (r: Ratio)
    ensures
        r.wf(),
        r.num == sim_num(str_1@, str_2@),
        r.den == sim_den(str_1@, str_2@),
{
    broadcast use vstd::seq_lib::seq_to_set_is_finite;

    let t1 = tokenize(str_1);
    let d1 = dedup_tokens(&t1);
    let t2 = tokenize(str_2);
    let d2 = dedup_tokens(&t2);
    let uni = union_tokens(&d1, &d2);
    let ghost sa = token_set(str_1@);
    let ghost sb = token_set(str_2@);
    proof {
        uni.deep_view().unique_seq_to_set();
        assert(uni.deep_view().to_set() == sa.union(sb));
    }
    if uni.len() == 0 {
        Ratio { num: 1, den: 1 }
    } else {
        let inter = count_common(&d1, &d2);
        proof {
            lemma_len_subset(sa.intersect(sb), sa.union(sb));
        }
        Ratio { num: inter as u64, den: uni.len() as u64 }
    }
}

/// Similarity of the two texts under the given strategy. Only the word-set
/// strategy has defined behavior; the q-gram variant is an unimplemented
/// extension point and is excluded by the precondition.
pub fn jaccard_index(str_1: &str, str_2: &str, strategy: Strategy) -> (r: Ratio)
    requires
        strategy is Word,
    ensures
        r.wf(),
        r.num == sim_num(str_1@, str_2@),
        r.den == sim_den(str_1@, str_2@),
{
    match strategy {
        Strategy::Word => jaccard_index_word(str_1, str_2),
        Strategy::QGrams(_) => vstd::pervasive::unreached(),
    }
}

} // verus!
