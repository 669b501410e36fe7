//! Deriving a test case's one-line description from its extracted text.
//!
//! The text is scanned line by line for the first line containing one of a
//! small set of fixed label phrases; the remainder of that line after the
//! phrase, trimmed of surrounding whitespace and of a single layer of
//! asterisks wrapping it on both ends, is the description. A text without
//! such a line has the empty description.

use vstd::prelude::*;
use vstd::string::StrSliceExecFns;

use crate::jaccard::is_space;

verus! {

/// First label phrase looked for in a line.
pub open spec fn pat_a() -> Seq<char> {
    "Test Case for "@
}

/// Second label phrase looked for in a line.
pub open spec fn pat_b() -> Seq<char> {
    "Testcase for "@
}

/// Third label phrase looked for in a line.
pub open spec fn pat_c() -> Seq<char> {
    "Test Case Description for "@
}

/// Index of the first occurrence of `p` in `l`, or `-1` when none.
pub open spec fn find_sub(l: Seq<char>, p: Seq<char>) -> int
    decreases l.len(),
{
    if l.len() < p.len() {
        -1
    } else if p.len() == 0 {
        0
    } else if l.subrange(0, p.len() as int) == p {
        0
    } else {
        let r = find_sub(l.drop_first(), p);
        if r < 0 {
            -1
        } else {
            r + 1
        }
    }
}

/// `p` occurs in `l` at position `i`.
pub open spec fn match_at(l: Seq<char>, p: Seq<char>, i: int) -> bool {
    &&& 0 <= i
    &&& i + p.len() <= l.len()
    &&& l.subrange(i, i + p.len() as int) == p
}

/// `find_sub` finds the first occurrence, and `-1` exactly when there is
/// none.
pub proof fn lemma_find_sub(l: Seq<char>, p: Seq<char>)
    ensures
        find_sub(l, p) == -1 ==> forall|i: int| !(#[trigger] match_at(l, p, i)),
        find_sub(l, p) >= 0 ==> match_at(l, p, find_sub(l, p)) && forall|i: int|
            0 <= i < find_sub(l, p) ==> !(#[trigger] match_at(l, p, i)),
    decreases l.len(),
{
    if l.len() >= p.len() && p.len() == 0 {
        assert(l.subrange(0, 0) =~= p);
        assert(match_at(l, p, 0));
    } else if l.len() >= p.len() && l.subrange(0, p.len() as int) != p {
        let t = l.drop_first();
        lemma_find_sub(t, p);
        let r = find_sub(t, p);
        if r == -1 {
            assert forall|i: int| !(#[trigger] match_at(l, p, i)) by {
                if match_at(l, p, i) {
                    assert(i >= 1);
                    assert(t.subrange(i - 1, i - 1 + p.len() as int) =~= l.subrange(
                        i,
                        i + p.len() as int,
                    ));
                    assert(match_at(t, p, i - 1));
                }
            }
        } else {
            assert(find_sub(l, p) == r + 1);
            assert(l.subrange(r + 1, r + 1 + p.len() as int) =~= t.subrange(
                r,
                r + p.len() as int,
            ));
            assert(match_at(l, p, r + 1));
            assert forall|i: int| 0 <= i < r + 1 implies !(#[trigger] match_at(l, p, i)) by {
                if match_at(l, p, i) {
                    assert(i >= 1);
                    assert(t.subrange(i - 1, i - 1 + p.len() as int) =~= l.subrange(
                        i,
                        i + p.len() as int,
                    ));
                    assert(match_at(t, p, i - 1));
                }
            }
        }
    }
}

/// `s` with its leading whitespace removed.
pub open spec fn trim_front(s: Seq<char>) -> Seq<char>
    decreases s.len(),
{
    if s.len() > 0 && is_space(s[0]) {
        trim_front(s.drop_first())
    } else {
        s
    }
}

/// `s` with its trailing whitespace removed.
pub open spec fn trim_back(s: Seq<char>) -> Seq<char>
    decreases s.len(),
{
    if s.len() > 0 && is_space(s[s.len() - 1]) {
        trim_back(s.drop_last())
    } else {
        s
    }
}

/// `s` without one layer of asterisks when wrapped by them on both ends.
pub open spec fn strip_wrap(s: Seq<char>) -> Seq<char> {
    if s.len() >= 2 && s[0] == '*' && s[s.len() - 1] == '*' {
        s.subrange(1, s.len() - 1)
    } else {
        s
    }
}

/// The description a matching line yields for the remainder starting at
/// `from`: trimmed of whitespace, then unwrapped.
pub open spec fn clean(s: Seq<char>) -> Seq<char> {
    strip_wrap(trim_back(trim_front(s)))
}

/// Trimming the front removes exactly the leading run of spaces.
pub proof fn lemma_trim_front(s: Seq<char>, k: int)
    requires
        0 <= k <= s.len(),
        forall|x: int| 0 <= x < k ==> is_space(s[x]),
        k == s.len() || !is_space(s[k]),
    ensures
        trim_front(s) == s.skip(k),
    decreases k,
{
    if k == 0 {
        assert(s.skip(0) =~= s);
    } else {
        let t = s.drop_first();
        lemma_trim_front(t, k - 1);
        assert(t.skip(k - 1) =~= s.skip(k));
    }
}

/// Trimming the back removes exactly the trailing run of spaces.
pub proof fn lemma_trim_back(s: Seq<char>, h: int)
    requires
        0 <= h <= s.len(),
        forall|x: int| h <= x < s.len() ==> is_space(s[x]),
        h == 0 || !is_space(s[h - 1]),
    ensures
        trim_back(s) == s.take(h),
    decreases s.len(),
{
    if h == s.len() {
        assert(s.take(h) =~= s);
    } else {
        let t = s.drop_last();
        assert(is_space(s[s.len() - 1]));
        lemma_trim_back(t, h);
        assert(t.take(h) =~= s.take(h));
    }
}

/// Index of the first line break of `t`, or `-1` when none.
pub open spec fn first_nl(t: Seq<char>) -> int
    decreases t.len(),
{
    if t.len() == 0 {
        -1
    } else if t[0] == '\n' {
        0
    } else {
        let r = first_nl(t.drop_first());
        if r < 0 {
            -1
        } else {
            r + 1
        }
    }
}

/// `first_nl` finds the first line break, and `-1` exactly when none.
pub proof fn lemma_first_nl(t: Seq<char>)
    ensures
        first_nl(t) == -1 ==> forall|k: int| 0 <= k < t.len() ==> t[k] != '\n',
        first_nl(t) >= 0 ==> first_nl(t) < t.len() && t[first_nl(t)] == '\n' && forall|k: int|
            0 <= k < first_nl(t) ==> t[k] != '\n',
    decreases t.len(),
{
    if t.len() > 0 && t[0] != '\n' {
        let u = t.drop_first();
        lemma_first_nl(u);
        if first_nl(u) == -1 {
            assert forall|k: int| 0 <= k < t.len() implies t[k] != '\n' by {
                if k >= 1 {
                    assert(u[k - 1] == t[k]);
                    assert(u[k - 1] != '\n');
                }
            }
        } else {
            let r = first_nl(u);
            assert(first_nl(t) == r + 1);
            assert(u[r] == t[r + 1]);
            assert forall|k: int| 0 <= k < first_nl(t) implies t[k] != '\n' by {
                if k >= 1 {
                    assert(u[k - 1] == t[k]);
                    assert(u[k - 1] != '\n');
                }
            }
        }
    }
}

/// The description a single line yields, if it contains a label phrase;
/// phrases are tried in a fixed order and the first occurrence of the
/// first matching phrase wins.
pub open spec fn line_desc(l: Seq<char>) -> Option<Seq<char>> {
    if find_sub(l, pat_a()) >= 0 {
        Some(clean(l.skip(find_sub(l, pat_a()) + pat_a().len())))
    } else if find_sub(l, pat_b()) >= 0 {
        Some(clean(l.skip(find_sub(l, pat_b()) + pat_b().len())))
    } else if find_sub(l, pat_c()) >= 0 {
        Some(clean(l.skip(find_sub(l, pat_c()) + pat_c().len())))
    } else {
        None
    }
}

/// The description of a whole text: what the first line holding a label
/// phrase yields, the empty sequence when no line does.
pub open spec fn description(t: Seq<char>) -> Seq<char>
    decreases t.len(),
    via description_dec
{
    if t.len() == 0 {
        Seq::empty()
    } else {
        let nl = first_nl(t);
        let line = if nl < 0 {
            t
        } else {
            t.take(nl)
        };
        match line_desc(line) {
            Some(d) => d,
            None => if nl < 0 {
                Seq::empty()
            } else {
                description(t.skip(nl + 1))
            },
        }
    }
}

#[via_fn]
proof fn description_dec(t: Seq<char>) {
    lemma_first_nl(t);
}

/// Finds the first occurrence of `p` in `l`, implementing `find_sub`.
fn find_in(l: &str, p: &str) -> (r: Option<usize>)
    ensures
        match r {
            Some(i) => find_sub(l@, p@) == i && i + p@.len() <= l@.len(),
            None => find_sub(l@, p@) == -1,
        },
{
    let n = l.unicode_len();
    let plen = p.unicode_len();
    proof {
        lemma_find_sub(l@, p@);
    }
    if plen > n {
        return None;
    }
    let mut i: usize = 0;
    while i <= n - plen
        invariant
            n == l@.len(),
            plen == p@.len(),
            plen <= n,
            i <= n - plen + 1,
            forall|k: int| 0 <= k < i ==> !(#[trigger] match_at(l@, p@, k)),
        decreases n - plen + 1 - i,
    {
        let mut j: usize = 0;
        let mut matched = true;
        while j < plen && matched
            invariant
                n == l@.len(),
                plen == p@.len(),
                plen <= n,
                i <= n - plen,
                j <= plen,
                matched ==> forall|x: int| 0 <= x < j ==> l@[i + x] == p@[x],
                !matched ==> exists|x: int| 0 <= x < plen && l@[i + x] != p@[x],
            decreases plen - j + (if matched {
                1int
            } else {
                0int
            }),
        {
            if l.get_char(i + j) != p.get_char(j) {
                proof {
                    assert(l@[i + j] != p@[j as int]);
                }
                matched = false;
            } else {
                j = j + 1;
            }
        }
        if matched {
            proof {
                assert(l@.subrange(i as int, i + plen) =~= p@);
                assert(match_at(l@, p@, i as int));
                lemma_find_sub(l@, p@);
                assert(find_sub(l@, p@) >= 0);
                if find_sub(l@, p@) < i {
                    assert(!match_at(l@, p@, find_sub(l@, p@)));
                }
                if find_sub(l@, p@) > i {
                    assert(!match_at(l@, p@, i as int));
                }
            }
            return Some(i);
        }
        proof {
            let x = choose|x: int| 0 <= x < plen && l@[i + x] != p@[x as int];
            assert(l@.subrange(i as int, i + plen)[x] != p@[x]);
            assert(l@.subrange(i as int, i + plen) != p@);
            assert(!match_at(l@, p@, i as int));
        }
        i = i + 1;
    }
    proof {
        lemma_find_sub(l@, p@);
        if find_sub(l@, p@) >= 0 {
            assert(match_at(l@, p@, find_sub(l@, p@)));
            assert(!match_at(l@, p@, find_sub(l@, p@)));
        }
    }
    None
}

/// Trims and unwraps the remainder of `line` from `from` on, implementing
/// `clean` on that suffix.
fn clean_suffix(line: &str, from: usize) -> (r: String)
    requires
        from <= line@.len(),
    ensures
        r@ == clean(line@.skip(from as int)),
{
    let n = line.unicode_len();
    let ghost s = line@.skip(from as int);
    let mut lo = from;
    while lo < n && char_is_space_local(line.get_char(lo))
        invariant
            n == line@.len(),
            from <= lo <= n,
            forall|x: int| from <= x < lo ==> is_space(line@[x]),
        decreases n - lo,
    {
        lo = lo + 1;
    }
    proof {
        assert(forall|x: int| 0 <= x < lo - from ==> is_space(s[x]));
        if lo < n {
            assert(!is_space(s[lo - from]));
        }
        lemma_trim_front(s, lo - from);
        assert(trim_front(s) =~= line@.skip(lo as int));
    }
    let ghost tf = line@.skip(lo as int);
    let mut hi = n;
    while hi > lo && char_is_space_local(line.get_char(hi - 1))
        invariant
            n == line@.len(),
            lo <= hi <= n,
            forall|x: int| hi <= x < n ==> is_space(line@[x]),
        decreases hi,
    {
        hi = hi - 1;
    }
    proof {
        assert(forall|x: int| hi - lo <= x < tf.len() ==> is_space(tf[x]));
        if hi > lo {
            assert(!is_space(tf[hi - lo - 1]));
        }
        lemma_trim_back(tf, hi - lo);
        assert(trim_back(tf) =~= line@.subrange(lo as int, hi as int));
    }
    let ghost tb = line@.subrange(lo as int, hi as int);
    if hi - lo >= 2 && line.get_char(lo) == '*' && line.get_char(hi - 1) == '*' {
        let out = line.substring_char(lo + 1, hi - 1);
        proof {
            assert(strip_wrap(tb) =~= line@.subrange(lo + 1, hi - 1));
        }
        out.to_owned()
    } else {
        let out = line.substring_char(lo, hi);
        proof {
            assert(strip_wrap(tb) =~= tb);
        }
        out.to_owned()
    }
}

/// Whether `c` counts as whitespace for trimming.
fn char_is_space_local(c: char) -> (b: bool)
    ensures
        b == is_space(c),
{
    c == ' ' || c == '\t' || c == '\n' || c == '\r' || c == '\u{0b}' || c == '\u{0c}'
}

/// The description of the given extracted text: the remainder of the first
/// line containing a label phrase, trimmed and unwrapped; empty when no
/// line matches.
pub fn extract_description(text: &str) -> (r: String)
    ensures
        r@ == description(text@),
{
    let n = text.unicode_len();
    let mut start: usize = 0;
    proof {
        assert(text@.skip(0) =~= text@);
    }
    while start < n
        invariant
            n == text@.len(),
            start <= n,
            description(text@) == description(text@.skip(start as int)),
        decreases n - start,
    {
        let ghost t = text@.skip(start as int);
        let mut e = start;
        while e < n && !is_newline(text.get_char(e))
            invariant
                n == text@.len(),
                start <= e <= n,
                forall|x: int| start <= x < e ==> text@[x] != '\n',
            decreases n - e,
        {
            e = e + 1;
        }
        proof {
            lemma_first_nl(t);
            assert(forall|x: int| 0 <= x < e - start ==> t[x] != '\n');
            if e < n {
                assert(t[e - start] == '\n');
                assert(first_nl(t) == e - start) by {
                    if first_nl(t) < e - start {
                        if first_nl(t) >= 0 {
                            assert(t[first_nl(t)] != '\n');
                        } else {
                            assert(t[e - start] != '\n');
                        }
                    }
                    if first_nl(t) > e - start {
                        assert(t[e - start] != '\n');
                    }
                }
            } else {
                assert(first_nl(t) == -1) by {
                    if first_nl(t) >= 0 {
                        assert(t[first_nl(t)] == '\n');
                        assert(t[first_nl(t)] != '\n');
                    }
                }
            }
        }
        let line = text.substring_char(start, e);
        let ghost lv = if first_nl(t) < 0 {
            t
        } else {
            t.take(first_nl(t))
        };
        proof {
            assert(line@ =~= lv);
        }
        let hit: Option<(usize, usize)> = match find_in(line, "Test Case for ") {
            Some(i) => Some((i, "Test Case for ".unicode_len())),
            None => match find_in(line, "Testcase for ") {
                Some(i) => Some((i, "Testcase for ".unicode_len())),
                None => match find_in(line, "Test Case Description for ") {
                    Some(i) => Some((i, "Test Case Description for ".unicode_len())),
                    None => None,
                },
            },
        };
        match hit {
            Some((i, plen)) => {
                proof {
                    assert(line_desc(lv) matches Some(d) && d == clean(
                        lv.skip(i + plen),
                    ));
                }
                let out = clean_suffix(line, i + plen);
                proof {
                    assert(description(text@.skip(start as int)) == clean(lv.skip(i + plen)));
                }
                return out;
            },
            None => {
                proof {
                    assert(line_desc(lv) is None);
                }
                if e == n {
                    proof {
                        assert(description(t) =~= Seq::<char>::empty());
                    }
                    return String::new();
                }
                proof {
                    assert(t.skip(first_nl(t) + 1) =~= text@.skip(e + 1));
                    assert(description(t) == description(text@.skip(e + 1)));
                }
                e = e + 1;
                start = e;
            },
        }
    }
    proof {
        assert(text@.skip(n as int) =~= Seq::<char>::empty());
    }
    String::new()
}

/// Whether `c` ends a line.
fn is_newline(c: char) -> (b: bool)
    ensures
        b == (c == '\n'),
{
    c == '\n'
}

} // verus!
