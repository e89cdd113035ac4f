//! Finding and replacing a string inside a text, as an edit asks for it:
//! occurrences are found leftmost first without overlapping, and an edit
//! that would be ambiguous is refused rather than guessed at.

use vstd::prelude::*;
use vstd::string::*;

use crate::text::chars_of;

verus! {

/// Where a non-empty `p` occurs in `s` from position `i` on, leftmost
/// first and without overlapping.
pub open spec fn occurrences_from(s: Seq<char>, p: Seq<char>, i: int) -> Seq<int>
    decreases s.len() - i,
{
    if p.len() == 0 || i < 0 || i + p.len() > s.len() {
        seq![]
    } else if s.subrange(i, i + p.len()) == p {
        seq![i] + occurrences_from(s, p, i + p.len())
    } else {
        occurrences_from(s, p, i + 1)
    }
}

/// Where `p` occurs in `s`, as `str::matches` reports it: leftmost first,
/// without overlapping. The empty pattern occurs at every position,
/// including the end.
pub open spec fn occurrences(s: Seq<char>, p: Seq<char>) -> Seq<int> {
    if p.len() == 0 {
        Seq::new(s.len() + 1, |i: int| i)
    } else {
        occurrences_from(s, p, 0)
    }
}

/// `s` from `from` on, with `p` at each of the positions `occ` replaced
/// by `r`.
pub open spec fn replaced_from(s: Seq<char>, p: Seq<char>, r: Seq<char>, occ: Seq<int>, from: int) -> Seq<char>
    decreases occ.len(),
{
    if occ.len() == 0 {
        s.subrange(from, s.len() as int)
    } else {
        s.subrange(from, occ[0]) + r + replaced_from(s, p, r, occ.drop_first(), occ[0] + p.len())
    }
}

/// `str::replace`: every occurrence of `p` in `s` replaced by `r`.
pub open spec fn replaced(s: Seq<char>, p: Seq<char>, r: Seq<char>) -> Seq<char> {
    replaced_from(s, p, r, occurrences(s, p), 0)
}

fn matches_at(cs: &Vec<char>, ps: &Vec<char>, i: usize) -> (r: bool)
    requires
        i + ps@.len() <= cs@.len(),
        cs@.len() <= usize::MAX,
    ensures
        r == (cs@.subrange(i as int, i + ps@.len()) == ps@),
{
    let mut j: usize = 0;
    while j < ps.len()
        invariant
            i + ps@.len() <= cs@.len(),
            cs@.len() <= usize::MAX,
            j <= ps@.len(),
            forall|q: int| 0 <= q < j ==> cs@[i + q] == ps@[q],
        decreases ps@.len() - j,
    {
        if cs[i + j] != ps[j] {
            assert(cs@.subrange(i as int, i + ps@.len())[j as int] != ps@[j as int]);
            return false;
        }
        j = j + 1;
    }
    assert(cs@.subrange(i as int, i + ps@.len()) =~= ps@);
    true
}

proof fn lemma_occurrences_from_bounds(s: Seq<char>, p: Seq<char>, i: int)
    requires
        p.len() > 0,
        0 <= i,
    ensures
        forall|j: int| 0 <= j < occurrences_from(s, p, i).len() ==> i <= #[trigger] occurrences_from(s, p, i)[j]
            && occurrences_from(s, p, i)[j] + p.len() <= s.len(),
        i + occurrences_from(s, p, i).len() <= s.len() || occurrences_from(s, p, i).len() == 0,
    decreases s.len() - i,
{
    if i + p.len() <= s.len() {
        if s.subrange(i, i + p.len()) == p {
            lemma_occurrences_from_bounds(s, p, i + p.len());
        } else {
            lemma_occurrences_from_bounds(s, p, i + 1);
        }
    }
}

/// Every occurrence of `p` in `s` replaced by `r`, and how many there were
/// (`str::replace` and `str::matches(..).count()`).
pub fn replace_counting(s: &str, p: &str, r: &str) -> (res: (String, usize))
    requires
        p@.len() == 0 ==> s@.len() < usize::MAX,
    ensures
        res.0@ == replaced(s@, p@, r@),
        res.1 == occurrences(s@, p@).len(),
{
    let cs = chars_of(s);
    let ps = chars_of(p);
    let n = cs.len();
    let m = ps.len();
    let mut out = String::new();
    if m == 0 {
        let ghost occ = occurrences(s@, p@);
        let mut i: usize = 0;
        out.append(r);
        proof {
            assert(occ.len() == n + 1);
        }
        while i < n
            invariant
                cs@ == s@,
                p@.len() == 0,
                n == s@.len(),
                occ == occurrences(s@, p@),
                i <= n,
                out@ + replaced_from(s@, p@, r@, occ.subrange(i + 1, occ.len() as int), i as int) == replaced(
                    s@,
                    p@,
                    r@,
                ),
            decreases n - i,
        {
            let ghost rest = occ.subrange(i + 1, occ.len() as int);
            assert(rest[0] == i + 1);
            assert(rest.drop_first() =~= occ.subrange(i + 2, occ.len() as int));
            assert(s@.subrange(i as int, i + 1) == seq![cs@[i as int]]);
            out.append(s.substring_char(i, i + 1));
            out.append(r);
            assert(out@ + replaced_from(s@, p@, r@, occ.subrange(i + 2, occ.len() as int), i + 1) =~= replaced(
                s@,
                p@,
                r@,
            ));
            i = i + 1;
        }
        proof {
            assert(occ.subrange(n + 1, occ.len() as int) =~= Seq::<int>::empty());
            assert(s@.subrange(n as int, n as int) =~= Seq::<char>::empty());
            assert(occ.subrange(0, occ.len() as int) =~= occ);
            assert(occ[0] == 0);
            assert(s@.subrange(0, 0) =~= Seq::<char>::empty());
            assert(occ.drop_first() =~= occ.subrange(1, occ.len() as int));
            assert(out@ =~= replaced(s@, p@, r@));
        }
        return (out, n + 1);
    }
    let ghost all = occurrences_from(s@, p@, 0);
    let mut from: usize = 0;
    let mut i: usize = 0;
    let mut count: usize = 0;
    proof {
        lemma_occurrences_from_bounds(s@, p@, 0);
    }
    while m <= n - i
        invariant
            cs@ == s@,
            ps@ == p@,
            n == s@.len(),
            m == p@.len(),
            m > 0,
            all == occurrences_from(s@, p@, 0),
            all.len() <= n,
            cs@.len() <= usize::MAX,
            from <= i <= n,
            count + occurrences_from(s@, p@, i as int).len() == all.len(),
            out@ + replaced_from(s@, p@, r@, occurrences_from(s@, p@, i as int), from as int) == replaced_from(
                s@,
                p@,
                r@,
                all,
                0,
            ),
        decreases n - i,
    {
        proof {
            lemma_occurrences_from_bounds(s@, p@, i as int);
        }
        if matches_at(&cs, &ps, i) {
            let ghost occ = occurrences_from(s@, p@, i as int);
            assert(occ == seq![i as int] + occurrences_from(s@, p@, i + m));
            assert(occ.drop_first() =~= occurrences_from(s@, p@, i + m));
            out.append(s.substring_char(from, i));
            out.append(r);
            count = count + 1;
            i = i + m;
            from = i;
        } else {
            i = i + 1;
        }
    }
    assert(occurrences_from(s@, p@, i as int) =~= Seq::<int>::empty());
    out.append(s.substring_char(from, n));
    (out, count)
}

/// Why an edit was refused.
#[derive(Debug, Clone, PartialEq, Eq, Structural)]
pub enum EditRefusal {
    /// The text to replace does not occur.
    NotFound,
    /// The text to replace occurs this many times, more than once.
    Ambiguous(usize),
}

/// Replace the one occurrence of `old` in `content` by `new`. An `old`
/// that does not occur, or occurs more than once, is refused.
pub fn replace_once(content: &str, old: &str, new: &str) -> (r: Result<String, EditRefusal>)
    requires
        old@.len() == 0 ==> content@.len() < usize::MAX,
    ensures
        match r {
            Ok(updated) => occurrences(content@, old@).len() == 1 && updated@ == replaced(content@, old@, new@),
            Err(EditRefusal::NotFound) => occurrences(content@, old@).len() == 0,
            Err(EditRefusal::Ambiguous(n)) => n == occurrences(content@, old@).len() && n > 1,
        },
{
    let (updated, count) = replace_counting(content, old, new);
    if count == 0 {
        Err(EditRefusal::NotFound)
    } else if count > 1 {
        Err(EditRefusal::Ambiguous(count))
    } else {
        Ok(updated)
    }
}

} // verus!
