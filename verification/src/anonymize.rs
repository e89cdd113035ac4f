//! Mask text before it reaches a model, and restore it on the way back.
//!
//! Each detected value is replaced with a deterministic placeholder
//! (`TCKN_1`, `IBAN_2`, ...) and the mapping is kept only in the store, so
//! a masked text carries the structure without the secrets, and a
//! placeholder written back can be turned into the real value again.

use vstd::prelude::*;
use vstd::string::*;
use vstd::utf8::*;

use crate::detectors::{
    detect, detected, disjoint_ascending, all_fit, fits, words_view, Kind, MatchView, Settings, views,
};
use crate::pattern::{regex_captures, regex_captures_of, Capture, PLACEHOLDER_TOKEN_PATTERN};
use crate::store::{MappingStore, placeholder_text};
use crate::detectors::prefix_of;
use crate::text::{
    chars_in, decimal, decimal_string, joined, span_ok, substr, lemma_utf8_concat, lemma_span_valid,
    lemma_whole_span,
};

verus! {

/// The byte spans of a sequence of matches.
pub open spec fn spans_of(ms: Seq<MatchView>) -> Seq<(int, int)> {
    Seq::new(ms.len(), |i: int| (ms[i].0 as int, ms[i].1 as int))
}

/// Where the unchanged text before the `i`th span begins.
pub open spec fn gap_start(spans: Seq<(int, int)>, i: int) -> int {
    if i <= 0 {
        0
    } else {
        spans[i - 1].1
    }
}

/// `b` up to the end of its `i`th span, with each of the first `i` spans
/// replaced by its replacement.
pub open spec fn spliced_upto(b: Seq<u8>, spans: Seq<(int, int)>, reps: Seq<Seq<u8>>, i: int) -> Seq<u8>
    decreases i,
{
    if i <= 0 {
        seq![]
    } else {
        spliced_upto(b, spans, reps, i - 1) + b.subrange(gap_start(spans, i - 1), spans[i - 1].0)
            + reps[i - 1]
    }
}

/// `b` with each span replaced by its replacement.
pub open spec fn spliced(b: Seq<u8>, spans: Seq<(int, int)>, reps: Seq<Seq<u8>>) -> Seq<u8> {
    spliced_upto(b, spans, reps, spans.len() as int) + b.subrange(
        gap_start(spans, spans.len() as int),
        b.len() as int,
    )
}

/// Spans that lie in `b` in order, without overlapping.
pub open spec fn spans_in_order(b: Seq<u8>, spans: Seq<(int, int)>) -> bool {
    &&& forall|i: int| 0 <= i < spans.len() ==> 0 <= (#[trigger] spans[i]).0 <= spans[i].1 <= b.len()
    &&& forall|i: int| 0 < i < spans.len() ==> spans[i - 1].1 <= (#[trigger] spans[i]).0
}

/// Placeholders, values and counters after assigning placeholders to the
/// values of `ms`, in order: a value already known keeps its placeholder;
/// a new value of kind `k` gets `k`'s next number.
pub open spec fn assign_all(
    places: Map<Seq<char>, Seq<char>>,
    values: Map<Seq<char>, Seq<char>>,
    counts: Map<Kind, int>,
    ms: Seq<MatchView>,
) -> (Map<Seq<char>, Seq<char>>, Map<Seq<char>, Seq<char>>, Map<Kind, int>)
    decreases ms.len(),
{
    if ms.len() == 0 {
        (places, values, counts)
    } else {
        let (p, v, c) = assign_all(places, values, counts, ms.drop_last());
        let m = ms.last();
        if p.contains_key(m.2) {
            (p, v, c)
        } else {
            let n = c[m.3] + 1;
            let ph = placeholder_text(m.3, n as nat);
            (p.insert(m.2, ph), v.insert(ph, m.2), c.insert(m.3, n))
        }
    }
}

/// The placeholder each match of `ms` is replaced with.
pub open spec fn assigned(
    places: Map<Seq<char>, Seq<char>>,
    values: Map<Seq<char>, Seq<char>>,
    counts: Map<Kind, int>,
    ms: Seq<MatchView>,
) -> Seq<Seq<char>>
    decreases ms.len(),
{
    if ms.len() == 0 {
        seq![]
    } else {
        assigned(places, values, counts, ms.drop_last()).push(
            assign_all(places, values, counts, ms).0[ms.last().2],
        )
    }
}

/// The UTF-8 of each placeholder.
pub open spec fn encoded(phs: Seq<Seq<char>>) -> Seq<Seq<u8>> {
    Seq::new(phs.len(), |i: int| encode_utf8(phs[i]))
}

/// Each distinct placeholder with the kind of the match that first
/// produced it, in first-seen order.
pub open spec fn report_of(ms: Seq<MatchView>, phs: Seq<Seq<char>>) -> Seq<(Seq<char>, Kind)>
    decreases phs.len(),
{
    if phs.len() == 0 || ms.len() < phs.len() {
        seq![]
    } else {
        let r = report_of(ms, phs.drop_last());
        if exists|j: int| 0 <= j < r.len() && (#[trigger] r[j]).0 == phs.last() {
            r
        } else {
            r.push((phs.last(), ms[phs.len() - 1].3))
        }
    }
}

/// The counters of a store, as a map.
pub open spec fn counts_of(s: MappingStore) -> Map<Kind, int> {
    Map::new(|k: Kind| true, |k: Kind| s.counter(k) as int)
}

/// The kinds of `ks` in the order each first occurs.
pub open spec fn first_seen(ks: Seq<Kind>) -> Seq<Kind>
    decreases ks.len(),
{
    if ks.len() == 0 {
        seq![]
    } else if first_seen(ks.drop_last()).contains(ks.last()) {
        first_seen(ks.drop_last())
    } else {
        first_seen(ks.drop_last()).push(ks.last())
    }
}

/// How many entries of `ks` are `k`.
pub open spec fn count_in(ks: Seq<Kind>, k: Kind) -> nat
    decreases ks.len(),
{
    if ks.len() == 0 {
        0
    } else {
        count_in(ks.drop_last(), k) + if ks.last() == k {
            1nat
        } else {
            0nat
        }
    }
}

/// One part of a summary: `n PREFIX`.
pub open spec fn summary_part(n: nat, k: Kind) -> Seq<char> {
    decimal(n) + seq![' '] + prefix_of(k)
}

/// The summary of report entries: for each kind in first-seen order, how
/// many entries it has and its prefix, joined by `, `.
pub open spec fn summary_of(rs: Seq<(Seq<char>, Kind)>) -> Seq<char> {
    let ks = rs.map_values(|e: (Seq<char>, Kind)| e.1);
    let seen = first_seen(ks);
    joined(Seq::new(seen.len(), |i: int| summary_part(count_in(ks, seen[i]), seen[i])), seq![',', ' '])
}

proof fn lemma_first_seen(ks: Seq<Kind>)
    ensures
        forall|k: Kind| first_seen(ks).contains(k) <==> ks.contains(k),
        forall|a: int, b: int| 0 <= a < b < first_seen(ks).len() ==> first_seen(ks)[a] != first_seen(ks)[b],
        forall|k: Kind| !ks.contains(k) ==> count_in(ks, k) == 0,
        forall|k: Kind| count_in(ks, k) <= ks.len(),
    decreases ks.len(),
{
    if ks.len() > 0 {
        let pre = ks.drop_last();
        lemma_first_seen(pre);
        let fp = first_seen(pre);
        assert forall|k: Kind| fp.push(ks.last()).contains(k) <==> (fp.contains(k) || ks.last() == k) by {
            if fp.push(ks.last()).contains(k) {
                let i = choose|i: int| 0 <= i < fp.push(ks.last()).len() && fp.push(ks.last())[i] == k;
                if i < fp.len() {
                    assert(fp[i] == k);
                }
            }
            if fp.contains(k) {
                let i = choose|i: int| 0 <= i < fp.len() && fp[i] == k;
                assert(fp.push(ks.last())[i] == k);
            }
            if ks.last() == k {
                assert(fp.push(ks.last())[fp.len() as int] == k);
            }
        }
        assert forall|k: Kind| count_in(ks, k) <= ks.len() by {
            assert(count_in(pre, k) <= pre.len());
        }
        assert forall|k: Kind| ks.contains(k) <==> (pre.contains(k) || ks.last() == k) by {
            if ks.contains(k) {
                let i = choose|i: int| 0 <= i < ks.len() && ks[i] == k;
                if i < pre.len() {
                    assert(pre[i] == k);
                }
            }
            if pre.contains(k) {
                let i = choose|i: int| 0 <= i < pre.len() && pre[i] == k;
                assert(ks[i] == k);
            }
            if ks.last() == k {
                assert(ks[ks.len() - 1] == k);
            }
        }
    }
}

/// What masking `t` gives, for the enabled kinds `kinds`, the word list
/// `ws` and the store `s` as it stood before: the masked text, and each
/// distinct placeholder with its kind in first-seen order.
pub open spec fn masked(t: Seq<char>, kinds: Seq<Kind>, ws: Seq<Seq<char>>, s: MappingStore) -> (
    Seq<char>,
    Seq<(Seq<char>, Kind)>,
) {
    let ms = detected(t, kinds, ws);
    let phs = assigned(s.placeholders(), s.values(), counts_of(s), ms);
    (decode_utf8(spliced(encode_utf8(t), spans_of(ms), encoded(phs))), report_of(ms, phs))
}

/// What one masking pass replaced.
#[derive(Debug, Clone, Default, PartialEq, Eq)]
pub struct Report {
    /// (placeholder, kind) for each distinct value replaced, in first-seen
    /// order.
    pub replaced: Vec<(String, Kind)>,
}

/// The entries of a report as values.
pub open spec fn report_view(r: Report) -> Seq<(Seq<char>, Kind)> {
    r.replaced@.map_values(|e: (String, Kind)| (e.0@, e.1))
}

impl Report {
    /// Whether nothing was replaced.
    pub fn is_empty(&self) -> (r: bool)
        ensures
            r == (self.replaced@.len() == 0),
    {
        self.replaced.len() == 0
    }

    /// How many distinct values were replaced.
    pub fn count(&self) -> (r: usize)
        ensures
            r == self.replaced@.len(),
    {
        self.replaced.len()
    }

    /// A one-line summary, e.g. `2 EPOSTA, 1 TCKN`: for each kind in the
    /// order it was first seen, how many placeholders it got.
    pub fn summary(&self) -> (r: String)
        ensures
            r@ == summary_of(report_view(*self)),
    {
        let ghost rs = report_view(*self);
        let ghost ks = rs.map_values(|e: (Seq<char>, Kind)| e.1);
        let mut kinds: Vec<Kind> = Vec::new();
        let mut counts: Vec<usize> = Vec::new();
        let mut i: usize = 0;
        proof {
            assert(ks.take(0) =~= Seq::<Kind>::empty());
        }
        while i < self.replaced.len()
            invariant
                rs == report_view(*self),
                ks == rs.map_values(|e: (Seq<char>, Kind)| e.1),
                i <= self.replaced@.len(),
                kinds@ == first_seen(ks.take(i as int)),
                counts@.len() == kinds@.len(),
                forall|j: int| 0 <= j < kinds@.len() ==> #[trigger] counts@[j] == count_in(ks.take(i as int), kinds@[j]),
            decreases self.replaced@.len() - i,
        {
            let k = self.replaced[i].1;
            let ghost pre = ks.take(i as int);
            let ghost post = ks.take(i + 1);
            assert(post.drop_last() =~= pre);
            assert(ks[i as int] == k);
            assert(post.last() == k);
            proof {
                lemma_first_seen(pre);
                lemma_first_seen(post);
            }
            let mut j: usize = 0;
            while j < kinds.len() && kinds[j] != k
                invariant
                    j <= kinds@.len(),
                    forall|q: int| 0 <= q < j ==> kinds@[q] != k,
                decreases kinds@.len() - j,
            {
                j = j + 1;
            }
            if j < kinds.len() {
                assert(kinds@.contains(k));
                assert(count_in(pre, k) <= pre.len());
                let n = counts[j] + 1;
                counts.set(j, n);
                assert forall|q: int| 0 <= q < kinds@.len() implies #[trigger] counts@[q] == count_in(post, kinds@[q]) by {
                    if q != j {
                        assert(kinds@[q] != kinds@[j as int]);
                    }
                }
            } else {
                assert(!kinds@.contains(k));
                kinds.push(k);
                counts.push(1);
                assert forall|q: int| 0 <= q < kinds@.len() implies #[trigger] counts@[q] == count_in(post, kinds@[q]) by {
                    if q < kinds@.len() - 1 {
                        assert(kinds@[q] != k);
                    } else {
                        assert(!pre.contains(k));
                    }
                }
            }
            i = i + 1;
        }
        assert(ks.take(ks.len() as int) =~= ks);
        let ghost seen = first_seen(ks);
        let ghost parts = Seq::new(seen.len(), |q: int| summary_part(count_in(ks, seen[q]), seen[q]));
        let mut out = String::new();
        let mut q: usize = 0;
        proof {
            assert(out@ =~= joined(parts.take(0), seq![',', ' ']));
        }
        while q < kinds.len()
            invariant
                kinds@ == seen,
                counts@.len() == kinds@.len(),
                forall|j: int| 0 <= j < kinds@.len() ==> #[trigger] counts@[j] == count_in(ks, kinds@[j]),
                parts == Seq::new(seen.len(), |q: int| summary_part(count_in(ks, seen[q]), seen[q])),
                q <= kinds@.len(),
                out@ == joined(parts.take(q as int), seq![',', ' ']),
            decreases kinds@.len() - q,
        {
            let ghost before = out@;
            proof {
                reveal_strlit(", ");
                reveal_strlit(" ");
            }
            if q > 0 {
                out.append(", ");
            }
            let d = decimal_string(counts[q]);
            out.append(d.as_str());
            out.append(" ");
            out.append(kinds[q].prefix());
            proof {
                assert(counts@[q as int] == count_in(ks, kinds@[q as int]));
                let pt = parts.take(q + 1);
                assert(pt.drop_last() =~= parts.take(q as int));
                assert(pt.last() == summary_part(count_in(ks, seen[q as int]), seen[q as int]));
                if q == 0 {
                    assert(out@ =~= pt[0]);
                } else {
                    assert(out@ =~= before + seq![',', ' '] + pt.last());
                }
            }
            q = q + 1;
        }
        assert(parts.take(parts.len() as int) =~= parts);
        out
    }
}

proof fn lemma_spliced_upto_agree(
    b: Seq<u8>,
    spans: Seq<(int, int)>,
    r1: Seq<Seq<u8>>,
    r2: Seq<Seq<u8>>,
    i: int,
)
    requires
        forall|j: int| 0 <= j < i ==> r1[j] == r2[j],
    ensures
        spliced_upto(b, spans, r1, i) == spliced_upto(b, spans, r2, i),
    decreases i,
{
    if i > 0 {
        lemma_spliced_upto_agree(b, spans, r1, r2, i - 1);
    }
}

/// The characters of an empty span are none.
proof fn lemma_chars_in_empty(b: Seq<u8>, s: int)
    requires
        0 <= s <= b.len(),
    ensures
        chars_in(b, s, s) == Seq::<char>::empty(),
{
    assert(b.subrange(s, s) =~= Seq::<u8>::empty());
    reveal_with_fuel(decode_utf8, 1);
}

proof fn lemma_assigned_len(
    places: Map<Seq<char>, Seq<char>>,
    values: Map<Seq<char>, Seq<char>>,
    counts: Map<Kind, int>,
    ms: Seq<MatchView>,
)
    ensures
        assigned(places, values, counts, ms).len() == ms.len(),
    decreases ms.len(),
{
    if ms.len() > 0 {
        lemma_assigned_len(places, values, counts, ms.drop_last());
    }
}

/// Replace every detected value in `text` with its placeholder.
///
/// The requirement on the counters keeps every placeholder number below
/// `usize::MAX`: a pass mints at most one placeholder per byte of text,
/// plus one for an empty value.
pub fn anonymize_text(text: &str, settings: &Settings, store: &mut MappingStore) -> (r: (
    String,
    Report,
))
    requires
        old(store).wf(),
        forall|k: Kind| old(store).counter(k) + text.spec_bytes().len() + 1 < usize::MAX,
    ensures
        final(store).wf(),
        final(store).path_spec() == old(store).path_spec(),
        ({
            let ms = detected(text@, settings.enabled@, words_view(settings.custom_words@));
            let p0 = old(store).placeholders();
            let v0 = old(store).values();
            let c0 = counts_of(*old(store));
            let after = assign_all(p0, v0, c0, ms);
            let phs = assigned(p0, v0, c0, ms);
            &&& all_fit(text@, ms)
            &&& disjoint_ascending(ms)
            &&& final(store).placeholders() == after.0
            &&& final(store).values() == after.1
            &&& counts_of(*final(store)) == after.2
            &&& final(store).is_dirty() == (old(store).is_dirty() || final(store).values() != v0)
            &&& encode_utf8(r.0@) == spliced(encode_utf8(text@), spans_of(ms), encoded(phs))
            &&& report_view(r.1) == report_of(ms, phs)
        }),
        r.0@ == masked(text@, settings.enabled@, words_view(settings.custom_words@), *old(store)).0,
        report_view(r.1) == masked(text@, settings.enabled@, words_view(settings.custom_words@), *old(store)).1,
{
    let matches = detect(text, settings);
    let ghost ms = views(matches@);
    let ghost b = text.spec_bytes();
    let ghost p0 = store.placeholders();
    let ghost v0 = store.values();
    let ghost c0 = counts_of(*store);
    let ghost empty = Seq::<char>::empty();
    let ghost sp = spans_of(ms);
    let mut out = String::new();
    let mut report = Report { replaced: Vec::new() };
    let mut cursor: usize = 0;
    proof {
        lemma_whole_span(text);
        assert(encode_utf8(out@) =~= Seq::<u8>::empty());
        assert(ms.take(0) =~= Seq::<MatchView>::empty());
        assert(report_view(report) =~= Seq::<(Seq<char>, Kind)>::empty());
    }
    for m in it: matches
        invariant
            it.seq() == matches@,
            ms == views(matches@),
            sp == spans_of(ms),
            empty == Seq::<char>::empty(),
            b == text.spec_bytes(),
            valid_utf8(b),
            span_ok(b, 0, b.len() as int),
            disjoint_ascending(ms),
            all_fit(text@, ms),
            forall|k: Kind| p0 == old(store).placeholders() && v0 == old(store).values() && c0
                == counts_of(*old(store)) && #[trigger] c0[k] + b.len() + 1 < usize::MAX,
            store.wf(),
            store.path_spec() == old(store).path_spec(),
            store.is_dirty() == (old(store).is_dirty() || store.values() != v0),
            v0.dom().subset_of(store.values().dom()),
            (store.placeholders(), store.values(), counts_of(*store)) == assign_all(
                p0,
                v0,
                c0,
                ms.take(it.index() as int),
            ),
            cursor as int == gap_start(sp, it.index() as int),
            span_ok(b, cursor as int, b.len() as int),
            encode_utf8(out@) == spliced_upto(
                b,
                sp,
                encoded(assigned(p0, v0, c0, ms.take(it.index() as int))),
                it.index() as int,
            ),
            report_view(report) == report_of(ms, assigned(p0, v0, c0, ms.take(it.index() as int))),
            forall|k: Kind| #[trigger] store.counter(k) <= c0[k] + cursor + (if store.placeholders().contains_key(
                empty,
            ) {
                1int
            } else {
                0int
            }),
    {
        let ghost i = it.index() as int;
        let ghost pre = ms.take(i);
        let ghost post = ms.take(i + 1);
        assert(post.drop_last() =~= pre);
        assert(ms[i] == m@);
        assert(post.last() == m@);
        assert(fits(text@, ms[i]));
        assert(cursor <= m.start) by {
            if i > 0 {
                assert(ms[i - 1].1 <= ms[i].0);
            }
        }
        let piece = substr(text, cursor, m.start);
        let ghost out_before = out@;
        out.append(piece);
        proof {
            lemma_utf8_concat(out_before, piece@);
        }
        let ghost store_before = *store;
        let placeholder = store.placeholder_for(m.value.as_str(), m.kind);
        proof {
            if !store_before.placeholders().contains_key(m.value@) {
                if m.start == m.end {
                    lemma_chars_in_empty(b, m.start as int);
                    assert(m.value@ == empty);
                }
                assert(!v0.dom().contains(placeholder@));
                assert(store.values().dom().contains(placeholder@));
            }
            assert(counts_of(*store) =~= if store_before.placeholders().contains_key(m.value@) {
                counts_of(store_before)
            } else {
                counts_of(store_before).insert(m.kind, store_before.counter(m.kind) + 1)
            });
        }
        let mut seen = false;
        let mut j: usize = 0;
        while j < report.replaced.len()
            invariant
                j <= report.replaced@.len(),
                seen == exists|q: int| 0 <= q < j && (#[trigger] report_view(report)[q]).0 == placeholder@,
            decreases report.replaced@.len() - j,
        {
            assert(report_view(report)[j as int] == (report.replaced@[j as int].0@, report.replaced@[j as int].1));
            if report.replaced[j].0 == placeholder {
                seen = true;
            }
            j = j + 1;
        }
        let ghost rep_before = report_view(report);
        if !seen {
            report.replaced.push((placeholder.clone(), m.kind));
            assert(report_view(report) =~= rep_before.push((placeholder@, m.kind)));
        }
        let ghost out_mid = out@;
        out.append(placeholder.as_str());
        proof {
            lemma_utf8_concat(out_mid, placeholder@);
            let phs_pre = assigned(p0, v0, c0, pre);
            let phs_post = assigned(p0, v0, c0, post);
            lemma_assigned_len(p0, v0, c0, pre);
            assert(phs_post == phs_pre.push(placeholder@));
            assert(encoded(phs_post)[i] == encode_utf8(placeholder@));
            lemma_spliced_upto_agree(b, sp, encoded(phs_pre), encoded(phs_post), i);
            assert(sp[i] == (m.start as int, m.end as int));
            assert(phs_post.drop_last() =~= phs_pre);
        }
        cursor = m.end;
    }
    assert(ms.take(ms.len() as int) =~= ms);
    let n = text.as_bytes().len();
    let tail = substr(text, cursor, n);
    let ghost out_before = out@;
    out.append(tail);
    proof {
        lemma_utf8_concat(out_before, tail@);
        encode_utf8_decode_utf8(out@);
    }
    (out, report)
}

/// What a span of `b` becomes when restoring: the real value if its
/// characters are a placeholder `values` knows, otherwise the span as it is.
pub open spec fn restored_piece(b: Seq<u8>, span: (int, int), values: Map<Seq<char>, Seq<char>>) -> Seq<u8> {
    let token = chars_in(b, span.0, span.1);
    if values.contains_key(token) {
        encode_utf8(values[token])
    } else {
        b.subrange(span.0, span.1)
    }
}

/// What each span becomes when restoring.
pub open spec fn restored_pieces(b: Seq<u8>, spans: Seq<(int, int)>, values: Map<Seq<char>, Seq<char>>) -> Seq<Seq<u8>> {
    Seq::new(spans.len(), |i: int| restored_piece(b, spans[i], values))
}

/// How many of the spans hold a placeholder that `values` knows.
pub open spec fn known_count(b: Seq<u8>, spans: Seq<(int, int)>, values: Map<Seq<char>, Seq<char>>) -> nat
    decreases spans.len(),
{
    if spans.len() == 0 {
        0
    } else {
        known_count(b, spans.drop_last(), values) + if values.contains_key(
            chars_in(b, spans.last().0, spans.last().1),
        ) {
            1nat
        } else {
            0nat
        }
    }
}

/// Byte spans as integer pairs.
pub open spec fn int_spans(spans: Seq<(usize, usize)>) -> Seq<(int, int)> {
    Seq::new(spans.len(), |i: int| (spans[i].0 as int, spans[i].1 as int))
}

/// The whole-match spans of a search result.
pub open spec fn whole_spans(cs: Seq<Capture>) -> Seq<(int, int)> {
    Seq::new(cs.len(), |i: int| (cs[i].0.0 as int, cs[i].0.1 as int))
}

/// Where placeholders stand as words in `t`, as the placeholder search
/// reports them.
pub open spec fn placeholder_spans(t: Seq<char>) -> Option<Seq<(int, int)>> {
    match regex_captures_of(PLACEHOLDER_TOKEN_PATTERN@, t, 0) {
        Some(cs) => Some(whole_spans(cs)),
        None => None,
    }
}

/// Spans that lie in `b` on character boundaries, in order, without
/// overlapping.
pub open spec fn spans_fit(b: Seq<u8>, spans: Seq<(int, int)>) -> bool {
    &&& forall|i: int| 0 <= i < spans.len() ==> span_ok(b, (#[trigger] spans[i]).0, spans[i].1)
    &&& forall|i: int| 0 < i < spans.len() ==> spans[i - 1].1 <= (#[trigger] spans[i]).0
}

/// Put the real values back into the given spans of `text`; a span whose
/// characters are not a placeholder the store knows is left as it is.
/// Returns the text and how many placeholders were resolved.
#[verifier::rlimit(30)]
pub fn restore_spans(text: &str, spans: &Vec<(usize, usize)>, store: &MappingStore) -> (r: (String, usize))
    requires
        store.wf(),
        spans_fit(text.spec_bytes(), int_spans(spans@)),
    ensures
        encode_utf8(r.0@) == spliced(
            text.spec_bytes(),
            int_spans(spans@),
            restored_pieces(text.spec_bytes(), int_spans(spans@), store.values()),
        ),
        r.1 == known_count(text.spec_bytes(), int_spans(spans@), store.values()),
{
    let ghost b = text.spec_bytes();
    let ghost sp = int_spans(spans@);
    let ghost reps = restored_pieces(b, sp, store.values());
    let mut out = String::new();
    let mut count: usize = 0;
    let mut cursor: usize = 0;
    proof {
        lemma_whole_span(text);
        assert(encode_utf8(out@) =~= Seq::<u8>::empty());
    }
    let mut i: usize = 0;
    while i < spans.len()
        invariant
            b == text.spec_bytes(),
            sp == int_spans(spans@),
            reps == restored_pieces(b, sp, store.values()),
            valid_utf8(b),
            span_ok(b, 0, b.len() as int),
            spans_fit(b, sp),
            store.wf(),
            i <= spans@.len(),
            cursor as int == gap_start(sp, i as int),
            span_ok(b, cursor as int, b.len() as int),
            encode_utf8(out@) == spliced_upto(b, sp, reps, i as int),
            count == known_count(b, sp.take(i as int), store.values()),
            count <= i,
        decreases spans@.len() - i,
    {
        let (s, e) = spans[i];
        assert(sp[i as int] == (s as int, e as int));
        assert(span_ok(b, s as int, e as int));
        assert(cursor <= s) by {
            if i > 0 {
                assert(sp[i - 1].1 <= sp[i as int].0);
            }
        }
        let gap = substr(text, cursor, s);
        let ghost o1 = out@;
        out.append(gap);
        proof {
            lemma_utf8_concat(o1, gap@);
        }
        let token = substr(text, s, e);
        let ghost o2 = out@;
        assert(sp.take(i + 1).drop_last() =~= sp.take(i as int));
        match store.value_for(token) {
            Some(v) => {
                out.append(v);
                count = count + 1;
                proof {
                    lemma_utf8_concat(o2, v@);
                }
            },
            None => {
                out.append(token);
                proof {
                    lemma_utf8_concat(o2, token@);
                }
            },
        }
        cursor = e;
        i = i + 1;
    }
    assert(sp.take(sp.len() as int) =~= sp);
    let n = text.as_bytes().len();
    let tail = substr(text, cursor, n);
    let ghost o3 = out@;
    out.append(tail);
    proof {
        lemma_utf8_concat(o3, tail@);
    }
    (out, count)
}

/// The whole-match spans of a search result, as byte offsets.
fn whole_match_spans(caps: &Vec<Capture>) -> (r: Vec<(usize, usize)>)
    ensures
        int_spans(r@) == whole_spans(caps@),
{
    let mut r: Vec<(usize, usize)> = Vec::new();
    let mut i: usize = 0;
    while i < caps.len()
        invariant
            i <= caps@.len(),
            r@.len() == i,
            forall|j: int| 0 <= j < i ==> #[trigger] r@[j] == caps@[j].0,
        decreases caps@.len() - i,
    {
        r.push(caps[i].0);
        i = i + 1;
    }
    assert(int_spans(r@) =~= whole_spans(caps@));
    r
}

/// What restoring `t` with the table `values` gives: the text with each
/// known placeholder the search finds replaced by its value, and how many
/// were replaced; the text as it is when the search pattern does not
/// compile.
pub open spec fn restored(t: Seq<char>, values: Map<Seq<char>, Seq<char>>) -> (Seq<char>, nat) {
    match placeholder_spans(t) {
        Some(sp) => (
            decode_utf8(spliced(encode_utf8(t), sp, restored_pieces(encode_utf8(t), sp, values))),
            known_count(encode_utf8(t), sp, values),
        ),
        None => (t, 0),
    }
}

/// Put the real values back wherever a known placeholder stands as a word
/// in `text`. Unknown placeholders are left untouched rather than guessed
/// at. Returns the text and how many placeholders were resolved.
pub fn restore_text(text: &str, store: &MappingStore) -> (r: (String, usize))
    requires
        store.wf(),
    ensures
        match placeholder_spans(text@) {
            Some(sp) => encode_utf8(r.0@) == spliced(
                text.spec_bytes(),
                sp,
                restored_pieces(text.spec_bytes(), sp, store.values()),
            ) && r.1 == known_count(text.spec_bytes(), sp, store.values()),
            None => r.0@ == text@ && r.1 == 0,
        },
        placeholder_spans(text@) matches Some(sp) ==> spans_fit(text.spec_bytes(), sp),
        r.0@ == restored(text@, store.values()).0,
        r.1 == restored(text@, store.values()).1,
{
    match regex_captures(PLACEHOLDER_TOKEN_PATTERN, text, 0) {
        None => (String::from_str(text), 0),
        Some(caps) => {
            let spans = whole_match_spans(&caps);
            proof {
                let sp = int_spans(spans@);
                assert forall|i: int| 0 < i < sp.len() implies sp[i - 1].1 <= (#[trigger] sp[i]).0 by {
                    assert(caps@[i - 1].0.1 <= caps@[i].0.0);
                }
                assert forall|i: int| 0 <= i < sp.len() implies span_ok(
                    text.spec_bytes(),
                    (#[trigger] sp[i]).0,
                    sp[i].1,
                ) by {
                    assert(span_ok(text.spec_bytes(), caps@[i].0.0 as int, caps@[i].0.1 as int));
                }
            }
            let r = restore_spans(text, &spans, store);
            proof {
                encode_utf8_decode_utf8(r.0@);
            }
            r
        },
    }
}

/// Whether one of the placeholders found in `t` is one that `values` knows.
pub open spec fn has_known_placeholder(t: Seq<char>, values: Map<Seq<char>, Seq<char>>) -> bool {
    &&& placeholder_spans(t) is Some
    &&& exists|i: int|
        0 <= i < placeholder_spans(t)->0.len() && #[trigger] known_at(
            t,
            placeholder_spans(t)->0,
            values,
            i,
        )
}

/// The `i`th span of `sp` in `t` holds a placeholder that `values` knows.
pub open spec fn known_at(t: Seq<char>, sp: Seq<(int, int)>, values: Map<Seq<char>, Seq<char>>, i: int) -> bool {
    values.contains_key(chars_in(encode_utf8(t), sp[i].0, sp[i].1))
}

/// True when `text` still carries a placeholder this store can resolve,
/// that is, when restoring it would change something.
pub fn has_restorable_placeholder(text: &str, store: &MappingStore) -> (r: bool)
    requires
        store.wf(),
    ensures
        r == has_known_placeholder(text@, store.values()),
{
    match regex_captures(PLACEHOLDER_TOKEN_PATTERN, text, 0) {
        None => false,
        Some(caps) => {
            let ghost sp = whole_spans(caps@);
            let mut i: usize = 0;
            while i < caps.len()
                invariant
                    sp == whole_spans(caps@),
                    placeholder_spans(text@) == Some(sp),
                    store.wf(),
                    crate::pattern::captures_fit(text.spec_bytes(), caps@),
                    i <= caps@.len(),
                    forall|j: int| 0 <= j < i ==> !#[trigger] known_at(text@, sp, store.values(), j),
                decreases caps@.len() - i,
            {
                let (s, e) = caps[i].0;
                assert(sp[i as int] == (s as int, e as int));
                let token = substr(text, s, e);
                if store.value_for(token).is_some() {
                    assert(known_at(text@, placeholder_spans(text@)->0, store.values(), i as int));
                    return true;
                }
                i = i + 1;
            }
            false
        },
    }
}

} // verus!
