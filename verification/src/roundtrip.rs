//! What masking and restoring promise together: a masked text, restored
//! with the table the masking left behind, is the original text again;
//! a value keeps its placeholder from one pass to the next; and a text
//! with no known placeholder is left as it is.

use vstd::prelude::*;
use vstd::utf8::*;

use crate::anonymize::{
    assign_all, assigned, counts_of, encoded, gap_start, has_known_placeholder, known_at,
    known_count, masked, placeholder_spans, restored, restored_piece, restored_pieces, spans_fit,
    spans_in_order, spans_of, spliced, spliced_upto,
};
use crate::detectors::{all_fit, detected, disjoint_ascending, fits, Kind, MatchView};
use crate::store::{lemma_split_minted, placeholder_text, split_placeholder_spec, MappingStore};
use crate::text::{chars_in, lemma_span_valid, span_ok};

verus! {

/// `b` from its `i`th gap on, with each span from the `i`th on replaced by
/// its replacement.
pub open spec fn spliced_from(b: Seq<u8>, spans: Seq<(int, int)>, reps: Seq<Seq<u8>>, i: int) -> Seq<u8>
    decreases spans.len() - i,
{
    if i >= spans.len() {
        b.subrange(gap_start(spans, spans.len() as int), b.len() as int)
    } else {
        b.subrange(gap_start(spans, i), spans[i].0) + reps[i] + spliced_from(b, spans, reps, i + 1)
    }
}

/// Where the `i`th replacement begins in the spliced bytes.
pub open spec fn inserted_start(b: Seq<u8>, spans: Seq<(int, int)>, reps: Seq<Seq<u8>>, i: int) -> int {
    spliced_upto(b, spans, reps, i).len() + (spans[i].0 - gap_start(spans, i))
}

/// The spans the replacements occupy in `spliced(b, spans, reps)`.
pub open spec fn inserted_spans(b: Seq<u8>, spans: Seq<(int, int)>, reps: Seq<Seq<u8>>) -> Seq<(int, int)> {
    Seq::new(
        spans.len(),
        |i: int| (inserted_start(b, spans, reps, i), inserted_start(b, spans, reps, i) + reps[i].len()),
    )
}

/// The spliced bytes are what comes before the `i`th gap followed by what
/// comes from it on.
proof fn lemma_spliced_split(b: Seq<u8>, sp: Seq<(int, int)>, reps: Seq<Seq<u8>>, i: int)
    requires
        0 <= i <= sp.len(),
    ensures
        spliced(b, sp, reps) == spliced_upto(b, sp, reps, i) + spliced_from(b, sp, reps, i),
    decreases sp.len() - i,
{
    if i < sp.len() {
        lemma_spliced_split(b, sp, reps, i + 1);
        let g = b.subrange(gap_start(sp, i), sp[i].0);
        assert(spliced_upto(b, sp, reps, i + 1) == spliced_upto(b, sp, reps, i) + g + reps[i]);
        assert(spliced_from(b, sp, reps, i) == g + reps[i] + spliced_from(b, sp, reps, i + 1));
        assert(spliced_upto(b, sp, reps, i + 1) + spliced_from(b, sp, reps, i + 1) =~= spliced_upto(
            b,
            sp,
            reps,
            i,
        ) + spliced_from(b, sp, reps, i));
    } else {
        assert(spliced_from(b, sp, reps, i) == b.subrange(gap_start(sp, sp.len() as int), b.len() as int));
    }
}

/// Splicing `x` gives `y` when the gaps of `x` are those of `y` and each
/// piece is the matching span of `y`.
proof fn lemma_splice_onto(
    x: Seq<u8>,
    sx: Seq<(int, int)>,
    pieces: Seq<Seq<u8>>,
    y: Seq<u8>,
    sy: Seq<(int, int)>,
)
    requires
        sx.len() == sy.len(),
        spans_in_order(y, sy),
        forall|i: int|
            0 <= i < sx.len() ==> x.subrange(gap_start(sx, i), #[trigger] sx[i].0) == y.subrange(
                gap_start(sy, i),
                sy[i].0,
            ),
        forall|i: int| 0 <= i < sx.len() ==> #[trigger] pieces[i] == y.subrange(sy[i].0, sy[i].1),
        x.subrange(gap_start(sx, sx.len() as int), x.len() as int) == y.subrange(
            gap_start(sy, sy.len() as int),
            y.len() as int,
        ),
    ensures
        spliced(x, sx, pieces) == y,
{
    let n = sx.len() as int;
    assert forall|i: int| 0 <= i <= n implies #[trigger] spliced_upto(x, sx, pieces, i) == y.subrange(
        0,
        gap_start(sy, i),
    ) by {
        lemma_splice_prefix(x, sx, pieces, y, sy, i);
    }
    let g = gap_start(sy, n);
    assert(0 <= g <= y.len()) by {
        if n > 0 {
            assert(0 <= sy[n - 1].0 <= sy[n - 1].1 <= y.len());
        }
    }
    assert(y.subrange(0, g) + y.subrange(g, y.len() as int) =~= y);
}

proof fn lemma_splice_prefix(
    x: Seq<u8>,
    sx: Seq<(int, int)>,
    pieces: Seq<Seq<u8>>,
    y: Seq<u8>,
    sy: Seq<(int, int)>,
    i: int,
)
    requires
        sx.len() == sy.len(),
        spans_in_order(y, sy),
        forall|i: int|
            0 <= i < sx.len() ==> x.subrange(gap_start(sx, i), #[trigger] sx[i].0) == y.subrange(
                gap_start(sy, i),
                sy[i].0,
            ),
        forall|i: int| 0 <= i < sx.len() ==> #[trigger] pieces[i] == y.subrange(sy[i].0, sy[i].1),
        0 <= i <= sx.len(),
    ensures
        spliced_upto(x, sx, pieces, i) == y.subrange(0, gap_start(sy, i)),
    decreases i,
{
    if i > 0 {
        lemma_splice_prefix(x, sx, pieces, y, sy, i - 1);
        let j = i - 1;
        let g = gap_start(sy, j);
        assert(x.subrange(gap_start(sx, j), sx[j].0) == y.subrange(g, sy[j].0));
        assert(pieces[j] == y.subrange(sy[j].0, sy[j].1));
        assert(0 <= sy[j].0 <= sy[j].1 <= y.len());
        assert(0 <= g <= sy[j].0) by {
            if j > 0 {
                assert(sy[j - 1].1 <= sy[j].0);
                assert(0 <= sy[j - 1].0 <= sy[j - 1].1);
            }
        }
        assert(y.subrange(0, g) + y.subrange(g, sy[j].0) + y.subrange(sy[j].0, sy[j].1) =~= y.subrange(
            0,
            sy[j].1,
        ));
    }
}

/// A text with valid UTF-8 on both sides of a cut has a character boundary
/// at the cut.
pub proof fn lemma_concat_boundary(x: Seq<u8>, z: Seq<u8>)
    requires
        valid_utf8(x),
        valid_utf8(z),
    ensures
        valid_utf8(x + z),
        is_char_boundary(x + z, x.len() as int),
{
    valid_utf8_concat(x, z);
    if z.len() == 0 {
        assert(x + z =~= x);
        is_char_boundary_start_end_of_seq(x);
    } else {
        is_char_boundary_iff_not_is_continuation_byte(z, 0);
        is_char_boundary_iff_not_is_continuation_byte(x + z, x.len() as int);
        assert((x + z)[x.len() as int] == z[0]);
    }
}

/// Each gap of `b` between the spans, and the tail after the last, is a
/// boundary-aligned range.
proof fn lemma_gap_ok(b: Seq<u8>, sp: Seq<(int, int)>, i: int)
    requires
        valid_utf8(b),
        spans_fit(b, sp),
        0 <= i <= sp.len(),
    ensures
        span_ok(
            b,
            gap_start(sp, i),
            if i < sp.len() {
                sp[i].0
            } else {
                b.len() as int
            },
        ),
{
    is_char_boundary_start_end_of_seq(b);
    if i > 0 {
        assert(span_ok(b, sp[i - 1].0, sp[i - 1].1));
    }
    if i < sp.len() {
        assert(span_ok(b, sp[i].0, sp[i].1));
        if i > 0 {
            assert(sp[i - 1].1 <= sp[i].0);
        }
    }
}

/// Replacements that are each valid UTF-8, one per span.
pub open spec fn valid_pieces(reps: Seq<Seq<u8>>) -> bool {
    forall|j: int| 0 <= j < reps.len() ==> valid_utf8(#[trigger] reps[j])
}

proof fn lemma_upto_valid(b: Seq<u8>, sp: Seq<(int, int)>, reps: Seq<Seq<u8>>, i: int)
    requires
        valid_utf8(b),
        spans_fit(b, sp),
        reps.len() == sp.len(),
        valid_pieces(reps),
        0 <= i <= sp.len(),
    ensures
        valid_utf8(spliced_upto(b, sp, reps, i)),
        spliced_upto(b, sp, reps, i).len() == gap_start(inserted_spans(b, sp, reps), i),
    decreases i,
{
    if i > 0 {
        let j = i - 1;
        lemma_upto_valid(b, sp, reps, j);
        lemma_gap_ok(b, sp, j);
        lemma_span_valid(b, gap_start(sp, j), sp[j].0);
        let u = spliced_upto(b, sp, reps, j);
        let g = b.subrange(gap_start(sp, j), sp[j].0);
        assert(valid_utf8(reps[j]));
        valid_utf8_concat(u, g);
        valid_utf8_concat(u + g, reps[j]);
        assert(spliced_upto(b, sp, reps, i) == u + g + reps[j]);
    }
}

proof fn lemma_from_valid(b: Seq<u8>, sp: Seq<(int, int)>, reps: Seq<Seq<u8>>, i: int)
    requires
        valid_utf8(b),
        spans_fit(b, sp),
        reps.len() == sp.len(),
        valid_pieces(reps),
        0 <= i <= sp.len(),
    ensures
        valid_utf8(spliced_from(b, sp, reps, i)),
    decreases sp.len() - i,
{
    lemma_gap_ok(b, sp, i);
    if i < sp.len() {
        lemma_from_valid(b, sp, reps, i + 1);
        lemma_span_valid(b, gap_start(sp, i), sp[i].0);
        let g = b.subrange(gap_start(sp, i), sp[i].0);
        assert(valid_utf8(reps[i]));
        valid_utf8_concat(g, reps[i]);
        valid_utf8_concat(g + reps[i], spliced_from(b, sp, reps, i + 1));
    } else {
        lemma_span_valid(b, gap_start(sp, i), b.len() as int);
    }
}

/// The `i`th replacement sits at its inserted span, on character
/// boundaries, and the gap before it is the gap of `b` before the `i`th
/// span.
proof fn lemma_inserted_at(b: Seq<u8>, sp: Seq<(int, int)>, reps: Seq<Seq<u8>>, i: int)
    requires
        valid_utf8(b),
        spans_fit(b, sp),
        reps.len() == sp.len(),
        valid_pieces(reps),
        0 <= i < sp.len(),
    ensures
        valid_utf8(spliced(b, sp, reps)),
        span_ok(spliced(b, sp, reps), inserted_spans(b, sp, reps)[i].0, inserted_spans(b, sp, reps)[i].1),
        gap_start(inserted_spans(b, sp, reps), i) <= inserted_spans(b, sp, reps)[i].0,
        spliced(b, sp, reps).subrange(inserted_spans(b, sp, reps)[i].0, inserted_spans(b, sp, reps)[i].1)
            == reps[i],
        spliced(b, sp, reps).subrange(gap_start(inserted_spans(b, sp, reps), i), inserted_spans(b, sp, reps)[i].0)
            == b.subrange(gap_start(sp, i), sp[i].0),
{
    let out = spliced(b, sp, reps);
    let ins = inserted_spans(b, sp, reps);
    lemma_spliced_split(b, sp, reps, i);
    lemma_upto_valid(b, sp, reps, i);
    lemma_from_valid(b, sp, reps, i + 1);
    lemma_gap_ok(b, sp, i);
    lemma_span_valid(b, gap_start(sp, i), sp[i].0);
    let u = spliced_upto(b, sp, reps, i);
    let g = b.subrange(gap_start(sp, i), sp[i].0);
    let r = reps[i];
    let f = spliced_from(b, sp, reps, i + 1);
    assert(valid_utf8(r));
    assert(spliced_from(b, sp, reps, i) == g + r + f);
    assert(out =~= (u + g) + (r + f));
    assert(out =~= (u + g + r) + f);
    valid_utf8_concat(u, g);
    valid_utf8_concat(r, f);
    valid_utf8_concat(u + g, r);
    lemma_concat_boundary(u + g, r + f);
    lemma_concat_boundary(u + g + r, f);
    assert(ins[i] == ((u.len() + g.len()) as int, (u.len() + g.len() + r.len()) as int));
    assert(out.subrange(ins[i].0, ins[i].1) =~= r);
    assert(out.subrange(u.len() as int, ins[i].0) =~= g);
}

/// What splicing does to the bytes: the result is valid UTF-8, each
/// replacement stands at its inserted span, and everything around the
/// inserted spans is the text around the original spans.
pub proof fn lemma_inserted(b: Seq<u8>, sp: Seq<(int, int)>, reps: Seq<Seq<u8>>)
    requires
        valid_utf8(b),
        spans_fit(b, sp),
        reps.len() == sp.len(),
        valid_pieces(reps),
    ensures
        valid_utf8(spliced(b, sp, reps)),
        spans_fit(spliced(b, sp, reps), inserted_spans(b, sp, reps)),
        forall|i: int|
            0 <= i < sp.len() ==> spliced(b, sp, reps).subrange(
                (#[trigger] inserted_spans(b, sp, reps)[i]).0,
                inserted_spans(b, sp, reps)[i].1,
            ) == reps[i],
        forall|i: int|
            0 <= i < sp.len() ==> spliced(b, sp, reps).subrange(
                gap_start(inserted_spans(b, sp, reps), i),
                (#[trigger] inserted_spans(b, sp, reps)[i]).0,
            ) == b.subrange(gap_start(sp, i), sp[i].0),
        spliced(b, sp, reps).subrange(
            gap_start(inserted_spans(b, sp, reps), sp.len() as int),
            spliced(b, sp, reps).len() as int,
        ) == b.subrange(gap_start(sp, sp.len() as int), b.len() as int),
{
    let out = spliced(b, sp, reps);
    let ins = inserted_spans(b, sp, reps);
    let n = sp.len() as int;
    lemma_spliced_split(b, sp, reps, n);
    lemma_upto_valid(b, sp, reps, n);
    lemma_from_valid(b, sp, reps, n);
    valid_utf8_concat(spliced_upto(b, sp, reps, n), spliced_from(b, sp, reps, n));
    assert(spliced_from(b, sp, reps, n) == b.subrange(gap_start(sp, n), b.len() as int));
    assert(out.subrange(gap_start(ins, n), out.len() as int) =~= spliced_from(b, sp, reps, n));
    assert forall|i: int| 0 <= i < n implies span_ok(out, (#[trigger] ins[i]).0, ins[i].1) && out.subrange(
        ins[i].0,
        ins[i].1,
    ) == reps[i] && out.subrange(gap_start(ins, i), ins[i].0) == b.subrange(gap_start(sp, i), sp[i].0) by {
        lemma_inserted_at(b, sp, reps, i);
    }
    assert forall|i: int| 0 < i < n implies ins[i - 1].1 <= (#[trigger] ins[i]).0 by {
        lemma_inserted_at(b, sp, reps, i);
    }
}

/// A table whose placeholders lead back to their values, and whose
/// counters are at least the number of every known placeholder.
pub open spec fn table_consistent(
    places: Map<Seq<char>, Seq<char>>,
    values: Map<Seq<char>, Seq<char>>,
    counts: Map<Kind, int>,
) -> bool {
    &&& forall|v: Seq<char>| #[trigger]
        places.contains_key(v) ==> values.contains_key(places[v]) && values[places[v]] == v
    &&& forall|ph: Seq<char>| #[trigger]
        values.contains_key(ph) ==> (split_placeholder_spec(ph) matches Some((k, n)) ==> n <= counts[k])
}

/// Assigning placeholders keeps the table consistent, never changes an
/// entry that was there, raises each counter by at most one per match, and
/// gives each match the placeholder its value ends up with.
proof fn lemma_assign_all(
    places: Map<Seq<char>, Seq<char>>,
    values: Map<Seq<char>, Seq<char>>,
    counts: Map<Kind, int>,
    ms: Seq<MatchView>,
)
    requires
        table_consistent(places, values, counts),
        forall|k: Kind| #[trigger] counts.contains_key(k) && 0 <= counts[k] && counts[k] + ms.len() <= usize::MAX,
    ensures
        table_consistent(
            assign_all(places, values, counts, ms).0,
            assign_all(places, values, counts, ms).1,
            assign_all(places, values, counts, ms).2,
        ),
        forall|k: Kind| #[trigger]
            assign_all(places, values, counts, ms).2.contains_key(k) && counts[k] <= assign_all(
                places,
                values,
                counts,
                ms,
            ).2[k] <= counts[k] + ms.len(),
        forall|x: Seq<char>| #[trigger]
            places.contains_key(x) ==> assign_all(places, values, counts, ms).0.contains_key(x)
                && assign_all(places, values, counts, ms).0[x] == places[x],
        forall|x: Seq<char>| #[trigger]
            values.contains_key(x) ==> assign_all(places, values, counts, ms).1.contains_key(x)
                && assign_all(places, values, counts, ms).1[x] == values[x],
        assigned(places, values, counts, ms).len() == ms.len(),
        forall|i: int|
            0 <= i < ms.len() ==> assign_all(places, values, counts, ms).0.contains_key(
                (#[trigger] ms[i]).2,
            ) && assigned(places, values, counts, ms)[i] == assign_all(places, values, counts, ms).0[ms[i].2],
    decreases ms.len(),
{
    if ms.len() > 0 {
        let pre = ms.drop_last();
        lemma_assign_all(places, values, counts, pre);
        let p = assign_all(places, values, counts, pre).0;
        let v = assign_all(places, values, counts, pre).1;
        let c = assign_all(places, values, counts, pre).2;
        let m = ms.last();
        let all = assign_all(places, values, counts, ms);
        if !p.contains_key(m.2) {
            let n = c[m.3] + 1;
            let ph = placeholder_text(m.3, n as nat);
            assert(c.contains_key(m.3));
            assert(counts.contains_key(m.3));
            assert(n <= usize::MAX);
            lemma_split_minted(m.3, n as usize);
            assert(!v.contains_key(ph)) by {
                if v.contains_key(ph) {
                    assert(split_placeholder_spec(ph) == Some((m.3, n as usize)));
                }
            }
            assert(all == (p.insert(m.2, ph), v.insert(ph, m.2), c.insert(m.3, n)));
            assert forall|x: Seq<char>| #[trigger] all.0.contains_key(x) implies all.1.contains_key(all.0[x])
                && all.1[all.0[x]] == x by {
                if x != m.2 {
                    assert(p.contains_key(x));
                    assert(v.contains_key(p[x]));
                }
            }
            assert forall|ph2: Seq<char>| #[trigger] all.1.contains_key(ph2) implies (split_placeholder_spec(
                ph2,
            ) matches Some((k, j)) ==> j <= all.2[k]) by {
                if ph2 != ph {
                    assert(v.contains_key(ph2));
                    if let Some((k, j)) = split_placeholder_spec(ph2) {
                        assert(c.contains_key(k));
                    }
                }
            }
            assert forall|x: Seq<char>| #[trigger] values.contains_key(x) implies all.1.contains_key(x)
                && all.1[x] == values[x] by {
                assert(v.contains_key(x));
            }
        } else {
            assert(all == (p, v, c));
        }
        assert forall|k: Kind| #[trigger] all.2.contains_key(k) && counts[k] <= all.2[k] <= counts[k] + ms.len() by {
            assert(c.contains_key(k));
            assert(counts.contains_key(k));
        }
        assert(assigned(places, values, counts, ms) == assigned(places, values, counts, pre).push(all.0[m.2]));
        assert forall|i: int| 0 <= i < ms.len() implies all.0.contains_key((#[trigger] ms[i]).2) && assigned(
            places,
            values,
            counts,
            ms,
        )[i] == all.0[ms[i].2] by {
            if i < pre.len() {
                assert(ms[i] == pre[i]);
                assert(p.contains_key(pre[i].2));
            }
        }
    }
}

/// If every span holds a known placeholder, every span is counted.
proof fn lemma_known_count_all(b: Seq<u8>, sp: Seq<(int, int)>, values: Map<Seq<char>, Seq<char>>)
    requires
        forall|i: int| 0 <= i < sp.len() ==> values.contains_key(chars_in(b, (#[trigger] sp[i]).0, sp[i].1)),
    ensures
        known_count(b, sp, values) == sp.len(),
    decreases sp.len(),
{
    if sp.len() > 0 {
        assert forall|i: int| 0 <= i < sp.drop_last().len() implies values.contains_key(
            chars_in(b, (#[trigger] sp.drop_last()[i]).0, sp.drop_last()[i].1),
        ) by {
            assert(sp.drop_last()[i] == sp[i]);
        }
        lemma_known_count_all(b, sp.drop_last(), values);
        assert(values.contains_key(chars_in(b, sp[sp.len() - 1].0, sp[sp.len() - 1].1)));
    }
}

/// The `i`th inserted placeholder is known to the table after masking, and
/// restores to the bytes of the `i`th match.
proof fn lemma_piece_restored(
    t: Seq<char>,
    ms: Seq<MatchView>,
    p0: Map<Seq<char>, Seq<char>>,
    v0: Map<Seq<char>, Seq<char>>,
    c0: Map<Kind, int>,
    i: int,
)
    requires
        all_fit(t, ms),
        spans_fit(encode_utf8(t), spans_of(ms)),
        table_consistent(assign_all(p0, v0, c0, ms).0, assign_all(p0, v0, c0, ms).1, assign_all(p0, v0, c0, ms).2),
        assigned(p0, v0, c0, ms).len() == ms.len(),
        forall|j: int|
            0 <= j < ms.len() ==> assign_all(p0, v0, c0, ms).0.contains_key((#[trigger] ms[j]).2)
                && assigned(p0, v0, c0, ms)[j] == assign_all(p0, v0, c0, ms).0[ms[j].2],
        valid_pieces(encoded(assigned(p0, v0, c0, ms))),
        0 <= i < ms.len(),
    ensures
        ({
            let b = encode_utf8(t);
            let sp = spans_of(ms);
            let reps = encoded(assigned(p0, v0, c0, ms));
            let out = spliced(b, sp, reps);
            let ins = inserted_spans(b, sp, reps);
            let values = assign_all(p0, v0, c0, ms).1;
            &&& values.contains_key(chars_in(out, ins[i].0, ins[i].1))
            &&& restored_pieces(out, ins, values)[i] == b.subrange(sp[i].0, sp[i].1)
        }),
{
    let b = encode_utf8(t);
    let sp = spans_of(ms);
    let phs = assigned(p0, v0, c0, ms);
    let reps = encoded(phs);
    let out = spliced(b, sp, reps);
    let ins = inserted_spans(b, sp, reps);
    let all = assign_all(p0, v0, c0, ms);
    let values = all.1;
    encode_utf8_valid_utf8(t);
    lemma_inserted(b, sp, reps);
    assert(out.subrange(ins[i].0, ins[i].1) == reps[i]);
    encode_utf8_decode_utf8(phs[i]);
    assert(chars_in(out, ins[i].0, ins[i].1) == phs[i]);
    assert(all.0.contains_key(ms[i].2));
    assert(values.contains_key(phs[i]) && values[phs[i]] == ms[i].2);
    assert(fits(t, ms[i]));
    lemma_span_valid(b, sp[i].0, sp[i].1);
    assert(restored_pieces(out, ins, values)[i] == restored_piece(out, ins[i], values));
}

/// Restoring a masked text with the table the masking left behind gives
/// back the original text. The masked bytes are `b` with each match span
/// replaced by its placeholder; where the placeholder search finds exactly
/// the inserted placeholders, each is resolved to the value it replaced,
/// every one of them is counted, and the result is the original UTF-8.
#[verifier::spinoff_prover]
#[verifier::rlimit(40)]
pub proof fn law_restore_inverts_masking(t: Seq<char>, ms: Seq<MatchView>, store: MappingStore)
    requires
        store.wf(),
        all_fit(t, ms),
        disjoint_ascending(ms),
        forall|k: Kind| #[trigger] store.counter(k) + ms.len() <= usize::MAX,
    ensures
        ({
            let p0 = store.placeholders();
            let v0 = store.values();
            let c0 = counts_of(store);
            let b = encode_utf8(t);
            let reps = encoded(assigned(p0, v0, c0, ms));
            let out = spliced(b, spans_of(ms), reps);
            let ins = inserted_spans(b, spans_of(ms), reps);
            let values = assign_all(p0, v0, c0, ms).1;
            &&& valid_utf8(out)
            &&& spans_fit(out, ins)
            &&& spliced(out, ins, restored_pieces(out, ins, values)) == b
            &&& known_count(out, ins, values) == ms.len()
        }),
{
    let p0 = store.placeholders();
    let v0 = store.values();
    let c0 = counts_of(store);
    let b = encode_utf8(t);
    let sp = spans_of(ms);
    let phs = assigned(p0, v0, c0, ms);
    let reps = encoded(phs);
    let out = spliced(b, sp, reps);
    let ins = inserted_spans(b, sp, reps);
    let all = assign_all(p0, v0, c0, ms);
    let values = all.1;
    let n = ms.len() as int;
    encode_utf8_valid_utf8(t);
    store.lemma_consistent();
    assert(table_consistent(p0, v0, c0));
    lemma_assign_all(p0, v0, c0, ms);
    assert(spans_fit(b, sp)) by {
        assert forall|i: int| 0 <= i < sp.len() implies span_ok(b, (#[trigger] sp[i]).0, sp[i].1) by {
            assert(fits(t, ms[i]));
        }
        assert forall|i: int| 0 < i < sp.len() implies sp[i - 1].1 <= (#[trigger] sp[i]).0 by {
            assert(ms[i - 1].1 <= ms[i].0);
        }
    }
    assert(valid_pieces(reps)) by {
        assert forall|j: int| 0 <= j < reps.len() implies valid_utf8(#[trigger] reps[j]) by {
            encode_utf8_valid_utf8(phs[j]);
        }
    }
    lemma_inserted(b, sp, reps);
    let pieces = restored_pieces(out, ins, values);
    assert forall|i: int| 0 <= i < n implies values.contains_key(chars_in(out, (#[trigger] ins[i]).0, ins[i].1))
        && pieces[i] == b.subrange(sp[i].0, sp[i].1) by {
        lemma_piece_restored(t, ms, p0, v0, c0, i);
    }
    assert(spans_in_order(b, sp)) by {
        assert forall|i: int| 0 <= i < sp.len() implies 0 <= (#[trigger] sp[i]).0 <= sp[i].1 <= b.len() by {
            assert(span_ok(b, sp[i].0, sp[i].1));
        }
    }
    lemma_splice_onto(out, ins, pieces, b, sp);
    lemma_known_count_all(out, ins, values);
}

/// A value keeps its placeholder: every value the table knew keeps the
/// placeholder it had, a value met in one pass gets the same placeholder
/// in the next pass, equal values get equal placeholders, and different
/// values never share one.
pub proof fn law_placeholders_are_stable(store: MappingStore, first: Seq<MatchView>, second: Seq<MatchView>)
    requires
        store.wf(),
        forall|k: Kind| #[trigger] store.counter(k) + first.len() + second.len() <= usize::MAX,
    ensures
        ({
            let p0 = store.placeholders();
            let v0 = store.values();
            let c0 = counts_of(store);
            let a1 = assign_all(p0, v0, c0, first);
            let phs1 = assigned(p0, v0, c0, first);
            let phs2 = assigned(a1.0, a1.1, a1.2, second);
            &&& forall|x: Seq<char>| #[trigger] p0.contains_key(x) ==> a1.0.contains_key(x) && a1.0[x] == p0[x]
            &&& forall|i: int, j: int|
                0 <= i < first.len() && 0 <= j < second.len() && (#[trigger] first[i]).2 == (
                #[trigger] second[j]).2 ==> phs1[i] == phs2[j]
            &&& forall|i: int, j: int|
                0 <= i < first.len() && 0 <= j < first.len() ==> ((#[trigger] first[i]).2 == (
                #[trigger] first[j]).2 <==> phs1[i] == phs1[j])
        }),
{
    let p0 = store.placeholders();
    let v0 = store.values();
    let c0 = counts_of(store);
    store.lemma_consistent();
    assert(table_consistent(p0, v0, c0));
    assert forall|k: Kind| #[trigger] c0.contains_key(k) && 0 <= c0[k] && c0[k] + first.len() <= usize::MAX by {
        assert(store.counter(k) + first.len() + second.len() <= usize::MAX);
    }
    lemma_assign_all(p0, v0, c0, first);
    let a1 = assign_all(p0, v0, c0, first);
    let phs1 = assigned(p0, v0, c0, first);
    assert forall|k: Kind| #[trigger] a1.2.contains_key(k) && 0 <= a1.2[k] && a1.2[k] + second.len()
        <= usize::MAX by {
        assert(c0.contains_key(k));
        assert(store.counter(k) + first.len() + second.len() <= usize::MAX);
    }
    lemma_assign_all(a1.0, a1.1, a1.2, second);
    let a2 = assign_all(a1.0, a1.1, a1.2, second);
    let phs2 = assigned(a1.0, a1.1, a1.2, second);
    assert forall|i: int, j: int|
        0 <= i < first.len() && 0 <= j < second.len() && (#[trigger] first[i]).2 == (
        #[trigger] second[j]).2 implies phs1[i] == phs2[j] by {
        assert(a1.0.contains_key(first[i].2));
        assert(a2.0.contains_key(second[j].2));
    }
    assert forall|i: int, j: int| 0 <= i < first.len() && 0 <= j < first.len() implies ((
    #[trigger] first[i]).2 == (#[trigger] first[j]).2 <==> phs1[i] == phs1[j]) by {
        assert(a1.0.contains_key(first[i].2));
        assert(a1.0.contains_key(first[j].2));
        assert(a1.1[a1.0[first[i].2]] == first[i].2);
        assert(a1.1[a1.0[first[j].2]] == first[j].2);
    }
}

/// If no span holds a known placeholder, none is counted.
proof fn lemma_known_count_none(b: Seq<u8>, sp: Seq<(int, int)>, values: Map<Seq<char>, Seq<char>>)
    requires
        forall|i: int| 0 <= i < sp.len() ==> !values.contains_key(chars_in(b, (#[trigger] sp[i]).0, sp[i].1)),
    ensures
        known_count(b, sp, values) == 0,
    decreases sp.len(),
{
    if sp.len() > 0 {
        assert forall|i: int| 0 <= i < sp.drop_last().len() implies !values.contains_key(
            chars_in(b, (#[trigger] sp.drop_last()[i]).0, sp.drop_last()[i].1),
        ) by {
            assert(sp.drop_last()[i] == sp[i]);
        }
        lemma_known_count_none(b, sp.drop_last(), values);
        assert(!values.contains_key(chars_in(b, sp[sp.len() - 1].0, sp[sp.len() - 1].1)));
    }
}

/// Some span is counted exactly when some span holds a known placeholder.
proof fn lemma_known_count_positive(b: Seq<u8>, sp: Seq<(int, int)>, values: Map<Seq<char>, Seq<char>>)
    ensures
        known_count(b, sp, values) > 0 <==> exists|i: int|
            0 <= i < sp.len() && values.contains_key(chars_in(b, (#[trigger] sp[i]).0, sp[i].1)),
    decreases sp.len(),
{
    if sp.len() > 0 {
        let pre = sp.drop_last();
        lemma_known_count_positive(b, pre, values);
        if exists|i: int| 0 <= i < pre.len() && values.contains_key(chars_in(b, (#[trigger] pre[i]).0, pre[i].1)) {
            let i = choose|i: int|
                0 <= i < pre.len() && values.contains_key(chars_in(b, (#[trigger] pre[i]).0, pre[i].1));
            assert(pre[i] == sp[i]);
        }
        if exists|i: int| 0 <= i < sp.len() && values.contains_key(chars_in(b, (#[trigger] sp[i]).0, sp[i].1)) {
            let i = choose|i: int|
                0 <= i < sp.len() && values.contains_key(chars_in(b, (#[trigger] sp[i]).0, sp[i].1));
            if i < pre.len() {
                assert(pre[i] == sp[i]);
            }
        }
    }
}

/// Restoring leaves a text as it is, and counts nothing, when none of the
/// spans the placeholder search found holds a placeholder the table knows.
pub proof fn law_restore_leaves_unknown_alone(b: Seq<u8>, sp: Seq<(int, int)>, values: Map<Seq<char>, Seq<char>>)
    requires
        valid_utf8(b),
        spans_fit(b, sp),
        forall|i: int| 0 <= i < sp.len() ==> !values.contains_key(chars_in(b, (#[trigger] sp[i]).0, sp[i].1)),
    ensures
        spliced(b, sp, restored_pieces(b, sp, values)) == b,
        known_count(b, sp, values) == 0,
{
    let pieces = restored_pieces(b, sp, values);
    assert(spans_in_order(b, sp)) by {
        assert forall|i: int| 0 <= i < sp.len() implies 0 <= (#[trigger] sp[i]).0 <= sp[i].1 <= b.len() by {
            assert(span_ok(b, sp[i].0, sp[i].1));
        }
    }
    assert forall|i: int| 0 <= i < sp.len() implies #[trigger] pieces[i] == b.subrange(sp[i].0, sp[i].1) by {
        assert(pieces[i] == restored_piece(b, sp[i], values));
    }
    lemma_splice_onto(b, sp, pieces, b, sp);
    lemma_known_count_none(b, sp, values);
}

/// A text has a placeholder the table can resolve exactly when restoring
/// it resolves at least one.
pub proof fn law_restorable_iff_restored(t: Seq<char>, values: Map<Seq<char>, Seq<char>>)
    requires
        placeholder_spans(t) is Some,
    ensures
        has_known_placeholder(t, values) <==> known_count(encode_utf8(t), placeholder_spans(t)->0, values) > 0,
{
    let sp = placeholder_spans(t)->0;
    let b = encode_utf8(t);
    lemma_known_count_positive(b, sp, values);
    if has_known_placeholder(t, values) {
        let i = choose|i: int| 0 <= i < sp.len() && #[trigger] known_at(t, sp, values, i);
        assert(values.contains_key(chars_in(b, sp[i].0, sp[i].1)));
    }
    if known_count(b, sp, values) > 0 {
        let i = choose|i: int| 0 <= i < sp.len() && values.contains_key(chars_in(b, (#[trigger] sp[i]).0, sp[i].1));
        assert(known_at(t, sp, values, i));
    }
}

/// Restoring a masked text gives back the text that was masked, with every
/// value it masked counted: `restore_text` undoes `anonymize_text` with the
/// table that masking left behind. This holds wherever the placeholder
/// search finds in the masked text exactly the placeholders that masking
/// put there; it does not where the text already held a placeholder the
/// table knows, or where a placeholder runs into a following letter or
/// digit and reads as a different one.
pub proof fn law_restoring_a_masked_text_gives_it_back(
    t: Seq<char>,
    kinds: Seq<Kind>,
    ws: Seq<Seq<char>>,
    store: MappingStore,
)
    requires
        store.wf(),
        all_fit(t, detected(t, kinds, ws)),
        disjoint_ascending(detected(t, kinds, ws)),
        forall|k: Kind| #[trigger] store.counter(k) + detected(t, kinds, ws).len() <= usize::MAX,
        ({
            let ms = detected(t, kinds, ws);
            let reps = encoded(assigned(store.placeholders(), store.values(), counts_of(store), ms));
            placeholder_spans(masked(t, kinds, ws, store).0) == Some(
                inserted_spans(encode_utf8(t), spans_of(ms), reps),
            )
        }),
    ensures
        restored(
            masked(t, kinds, ws, store).0,
            assign_all(store.placeholders(), store.values(), counts_of(store), detected(t, kinds, ws)).1,
        ) == (t, detected(t, kinds, ws).len()),
{
    let ms = detected(t, kinds, ws);
    let p0 = store.placeholders();
    let v0 = store.values();
    let c0 = counts_of(store);
    let b = encode_utf8(t);
    let reps = encoded(assigned(p0, v0, c0, ms));
    let out = spliced(b, spans_of(ms), reps);
    law_restore_inverts_masking(t, ms, store);
    decode_utf8_encode_utf8(out);
    encode_utf8_decode_utf8(t);
    assert(encode_utf8(masked(t, kinds, ws, store).0) == out);
}

} // verus!
