use vstd::prelude::*;
use vstd::utf8::*;

use crate::document::{
    order_offsets, apply_change, apply_changes, selection, span_of, translation, ContentChange, TextDocument,
};
use crate::position::{line_starts, raw_offset, Range};
use crate::text::utf8_bytes;

verus! {

/// Applying the batch `a + b` applies `b` first, then `a` to what `b` left.
pub proof fn lemma_apply_concat(bytes: Seq<u8>, a: Seq<ContentChange>, b: Seq<ContentChange>)
    ensures
        apply_changes(bytes, a + b) == match apply_changes(bytes, b) {
            Ok(mid) => apply_changes(mid, a),
            Err(e) => Err(e),
        },
    decreases b.len(),
{
    if b.len() == 0 {
        assert(a + b =~= a);
    } else {
        assert((a + b).last() == b.last());
        assert((a + b).drop_last() =~= a + b.drop_last());
        match apply_change(bytes, b.last()) {
            Ok(next) => {
                lemma_apply_concat(next, a, b.drop_last());
            },
            Err(e) => {},
        }
    }
}

/// Replacing the whole text of a document, as a range, by that same text
/// leaves the text as it was.
pub proof fn law_whole_text_round_trip(doc: TextDocument, change: ContentChange, range: Range)
    requires
        change.range == Some(range),
        span_of(doc.bytes(), range) == Ok::<(int, int), crate::document::DocumentError>(
            (0, doc.bytes().len() as int),
        ),
        change.text@ == doc.text@,
    ensures
        apply_changes(doc.bytes(), seq![change]) == Ok::<Seq<u8>, crate::document::DocumentError>(
            doc.bytes(),
        ),
{
    let b = doc.bytes();
    assert(seq![change].drop_last() =~= Seq::<ContentChange>::empty());
    assert(seq![change].last() == change);
    assert(b.subrange(0, 0) + b + b.subrange(b.len() as int, b.len() as int) =~= b);
    assert(apply_change(b, change) == Ok::<Seq<u8>, crate::document::DocumentError>(b));
    reveal_with_fuel(apply_changes, 2);
}

/// A change without a range replaces the whole text: the changes applied
/// before it in the batch (those after it in the list) matter only through
/// whether they fail.
pub proof fn law_full_replace_discards_earlier_edits(
    bytes: Seq<u8>,
    changes: Seq<ContentChange>,
    k: int,
)
    requires
        0 <= k < changes.len(),
        changes[k].range is None,
    ensures
        apply_changes(bytes, changes) == match apply_changes(
            bytes,
            changes.subrange(k + 1, changes.len() as int),
        ) {
            Ok(_) => apply_changes(utf8_bytes(changes[k].text@), changes.subrange(0, k)),
            Err(e) => Err(e),
        },
{
    let head = changes.subrange(0, k + 1);
    let tail = changes.subrange(k + 1, changes.len() as int);
    assert(changes =~= head + tail);
    lemma_apply_concat(bytes, head, tail);
    assert(head.last() == changes[k]);
    assert(head.drop_last() =~= changes.subrange(0, k));
}

/// Selecting a range yields exactly the bytes between the offsets that the
/// range translates to, wherever those offsets can cut the text, and they form
/// a text of their own.
pub proof fn law_selection_matches_translation(doc: TextDocument, range: Range)
    ensures
        translation(doc.bytes(), range) matches Ok((lo, hi)) ==> (lo <= hi && is_char_boundary(
            doc.bytes(),
            lo,
        ) && is_char_boundary(doc.bytes(), hi) <==> selection(doc.bytes(), range) == Ok::<
            Seq<u8>,
            crate::document::DocumentError,
        >(doc.bytes().subrange(lo, hi))),
        selection(doc.bytes(), range) == match span_of(doc.bytes(), range) {
            Ok((lo, hi)) => Ok(doc.bytes().subrange(lo, hi)),
            Err(e) => Err(e),
        },
        span_of(doc.bytes(), range) matches Ok((lo, hi)) ==> 0 <= lo <= hi <= doc.bytes().len()
            && valid_utf8(doc.bytes().subrange(lo, hi)),
{
    let b = doc.bytes();
    encode_utf8_valid_utf8(doc.text@);
    if let Ok((lo, hi)) = span_of(b, range) {
        reveal_with_fuel(is_char_boundary, 1);
        crate::text::lemma_boundary_in_prefix(b, lo, hi);
        valid_utf8_split(b.subrange(0, hi), lo);
        assert(b.subrange(0, hi).subrange(lo, hi) =~= b.subrange(lo, hi));
    }
}

/// An empty batch leaves the text as it was.
pub proof fn law_empty_batch_keeps_text(bytes: Seq<u8>)
    ensures
        apply_changes(bytes, Seq::<ContentChange>::empty()) == Ok::<
            Seq<u8>,
            crate::document::DocumentError,
        >(bytes),
{
}


/// `change` has a range whose two positions land, against `bytes`, exactly on
/// the offsets of `span`, with no clamping or swapping, and the text can be
/// cut there.
pub open spec fn resolves_plainly(bytes: Seq<u8>, change: ContentChange, span: (int, int)) -> bool {
    match change.range {
        Some(r) => {
            &&& raw_offset(bytes, r.start) == Some(span.0)
            &&& raw_offset(bytes, r.end) == Some(span.1)
            &&& span_of(bytes, r) == Ok::<(int, int), crate::document::DocumentError>(span)
        },
        None => false,
    }
}

/// The text that results from replacing, in `bytes`, each interval `spans[k]`
/// by the text of `changes[k]`, the intervals taken in ascending order.
pub open spec fn woven(bytes: Seq<u8>, changes: Seq<ContentChange>, spans: Seq<(int, int)>) -> Seq<u8>
    decreases changes.len(),
{
    if changes.len() == 0 || spans.len() == 0 {
        bytes
    } else {
        let (a, b) = spans.last();
        woven(bytes.subrange(0, a), changes.drop_last(), spans.drop_last()) + utf8_bytes(
            changes.last().text@,
        ) + bytes.subrange(b, bytes.len() as int)
    }
}

/// Text after the last interval passes through the weave unchanged.
proof fn lemma_woven_suffix(
    p: Seq<u8>,
    q: Seq<u8>,
    changes: Seq<ContentChange>,
    spans: Seq<(int, int)>,
)
    requires
        changes.len() == spans.len(),
        forall|k: int| 0 <= k < spans.len() ==> 0 <= #[trigger] spans[k].0 <= spans[k].1 <= p.len(),
    ensures
        woven(p + q, changes, spans) == woven(p, changes, spans) + q,
{
    if changes.len() > 0 {
        let (a, b) = spans.last();
        assert(spans.last() == spans[spans.len() - 1]);
        assert((p + q).subrange(0, a) =~= p.subrange(0, a));
        assert((p + q).subrange(b, (p + q).len() as int) =~= p.subrange(b, p.len() as int) + q);
        let w = woven(p.subrange(0, a), changes.drop_last(), spans.drop_last());
        let x = utf8_bytes(changes.last().text@);
        assert(w + x + (p.subrange(b, p.len() as int) + q) =~= (w + x + p.subrange(
            b,
            p.len() as int,
        )) + q);
    }
}

/// The line starts of a prefix are the first line starts of the whole text;
/// the remaining ones lie past the prefix.
proof fn lemma_line_starts_prefix(bytes: Seq<u8>, m: int)
    requires
        0 <= m <= bytes.len(),
    ensures
        line_starts(bytes.subrange(0, m)).len() <= line_starts(bytes).len(),
        forall|j: int|
            0 <= j < line_starts(bytes.subrange(0, m)).len() ==> #[trigger] line_starts(bytes)[j]
                == line_starts(bytes.subrange(0, m))[j],
        forall|j: int|
            line_starts(bytes.subrange(0, m)).len() <= j < line_starts(bytes).len() ==> #[trigger] line_starts(
                bytes,
            )[j] > m,
    decreases bytes.len(),
{
    if m == bytes.len() {
        assert(bytes.subrange(0, m) =~= bytes);
    } else {
        let d = bytes.drop_last();
        assert(d.subrange(0, m) =~= bytes.subrange(0, m));
        lemma_line_starts_prefix(d, m);
    }
}

/// Two texts that share their first `a` bytes share every line start up to `a`.
proof fn lemma_shared_line_start(t: Seq<u8>, u: Seq<u8>, a: int, j: int)
    requires
        0 <= a <= t.len(),
        a <= u.len(),
        t.subrange(0, a) == u.subrange(0, a),
        0 <= j < line_starts(t).len(),
        line_starts(t)[j] <= a,
    ensures
        j < line_starts(u).len(),
        line_starts(u)[j] == line_starts(t)[j],
{
    lemma_line_starts_prefix(t, a);
    lemma_line_starts_prefix(u, a);
}

/// The seam between two valid texts is a character boundary.
proof fn lemma_seam_boundary(p: Seq<u8>, q: Seq<u8>)
    requires
        valid_utf8(p),
        valid_utf8(q),
    ensures
        valid_utf8(p + q),
        is_char_boundary(p + q, p.len() as int),
{
    valid_utf8_concat(p, q);
    if q.len() == 0 {
        assert(p + q =~= p);
        is_char_boundary_start_end_of_seq(p);
    } else {
        assert(is_char_boundary(q, 0));
        is_char_boundary_iff_not_is_continuation_byte(q, 0);
        assert((p + q)[p.len() as int] == q[0]);
        is_char_boundary_iff_not_is_continuation_byte(p + q, p.len() as int);
    }
}

/// A range resolved before offset `a` resolves alike in a text that keeps the
/// first `a` bytes and has a character boundary at `a`.
proof fn lemma_span_kept(t: Seq<u8>, u: Seq<u8>, a: int, r: Range, lo: int, hi: int)
    requires
        valid_utf8(t),
        valid_utf8(u),
        0 <= a <= t.len(),
        a <= u.len(),
        t.subrange(0, a) == u.subrange(0, a),
        is_char_boundary(u, a),
        raw_offset(t, r.start) == Some(lo),
        raw_offset(t, r.end) == Some(hi),
        span_of(t, r) == Ok::<(int, int), crate::document::DocumentError>((lo, hi)),
        hi <= a,
    ensures
        raw_offset(u, r.start) == Some(lo),
        raw_offset(u, r.end) == Some(hi),
        span_of(u, r) == Ok::<(int, int), crate::document::DocumentError>((lo, hi)),
{
    crate::position::lemma_line_starts_bounded(t);
    lemma_shared_line_start(t, u, a, r.start.line as int);
    lemma_shared_line_start(t, u, a, r.end.line as int);
    assert(translation(t, r) == Ok::<(int, int), crate::document::DocumentError>(
        order_offsets(lo, hi, t.len() as int),
    ));
    assert(lo <= hi);
    assert(0 <= line_starts(t)[r.start.line as int]);
    assert(0 <= lo);
    assert(is_char_boundary(t, lo) && is_char_boundary(t, hi));
    if lo < a {
        is_char_boundary_iff_not_is_continuation_byte(t, lo);
        is_char_boundary_iff_not_is_continuation_byte(u, lo);
        vstd::seq::axiom_seq_subrange_index(t, 0, a, lo);
        vstd::seq::axiom_seq_subrange_index(u, 0, a, lo);
        assert(u[lo] == t[lo]);
    } else {
        assert(lo == a);
    }
    if hi < a {
        is_char_boundary_iff_not_is_continuation_byte(t, hi);
        is_char_boundary_iff_not_is_continuation_byte(u, hi);
        vstd::seq::axiom_seq_subrange_index(t, 0, a, hi);
        vstd::seq::axiom_seq_subrange_index(u, 0, a, hi);
        assert(u[hi] == t[hi]);
    }
    assert(translation(u, r) == Ok::<(int, int), crate::document::DocumentError>((lo, hi)));
}

/// Edits at disjoint intervals, listed in ascending order and each resolved
/// against the text before the batch, produce the interleaved text.
proof fn lemma_disjoint_batch(t: Seq<u8>, changes: Seq<ContentChange>, spans: Seq<(int, int)>)
    requires
        valid_utf8(t),
        changes.len() == spans.len(),
        forall|k: int|
            0 <= k < changes.len() ==> #[trigger] resolves_plainly(t, changes[k], spans[k]),
        forall|i: int, j: int| 0 <= i < j < spans.len() ==> #[trigger] spans[i].1 <= #[trigger] spans[j].0,
    ensures
        apply_changes(t, changes) == Ok::<Seq<u8>, crate::document::DocumentError>(
            woven(t, changes, spans),
        ),
    decreases changes.len(),
{
    if changes.len() > 0 {
        let n = changes.len() - 1;
        let c = changes[n];
        assert(resolves_plainly(t, changes[n], spans[n]));
        let r = c.range->0;
        let (a, b) = spans[n];
        assert(a <= b);
        assert(is_char_boundary(t, a) && is_char_boundary(t, b));
        assert(changes.last() == c);
        assert(spans.last() == spans[n]);
        reveal_with_fuel(is_char_boundary, 1);
        let p = t.subrange(0, a);
        let x = utf8_bytes(c.text@);
        let rest = t.subrange(b, t.len() as int);
        let q = x + rest;
        let u = p + q;
        assert(apply_change(t, c) == Ok::<Seq<u8>, crate::document::DocumentError>(u)) by {
            assert(p + x + rest =~= u);
        }
        valid_utf8_split(t, a);
        valid_utf8_split(t, b);
        encode_utf8_valid_utf8(c.text@);
        valid_utf8_concat(x, rest);
        lemma_seam_boundary(p, q);
        assert(u.subrange(0, a) =~= t.subrange(0, a));
        let cs = changes.drop_last();
        let sp = spans.drop_last();
        assert forall|k: int| 0 <= k < cs.len() implies #[trigger] resolves_plainly(
            u,
            cs[k],
            sp[k],
        ) by {
            assert(cs[k] == changes[k]);
            assert(sp[k] == spans[k]);
            assert(spans[k].1 <= spans[n].0);
            assert(resolves_plainly(t, changes[k], spans[k]));
            let rk = changes[k].range->0;
            lemma_span_kept(t, u, a, rk, spans[k].0, spans[k].1);
        }
        assert forall|i: int, j: int| 0 <= i < j < sp.len() implies #[trigger] sp[i].1 <= #[trigger] sp[j].0 by {
            assert(sp[i] == spans[i] && sp[j] == spans[j]);
        }
        lemma_disjoint_batch(u, cs, sp);
        assert forall|k: int| 0 <= k < sp.len() implies 0 <= #[trigger] sp[k].0 <= sp[k].1
            <= p.len() by {
            assert(sp[k] == spans[k]);
            assert(spans[k].1 <= spans[n].0);
            assert(resolves_plainly(t, changes[k], spans[k]));
        }
        lemma_woven_suffix(p, q, cs, sp);
        let w = woven(p, cs, sp);
        assert(w + x + rest =~= w + q);
    }
}

/// Edits at disjoint intervals of a document, listed in ascending order and
/// each given against the text before the batch without any clamping or
/// swapping, produce the text in which every interval is replaced by its
/// edit's text: applying the batch from its last edit back keeps the offsets
/// of the edits still to come valid.
pub proof fn law_disjoint_ascending_batch(
    doc: TextDocument,
    changes: Seq<ContentChange>,
    spans: Seq<(int, int)>,
)
    requires
        changes.len() == spans.len(),
        forall|k: int|
            0 <= k < changes.len() ==> #[trigger] resolves_plainly(
                doc.bytes(),
                changes[k],
                spans[k],
            ),
        forall|i: int, j: int| 0 <= i < j < spans.len() ==> #[trigger] spans[i].1 <= #[trigger] spans[j].0,
    ensures
        apply_changes(doc.bytes(), changes) == Ok::<Seq<u8>, crate::document::DocumentError>(
            woven(doc.bytes(), changes, spans),
        ),
{
    encode_utf8_valid_utf8(doc.text@);
    lemma_disjoint_batch(doc.bytes(), changes, spans);
}

} // verus!
