use vstd::prelude::*;
use vstd::string::*;
use vstd::utf8::*;

verus! {

/// The UTF-8 bytes of a character sequence.
pub open spec fn utf8_bytes(s: Seq<char>) -> Seq<u8> {
    encode_utf8(s)
}

/// Encoding distributes over concatenation.
pub proof fn lemma_encode_concat(a: Seq<char>, b: Seq<char>)
    ensures
        encode_utf8(a + b) == encode_utf8(a) + encode_utf8(b),
    decreases a.len(),
{
    if a.len() == 0 {
        assert(a + b =~= b);
        assert(encode_utf8(a) + encode_utf8(b) =~= encode_utf8(b));
    } else {
        assert((a + b).drop_first() =~= a.drop_first() + b);
        assert((a + b)[0] == a[0]);
        lemma_encode_concat(a.drop_first(), b);
        assert(encode_utf8(a + b) =~= encode_utf8(a) + encode_utf8(b));
    }
}

/// A boundary of a valid text that lies within a prefix ending at another
/// boundary is a boundary of that prefix too.
pub proof fn lemma_boundary_in_prefix(bytes: Seq<u8>, lo: int, hi: int)
    requires
        valid_utf8(bytes),
        0 <= lo <= hi <= bytes.len(),
        is_char_boundary(bytes, lo),
        is_char_boundary(bytes, hi),
    ensures
        valid_utf8(bytes.subrange(0, hi)),
        is_char_boundary(bytes.subrange(0, hi), lo),
{
    valid_utf8_split(bytes, hi);
    let prefix = bytes.subrange(0, hi);
    if lo == hi {
        is_char_boundary_start_end_of_seq(prefix);
    } else {
        is_char_boundary_iff_not_is_continuation_byte(bytes, lo);
        is_char_boundary_iff_not_is_continuation_byte(prefix, lo);
    }
}

/// The text whose bytes lie between offsets `lo` and `hi` of `text`.
pub fn byte_slice(text: &str, lo: usize, hi: usize) -> (r: &str)
    requires
        lo <= hi <= text.spec_bytes().len(),
        is_char_boundary(text.spec_bytes(), lo as int),
        is_char_boundary(text.spec_bytes(), hi as int),
    ensures
        r.spec_bytes() == text.spec_bytes().subrange(lo as int, hi as int),
{
    proof {
        encode_utf8_valid_utf8(text@);
        lemma_boundary_in_prefix(text.spec_bytes(), lo as int, hi as int);
    }
    let (upto, _) = text.split_at(hi);
    assert(upto.spec_bytes() =~= text.spec_bytes().subrange(0, hi as int));
    let (_, part) = upto.split_at(lo);
    assert(part.spec_bytes() =~= text.spec_bytes().subrange(lo as int, hi as int));
    part
}

/// A new text: `text` with the bytes between offsets `lo` and `hi` replaced by
/// those of `replacement`.
pub fn splice(text: &str, lo: usize, hi: usize, replacement: &str) -> (r: String)
    requires
        lo <= hi <= text.spec_bytes().len(),
        is_char_boundary(text.spec_bytes(), lo as int),
        is_char_boundary(text.spec_bytes(), hi as int),
    ensures
        utf8_bytes(r@) == text.spec_bytes().subrange(0, lo as int) + replacement.spec_bytes()
            + text.spec_bytes().subrange(hi as int, text.spec_bytes().len() as int),
{
    let (head, _) = text.split_at(lo);
    let (_, tail) = text.split_at(hi);
    let mut out = String::from_str(head);
    out.append(replacement);
    out.append(tail);
    proof {
        lemma_encode_concat(head@, replacement@);
        lemma_encode_concat(head@ + replacement@, tail@);
    }
    out
}

} // verus!
