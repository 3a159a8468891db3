use vstd::prelude::*;
use vstd::string::*;
use vstd::utf8::*;

use tower_lsp::lsp_types::Url;

use crate::position::{line_start_table, lemma_line_starts_bounded, raw_offset, Range};
use crate::text::{byte_slice, splice, utf8_bytes};

verus! {

/// The editor protocol's document identifier (`url::Url`), carried through
/// as an opaque value.
#[verifier::external_type_specification]
#[verifier::external_body]
pub struct ExUrl(Url);

/// Relies on the `Clone` that `url::Url` derives: a field-by-field copy.
pub assume_specification[ <Url as Clone>::clone ](u: &Url) -> (r: Url)
    ensures
        r == *u,
;

/// Why a range could not be resolved against a document's text.
#[derive(Clone, Copy, Debug, PartialEq, Eq, Structural)]
pub enum DocumentError {
    /// A position names a line beyond the last one of the text.
    OutOfRangeLine,
    /// The start offset does not fit in a machine word, or the translated
    /// offsets cannot cut the text: the start lies after the end, or an
    /// offset lies past the text or inside a multi-byte character.
    OutOfRangeOffset,
}

/// One edit reported by the editor: a replacement of the text under `range`,
/// or of the whole text when there is no range.
#[derive(Clone, Debug)]
pub struct ContentChange {
    pub range: Option<Range>,
    pub text: String,
}

/// The authoritative copy of one open document.
#[derive(Clone, Debug)]
pub struct TextDocument {
    pub uri: Url,
    pub language_id: String,
    pub version: i32,
    pub text: String,
}

/// Orders a pair of raw offsets: an end past the text is clamped to its
/// length first; only otherwise is an inverted pair swapped.
pub open spec fn order_offsets(start: int, end: int, len: int) -> (int, int) {
    if end > len {
        (start, len)
    } else if start > end {
        (end, start)
    } else {
        (start, end)
    }
}

/// The byte offsets that `range` translates to in `bytes`: each position's
/// line start plus its character count, then ordered by `order_offsets`.
/// The pair may be inverted or reach past the text.
pub open spec fn translation(bytes: Seq<u8>, range: Range) -> Result<(int, int), DocumentError> {
    match (raw_offset(bytes, range.start), raw_offset(bytes, range.end)) {
        (Some(s), Some(e)) => {
            if s > usize::MAX {
                Err(DocumentError::OutOfRangeOffset)
            } else {
                Ok(order_offsets(s, e, bytes.len() as int))
            }
        },
        _ => Err(DocumentError::OutOfRangeLine),
    }
}

/// The half-open byte interval of `bytes` that `range` denotes, where the
/// text can be cut there: the translation, kept only when its start is not
/// after its end and both offsets fall between characters.
pub open spec fn span_of(bytes: Seq<u8>, range: Range) -> Result<(int, int), DocumentError> {
    match translation(bytes, range) {
        Ok((lo, hi)) => {
            if lo <= hi && is_char_boundary(bytes, lo) && is_char_boundary(bytes, hi) {
                Ok((lo, hi))
            } else {
                Err(DocumentError::OutOfRangeOffset)
            }
        },
        Err(e) => Err(e),
    }
}

/// The bytes of `bytes` that `range` selects.
pub open spec fn selection(bytes: Seq<u8>, range: Range) -> Result<Seq<u8>, DocumentError> {
    match span_of(bytes, range) {
        Ok((lo, hi)) => Ok(bytes.subrange(lo, hi)),
        Err(e) => Err(e),
    }
}

/// The text after one change is applied to `bytes`.
pub open spec fn apply_change(bytes: Seq<u8>, change: ContentChange) -> Result<
    Seq<u8>,
    DocumentError,
> {
    match change.range {
        None => Ok(utf8_bytes(change.text@)),
        Some(range) => match span_of(bytes, range) {
            Ok((lo, hi)) => Ok(
                bytes.subrange(0, lo) + utf8_bytes(change.text@) + bytes.subrange(
                    hi,
                    bytes.len() as int,
                ),
            ),
            Err(e) => Err(e),
        },
    }
}

/// The text after a batch of changes is applied to `bytes`, from the last
/// change of the batch back to the first; the first error ends the batch.
pub open spec fn apply_changes(bytes: Seq<u8>, changes: Seq<ContentChange>) -> Result<
    Seq<u8>,
    DocumentError,
>
    decreases changes.len(),
{
    if changes.len() == 0 {
        Ok(bytes)
    } else {
        match apply_change(bytes, changes.last()) {
            Ok(next) => apply_changes(next, changes.drop_last()),
            Err(e) => Err(e),
        }
    }
}

/// Translates `range` against `text`.
fn translate_in(text: &str, range: &Range) -> (r: Result<std::ops::Range<usize>, DocumentError>)
    ensures
        match r {
            Ok(sp) => translation(text.spec_bytes(), *range) == Ok::<(int, int), DocumentError>((sp.start as int, sp.end as int)),
            Err(e) => translation(text.spec_bytes(), *range) == Err::<(int, int), DocumentError>(e),
        },
{
    let bytes = text.as_bytes();
    let starts = line_start_table(bytes);
    proof {
        lemma_line_starts_bounded(bytes@);
    }
    let start_line = range.start.line as usize;
    let end_line = range.end.line as usize;
    if start_line >= starts.len() || end_line >= starts.len() {
        return Err(DocumentError::OutOfRangeLine);
    }
    let len = bytes.len();
    let s = match starts[start_line].checked_add(range.start.character as usize) {
        Some(s) => s,
        None => {
            return Err(DocumentError::OutOfRangeOffset);
        },
    };
    match starts[end_line].checked_add(range.end.character as usize) {
        Some(e) => {
            if e > len {
                Ok(s..len)
            } else if s > e {
                Ok(e..s)
            } else {
                Ok(s..e)
            }
        },
        None => Ok(s..len),
    }
}

/// Resolves `range` against `text` to a piece of it that can be cut out.
fn span_in(text: &str, range: &Range) -> (r: Result<std::ops::Range<usize>, DocumentError>)
    ensures
        match r {
            Ok(sp) => span_of(text.spec_bytes(), *range) == Ok::<(int, int), DocumentError>((sp.start as int, sp.end as int)),
            Err(e) => span_of(text.spec_bytes(), *range) == Err::<(int, int), DocumentError>(e),
        },
        r matches Ok(sp) ==> sp.start <= sp.end <= text.spec_bytes().len(),
{
    proof {
        encode_utf8_valid_utf8(text@);
    }
    let sp = match translate_in(text, range) {
        Ok(sp) => sp,
        Err(e) => {
            return Err(e);
        },
    };
    let lo = sp.start;
    let hi = sp.end;
    if lo > hi || hi > text.as_bytes().len() {
        return Err(DocumentError::OutOfRangeOffset);
    }
    if text.is_char_boundary(lo) && text.is_char_boundary(hi) {
        Ok(lo..hi)
    } else {
        Err(DocumentError::OutOfRangeOffset)
    }
}

impl TextDocument {
    /// The UTF-8 bytes of the document's text.
    pub open spec fn bytes(&self) -> Seq<u8> {
        utf8_bytes(self.text@)
    }

    /// A document opened by the editor, holding the given values as they are.
    pub fn new(uri: Url, language_id: String, version: i32, text: String) -> (r: Self)
        ensures
            r.uri == uri,
            r.language_id == language_id,
            r.version == version,
            r.text == text,
    {
        TextDocument { uri, language_id, version, text }
    }

    /// Translates `range` into a pair of byte offsets into the text: an end
    /// past the text is clamped to its length, and otherwise an inverted pair
    /// is swapped. The result may still be inverted or reach past the text.
    pub fn range_to_indices(&self, range: &Range) -> (r: Result<std::ops::Range<usize>, DocumentError>)
        ensures
            match r {
                Ok(sp) => translation(self.bytes(), *range) == Ok::<(int, int), DocumentError>((sp.start as int, sp.end as int)),
                Err(e) => translation(self.bytes(), *range) == Err::<(int, int), DocumentError>(e),
            },
    {
        translate_in(self.text.as_str(), range)
    }

    /// The piece of the text that `range` denotes.
    pub fn select_range(&self, range: &Range) -> (r: Result<&str, DocumentError>)
        ensures
            match r {
                Ok(s) => selection(self.bytes(), *range) == Ok::<Seq<u8>, DocumentError>(s.spec_bytes()),
                Err(e) => selection(self.bytes(), *range) == Err::<Seq<u8>, DocumentError>(e),
            },
    {
        let text = self.text.as_str();
        match span_in(text, range) {
            Ok(sp) => Ok(byte_slice(text, sp.start, sp.end)),
            Err(e) => Err(e),
        }
    }

    /// Applies a batch of changes, last to first, and stamps the new version.
    /// On an error nothing of the batch is kept.
    pub fn commit(self, changes: Vec<ContentChange>, version: i32) -> (r: Result<Self, DocumentError>)
        ensures
            match r {
                Ok(d) => {
                    &&& apply_changes(self.bytes(), changes@) == Ok::<Seq<u8>, DocumentError>(d.bytes())
                    &&& d.version == version
                    &&& d.uri == self.uri
                    &&& d.language_id == self.language_id
                },
                Err(e) => apply_changes(self.bytes(), changes@) == Err::<Seq<u8>, DocumentError>(e),
            },
            changes@.len() == 0 ==> (r matches Ok(d) && d.text@ == self.text@),
    {
        let mut doc = self;
        let mut i: usize = changes.len();
        assert(changes@.subrange(0, i as int) =~= changes@);
        while i > 0
            invariant
                i <= changes@.len(),
                doc.uri == self.uri,
                doc.language_id == self.language_id,
                apply_changes(self.bytes(), changes@) == apply_changes(
                    doc.bytes(),
                    changes@.subrange(0, i as int),
                ),
            decreases i,
        {
            let change = &changes[i - 1];
            proof {
                let done = changes@.subrange(0, i as int);
                assert(done.drop_last() =~= changes@.subrange(0, i - 1));
                assert(done.last() == changes@[i - 1]);
            }
            match &change.range {
                None => {
                    doc.text = change.text.clone();
                },
                Some(range) => {
                    match span_in(doc.text.as_str(), range) {
                        Ok(sp) => {
                            let next = splice(doc.text.as_str(), sp.start, sp.end, change.text.as_str());
                            doc.text = next;
                        },
                        Err(e) => {
                            return Err(e);
                        },
                    }
                },
            }
            i = i - 1;
        }
        proof {
            assert(changes@.subrange(0, 0) =~= Seq::<ContentChange>::empty());
            encode_utf8_decode_utf8(doc.text@);
            encode_utf8_decode_utf8(self.text@);
        }
        doc.version = version;
        Ok(doc)
    }

    /// A copy of the document's identifier.
    pub fn get_uri(&self) -> (r: Url)
        ensures
            r == self.uri,
    {
        self.uri.clone()
    }

    pub fn get_version(&self) -> (r: i32)
        ensures
            r == self.version,
    {
        self.version
    }

    /// A copy of the document's content type.
    pub fn get_language_id(&self) -> (r: String)
        ensures
            r@ == self.language_id@,
    {
        self.language_id.clone()
    }
}

} // verus!
