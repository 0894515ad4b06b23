//! PDF carrier: the payload is appended as a length-prefixed section after
//! the document's last end-of-file marker.
use crate::bits::{le_bytes, le_value, lemma_le_bytes};
use crate::error::SteganoError;
use crate::traits::Steganography;
use vstd::prelude::*;

verus! {

/// Largest payload, in bytes, that a PDF carrier takes: the section is
/// appended, so it competes with no content, but it is still bounded.
pub const PDF_CAPACITY: usize = 100_000_000;

/// Hides a payload in a section appended to a PDF document.
pub struct PdfSteganography;

/// The bytes skipped after the end-of-file marker: newline, carriage return, space.
pub open spec fn is_pdf_space(b: u8) -> bool {
    b == 0x0A || b == 0x0D || b == 0x20
}

/// Whether `s` starts with the PDF signature `%PDF-`.
pub open spec fn has_pdf_signature(s: Seq<u8>) -> bool {
    s.len() >= 5 && s[0] == 0x25 && s[1] == 0x50 && s[2] == 0x44 && s[3] == 0x46 && s[4] == 0x2D
}

/// Whether the end-of-file marker `%%EOF` starts at `i`.
pub open spec fn eof_at(s: Seq<u8>, i: int) -> bool {
    0 <= i && i + 5 <= s.len() && s[i] == 0x25 && s[i + 1] == 0x25 && s[i + 2] == 0x45 && s[i
        + 3] == 0x4F && s[i + 4] == 0x46
}

/// Whether `s` holds no end-of-file marker.
pub open spec fn no_eof_marker(s: Seq<u8>) -> bool {
    forall|i: int| !#[trigger] eof_at(s, i)
}

/// The last start of an end-of-file marker at or before `i`.
pub open spec fn last_eof_from(s: Seq<u8>, i: int) -> Option<int>
    decreases i + 1,
{
    if i < 0 {
        None
    } else if eof_at(s, i) {
        Some(i)
    } else {
        last_eof_from(s, i - 1)
    }
}

/// The start of the last end-of-file marker of `s`.
pub open spec fn last_eof(s: Seq<u8>) -> Option<int> {
    last_eof_from(s, s.len() - 5)
}

/// The first position at or after `p` that does not hold a skipped byte.
pub open spec fn skip_space(s: Seq<u8>, p: int) -> int
    decreases s.len() - p,
{
    if 0 <= p < s.len() && is_pdf_space(s[p]) {
        skip_space(s, p + 1)
    } else {
        p
    }
}

/// Where the hidden section starts: after the last end-of-file marker and
/// the skipped bytes that follow it.
pub open spec fn append_point(s: Seq<u8>) -> Option<int> {
    match last_eof(s) {
        Some(i) => Some(skip_space(s, i + 5)),
        None => None,
    }
}

/// The marker that closes a hidden section: `\n%%STEGANO%%\n`.
pub open spec fn section_end() -> Seq<u8> {
    seq![0x0Au8, 0x25, 0x25, 0x53, 0x54, 0x45, 0x47, 0x41, 0x4E, 0x4F, 0x25, 0x25, 0x0A]
}

/// The hidden section after its leading newline: length, payload, end marker.
pub open spec fn section_body(data: Seq<u8>) -> Seq<u8> {
    le_bytes(data.len()) + data + section_end()
}

/// The whole hidden section appended for `data`.
pub open spec fn hidden_section(data: Seq<u8>) -> Seq<u8> {
    seq![0x0Au8] + section_body(data)
}

/// Outcome of embedding `data` into the document `s`: any earlier hidden
/// section is cut off and the new one appended.
pub open spec fn pdf_embed_result(s: Seq<u8>, data: Seq<u8>) -> Result<Seq<u8>, SteganoError> {
    if !has_pdf_signature(s) {
        Err(SteganoError::CarrierFormat)
    } else if data.len() > PDF_CAPACITY {
        Err(SteganoError::Capacity)
    } else {
        match append_point(s) {
            None => Err(SteganoError::CarrierFormat),
            Some(p) => Ok(s.take(p) + hidden_section(data)),
        }
    }
}

/// Outcome of extracting a payload from the document `s`. Whatever follows
/// the payload, the end marker included, is not examined.
pub open spec fn pdf_extract_result(s: Seq<u8>) -> Result<Seq<u8>, SteganoError> {
    if !has_pdf_signature(s) {
        Err(SteganoError::CarrierFormat)
    } else {
        match append_point(s) {
            None => Err(SteganoError::CarrierFormat),
            Some(p) => if p + 4 > s.len() {
                Err(SteganoError::Corruption)
            } else if le_value(s, p) == 0 {
                Err(SteganoError::Corruption)
            } else if p + 4 + le_value(s, p) > s.len() {
                Err(SteganoError::Corruption)
            } else {
                Ok(s.subrange(p + 4, p + 4 + le_value(s, p)))
            },
        }
    }
}

/// Whether `u` ends with an end-of-file marker at `i` followed only by skipped bytes.
pub open spec fn settled(u: Seq<u8>, i: int) -> bool {
    eof_at(u, i) && forall|k: int| i + 5 <= k < u.len() ==> is_pdf_space(#[trigger] u[k])
}

proof fn lemma_last_eof_from(s: Seq<u8>, m: int)
    ensures
        match last_eof_from(s, m) {
            Some(i) => eof_at(s, i) && i <= m && forall|j: int| i < j <= m ==> !#[trigger] eof_at(s, j),
            None => forall|j: int| j <= m ==> !#[trigger] eof_at(s, j),
        },
    decreases m + 1,
{
    if m >= 0 {
        lemma_last_eof_from(s, m - 1);
    }
}

proof fn lemma_last_eof_is(s: Seq<u8>, i: int)
    requires
        eof_at(s, i),
        forall|j: int| i < j ==> !#[trigger] eof_at(s, j),
    ensures
        last_eof(s) == Some(i),
{
    lemma_last_eof_from(s, s.len() - 5);
}

proof fn lemma_skip_space(s: Seq<u8>, p: int)
    requires
        0 <= p <= s.len(),
    ensures
        p <= skip_space(s, p) <= s.len(),
        forall|k: int| p <= k < skip_space(s, p) ==> is_pdf_space(#[trigger] s[k]),
    decreases s.len() - p,
{
    if p < s.len() && is_pdf_space(s[p]) {
        lemma_skip_space(s, p + 1);
    }
}

proof fn lemma_skip_over(s: Seq<u8>, p: int, q: int)
    requires
        0 <= p <= q <= s.len(),
        forall|k: int| p <= k < q ==> is_pdf_space(#[trigger] s[k]),
    ensures
        skip_space(s, p) == skip_space(s, q),
    decreases q - p,
{
    if p < q {
        lemma_skip_over(s, p + 1, q);
    }
}

proof fn lemma_skip_concat(u: Seq<u8>, t: Seq<u8>, k: int)
    requires
        0 <= k <= t.len(),
    ensures
        skip_space(u + t, u.len() + k) == u.len() + skip_space(t, k),
    decreases t.len() - k,
{
    let w = u + t;
    if k < t.len() {
        assert(w[u.len() + k] == t[k]);
        if is_pdf_space(t[k]) {
            lemma_skip_concat(u, t, k + 1);
        }
    }
}

/// The document cut at its append point ends with its last marker and the
/// bytes skipped after it.
proof fn lemma_take_settled(s: Seq<u8>)
    requires
        append_point(s) is Some,
    ensures
        settled(s.take(append_point(s)->0), last_eof(s)->0),
        last_eof(s)->0 + 5 <= append_point(s)->0 <= s.len(),
{
    lemma_last_eof_from(s, s.len() - 5);
    let i = last_eof(s)->0;
    lemma_skip_space(s, i + 5);
}

/// Appending to a settled document a tail that starts with a newline and
/// holds no marker after it keeps the marker and moves the append point into
/// the tail.
proof fn lemma_settled_tail(u: Seq<u8>, i: int, t: Seq<u8>)
    requires
        settled(u, i),
        t.len() >= 1,
        t[0] == 0x0A,
        no_eof_marker(t.skip(1)),
    ensures
        last_eof(u + t) == Some(i),
        append_point(u + t) == Some(u.len() + skip_space(t, 0)),
{
    let w = u + t;
    assert forall|j: int| i < j implies !#[trigger] eof_at(w, j) by {
        if eof_at(w, j) {
            if j + 4 < u.len() {
                assert(w[j + 4] == u[j + 4]);
            } else if j <= u.len() {
                assert(w[u.len() as int] == t[0]);
            } else {
                assert(eof_at(t.skip(1), j - u.len() - 1));
            }
        }
    }
    assert(eof_at(w, i));
    lemma_last_eof_is(w, i);
    assert forall|k: int| i + 5 <= k < u.len() implies is_pdf_space(#[trigger] w[k]) by {
        assert(w[k] == u[k]);
    }
    lemma_skip_over(w, i + 5, u.len() as int);
    lemma_skip_concat(u, t, 0);
}

/// A settled document followed by a hidden section and any bytes that add no
/// marker yields the section's payload.
proof fn lemma_extract_section(u: Seq<u8>, i: int, data: Seq<u8>, extra: Seq<u8>)
    requires
        settled(u, i),
        has_pdf_signature(u),
        0 < data.len() <= u32::MAX,
        !is_pdf_space(le_bytes(data.len())[0]),
        no_eof_marker(section_body(data) + extra),
    ensures
        pdf_extract_result(u + hidden_section(data) + extra) == Ok::<Seq<u8>, SteganoError>(data),
{
    let t = hidden_section(data) + extra;
    let w = u + t;
    assert(u + hidden_section(data) + extra =~= w);
    assert(t.skip(1) =~= section_body(data) + extra);
    lemma_settled_tail(u, i, t);
    assert(t[1] == le_bytes(data.len())[0]);
    assert(is_pdf_space(t[0]));
    assert(skip_space(t, 1) == 1);
    assert(skip_space(t, 0) == skip_space(t, 1));
    let p = u.len() as int + 1;
    lemma_le_bytes(data.len());
    assert(w[p] == le_bytes(data.len())[0]);
    assert(w[p + 1] == le_bytes(data.len())[1]);
    assert(w[p + 2] == le_bytes(data.len())[2]);
    assert(w[p + 3] == le_bytes(data.len())[3]);
    assert(le_value(w, p) == data.len());
    assert(w.subrange(p + 4, p + 4 + data.len()) =~= data);
}

/// Embedding a payload and extracting it gives the payload back, provided
/// the payload is not empty, the low byte of its length is not a byte that
/// extraction skips, and its section holds no end-of-file marker.
pub proof fn lemma_pdf_round_trip(s: Seq<u8>, data: Seq<u8>)
    requires
        has_pdf_signature(s),
        append_point(s) is Some,
        0 < data.len() <= PDF_CAPACITY,
        !is_pdf_space(le_bytes(data.len())[0]),
        no_eof_marker(section_body(data)),
    ensures
        pdf_embed_result(s, data) is Ok,
        pdf_extract_result(pdf_embed_result(s, data)->Ok_0) == Ok::<Seq<u8>, SteganoError>(data),
{
    lemma_pdf_trailing_bytes(s, data, seq![]);
    assert(pdf_embed_result(s, data)->Ok_0 + seq![] =~= pdf_embed_result(s, data)->Ok_0);
    assert(section_body(data) + seq![] =~= section_body(data));
}

/// Bytes appended after a hidden section, end marker included, do not
/// disturb extraction as long as they add no end-of-file marker.
pub proof fn lemma_pdf_trailing_bytes(s: Seq<u8>, data: Seq<u8>, extra: Seq<u8>)
    requires
        has_pdf_signature(s),
        append_point(s) is Some,
        0 < data.len() <= PDF_CAPACITY,
        !is_pdf_space(le_bytes(data.len())[0]),
        no_eof_marker(section_body(data) + extra),
    ensures
        pdf_embed_result(s, data) is Ok,
        pdf_extract_result(pdf_embed_result(s, data)->Ok_0 + extra) == Ok::<Seq<u8>, SteganoError>(
            data,
        ),
{
    let p = append_point(s)->0;
    lemma_take_settled(s);
    lemma_last_eof_from(s, s.len() - 5);
    let i = last_eof(s)->0;
    let u = s.take(p);
    assert(settled(u, i));
    assert(eof_at(u, i));
    assert(u[0] == s[0] && u[1] == s[1] && u[2] == s[2] && u[3] == s[3] && u[4] == s[4]);
    lemma_extract_section(u, i, data, extra);
}

/// Embedding into a document that already carries a hidden section replaces
/// that section: extraction gives only the newest payload.
pub proof fn lemma_pdf_reembed(s: Seq<u8>, first: Seq<u8>, second: Seq<u8>)
    requires
        has_pdf_signature(s),
        append_point(s) is Some,
        first.len() <= PDF_CAPACITY,
        no_eof_marker(section_body(first)),
        0 < second.len() <= PDF_CAPACITY,
        !is_pdf_space(le_bytes(second.len())[0]),
        no_eof_marker(section_body(second)),
    ensures
        pdf_embed_result(s, first) is Ok,
        pdf_embed_result(pdf_embed_result(s, first)->Ok_0, second) is Ok,
        pdf_extract_result(pdf_embed_result(pdf_embed_result(s, first)->Ok_0, second)->Ok_0)
            == Ok::<Seq<u8>, SteganoError>(second),
        exists|w: Seq<u8>|
            (forall|k: int| 0 <= k < w.len() ==> is_pdf_space(#[trigger] w[k]))
                && pdf_embed_result(pdf_embed_result(s, first)->Ok_0, second)->Ok_0 == s.take(
                append_point(s)->0,
            ) + w + hidden_section(second),
{
    let p = append_point(s)->0;
    lemma_take_settled(s);
    lemma_last_eof_from(s, s.len() - 5);
    let i = last_eof(s)->0;
    let u = s.take(p);
    assert(settled(u, i));
    assert(eof_at(u, i));
    let t = hidden_section(first);
    let o = u + t;
    assert(t.skip(1) =~= section_body(first));
    lemma_settled_tail(u, i, t);
    let q = u.len() + skip_space(t, 0);
    lemma_skip_space(t, 0);
    let v = o.take(q);
    assert forall|k: int| i + 5 <= k < v.len() implies is_pdf_space(#[trigger] v[k]) by {
        if k < u.len() {
            assert(v[k] == u[k]);
        } else {
            assert(v[k] == t[k - u.len()]);
        }
    }
    assert(v[0] == u[0] && v[1] == u[1] && v[2] == u[2] && v[3] == u[3] && v[4] == u[4]);
    assert(u[0] == s[0] && u[1] == s[1] && u[2] == s[2] && u[3] == s[3] && u[4] == s[4]);
    assert(settled(v, i));
    assert(section_body(second) + seq![] =~= section_body(second));
    lemma_extract_section(v, i, second, seq![]);
    assert(v + hidden_section(second) + seq![] =~= v + hidden_section(second));
    let w = t.take(skip_space(t, 0));
    assert(v =~= u + w);
    assert(v + hidden_section(second) =~= u + w + hidden_section(second));
    assert(forall|k: int| 0 <= k < w.len() ==> is_pdf_space(#[trigger] w[k]));
}

/// A settled document followed by a tail that starts with a newline, whose
/// next byte (if any) is not skipped, and that holds no marker after the
/// newline, has its append point just after that newline.
proof fn lemma_section_point(u: Seq<u8>, i: int, t: Seq<u8>)
    requires
        settled(u, i),
        has_pdf_signature(u),
        t.len() >= 1,
        t[0] == 0x0A,
        t.len() >= 2 ==> !is_pdf_space(t[1]),
        no_eof_marker(t.skip(1)),
    ensures
        append_point(u + t) == Some(u.len() as int + 1),
        has_pdf_signature(u + t),
{
    lemma_settled_tail(u, i, t);
    assert(is_pdf_space(t[0]));
    assert(skip_space(t, 1) == 1);
    assert(skip_space(t, 0) == skip_space(t, 1));
    let w = u + t;
    assert(w[0] == u[0] && w[1] == u[1] && w[2] == u[2] && w[3] == u[3] && w[4] == u[4]);
}

/// The document cut at its append point, with the facts the laws below use.
proof fn lemma_cut(s: Seq<u8>) -> (u: Seq<u8>)
    requires
        has_pdf_signature(s),
        append_point(s) is Some,
    ensures
        u == s.take(append_point(s)->0),
        u.len() == append_point(s)->0,
        settled(u, last_eof(s)->0),
        has_pdf_signature(u),
{
    let p = append_point(s)->0;
    lemma_take_settled(s);
    lemma_last_eof_from(s, s.len() - 5);
    let i = last_eof(s)->0;
    let u = s.take(p);
    assert(settled(u, i));
    assert(eof_at(u, i));
    assert(u[0] == s[0] && u[1] == s[1] && u[2] == s[2] && u[3] == s[3] && u[4] == s[4]);
    u
}

/// Extraction reads the length that follows the newline after the append
/// point.
proof fn lemma_read_length(w: Seq<u8>, q: int, lb: Seq<u8>)
    requires
        lb.len() == 4,
        0 <= q,
        q + 4 <= w.len(),
        w.subrange(q, q + 4) == lb,
    ensures
        le_value(w, q) == le_value(lb, 0),
{
    assert(w[q] == lb[0] && w[q + 1] == lb[1] && w[q + 2] == lb[2] && w[q + 3] == lb[3]);
}

/// Cutting an embedded document anywhere after its append point and before
/// the end of its payload is reported as corruption.
pub proof fn lemma_pdf_truncation_detected(s: Seq<u8>, data: Seq<u8>, k: int)
    requires
        has_pdf_signature(s),
        append_point(s) is Some,
        0 < data.len() <= PDF_CAPACITY,
        !is_pdf_space(le_bytes(data.len())[0]),
        no_eof_marker(section_body(data)),
        append_point(s)->0 < k < append_point(s)->0 + 5 + data.len(),
    ensures
        pdf_extract_result(pdf_embed_result(s, data)->Ok_0.take(k)) == Err::<Seq<u8>, SteganoError>(
            SteganoError::Corruption,
        ),
{
    let u = lemma_cut(s);
    let i = last_eof(s)->0;
    let o = u + hidden_section(data);
    let t = hidden_section(data).take(k - u.len());
    let w = u + t;
    assert(o.take(k) =~= w);
    assert forall|j: int| !#[trigger] eof_at(t.skip(1), j) by {
        if eof_at(t.skip(1), j) {
            assert(eof_at(section_body(data), j));
        }
    }
    if t.len() >= 2 {
        assert(t[1] == le_bytes(data.len())[0]);
    }
    lemma_section_point(u, i, t);
    let q = u.len() as int + 1;
    if q + 4 <= w.len() {
        lemma_le_bytes(data.len());
        assert(w.subrange(q, q + 4) =~= le_bytes(data.len()));
        lemma_read_length(w, q, le_bytes(data.len()));
    }
}

/// A forged length prefix that claims more than the rest of the document is
/// reported as corruption.
pub proof fn lemma_pdf_forged_length(s: Seq<u8>, data: Seq<u8>, forged: Seq<u8>)
    requires
        has_pdf_signature(s),
        append_point(s) is Some,
        data.len() <= PDF_CAPACITY,
        forged.len() == 4,
        !is_pdf_space(forged[0]),
        no_eof_marker(forged + data + section_end()),
        append_point(s)->0 + 5 + le_value(forged, 0) > pdf_embed_result(s, data)->Ok_0.len(),
    ensures
        pdf_extract_result(
            pdf_embed_result(s, data)->Ok_0.take(append_point(s)->0 + 1) + forged
                + pdf_embed_result(s, data)->Ok_0.skip(append_point(s)->0 + 5),
        ) == Err::<Seq<u8>, SteganoError>(SteganoError::Corruption),
{
    let u = lemma_cut(s);
    let i = last_eof(s)->0;
    let o = pdf_embed_result(s, data)->Ok_0;
    let q = u.len() as int + 1;
    let t = seq![0x0Au8] + forged + data + section_end();
    let w = u + t;
    assert(o.take(q) + forged + o.skip(q + 4) =~= w);
    assert(t.skip(1) =~= forged + data + section_end());
    assert(t[1] == forged[0]);
    lemma_section_point(u, i, t);
    assert(w.subrange(q, q + 4) =~= forged);
    lemma_read_length(w, q, forged);
}

/// Extraction never looks at the end marker: with the marker replaced by any
/// bytes that add no end-of-file marker, or removed, the payload still comes
/// back.
pub proof fn lemma_pdf_marker_replaced(s: Seq<u8>, data: Seq<u8>, tail: Seq<u8>)
    requires
        has_pdf_signature(s),
        append_point(s) is Some,
        0 < data.len() <= PDF_CAPACITY,
        !is_pdf_space(le_bytes(data.len())[0]),
        no_eof_marker(le_bytes(data.len()) + data + tail),
    ensures
        pdf_embed_result(s, data) is Ok,
        pdf_extract_result(
            pdf_embed_result(s, data)->Ok_0.take(
                pdf_embed_result(s, data)->Ok_0.len() - section_end().len(),
            ) + tail,
        ) == Ok::<Seq<u8>, SteganoError>(data),
{
    let u = lemma_cut(s);
    let i = last_eof(s)->0;
    let o = pdf_embed_result(s, data)->Ok_0;
    let t = seq![0x0Au8] + le_bytes(data.len()) + data + tail;
    let w = u + t;
    assert(o.take(o.len() - section_end().len()) + tail =~= w);
    assert(t.skip(1) =~= le_bytes(data.len()) + data + tail);
    assert(t[1] == le_bytes(data.len())[0]);
    lemma_section_point(u, i, t);
    let q = u.len() as int + 1;
    lemma_le_bytes(data.len());
    assert(w.subrange(q, q + 4) =~= le_bytes(data.len()));
    lemma_read_length(w, q, le_bytes(data.len()));
    assert(w.subrange(q + 4, q + 4 + data.len()) =~= data);
}

impl PdfSteganography {
    pub fn new() -> Self {
        PdfSteganography
    }

    /// Bytes that a document of any size can take.
    pub fn calculate_capacity(_pdf_size: usize) -> (r: usize)
        ensures
            r == PDF_CAPACITY,
    {
        PDF_CAPACITY
    }

    /// Whether `content` starts with the PDF signature.
    fn has_signature(content: &[u8]) -> (r: bool)
        ensures
            r == has_pdf_signature(content@),
    {
        content.len() >= 5 && content[0] == 0x25 && content[1] == 0x50 && content[2] == 0x44
            && content[3] == 0x46 && content[4] == 0x2D
    }

    /// Position just after the last `%%EOF` of `content` and the newlines,
    /// carriage returns and spaces that follow it; `None` without a marker.
    pub fn find_eof_marker(content: &[u8]) -> (r: Option<usize>)
        ensures
            r is Some <==> append_point(content@) is Some,
            r is Some ==> r->0 == append_point(content@)->0,
    {
        let len = content.len();
        if len < 5 {
            return None;
        }
        let mut i: usize = len - 4;
        while i > 0
            invariant
                len == content@.len(),
                len >= 5,
                i <= len - 4,
                last_eof(content@) == last_eof_from(content@, i - 1),
            decreases i,
        {
            i = i - 1;
            if content[i] == 0x25 && content[i + 1] == 0x25 && content[i + 2] == 0x45 && content[i
                + 3] == 0x4F && content[i + 4] == 0x46 {
                let mut pos = i + 5;
                while pos < len && (content[pos] == 0x0A || content[pos] == 0x0D || content[pos]
                    == 0x20)
                    invariant
                        len == content@.len(),
                        i + 5 <= pos <= len,
                        last_eof(content@) == Some(i as int),
                        skip_space(content@, i + 5) == skip_space(content@, pos as int),
                    decreases len - pos,
                {
                    pos = pos + 1;
                }
                return Some(pos);
            }
        }
        None
    }
}

/// Appends `bytes` to `out`.
fn push_all(out: &mut Vec<u8>, bytes: &[u8])
    ensures
        final(out)@ == old(out)@ + bytes@,
{
    let ghost start = out@;
    let mut i: usize = 0;
    while i < bytes.len()
        invariant
            i <= bytes@.len(),
            out@ == start + bytes@.take(i as int),
        decreases bytes@.len() - i,
    {
        out.push(bytes[i]);
        i = i + 1;
        assert(out@ =~= start + bytes@.take(i as int));
    }
    assert(bytes@.take(bytes@.len() as int) =~= bytes@);
}

impl Steganography for PdfSteganography {
    type Carrier = Vec<u8>;

    open spec fn embed_spec(&self, carrier: Seq<u8>, data: Seq<u8>) -> Result<
        Seq<u8>,
        SteganoError,
    > {
        pdf_embed_result(carrier, data)
    }

    open spec fn extract_spec(&self, carrier: Seq<u8>) -> Result<Seq<u8>, SteganoError> {
        pdf_extract_result(carrier)
    }

    open spec fn capacity_spec(&self, carrier: Seq<u8>) -> nat {
        PDF_CAPACITY as nat
    }

    fn embed(&self, carrier: &mut Vec<u8>, data: &[u8]) -> (r: Result<(), SteganoError>) {
        if !Self::has_signature(carrier.as_slice()) {
            return Err(SteganoError::CarrierFormat);
        }
        if !self.can_embed(carrier, data.len()) {
            return Err(SteganoError::Capacity);
        }
        let p = match Self::find_eof_marker(carrier.as_slice()) {
            Some(p) => p,
            None => {
                return Err(SteganoError::CarrierFormat);
            },
        };
        let ghost before = carrier@;
        proof {
            lemma_take_settled(carrier@);
        }
        carrier.truncate(p);
        assert(carrier@ == before.take(p as int));
        let n = data.len() as u32;
        let head: [u8; 5] = [
            0x0A,
            (n % 256) as u8,
            ((n / 256) % 256) as u8,
            ((n / 65536) % 256) as u8,
            ((n / 16777216) % 256) as u8,
        ];
        let end: [u8; 13] = [
            0x0A,
            0x25,
            0x25,
            0x53,
            0x54,
            0x45,
            0x47,
            0x41,
            0x4E,
            0x4F,
            0x25,
            0x25,
            0x0A,
        ];
        assert(head@ =~= seq![0x0Au8] + le_bytes(data@.len()));
        assert(end@ =~= section_end());
        push_all(carrier, head.as_slice());
        push_all(carrier, data);
        push_all(carrier, end.as_slice());
        assert(carrier@ =~= before.take(p as int) + hidden_section(data@));
        assert(pdf_embed_result(before, data@) == Ok::<Seq<u8>, SteganoError>(carrier@));
        Ok(())
    }

    fn extract(&self, carrier: &Vec<u8>) -> (r: Result<Vec<u8>, SteganoError>) {
        let content = carrier.as_slice();
        if !Self::has_signature(content) {
            return Err(SteganoError::CarrierFormat);
        }
        let p = match Self::find_eof_marker(content) {
            Some(p) => p,
            None => {
                return Err(SteganoError::CarrierFormat);
            },
        };
        proof {
            lemma_take_settled(content@);
        }
        let len = content.len();
        if len < 4 || p > len - 4 {
            return Err(SteganoError::Corruption);
        }
        let n: u64 = content[p] as u64 + 256 * (content[p + 1] as u64) + 65536 * (content[p
            + 2] as u64) + 16777216 * (content[p + 3] as u64);
        if n == 0 {
            return Err(SteganoError::Corruption);
        }
        if n > (len - p - 4) as u64 {
            return Err(SteganoError::Corruption);
        }
        let start = p + 4;
        let stop = start + n as usize;
        let mut out: Vec<u8> = Vec::new();
        let mut k: usize = start;
        while k < stop
            invariant
                start <= k <= stop,
                stop <= content@.len(),
                out@ == content@.subrange(start as int, k as int),
            decreases stop - k,
        {
            out.push(content[k]);
            k = k + 1;
            assert(out@ =~= content@.subrange(start as int, k as int));
        }
        Ok(out)
    }

    fn can_embed(&self, carrier: &Vec<u8>, data_size: usize) -> (r: bool) {
        data_size <= Self::calculate_capacity(carrier.len())
    }
}

} // verus!
