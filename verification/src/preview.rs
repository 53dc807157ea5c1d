//! Quick-look style preview: which content types are shown as text, and how
//! much of a file the text view holds. The preview window is built by the caller.
use vstd::prelude::*;

use crate::text;

verus! {

broadcast use vstd::string::group_string_axioms;

/// The most bytes of a file that the text preview shows.
pub const TEXT_PREVIEW_LIMIT: usize = 262144;

/// Whether `ct` is a text-ish content type worth showing as text.
pub open spec fn is_texty_spec(ct: Seq<char>) -> bool {
    ||| (ct.len() >= 5 && ct.take(5) == "text/"@)
    ||| ct == "application/json"@
    ||| ct == "application/xml"@
    ||| ct == "application/javascript"@
    ||| ct == "application/x-shellscript"@
    ||| ct == "application/x-desktop"@
}

/// True for text-ish content types worth showing as text.
pub fn is_texty(content_type: &str) -> (b: bool)
    ensures
        b == is_texty_spec(content_type@),
{
    let cs = text::chars_of(content_type);
    if cs.len() >= 5 {
        let head = text::slice_chars(&cs, 0, 5);
        assert(head@ =~= cs@.take(5));
        if text::chars_eq_str(&head, "text/") {
            return true;
        }
    }
    text::chars_eq_str(&cs, "application/json") || text::chars_eq_str(&cs, "application/xml")
        || text::chars_eq_str(&cs, "application/javascript") || text::chars_eq_str(
        &cs,
        "application/x-shellscript",
    ) || text::chars_eq_str(&cs, "application/x-desktop")
}

/// How many of a file's `len` bytes the text preview shows.
pub fn text_preview_len(len: usize) -> (n: usize)
    ensures
        n == (if len < TEXT_PREVIEW_LIMIT {
            len
        } else {
            TEXT_PREVIEW_LIMIT
        }),
{
    if len < TEXT_PREVIEW_LIMIT {
        len
    } else {
        TEXT_PREVIEW_LIMIT
    }
}

} // verus!
