//! The EDINET code list, which is published in Shift_JIS.

use vstd::prelude::*;

verus! {

/// The text that `encoding_rs` gives when it decodes `raw` as Shift_JIS
/// (a byte order mark at the start selects UTF-8 or UTF-16 instead).
pub uninterp spec fn shift_jis_text(raw: Seq<u8>) -> Seq<char>;

/// `encoding_rs::SHIFT_JIS.decode`, keeping the decoded text. Claimed: the
/// text is `shift_jis_text` of the input bytes and depends on nothing else;
/// the decoding table itself is left unsaid. The call panics only when the
/// output size computation overflows, which the length bound rules out.
#[verifier::external_body]
fn decode_shift_jis(raw: &[u8]) -> (res: String)
    requires
        raw@.len() <= usize::MAX / 4,
    ensures
        res@ == shift_jis_text(raw@),
{
    let (decoded, _, _) = encoding_rs::SHIFT_JIS.decode(raw);
    decoded.into_owned()
}

/// The text of a code list file, converted from Shift_JIS.
pub fn codelist_text(raw: &[u8]) -> (res: String)
    requires
        raw@.len() <= usize::MAX / 4,
    ensures
        res@ == shift_jis_text(raw@),
{
    decode_shift_jis(raw)
}

} // verus!
