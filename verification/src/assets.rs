use vstd::prelude::*;

use base64::Engine;

use crate::names::chosen_name;
use crate::names::first_free_name;
use crate::strings::all_blank;
use crate::strings::dec_str;
use crate::strings::from_char_vec;
use crate::strings::is_all_blank;
use crate::strings::push_all;
use crate::strings::push_dec;
use crate::strings::to_char_vec;
use crate::text::sanitize_filename_chars;
use crate::text::sanitize_filename_spec;

verus! {

// ---------------------------------------------------------------------------
// Asset ingestion: clipboard images and copied image files land in the
// folder's assets directory under collision-avoided names.  The byte
// decoding and the naming are decided here; the caller writes the bytes.
// ---------------------------------------------------------------------------

/// Why a clipboard payload was rejected.
#[derive(Clone, Copy, Debug, PartialEq, Eq, Structural)]
pub enum AssetError {
    /// The payload is blank.
    EmptyPayload,
    /// The payload is not valid base64.
    InvalidBase64,
    /// The payload decodes to zero bytes.
    EmptyImage,
}

impl AssetError {
    /// A human-readable description of the error.
    pub fn message(&self) -> (r: String)
        ensures
            r@ == spec_asset_message(*self),
    {
        match self {
            AssetError::EmptyPayload => String::from_str("Clipboard data is empty"),
            AssetError::InvalidBase64 => String::from_str("Failed to decode base64"),
            AssetError::EmptyImage => String::from_str("Decoded image data is empty"),
        }
    }
}

/// The wording of each asset error.
pub open spec fn spec_asset_message(e: AssetError) -> Seq<char> {
    match e {
        AssetError::EmptyPayload => "Clipboard data is empty"@,
        AssetError::InvalidBase64 => "Failed to decode base64"@,
        AssetError::EmptyImage => "Decoded image data is empty"@,
    }
}

/// What base64 decoding yields: the decoded bytes on the texts it accepts,
/// nothing on the texts it rejects.
pub uninterp spec fn b64_decoded_of(s: Seq<char>) -> Option<Seq<u8>>;

/// Relies on base64's standard-alphabet engine `decode`: whether a text
/// decodes, and to which bytes, depends on the text alone.
#[verifier::external_body]
fn decode_base64(s: &str) -> (r: Option<Vec<u8>>)
    ensures
        match r {
            Some(v) => b64_decoded_of(s@) == Some(v@),
            None => b64_decoded_of(s@) is None,
        },
{
    base64::engine::general_purpose::STANDARD.decode(s).ok()
}

/// Decode a clipboard image payload: a blank payload, an undecodable one
/// and one decoding to zero bytes are each rejected with their own error.
pub fn decode_clipboard_image(data: &str) -> (r: Result<Vec<u8>, AssetError>)
    ensures
        match r {
            Ok(v) => !all_blank(data@) && b64_decoded_of(data@) == Some(v@) && v@.len() > 0,
            Err(e) => match e {
                AssetError::EmptyPayload => all_blank(data@),
                AssetError::InvalidBase64 => !all_blank(data@) && b64_decoded_of(data@) is None,
                AssetError::EmptyImage => !all_blank(data@) && (b64_decoded_of(data@)
                    matches Some(b) && b.len() == 0),
            },
        },
{
    let dv = to_char_vec(data);
    if is_all_blank(&dv) {
        return Err(AssetError::EmptyPayload);
    }
    match decode_base64(data) {
        None => Err(AssetError::InvalidBase64),
        Some(bytes) => {
            if bytes.len() == 0 {
                Err(AssetError::EmptyImage)
            } else {
                Ok(bytes)
            }
        },
    }
}

// ---------------------------------------------------------------------------
// Asset file naming.
// ---------------------------------------------------------------------------

/// The `assets/`-relative path of a file name.
pub open spec fn asset_rel_path(name: Seq<char>) -> Seq<char> {
    seq!['a', 's', 's', 'e', 't', 's', '/'] + name
}

/// The stem a clipboard screenshot is named after.
pub open spec fn screenshot_stem(timestamp: u64) -> Seq<char> {
    seq!['s', 'c', 'r', 'e', 'e', 'n', 's', 'h', 'o', 't', '-'] + dec_str(timestamp as nat)
}

/// A clipboard screenshot's file name and folder-relative path:
/// `screenshot-<timestamp>.png`, numeric suffixes avoiding the names
/// already present in the assets directory.
pub fn screenshot_asset_name(timestamp: u64, existing: &Vec<String>) -> (r: (String, String))
    requires
        existing@.len() < 0xffff_ffff_ffff_0000u64,
    ensures
        r.0@ == chosen_name(
            screenshot_stem(timestamp),
            seq!['.', 'p', 'n', 'g'],
            existing.deep_view(),
            None,
        ),
        r.1@ == asset_rel_path(r.0@),
{
    let mut head: Vec<char> = Vec::new();
    head.push('s');
    head.push('c');
    head.push('r');
    head.push('e');
    head.push('e');
    head.push('n');
    head.push('s');
    head.push('h');
    head.push('o');
    head.push('t');
    head.push('-');
    proof {
        assert(head@ =~= seq!['s', 'c', 'r', 'e', 'e', 'n', 's', 'h', 'o', 't', '-']);
    }
    push_dec(&mut head, timestamp);
    let mut tail: Vec<char> = Vec::new();
    tail.push('.');
    tail.push('p');
    tail.push('n');
    tail.push('g');
    proof {
        assert(tail@ =~= seq!['.', 'p', 'n', 'g']);
    }
    let namev = first_free_name(&head, &tail, existing, None);
    let mut relv: Vec<char> = Vec::new();
    relv.push('a');
    relv.push('s');
    relv.push('s');
    relv.push('e');
    relv.push('t');
    relv.push('s');
    relv.push('/');
    proof {
        assert(relv@ =~= seq!['a', 's', 's', 'e', 't', 's', '/']);
    }
    push_all(&mut relv, &namev);
    (from_char_vec(&namev), from_char_vec(&relv))
}

/// A copied image's file name and folder-relative path: the sanitized stem
/// of the source file plus its extension, numeric suffixes avoiding the
/// names already present in the assets directory.
pub fn copied_asset_name(stem: &str, extension: &str, existing: &Vec<String>) -> (r: (
    String,
    String,
))
    requires
        existing@.len() < 0xffff_ffff_ffff_0000u64,
    ensures
        r.0@ == chosen_name(
            sanitize_filename_spec(stem@),
            seq!['.'] + extension@,
            existing.deep_view(),
            None,
        ),
        r.1@ == asset_rel_path(r.0@),
{
    let sv = to_char_vec(stem);
    let head = sanitize_filename_chars(&sv);
    let ev = to_char_vec(extension);
    let mut tail: Vec<char> = Vec::new();
    tail.push('.');
    push_all(&mut tail, &ev);
    proof {
        assert(tail@ =~= seq!['.'] + extension@);
    }
    let namev = first_free_name(&head, &tail, existing, None);
    let mut relv: Vec<char> = Vec::new();
    relv.push('a');
    relv.push('s');
    relv.push('s');
    relv.push('e');
    relv.push('t');
    relv.push('s');
    relv.push('/');
    proof {
        assert(relv@ =~= seq!['a', 's', 's', 'e', 't', 's', '/']);
    }
    push_all(&mut relv, &namev);
    (from_char_vec(&namev), from_char_vec(&relv))
}

} // verus!
