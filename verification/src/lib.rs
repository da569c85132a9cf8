//! Delta compression in the VCDIFF family: an encoder that describes a target
//! byte sequence relative to a dictionary, and a resumable decoder that
//! rebuilds the target from the dictionary and the delta.

pub mod cache;
pub mod checksum;
pub mod codetable;
pub mod encoder;
pub mod encoding;
pub mod error;
pub mod flags;
pub mod format;
pub mod interpreter;
pub mod json;
pub mod laws;
pub mod matcher;
pub mod output;
pub mod roundtrip;
pub mod session;
pub mod size;
pub mod streaming;
pub mod varint;

use vstd::prelude::*;
use crate::encoder::encode_binary;
use crate::encoding::{binary_delta, DEFAULT_WINDOW_SIZE};
use crate::error::Error;
pub use crate::flags::FormatExtension;
use crate::format::HeaderFlags;
use crate::json::{json_wrap, wrap_json};
use crate::session::{decode_all, Session};
use crate::streaming::{Decoder, DEFAULT_MAX_TARGET_FILE_SIZE, DEFAULT_MAX_TARGET_WINDOW_SIZE};

verus! {

/// What a file header announces for a set of extensions.
pub open spec fn header_flags(extensions: FormatExtension) -> HeaderFlags {
    HeaderFlags { interleaved: extensions.interleaved, checksum: extensions.checksum }
}

/// What `encode_with_window_size` returns: the binary delta with windows of
/// at most `window_size` target bytes, wrapped in JSON where that is asked
/// for.
pub open spec fn encoded_in_windows(
    dictionary: Seq<u8>,
    target: Seq<u8>,
    extensions: FormatExtension,
    look: bool,
    window_size: int,
) -> Seq<u8> {
    let binary = binary_delta(dictionary, target, window_size, look, header_flags(extensions));
    if extensions.json {
        json_wrap(binary)
    } else {
        binary
    }
}

/// What `encode` returns.
pub open spec fn encoded(
    dictionary: Seq<u8>,
    target: Seq<u8>,
    extensions: FormatExtension,
    look: bool,
) -> Seq<u8> {
    encoded_in_windows(dictionary, target, extensions, look, DEFAULT_WINDOW_SIZE as int)
}

/// The session that `decode` runs a delta through: the default limits, and
/// windows may take their source from the target decoded so far.
pub open spec fn default_session(dictionary: Seq<u8>) -> Session {
    Session::initial(
        dictionary,
        DEFAULT_MAX_TARGET_FILE_SIZE,
        DEFAULT_MAX_TARGET_WINDOW_SIZE,
        true,
    )
}

/// What `decode` returns: the target that the delta gives in a default
/// session, and nothing at all where the session fails or the delta ends
/// inside a structure.
pub open spec fn decoded(dictionary: Seq<u8>, encoded: Seq<u8>) -> Seq<u8> {
    match decode_all(default_session(dictionary), encoded) {
        Ok(target) => target,
        Err(_) => Seq::<u8>::empty(),
    }
}

/// Encodes `target` as a delta against `dictionary`, with at most
/// `window_size` target bytes in each window.
///
/// The result depends on the arguments alone. Where
/// `look_for_target_matches` is set, a COPY may also take from the bytes
/// of its own window that come before it.
pub fn encode_with_window_size(
    dictionary: &[u8],
    target: &[u8],
    format_extensions: FormatExtension,
    look_for_target_matches: bool,
    window_size: usize,
) -> (delta: Vec<u8>)
    requires
        dictionary.len() + target.len() <= usize::MAX,
        window_size > 0,
    ensures
        delta@ == encoded_in_windows(
            dictionary@,
            target@,
            format_extensions,
            look_for_target_matches,
            window_size as int,
        ),
{
    let flags = HeaderFlags {
        interleaved: format_extensions.interleaved,
        checksum: format_extensions.checksum,
    };
    let binary = encode_binary(dictionary, target, window_size, look_for_target_matches, flags);
    if format_extensions.json {
        wrap_json(binary.as_slice())
    } else {
        binary
    }
}

/// Encodes `target` as a delta against `dictionary`, with windows of the
/// default size.
pub fn encode(
    dictionary: &[u8],
    target: &[u8],
    format_extensions: FormatExtension,
    look_for_target_matches: bool,
) -> (delta: Vec<u8>)
    requires
        dictionary.len() + target.len() <= usize::MAX,
    ensures
        delta@ == encoded(dictionary@, target@, format_extensions, look_for_target_matches),
{
    encode_with_window_size(
        dictionary,
        target,
        format_extensions,
        look_for_target_matches,
        DEFAULT_WINDOW_SIZE,
    )
}

/// Rebuilds the target from `dictionary` and a whole delta, or tells why
/// that cannot be done: a new decoder, one call of `decode` with all of
/// `encoded`, then `finish`, and the error of the first of the two that
/// fails.
pub fn try_decode(dictionary: &[u8], encoded: &[u8]) -> (r: Result<Vec<u8>, Error>)
    ensures
        match decode_all(default_session(dictionary@), encoded@) {
            Ok(target) => r is Ok && r->Ok_0@ == target,
            Err(e) => r is Err && r->Err_0 == e,
        },
{
    let mut decoder = Decoder::new(dictionary);
    let mut target: Vec<u8> = Vec::new();
    match decoder.decode(encoded, &mut target) {
        Err(e) => Err(e),
        Ok(_) => match decoder.finish() {
            Err(e) => Err(e),
            Ok(_) => {
                assert(target@ =~= decode_all(default_session(dictionary@), encoded@)->Ok_0);
                Ok(target)
            },
        },
    }
}

/// Rebuilds the target from `dictionary` and a whole delta. Where the delta
/// is malformed, breaks a limit or is cut short, the result is empty.
pub fn decode(dictionary: &[u8], encoded: &[u8]) -> (target: Vec<u8>)
    ensures
        target@ == decoded(dictionary@, encoded@),
{
    match try_decode(dictionary, encoded) {
        Ok(target) => target,
        Err(_) => Vec::new(),
    }
}

} // verus!
