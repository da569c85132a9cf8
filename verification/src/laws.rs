//! Laws that relate the encoder, the decoder and the session to each other.

use vstd::prelude::*;
use crate::checksum::adler32;
use crate::encoding::DEFAULT_WINDOW_SIZE;
use crate::error::{Error, ErrorKind};
use crate::flags::FormatExtension;
use crate::format::{parse_header, Window, MAGIC_0, MAGIC_1, MAGIC_2};
use crate::json::{json_prefix, json_wrap};
use crate::roundtrip::{fits, lemma_round_trip};
use crate::size::lemma_delta_size;
use crate::session::{decode_all, feed, finish_result, progress, window_output, Session};
use crate::{decoded, encoded, encoded_in_windows, header_flags};

verus! {

/// Whether a session is new: nothing was fed to it.
pub open spec fn is_new(s: Session) -> bool {
    s == Session::initial(s.dictionary, s.max_file, s.max_window, s.allow_target)
}

/// Whether one of the first three bytes of `chunk` is not the magic byte of
/// its place.
pub open spec fn breaks_magic(chunk: Seq<u8>) -> bool {
    ||| chunk.len() >= 1 && chunk[0] != MAGIC_0
    ||| chunk.len() >= 2 && chunk[1] != MAGIC_1
    ||| chunk.len() >= 3 && chunk[2] != MAGIC_2
}

/// Round trip: what `encode` returns for a target that the default limits
/// admit, `decode` turns back into the target, whatever the dictionary, with
/// or without the interleaved layout and the checksum, and whether or not
/// COPYs may take from the target. The dictionary and the target together
/// must fit the address range of the machine and of the format. The JSON
/// form is left out: it does not begin with the magic bytes, so no decoder
/// accepts it.
pub proof fn lemma_decode_inverts_encode(
    dictionary: Seq<u8>,
    target: Seq<u8>,
    extensions: FormatExtension,
    look: bool,
)
    requires
        !extensions.json,
        target.len() <= crate::streaming::DEFAULT_MAX_TARGET_FILE_SIZE,
        fits((dictionary.len() + target.len()) as int),
    ensures
        decoded(dictionary, encoded(dictionary, target, extensions, look)) == target,
{
    lemma_delta_size(dictionary, target, DEFAULT_WINDOW_SIZE as int, look, header_flags(extensions));
    lemma_round_trip(
        dictionary,
        target,
        DEFAULT_WINDOW_SIZE as int,
        look,
        header_flags(extensions),
        crate::streaming::DEFAULT_MAX_TARGET_FILE_SIZE,
        crate::streaming::DEFAULT_MAX_TARGET_WINDOW_SIZE,
        true,
    );
}

/// Round trip through a session of one's own: a delta with windows of any
/// size, fed whole to a new session whose limits admit the windows and the
/// target, gives the target back.
pub proof fn lemma_session_inverts_encode(
    dictionary: Seq<u8>,
    target: Seq<u8>,
    extensions: FormatExtension,
    look: bool,
    window_size: int,
    s: Session,
)
    requires
        !extensions.json,
        is_new(s),
        s.dictionary == dictionary,
        0 < window_size <= s.max_window,
        target.len() <= s.max_file,
        fits((dictionary.len() + target.len()) as int),
        fits(encoded_in_windows(dictionary, target, extensions, look, window_size).len() as int),
    ensures
        decode_all(s, encoded_in_windows(dictionary, target, extensions, look, window_size)) == Ok::<
            Seq<u8>,
            Error,
        >(target),
{
    lemma_round_trip(
        dictionary,
        target,
        window_size,
        look,
        header_flags(extensions),
        s.max_file,
        s.max_window,
        s.allow_target,
    );
}

/// The JSON form of a delta is rejected as malformed by every new session.
pub proof fn lemma_json_is_rejected(s: Session, binary: Seq<u8>)
    requires
        is_new(s),
        json_wrap(binary).len() <= usize::MAX,
    ensures
        feed(s, json_wrap(binary)).result == Err::<(), Error>(Error { kind: ErrorKind::FormatError }),
{
    let text = json_wrap(binary);
    assert(text[0] == json_prefix()[0]);
    assert(breaks_magic(text));
    lemma_garbage_is_rejected(s, text);
}

/// Empty input is legal: a new session that is fed nothing, or an empty
/// chunk, may be finished, and has produced nothing.
pub proof fn lemma_empty_input_is_legal(s: Session)
    requires
        is_new(s),
    ensures
        finish_result(s) == Ok::<(), Error>(()),
        decode_all(s, Seq::<u8>::empty()) == Ok::<Seq<u8>, Error>(Seq::<u8>::empty()),
{
    reveal(progress);
    assert(s.with_more(Seq::<u8>::empty()).pending =~= Seq::<u8>::empty());
}

/// Truncation: a new session that is fed the beginning of a file header,
/// but not all of it, accepts the bytes, emits nothing, and cannot be
/// finished: `finish` fails with `TruncatedDelta`.
pub proof fn lemma_truncated_header_is_rejected(s: Session, chunk: Seq<u8>)
    requires
        is_new(s),
        0 < chunk.len() < 5,
        parse_header(chunk) is Incomplete,
    ensures
        feed(s, chunk).result == Ok::<(), Error>(()),
        feed(s, chunk).emitted == Seq::<u8>::empty(),
        finish_result(feed(s, chunk).state) == Err::<(), Error>(
            Error { kind: ErrorKind::TruncatedDelta },
        ),
        decode_all(s, chunk) == Err::<Seq<u8>, Error>(Error { kind: ErrorKind::TruncatedDelta }),
{
    reveal(progress);
    assert(s.with_more(chunk).pending =~= chunk);
}

/// Garbage: a new session that is fed bytes that do not begin with the magic
/// bytes fails at once with a format error and emits nothing, however few
/// bytes there are.
pub proof fn lemma_garbage_is_rejected(s: Session, chunk: Seq<u8>)
    requires
        is_new(s),
        chunk.len() <= usize::MAX,
        breaks_magic(chunk),
    ensures
        feed(s, chunk).result == Err::<(), Error>(Error { kind: ErrorKind::FormatError }),
        feed(s, chunk).emitted == Seq::<u8>::empty(),
        feed(s, chunk).state == s.failed(ErrorKind::FormatError),
{
    reveal(progress);
    assert(s.with_more(chunk).pending =~= chunk);
}

/// Checksum enforcement: a window that carries a checksum gives target bytes
/// only where they have that checksum; where its instructions can be carried
/// out and give other bytes, the window fails with `ChecksumMismatch`.
pub proof fn lemma_checksum_is_enforced(s: Session, w: Window)
    requires
        w.checksum is Some,
    ensures
        window_output(s, w) is Ok ==> adler32(window_output(s, w)->Ok_0.0) == w.checksum->0,
        window_output(s, w) is Err ==> window_output(s, w)->Err_0 == ErrorKind::FormatError
            || window_output(s, w)->Err_0 == ErrorKind::ChecksumMismatch,
{
}

/// A call that fails emits nothing and leaves the session failed; a call
/// that succeeds leaves it in working order.
pub proof fn lemma_failed_call_emits_nothing(s: Session, chunk: Seq<u8>)
    ensures
        feed(s, chunk).result is Err ==> feed(s, chunk).emitted == Seq::<u8>::empty() && feed(
            s,
            chunk,
        ).state.phase is Failed,
        feed(s, chunk).result is Ok ==> !(feed(s, chunk).state.phase is Failed),
{
}

} // verus!
