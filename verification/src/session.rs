//! What a decoding session is, as a state machine over plain values: the
//! state between two calls, what feeding a chunk of the delta does to it and
//! emits, and when the session may be finished. The decoder is proved
//! against these functions.

use vstd::prelude::*;
use crate::cache::CacheState;
use crate::checksum::adler32;
use crate::error::{Error, ErrorKind};
use crate::format::{
    extends,
    lemma_extends_subrange,
    lemma_header_stable,
    lemma_window_bounds,
    lemma_window_stable,
    parse_header,
    parse_window,
    Frame,
    Window,
    WindowContext,
};
use crate::interpreter::{complete, execute, lemma_run_wf, Machine, Sections};

verus! {

/// Where a session stands between two calls.
#[derive(Clone, Copy, Debug, PartialEq, Eq, Structural)]
pub enum Phase {
    /// The file header has not been read in full.
    AwaitingHeader,
    /// The file header was read; windows follow.
    AwaitingWindow,
    /// The session failed. Nothing leads out of this phase.
    Failed(ErrorKind),
}

/// The state of a session between two calls.
pub struct Session {
    pub dictionary: Seq<u8>,
    /// The most target bytes that the session may produce.
    pub max_file: usize,
    /// The most target bytes that one window may produce.
    pub max_window: usize,
    /// Whether a window may take its source from the target decoded so far.
    pub allow_target: bool,
    pub phase: Phase,
    /// What the file header announced; meaningful once it was read.
    pub interleaved: bool,
    pub checksum: bool,
    /// The bytes fed that no complete structure has used yet.
    pub pending: Seq<u8>,
    pub cache: CacheState,
    /// The number of target bytes produced so far.
    pub total: usize,
    /// The target produced so far where `allow_target` is set, else empty.
    pub retained: Seq<u8>,
}

impl Session {
    /// The state of a new session.
    pub open spec fn initial(
        dictionary: Seq<u8>,
        max_file: usize,
        max_window: usize,
        allow_target: bool,
    ) -> Session {
        Session {
            dictionary,
            max_file,
            max_window,
            allow_target,
            phase: Phase::AwaitingHeader,
            interleaved: false,
            checksum: false,
            pending: Seq::<u8>::empty(),
            cache: CacheState::initial(),
            total: 0,
            retained: Seq::<u8>::empty(),
        }
    }

    /// The state after a failure: only the options and the error are kept.
    pub open spec fn failed(self, e: ErrorKind) -> Session {
        Session {
            phase: Phase::Failed(e),
            interleaved: false,
            checksum: false,
            pending: Seq::<u8>::empty(),
            cache: CacheState::initial(),
            total: 0,
            retained: Seq::<u8>::empty(),
            ..self
        }
    }

    /// The state with `chunk` added to the pending bytes.
    pub open spec fn with_more(self, chunk: Seq<u8>) -> Session {
        Session { pending: self.pending + chunk, ..self }
    }

    /// What the next window is checked against.
    pub open spec fn context(self) -> WindowContext {
        WindowContext {
            dictionary_len: self.dictionary.len() as usize,
            retained_len: self.retained.len() as usize,
            allow_target: self.allow_target,
            max_window: self.max_window,
            remaining: (self.max_file - self.total) as usize,
            interleaved: self.interleaved,
            checksum: self.checksum,
        }
    }

    /// The parts of the state fit together and fit the machine.
    pub open spec fn valid(self) -> bool {
        &&& self.dictionary.len() <= usize::MAX
        &&& self.pending.len() <= usize::MAX
        &&& self.cache.wf()
        &&& self.total <= self.max_file
        &&& self.retained.len() == (if self.allow_target { self.total as nat } else { 0 })
    }

    /// The state is valid and at rest: the pending bytes hold no complete
    /// structure.
    pub open spec fn wf(self) -> bool {
        self.valid() && progress(self) is Stalled
    }
}

/// The sections of a parsed window, taken out of the bytes `p`.
pub open spec fn sections_of(p: Seq<u8>, w: Window, interleaved: bool) -> Sections {
    Sections {
        inst: p.subrange(w.inst.start as int, w.inst.end as int),
        addr: p.subrange(w.addr.start as int, w.addr.end as int),
        data: p.subrange(w.data.start as int, w.data.end as int),
        interleaved,
    }
}

/// The source segment of a parsed window.
pub open spec fn source_of(s: Session, w: Window) -> Seq<u8> {
    (if w.source.from_target { s.retained } else { s.dictionary }).subrange(
        w.source.start as int,
        w.source.start + w.source.len,
    )
}

/// The target bytes of a parsed window and the cache after it, or the error
/// that it fails with: a format error where its instructions are malformed,
/// a checksum mismatch where they are carried out and the window's checksum
/// is not that of the result.
pub open spec fn window_output(s: Session, w: Window) -> Result<(Seq<u8>, CacheState), ErrorKind> {
    match execute(
        source_of(s, w),
        w.target_len as int,
        sections_of(s.pending, w, s.interleaved),
        s.cache,
    ) {
        None => Err(ErrorKind::FormatError),
        Some((out, cache)) => if w.checksum is Some && w.checksum->0 != adler32(out) {
            Err(ErrorKind::ChecksumMismatch)
        } else {
            Ok((out, cache))
        },
    }
}

/// What the pending bytes allow next.
pub enum Progress {
    /// Nothing: the next structure is not there in full, or the session
    /// has failed.
    Stalled,
    /// The next structure is malformed, or breaks a limit.
    Failed(ErrorKind),
    /// The next structure was read: the state after it, and the target
    /// bytes that it gave.
    Moved { next: Session, out: Seq<u8> },
}

/// Reads one structure, the file header or a window, off the pending bytes.
#[verifier::opaque]
pub open spec fn progress(s: Session) -> Progress {
    match s.phase {
        Phase::Failed(_) => Progress::Stalled,
        Phase::AwaitingHeader => match parse_header(s.pending) {
            Frame::Incomplete => Progress::Stalled,
            Frame::Bad(e) => Progress::Failed(e),
            Frame::Done { item, used } => Progress::Moved {
                next: Session {
                    phase: Phase::AwaitingWindow,
                    interleaved: item.interleaved,
                    checksum: item.checksum,
                    pending: s.pending.skip(used as int),
                    ..s
                },
                out: Seq::<u8>::empty(),
            },
        },
        Phase::AwaitingWindow => match parse_window(s.context(), s.pending) {
            Frame::Incomplete => Progress::Stalled,
            Frame::Bad(e) => Progress::Failed(e),
            Frame::Done { item, used } => match window_output(s, item) {
                Err(e) => Progress::Failed(e),
                Ok((out, cache)) => Progress::Moved {
                    next: Session {
                        pending: s.pending.skip(used as int),
                        cache,
                        total: (s.total + out.len()) as usize,
                        retained: if s.allow_target {
                            s.retained + out
                        } else {
                            s.retained
                        },
                        ..s
                    },
                    out,
                },
            },
        },
    }
}

/// Reads as many structures off the pending bytes as are there in full. The
/// result is the state at rest and all target bytes that the structures
/// gave; after a failure, the failed state and no bytes.
pub open spec fn advance(s: Session) -> (Session, Seq<u8>)
    decreases s.pending.len(),
    when s.pending.len() <= usize::MAX
    via advance_decreases
{
    match progress(s) {
        Progress::Stalled => (s, Seq::<u8>::empty()),
        Progress::Failed(e) => (s.failed(e), Seq::<u8>::empty()),
        Progress::Moved { next, out } => {
            let rest = advance(next);
            if rest.0.phase is Failed {
                (rest.0, Seq::<u8>::empty())
            } else {
                (rest.0, out + rest.1)
            }
        },
    }
}

#[via_fn]
proof fn advance_decreases(s: Session) {
    if progress(s) is Moved {
        lemma_progress_shrinks(s);
    }
}

/// Every structure takes at least one byte, and no more than are pending.
pub proof fn lemma_progress_shrinks(s: Session)
    requires
        s.pending.len() <= usize::MAX,
        progress(s) is Moved,
    ensures
        progress(s)->next.pending.len() < s.pending.len(),
        progress(s)->next.dictionary == s.dictionary,
        !(progress(s)->next.phase is Failed),
{
    reveal(progress);
    if s.phase is AwaitingWindow {
        lemma_window_bounds(s.context(), s.pending);
    }
}

/// What one call of the decoder does.
pub struct Fed {
    /// The state after the call.
    pub state: Session,
    /// The bytes that the call appends to the sink.
    pub emitted: Seq<u8>,
    /// What the call returns.
    pub result: Result<(), Error>,
}

/// Feeds `chunk` to a session. A failed session stays as it is and returns
/// its error again. Otherwise the chunk joins the pending bytes and every
/// structure that is there in full is read. If one of them fails, the
/// session fails and the call emits nothing, not even what earlier windows of
/// the same call gave.
pub open spec fn feed(s: Session, chunk: Seq<u8>) -> Fed {
    match s.phase {
        Phase::Failed(e) => Fed {
            state: s,
            emitted: Seq::<u8>::empty(),
            result: Err(Error { kind: e }),
        },
        _ => {
            let after = advance(s.with_more(chunk));
            match after.0.phase {
                Phase::Failed(e) => Fed {
                    state: after.0,
                    emitted: Seq::<u8>::empty(),
                    result: Err(Error { kind: e }),
                },
                _ => Fed { state: after.0, emitted: after.1, result: Ok(()) },
            }
        },
    }
}

/// Whether a session may be finished: a failed session returns its error;
/// one with bytes pending was cut inside a header or window; any other is
/// complete, also one that was fed nothing at all.
pub open spec fn finish_result(s: Session) -> Result<(), Error> {
    match s.phase {
        Phase::Failed(e) => Err(Error { kind: e }),
        _ => if s.pending.len() == 0 {
            Ok(())
        } else {
            Err(Error { kind: ErrorKind::TruncatedDelta })
        },
    }
}

/// The target that a whole delta gives when it is fed to a session in one
/// call and the session is then finished, or the error of the first of the
/// two calls that fails.
pub open spec fn decode_all(s: Session, delta: Seq<u8>) -> Result<Seq<u8>, Error> {
    let fed = feed(s, delta);
    match fed.result {
        Err(e) => Err(e),
        Ok(_) => match finish_result(fed.state) {
            Err(e) => Err(e),
            Ok(_) => Ok(fed.emitted),
        },
    }
}

/// Feeds the chunks one after the other. The result holds the state after
/// the last call, what the calls emitted together, and the first error.
pub open spec fn feed_each(s: Session, chunks: Seq<Seq<u8>>) -> Fed
    decreases chunks.len(),
{
    if chunks.len() == 0 {
        Fed { state: s, emitted: Seq::<u8>::empty(), result: Ok(()) }
    } else {
        let first = feed(s, chunks[0]);
        if first.result is Err {
            first
        } else {
            let rest = feed_each(first.state, chunks.drop_first());
            Fed { state: rest.state, emitted: first.emitted + rest.emitted, result: rest.result }
        }
    }
}

/// The chunks joined into one byte sequence.
pub open spec fn joined(chunks: Seq<Seq<u8>>) -> Seq<u8>
    decreases chunks.len(),
{
    if chunks.len() == 0 {
        Seq::<u8>::empty()
    } else {
        chunks[0] + joined(chunks.drop_first())
    }
}

/// A valid state stays valid through a structure.
pub proof fn lemma_progress_valid(s: Session)
    requires
        s.valid(),
        progress(s) is Moved,
    ensures
        progress(s)->next.valid(),
        progress(s)->next.total == s.total + progress(s)->out.len(),
        progress(s)->next.dictionary == s.dictionary,
        progress(s)->next.max_file == s.max_file,
        progress(s)->next.max_window == s.max_window,
        progress(s)->next.allow_target == s.allow_target,
        !(progress(s)->next.phase is Failed),
{
    reveal(progress);
    if s.phase is AwaitingWindow {
        let ctx = s.context();
        lemma_window_bounds(ctx, s.pending);
        let w = parse_window(ctx, s.pending)->item;
        let sec = sections_of(s.pending, w, s.interleaved);
        let m0 = Machine::start(s.cache);
        lemma_run_wf(source_of(s, w), w.target_len as int, sec, m0);
    }
}

/// Reading all that is there leaves a valid state at rest.
pub proof fn lemma_advance_wf(s: Session)
    requires
        s.valid(),
    ensures
        advance(s).0.wf(),
        advance(s).0.dictionary == s.dictionary,
        advance(s).0.max_file == s.max_file,
        advance(s).0.max_window == s.max_window,
        advance(s).0.allow_target == s.allow_target,
        !(advance(s).0.phase is Failed) ==> advance(s).0.total == s.total + advance(s).1.len(),
        !(advance(s).0.phase is Failed) ==> advance(s).0.pending.len() <= s.pending.len(),
    decreases s.pending.len(),
{
    match progress(s) {
        Progress::Stalled => {},
        Progress::Failed(e) => {
            let f = s.failed(e);
            assert(f.cache.wf());
            assert(progress(f) is Stalled) by {
                reveal(progress);
            }
        },
        Progress::Moved { next, out } => {
            lemma_progress_shrinks(s);
            lemma_progress_valid(s);
            lemma_advance_wf(next);
        },
    }
}

/// A state at rest does not move.
pub proof fn lemma_advance_at_rest(s: Session)
    requires
        s.wf(),
    ensures
        advance(s) == (s, Seq::<u8>::empty()),
{
}

/// What the pending bytes allowed, they allow with more bytes behind them.
proof fn lemma_progress_stable(s: Session, b: Seq<u8>)
    requires
        s.pending.len() + b.len() <= usize::MAX,
        s.dictionary.len() <= usize::MAX,
    ensures
        match progress(s) {
            Progress::Stalled => true,
            Progress::Failed(e) => progress(s.with_more(b)) == Progress::Failed(e),
            Progress::Moved { next, out } => progress(s.with_more(b)) == (Progress::Moved {
                next: next.with_more(b),
                out,
            }),
        },
{
    reveal(progress);
    let p = s.pending;
    let t = s.with_more(b);
    assert(t.pending.subrange(0, p.len() as int) =~= p);
    assert(extends(t.pending, p));
    match s.phase {
        Phase::Failed(_) => {},
        Phase::AwaitingHeader => {
            if !(parse_header(p) is Incomplete) {
                lemma_header_stable(p, t.pending);
                if parse_header(p) is Done {
                    let used = parse_header(p)->used;
                    assert(t.pending.skip(used as int) =~= p.skip(used as int) + b);
                }
            }
        },
        Phase::AwaitingWindow => {
            let ctx = s.context();
            assert(t.context() == ctx);
            if !(parse_window(ctx, p) is Incomplete) {
                lemma_window_stable(ctx, p, t.pending);
                if parse_window(ctx, p) is Done {
                    lemma_window_bounds(ctx, p);
                    let w = parse_window(ctx, p)->item;
                    let used = parse_window(ctx, p)->used;
                    lemma_extends_subrange(t.pending, p, w.inst.start as int, w.inst.end as int);
                    lemma_extends_subrange(t.pending, p, w.addr.start as int, w.addr.end as int);
                    lemma_extends_subrange(t.pending, p, w.data.start as int, w.data.end as int);
                    assert(sections_of(t.pending, w, t.interleaved) == sections_of(p, w, s.interleaved));
                    assert(source_of(t, w) == source_of(s, w));
                    assert(window_output(t, w) == window_output(s, w));
                    assert(t.pending.skip(used as int) =~= p.skip(used as int) + b);
                }
            }
        },
    }
}

/// Reading what is there and then what comes behind is reading both at once.
pub proof fn lemma_advance_split(s: Session, b: Seq<u8>)
    requires
        !(s.phase is Failed),
        s.pending.len() + b.len() <= usize::MAX,
        s.dictionary.len() <= usize::MAX,
    ensures
        ({
            let one = advance(s);
            let whole = advance(s.with_more(b));
            if one.0.phase is Failed {
                whole.0 == one.0
            } else {
                let two = advance(one.0.with_more(b));
                &&& whole.0 == two.0
                &&& !(whole.0.phase is Failed) ==> whole.1 == one.1 + two.1
            }
        }),
    decreases s.pending.len(),
{
    lemma_progress_stable(s, b);
    let one = advance(s);
    let whole = advance(s.with_more(b));
    match progress(s) {
        Progress::Stalled => {
            let two = advance(one.0.with_more(b));
            assert(one.1 + two.1 =~= two.1);
        },
        Progress::Failed(e) => {
            assert(s.with_more(b).failed(e) == s.failed(e));
        },
        Progress::Moved { next, out } => {
            lemma_progress_shrinks(s);
            lemma_advance_split(next, b);
            let one_n = advance(next);
            let whole_n = advance(next.with_more(b));
            if !(one_n.0.phase is Failed) {
                let two = advance(one_n.0.with_more(b));
                assert(out + (one_n.1 + two.1) =~= (out + one_n.1) + two.1);
            }
        },
    }
}

/// Feeding a delta in two chunks leaves the session in the same state as
/// feeding it in one. Where the one call succeeds, both of the two succeed
/// and together emit what the one emits; where it fails, the first of the
/// two that fails returns the same error.
pub proof fn lemma_two_chunks(s: Session, a: Seq<u8>, b: Seq<u8>)
    requires
        s.valid(),
        s.pending.len() + a.len() + b.len() <= usize::MAX,
    ensures
        feed(feed(s, a).state, b).state == feed(s, a + b).state,
        feed(feed(s, a).state, b).result == feed(s, a + b).result,
        feed(s, a + b).result is Ok ==> feed(s, a).result is Ok && feed(s, a + b).emitted == feed(
            s,
            a,
        ).emitted + feed(feed(s, a).state, b).emitted,
{
    if !(s.phase is Failed) {
        let sa = s.with_more(a);
        assert(sa.with_more(b) == s.with_more(a + b)) by {
            assert((s.pending + a) + b =~= s.pending + (a + b));
        }
        lemma_advance_split(sa, b);
    }
}

/// Chunking invariance: however a delta is cut into chunks, feeding them one
/// by one leaves the session in the same state as feeding the whole delta in
/// one call, so that `finish` then returns the same; and where that one call
/// succeeds, every call on a chunk succeeds and the chunks together emit
/// exactly what it emits. Where the one call fails, it emits nothing, while
/// the calls on the chunks before the failing one have emitted what they
/// completed; the error is the same.
pub proof fn lemma_chunking_invariance(s: Session, chunks: Seq<Seq<u8>>)
    requires
        s.wf(),
        s.pending.len() + joined(chunks).len() <= usize::MAX,
    ensures
        feed_each(s, chunks).state == feed(s, joined(chunks)).state,
        finish_result(feed_each(s, chunks).state) == finish_result(feed(s, joined(chunks)).state),
        feed(s, joined(chunks)).result is Ok ==> feed_each(s, chunks).result is Ok && feed_each(
            s,
            chunks,
        ).emitted == feed(s, joined(chunks)).emitted,
        feed(s, joined(chunks)).result is Err ==> feed_each(s, chunks).result == feed(
            s,
            joined(chunks),
        ).result || chunks.len() == 0,
    decreases chunks.len(),
{
    if chunks.len() == 0 {
        assert(s.with_more(Seq::<u8>::empty()) == s) by {
            assert(s.pending + Seq::<u8>::empty() =~= s.pending);
        }
        lemma_advance_at_rest(s);
    } else {
        let a = chunks[0];
        let rest = chunks.drop_first();
        let b = joined(rest);
        assert(joined(chunks) == a + b);
        lemma_two_chunks(s, a, b);
        let first = feed(s, a);
        if s.phase is Failed {
            lemma_failed_absorbs(s, rest);
        } else {
            lemma_advance_wf(s.with_more(a));
            if first.result is Ok {
                lemma_chunking_invariance(first.state, rest);
                if rest.len() == 0 {
                    assert(first.state.with_more(Seq::<u8>::empty()) == first.state) by {
                        assert(first.state.pending + Seq::<u8>::empty() =~= first.state.pending);
                    }
                    lemma_advance_at_rest(first.state);
                }
                let whole = feed(s, a + b);
                if whole.result is Ok {
                    let tail = feed_each(first.state, rest);
                    assert(feed_each(s, chunks).emitted == first.emitted + tail.emitted);
                }
            } else {
                lemma_failed_absorbs(first.state, rest);
            }
        }
    }
}

/// A failed session returns its error to every call and never changes.
pub proof fn lemma_failed_absorbs(s: Session, chunks: Seq<Seq<u8>>)
    requires
        s.phase is Failed,
    ensures
        forall|c: Seq<u8>| (#[trigger] feed(s, c)).state == s && feed(s, c).result == Err::<(), Error>(
            Error { kind: s.phase->Failed_0 },
        ) && feed(s, c).emitted.len() == 0,
        finish_result(s) == Err::<(), Error>(Error { kind: s.phase->Failed_0 }),
        chunks.len() > 0 ==> feed_each(s, chunks) == feed(s, chunks[0]),
{
}

} // verus!
