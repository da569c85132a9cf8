//! The streaming decoder: a session that takes the delta in chunks of any
//! size and writes the target to a sink as its windows become complete.

use vstd::prelude::*;
use crate::cache::{AddressCache, CacheState};
use crate::checksum::checksum;
pub use crate::error::{Error, ErrorKind};
use crate::format::{
    lemma_window_bounds,
    parse_window,
    read_header,
    read_window,
    Frame,
    WindowContext,
};
use crate::interpreter::execute_window;
pub use crate::output::Output;
use crate::session::{
    advance,
    feed,
    finish_result,
    lemma_advance_wf,
    lemma_progress_shrinks,
    lemma_progress_valid,
    progress,
    sections_of,
    window_output,
    Phase,
    Progress,
    Session,
};

verus! {

/// The most target bytes that a session produces unless told otherwise.
pub const DEFAULT_MAX_TARGET_FILE_SIZE: usize = 67108864;

/// The most target bytes that one window produces unless told otherwise.
pub const DEFAULT_MAX_TARGET_WINDOW_SIZE: usize = 67108864;

/// The largest window limit that a session accepts.
pub const MAX_TARGET_WINDOW_LIMIT: usize = 0x7fff_ffff;

/// Where a decoder stands between two calls.
#[derive(Clone, Copy, Debug, PartialEq, Eq, Structural)]
pub enum DecoderState {
    /// The file header has not been read in full.
    AwaitingHeader,
    /// At a window boundary: nothing is pending.
    AwaitingWindow,
    /// Part of a window is pending.
    ParsingWindowSections,
    /// The session failed.
    Failed,
}

/// The state that a decoder shows for a session.
pub open spec fn state_of(s: Session) -> DecoderState {
    match s.phase {
        Phase::AwaitingHeader => DecoderState::AwaitingHeader,
        Phase::AwaitingWindow => if s.pending.len() == 0 {
            DecoderState::AwaitingWindow
        } else {
            DecoderState::ParsingWindowSections
        },
        Phase::Failed(_) => DecoderState::Failed,
    }
}

/// Whether two sessions have the same dictionary and options.
pub open spec fn same_options(a: Session, b: Session) -> bool {
    &&& a.dictionary == b.dictionary
    &&& a.max_file == b.max_file
    &&& a.max_window == b.max_window
    &&& a.allow_target == b.allow_target
}

/// What one attempt to read a structure came to.
enum Outcome {
    Stalled,
    Failed(ErrorKind),
    Moved(usize),
}

/// A decoding session over a borrowed dictionary.
pub struct Decoder<'d> {
    dictionary: &'d [u8],
    max_file: usize,
    max_window: usize,
    allow_target: bool,
    phase: Phase,
    interleaved: bool,
    checksum: bool,
    pending: Vec<u8>,
    cache: AddressCache,
    total: usize,
    retained: Vec<u8>,
}

impl<'d> View for Decoder<'d> {
    type V = Session;

    closed spec fn view(&self) -> Session {
        Session {
            dictionary: self.dictionary@,
            max_file: self.max_file,
            max_window: self.max_window,
            allow_target: self.allow_target,
            phase: self.phase,
            interleaved: self.interleaved,
            checksum: self.checksum,
            pending: self.pending@,
            cache: self.cache@,
            total: self.total,
            retained: self.retained@,
        }
    }
}

/// The bytes of `buf` from `pos` on, as a vector of their own.
fn tail_of(buf: &Vec<u8>, pos: usize) -> (tail: Vec<u8>)
    requires
        pos <= buf.len(),
    ensures
        tail@ == buf@.skip(pos as int),
{
    let mut tail: Vec<u8> = Vec::new();
    let all = buf.as_slice();
    tail.extend_from_slice(&all[pos..buf.len()]);
    assert(tail@ =~= buf@.skip(pos as int));
    tail
}

impl<'d> Decoder<'d> {
    /// The session with `p` for its pending bytes.
    closed spec fn at(&self, p: Seq<u8>) -> Session {
        Session { pending: p, ..self@ }
    }

    /// A session over `dictionary` with the default limits, in which windows
    /// may take their source from the target decoded so far.
    pub fn new(dictionary: &'d [u8]) -> (decoder: Decoder<'d>)
        ensures
            decoder@ == Session::initial(
                dictionary@,
                DEFAULT_MAX_TARGET_FILE_SIZE,
                DEFAULT_MAX_TARGET_WINDOW_SIZE,
                true,
            ),
            decoder@.wf(),
    {
        let decoder = Decoder {
            dictionary,
            max_file: DEFAULT_MAX_TARGET_FILE_SIZE,
            max_window: DEFAULT_MAX_TARGET_WINDOW_SIZE,
            allow_target: true,
            phase: Phase::AwaitingHeader,
            interleaved: false,
            checksum: false,
            pending: Vec::new(),
            cache: AddressCache::new(),
            total: 0,
            retained: Vec::new(),
        };
        proof {
            reveal(progress);
            assert(dictionary@.len() == dictionary.len());
        }
        decoder
    }

    /// A session over `dictionary` with the given limits. Fails with
    /// `InvalidOption` where the window limit is above
    /// `MAX_TARGET_WINDOW_LIMIT`; any file limit is accepted.
    pub fn with_options(
        dictionary: &'d [u8],
        maximum_target_file_size: usize,
        maximum_target_window_size: usize,
        allow_vcd_target: bool,
    ) -> (r: Result<Decoder<'d>, Error>)
        ensures
            maximum_target_window_size <= MAX_TARGET_WINDOW_LIMIT ==> r is Ok && r->Ok_0@
                == Session::initial(
                dictionary@,
                maximum_target_file_size,
                maximum_target_window_size,
                allow_vcd_target,
            ) && r->Ok_0@.wf(),
            maximum_target_window_size > MAX_TARGET_WINDOW_LIMIT ==> r == Err::<Decoder<'d>, Error>(
                Error { kind: ErrorKind::InvalidOption },
            ),
    {
        let mut decoder = Decoder::new(dictionary);
        match decoder.set_maximum_target_file_size(maximum_target_file_size) {
            Err(e) => {
                return Err(e);
            },
            Ok(_) => {},
        }
        match decoder.set_maximum_target_window_size(maximum_target_window_size) {
            Err(e) => {
                return Err(e);
            },
            Ok(_) => {},
        }
        match decoder.set_allow_vcd_target(allow_vcd_target) {
            Err(e) => {
                return Err(e);
            },
            Ok(_) => {},
        }
        proof {
            reveal(progress);
        }
        Ok(decoder)
    }

    /// Whether nothing has been fed to the session nor produced by it.
    pub closed spec fn fresh(&self) -> bool {
        &&& self@.phase is AwaitingHeader
        &&& self@.pending.len() == 0
        &&& self@.total == 0
        &&& self@.retained.len() == 0
        &&& self@.cache.wf()
        &&& self@.dictionary.len() <= usize::MAX
    }

    /// Sets the file limit of a fresh session. Every limit is accepted.
    fn set_maximum_target_file_size(&mut self, size: usize) -> (r: Result<(), Error>)
        requires
            old(self).fresh(),
        ensures
            r is Ok,
            final(self)@ == (Session { max_file: size, ..old(self)@ }),
            final(self).fresh(),
    {
        self.max_file = size;
        Ok(())
    }

    /// Sets the window limit of a fresh session, unless it is above
    /// `MAX_TARGET_WINDOW_LIMIT`.
    fn set_maximum_target_window_size(&mut self, size: usize) -> (r: Result<(), Error>)
        requires
            old(self).fresh(),
        ensures
            size <= MAX_TARGET_WINDOW_LIMIT ==> r is Ok && final(self)@ == (Session {
                max_window: size,
                ..old(self)@
            }),
            size > MAX_TARGET_WINDOW_LIMIT ==> r == Err::<(), Error>(
                Error { kind: ErrorKind::InvalidOption },
            ) && final(self)@ == old(self)@,
            final(self).fresh(),
    {
        if size > MAX_TARGET_WINDOW_LIMIT {
            return Err(Error { kind: ErrorKind::InvalidOption });
        }
        self.max_window = size;
        Ok(())
    }

    /// Sets whether windows of a fresh session may take their source from
    /// the target decoded so far. This cannot fail.
    fn set_allow_vcd_target(&mut self, allow: bool) -> (r: Result<(), Error>)
        requires
            old(self).fresh(),
        ensures
            r is Ok,
            final(self)@ == (Session { allow_target: allow, ..old(self)@ }),
            final(self).fresh(),
    {
        self.allow_target = allow;
        Ok(())
    }

    /// Where the session stands.
    pub fn state(&self) -> (st: DecoderState)
        ensures
            st == state_of(self@),
    {
        match self.phase {
            Phase::AwaitingHeader => DecoderState::AwaitingHeader,
            Phase::AwaitingWindow => if self.pending.len() == 0 {
                DecoderState::AwaitingWindow
            } else {
                DecoderState::ParsingWindowSections
            },
            Phase::Failed(_) => DecoderState::Failed,
        }
    }

    /// Puts the session into its failed state.
    fn fail(&mut self, e: ErrorKind)
        ensures
            final(self)@ == old(self)@.failed(e),
    {
        self.phase = Phase::Failed(e);
        self.interleaved = false;
        self.checksum = false;
        self.pending = Vec::new();
        self.cache = AddressCache::new();
        self.total = 0;
        self.retained = Vec::new();
    }

    /// Reads the file header at the start of `input`.
    fn read_file_header(&mut self, input: &[u8]) -> (r: Outcome)
        requires
            old(self).at(input@).valid(),
            old(self)@.phase is AwaitingHeader,
        ensures
            final(self)@.pending == old(self)@.pending,
            same_options(final(self)@, old(self)@),
            match r {
                Outcome::Stalled => progress(old(self).at(input@)) is Stalled && final(self)@ == old(
                    self,
                )@,
                Outcome::Failed(e) => progress(old(self).at(input@)) == Progress::Failed(e),
                Outcome::Moved(used) => used <= input.len() && progress(old(self).at(input@))
                    == (Progress::Moved {
                    next: final(self).at(input@.skip(used as int)),
                    out: Seq::<u8>::empty(),
                }),
            },
    {
        proof {
            reveal(progress);
        }
        match read_header(input) {
            Frame::Incomplete => Outcome::Stalled,
            Frame::Bad(e) => Outcome::Failed(e),
            Frame::Done { item, used } => {
                self.phase = Phase::AwaitingWindow;
                self.interleaved = item.interleaved;
                self.checksum = item.checksum;
                Outcome::Moved(used)
            },
        }
    }

    /// Reads the window at the start of `input`, carries it out, and appends
    /// its target bytes to `produced`.
    fn read_next_window(&mut self, input: &[u8], produced: &mut Vec<u8>) -> (r: Outcome)
        requires
            old(self).at(input@).valid(),
            old(self)@.phase is AwaitingWindow,
        ensures
            final(self)@.pending == old(self)@.pending,
            same_options(final(self)@, old(self)@),
            match r {
                Outcome::Stalled => progress(old(self).at(input@)) is Stalled && final(self)@ == old(
                    self,
                )@ && final(produced)@ == old(produced)@,
                Outcome::Failed(e) => progress(old(self).at(input@)) == Progress::Failed(e),
                Outcome::Moved(used) => used <= input.len() && progress(old(self).at(input@))
                    is Moved && progress(old(self).at(input@))->next == final(self).at(
                    input@.skip(used as int),
                ) && final(produced)@ == old(produced)@ + progress(old(self).at(input@))->out,
            },
    {
        let ghost s = self.at(input@);
        let ctx = WindowContext {
            dictionary_len: self.dictionary.len(),
            retained_len: self.retained.len(),
            allow_target: self.allow_target,
            max_window: self.max_window,
            remaining: self.max_file - self.total,
            interleaved: self.interleaved,
            checksum: self.checksum,
        };
        proof {
            reveal(progress);
            assert(self.dictionary@.len() == self.dictionary.len());
            assert(ctx == s.context());
            assert(input@.len() == input.len());
            if parse_window(ctx, input@) is Done {
                lemma_window_bounds(ctx, input@);
            }
        }
        let (w, used) = match read_window(&ctx, input) {
            Frame::Incomplete => {
                return Outcome::Stalled;
            },
            Frame::Bad(e) => {
                return Outcome::Failed(e);
            },
            Frame::Done { item, used } => (item, used),
        };
        let inst = &input[w.inst.start..w.inst.end];
        let addr = &input[w.addr.start..w.addr.end];
        let data = &input[w.data.start..w.data.end];
        let mut fresh: Vec<u8> = Vec::new();
        let ok = if w.source.from_target {
            let all = self.retained.as_slice();
            let source = &all[w.source.start..w.source.start + w.source.len];
            execute_window(
                source,
                w.target_len,
                inst,
                addr,
                data,
                self.interleaved,
                &mut self.cache,
                &mut fresh,
            )
        } else {
            let source = &self.dictionary[w.source.start..w.source.start + w.source.len];
            execute_window(
                source,
                w.target_len,
                inst,
                addr,
                data,
                self.interleaved,
                &mut self.cache,
                &mut fresh,
            )
        };
        if !ok {
            return Outcome::Failed(ErrorKind::FormatError);
        }
        match w.checksum {
            Some(expected) => {
                if checksum(fresh.as_slice()) != expected {
                    return Outcome::Failed(ErrorKind::ChecksumMismatch);
                }
            },
            None => {},
        }
        proof {
            assert(sections_of(s.pending, w, s.interleaved) == (crate::interpreter::Sections {
                inst: inst@,
                addr: addr@,
                data: data@,
                interleaved: s.interleaved,
            }));
            assert(window_output(s, w) == Ok::<(Seq<u8>, CacheState), ErrorKind>((fresh@, self.cache@)));
            lemma_progress_valid(s);
        }
        produced.extend_from_slice(fresh.as_slice());
        if self.allow_target {
            self.retained.extend_from_slice(fresh.as_slice());
        }
        self.total = self.total + fresh.len();
        proof {
            let n = self.at(input@.skip(used as int));
            let m = progress(s)->next;
            assert(n.pending == m.pending);
            assert(n.cache == m.cache);
            assert(n.total == m.total);
            assert(n.retained == m.retained);
            assert(n.phase == m.phase);
            assert(n.interleaved == m.interleaved);
            assert(n.checksum == m.checksum);
            assert(same_options(n, m));
            assert(n == m);
        }
        Outcome::Moved(used)
    }

    /// Feeds the next chunk of the delta to the session and appends to
    /// `output` the target bytes of every window that the chunk completes.
    ///
    /// A chunk may end anywhere, also inside an integer or an instruction:
    /// what no complete structure has used stays pending for the next call.
    /// If any structure is malformed or breaks a limit, the call appends
    /// nothing and the session fails for good.
    pub fn decode<O: Output>(&mut self, data: &[u8], output: &mut O) -> (r: Result<(), Error>)
        requires
            old(self)@.wf(),
            old(self)@.pending.len() + data.len() <= usize::MAX,
        ensures
            final(self)@.wf(),
            final(self)@ == feed(old(self)@, data@).state,
            r == feed(old(self)@, data@).result,
            final(output).contents() == old(output).contents() + feed(old(self)@, data@).emitted,
    {
        match self.phase {
            Phase::Failed(e) => {
                assert(output.contents() + Seq::<u8>::empty() =~= output.contents());
                return Err(Error { kind: e });
            },
            _ => {},
        }
        // the pending bytes leave the session while its structures are read
        let mut buf: Vec<u8> = Vec::new();
        core::mem::swap(&mut buf, &mut self.pending);
        buf.extend_from_slice(data);
        let ghost start = self.at(buf@);
        let ghost before = output.contents();
        proof {
            assert(buf@ =~= old(self)@.pending + data@);
            assert(start == old(self)@.with_more(data@));
            assert(buf@.skip(0) =~= buf@);
            lemma_advance_wf(start);
        }
        let mut produced: Vec<u8> = Vec::new();
        let mut pos: usize = 0;
        loop
            invariant_except_break
                pos <= buf.len(),
                !(self@.phase is Failed),
                self@.pending.len() == 0,
                self.at(buf@.skip(pos as int)).valid(),
                advance(start).0 == advance(self.at(buf@.skip(pos as int))).0,
                !(advance(start).0.phase is Failed) ==> advance(start).1 == produced@ + advance(
                    self.at(buf@.skip(pos as int)),
                ).1,
                output.contents() == before,
            invariant
                start.valid(),
                advance(start).0.wf(),
                start == old(self)@.with_more(data@),
                !(old(self)@.phase is Failed),
            ensures
                pos <= buf.len(),
                !(self@.phase is Failed),
                self@.pending.len() == 0,
                advance(start) == (self.at(buf@.skip(pos as int)), produced@),
                output.contents() == before,
            decreases buf.len() - pos,
        {
            let ghost cur = self.at(buf@.skip(pos as int));
            let ghost had = produced@;
            let all = buf.as_slice();
            let input = &all[pos..buf.len()];
            assert(input@ =~= buf@.skip(pos as int));
            let outcome = match self.phase {
                Phase::AwaitingHeader => self.read_file_header(input),
                _ => self.read_next_window(input, &mut produced),
            };
            match outcome {
                Outcome::Stalled => {
                    proof {
                        assert(self.at(buf@.skip(pos as int)) == cur);
                        assert(produced@ + Seq::<u8>::empty() =~= produced@);
                    }
                    break ;
                },
                Outcome::Failed(e) => {
                    self.fail(e);
                    proof {
                        assert(self@ == cur.failed(e));
                        assert(output.contents() + Seq::<u8>::empty() =~= output.contents());
                    }
                    return Err(Error { kind: e });
                },
                Outcome::Moved(used) => {
                    proof {
                        lemma_progress_shrinks(cur);
                        lemma_progress_valid(cur);
                        let next = progress(cur)->next;
                        let out = progress(cur)->out;
                        assert(input@.skip(used as int) =~= buf@.skip(pos + used));
                        assert(next == self.at(buf@.skip(pos + used)));
                        if !(advance(next).0.phase is Failed) {
                            assert((had + out) + advance(next).1 =~= had + (out + advance(next).1));
                        }
                    }
                    pos = pos + used;
                },
            }
        }
        if pos == 0 {
            proof {
                assert(buf@.skip(0) =~= buf@);
            }
            self.pending = buf;
        } else {
            self.pending = tail_of(&buf, pos);
        }
        proof {
            assert(self@ == advance(start).0);
        }
        if produced.len() > 0 {
            output.reserve(produced.len());
            output.append(produced.as_slice());
        } else {
            proof {
                assert(output.contents() + produced@ =~= output.contents());
            }
        }
        Ok(())
    }

    /// Ends the session. Succeeds where the session has not failed and
    /// nothing is pending, also where it was fed nothing at all; fails with
    /// `TruncatedDelta` where the delta ends inside a header or a window, and
    /// with the session's own error where it had failed before.
    pub fn finish(self) -> (r: Result<(), Error>)
        ensures
            r == finish_result(self@),
    {
        match self.phase {
            Phase::Failed(e) => Err(Error { kind: e }),
            _ => if self.pending.len() == 0 {
                Ok(())
            } else {
                Err(Error { kind: ErrorKind::TruncatedDelta })
            },
        }
    }
}

} // verus!
