//! The binary layout of a delta: the five-byte file header, and for each
//! window its header and its sections.
//!
//! A file header is the three magic bytes, a version byte, and a flags byte
//! (bit 0: interleaved layout, bit 1: windows carry a checksum). A window is
//! a flags byte (1: the source is taken from the dictionary, 2: from the
//! target decoded so far), the source segment's offset and length, the
//! length of the window's target, the checksum in four bytes if the file
//! header announced one, and then the sections, each an integer length and
//! that many bytes: instructions, addresses and data in the standard layout,
//! a single section in the interleaved layout.

use vstd::prelude::*;
use crate::checksum::{from_be32, read_be32};
use crate::error::ErrorKind;
use crate::varint::{
    lemma_pow128_values,
    lemma_scan_bounds,
    lemma_scan_stable,
    parse_varint,
    read_varint,
    Varint,
};

verus! {

pub const MAGIC_0: u8 = 0xD6;

pub const MAGIC_1: u8 = 0xC3;

pub const MAGIC_2: u8 = 0xC4;

pub const FORMAT_VERSION: u8 = 0;

/// The length of the file header.
pub const HEADER_LEN: usize = 5;

/// The window's source segment lies in the dictionary.
pub const SOURCE_DICTIONARY: u8 = 1;

/// The window's source segment lies in the target decoded before the window.
pub const SOURCE_TARGET: u8 = 2;

/// What parsing a structure at the start of a byte sequence gives.
pub enum Frame<T> {
    /// The structure, and the number of bytes that it takes.
    Done { item: T, used: usize },
    /// The bytes end before the structure does; so far nothing is wrong.
    Incomplete,
    /// The bytes cannot begin such a structure, however they go on.
    Bad(ErrorKind),
}

/// What a file header announces.
pub struct HeaderFlags {
    pub interleaved: bool,
    pub checksum: bool,
}

/// A range of positions, `start` included and `end` excluded.
pub struct Span {
    pub start: usize,
    pub end: usize,
}

/// The source segment of a window.
pub struct SourceSegment {
    pub from_target: bool,
    pub start: usize,
    pub len: usize,
}

/// A window whose bytes are all there: its header, and where in the bytes
/// its sections lie. In the interleaved layout the three spans are the same.
pub struct Window {
    pub source: SourceSegment,
    pub target_len: usize,
    pub checksum: Option<u32>,
    pub inst: Span,
    pub addr: Span,
    pub data: Span,
}

/// What a window is checked against when it is parsed.
pub struct WindowContext {
    pub dictionary_len: usize,
    /// How much decoded target is at hand for windows that take their source
    /// from it.
    pub retained_len: usize,
    pub allow_target: bool,
    /// The largest target that one window may have.
    pub max_window: usize,
    /// How much target the session may still produce.
    pub remaining: usize,
    pub interleaved: bool,
    pub checksum: bool,
}

/// The file header at the start of `p`. Each byte is checked as soon as it
/// is there, so a wrong byte is reported even when the header is not yet
/// whole.
pub open spec fn parse_header(p: Seq<u8>) -> Frame<HeaderFlags> {
    if p.len() < 1 {
        Frame::Incomplete
    } else if p[0] != MAGIC_0 {
        Frame::Bad(ErrorKind::FormatError)
    } else if p.len() < 2 {
        Frame::Incomplete
    } else if p[1] != MAGIC_1 {
        Frame::Bad(ErrorKind::FormatError)
    } else if p.len() < 3 {
        Frame::Incomplete
    } else if p[2] != MAGIC_2 {
        Frame::Bad(ErrorKind::FormatError)
    } else if p.len() < 4 {
        Frame::Incomplete
    } else if p[3] != FORMAT_VERSION {
        Frame::Bad(ErrorKind::FormatError)
    } else if p.len() < 5 {
        Frame::Incomplete
    } else if p[4] >= 4 {
        Frame::Bad(ErrorKind::FormatError)
    } else {
        Frame::Done {
            item: HeaderFlags { interleaved: p[4] % 2 == 1, checksum: p[4] / 2 == 1 },
            used: HEADER_LEN,
        }
    }
}

/// The five bytes of a file header.
pub open spec fn header_bytes(flags: HeaderFlags) -> Seq<u8> {
    seq![
        MAGIC_0,
        MAGIC_1,
        MAGIC_2,
        FORMAT_VERSION,
        ((if flags.interleaved { 1int } else { 0 }) + (if flags.checksum { 2int } else { 0 })) as u8,
    ]
}

/// The window flags and source segment at the start of `p`. The segment
/// must lie within the dictionary, or within the retained target where the
/// session allows windows to take their source from it.
pub open spec fn parse_source(ctx: WindowContext, p: Seq<u8>) -> Frame<SourceSegment> {
    if p.len() == 0 {
        Frame::Incomplete
    } else if p[0] != SOURCE_DICTIONARY && p[0] != SOURCE_TARGET {
        Frame::Bad(ErrorKind::FormatError)
    } else if p[0] == SOURCE_TARGET && !ctx.allow_target {
        Frame::Bad(ErrorKind::FormatError)
    } else {
        match parse_varint(p, 1) {
            Varint::Incomplete => Frame::Incomplete,
            Varint::Overlong => Frame::Bad(ErrorKind::FormatError),
            Varint::Value { value: start, next } => match parse_varint(p, next as int) {
                Varint::Incomplete => Frame::Incomplete,
                Varint::Overlong => Frame::Bad(ErrorKind::FormatError),
                Varint::Value { value: len, next: after } => {
                    let total = if p[0] == SOURCE_TARGET {
                        ctx.retained_len
                    } else {
                        ctx.dictionary_len
                    };
                    if start + len > total {
                        Frame::Bad(ErrorKind::FormatError)
                    } else {
                        Frame::Done {
                            item: SourceSegment {
                                from_target: p[0] == SOURCE_TARGET,
                                start: start as usize,
                                len: len as usize,
                            },
                            used: after,
                        }
                    }
                },
            },
        }
    }
}

/// The target length at `pos`. It must respect both limits of the session,
/// and together with the source segment fit in the machine's address range.
pub open spec fn parse_target_len(ctx: WindowContext, p: Seq<u8>, pos: usize, source_len: usize) -> Frame<
    usize,
> {
    match parse_varint(p, pos as int) {
        Varint::Incomplete => Frame::Incomplete,
        Varint::Overlong => Frame::Bad(ErrorKind::FormatError),
        Varint::Value { value, next } => if value > ctx.max_window || value > ctx.remaining {
            Frame::Bad(ErrorKind::ResourceLimitExceeded)
        } else if source_len + value > usize::MAX {
            Frame::Bad(ErrorKind::FormatError)
        } else {
            Frame::Done { item: value as usize, used: next }
        },
    }
}

/// The checksum at `pos`, where the file header announced one.
pub open spec fn parse_checksum(ctx: WindowContext, p: Seq<u8>, pos: usize) -> Frame<Option<u32>> {
    if !ctx.checksum {
        Frame::Done { item: None, used: pos }
    } else if pos + 4 > p.len() {
        Frame::Incomplete
    } else {
        Frame::Done { item: Some(from_be32(p, pos as int)), used: (pos + 4) as usize }
    }
}

/// The section at `pos`: its length, then its bytes. The span is that of
/// the bytes.
pub open spec fn parse_section(p: Seq<u8>, pos: usize) -> Frame<Span> {
    match parse_varint(p, pos as int) {
        Varint::Incomplete => Frame::Incomplete,
        Varint::Overlong => Frame::Bad(ErrorKind::FormatError),
        Varint::Value { value, next } => if value > p.len() - next {
            Frame::Incomplete
        } else {
            Frame::Done {
                item: Span { start: next, end: (next + value) as usize },
                used: (next + value) as usize,
            }
        },
    }
}

/// The sections at `pos`: one in the interleaved layout, else three.
pub open spec fn parse_sections(interleaved: bool, p: Seq<u8>, pos: usize) -> Frame<(Span, Span, Span)> {
    match parse_section(p, pos) {
        Frame::Incomplete => Frame::Incomplete,
        Frame::Bad(e) => Frame::Bad(e),
        Frame::Done { item: inst, used: at1 } => if interleaved {
            Frame::Done { item: (inst, inst, inst), used: at1 }
        } else {
            match parse_section(p, at1) {
                Frame::Incomplete => Frame::Incomplete,
                Frame::Bad(e) => Frame::Bad(e),
                Frame::Done { item: addr, used: at2 } => match parse_section(p, at2) {
                    Frame::Incomplete => Frame::Incomplete,
                    Frame::Bad(e) => Frame::Bad(e),
                    Frame::Done { item: data, used: at3 } => Frame::Done {
                        item: (inst, addr, data),
                        used: at3,
                    },
                },
            }
        },
    }
}

/// The window at the start of `p`.
#[verifier::opaque]
pub open spec fn parse_window(ctx: WindowContext, p: Seq<u8>) -> Frame<Window> {
    match parse_source(ctx, p) {
        Frame::Incomplete => Frame::Incomplete,
        Frame::Bad(e) => Frame::Bad(e),
        Frame::Done { item: source, used: at1 } => match parse_target_len(ctx, p, at1, source.len) {
            Frame::Incomplete => Frame::Incomplete,
            Frame::Bad(e) => Frame::Bad(e),
            Frame::Done { item: target_len, used: at2 } => match parse_checksum(ctx, p, at2) {
                Frame::Incomplete => Frame::Incomplete,
                Frame::Bad(e) => Frame::Bad(e),
                Frame::Done { item: checksum, used: at3 } => match parse_sections(
                    ctx.interleaved,
                    p,
                    at3,
                ) {
                    Frame::Incomplete => Frame::Incomplete,
                    Frame::Bad(e) => Frame::Bad(e),
                    Frame::Done { item: spans, used: at4 } => Frame::Done {
                        item: Window {
                            source,
                            target_len,
                            checksum,
                            inst: spans.0,
                            addr: spans.1,
                            data: spans.2,
                        },
                        used: at4,
                    },
                },
            },
        },
    }
}

/// Whether `t` begins with `s`.
pub open spec fn extends(t: Seq<u8>, s: Seq<u8>) -> bool {
    s.len() <= t.len() && t.subrange(0, s.len() as int) == s
}

pub proof fn lemma_extends_index(t: Seq<u8>, s: Seq<u8>, i: int)
    requires
        extends(t, s),
        0 <= i < s.len(),
    ensures
        t[i] == s[i],
{
    assert(t.subrange(0, s.len() as int)[i] == t[i]);
}

pub proof fn lemma_extends_subrange(t: Seq<u8>, s: Seq<u8>, a: int, b: int)
    requires
        extends(t, s),
        0 <= a <= b <= s.len(),
    ensures
        t.subrange(a, b) == s.subrange(a, b),
{
    assert forall|i: int| 0 <= i < b - a implies t.subrange(a, b)[i] == s.subrange(a, b)[i] by {
        lemma_extends_index(t, s, a + i);
    }
    assert(t.subrange(a, b) =~= s.subrange(a, b));
}

/// A header that was told good or bad stays so when bytes follow.
pub proof fn lemma_header_stable(s: Seq<u8>, t: Seq<u8>)
    requires
        extends(t, s),
        !(parse_header(s) is Incomplete),
    ensures
        parse_header(t) == parse_header(s),
{
    if s.len() >= 1 {
        lemma_extends_index(t, s, 0);
    }
    if s.len() >= 2 {
        lemma_extends_index(t, s, 1);
    }
    if s.len() >= 3 {
        lemma_extends_index(t, s, 2);
    }
    if s.len() >= 4 {
        lemma_extends_index(t, s, 3);
    }
    if s.len() >= 5 {
        lemma_extends_index(t, s, 4);
    }
}

proof fn lemma_varint_stable(s: Seq<u8>, t: Seq<u8>, pos: int)
    requires
        extends(t, s),
        0 <= pos,
        !(parse_varint(s, pos) is Incomplete),
    ensures
        parse_varint(t, pos) == parse_varint(s, pos),
{
    lemma_scan_stable(s, t, pos, 0, 0);
}

proof fn lemma_varint_bounds(s: Seq<u8>, pos: int)
    requires
        0 <= pos,
        s.len() <= usize::MAX,
        parse_varint(s, pos) is Value,
    ensures
        pos < parse_varint(s, pos)->next <= s.len(),
        parse_varint(s, pos)->value <= 0x7fff_ffff_ffff_ffff,
{
    lemma_pow128_values();
    lemma_scan_bounds(s, pos, 0, 0);
}

proof fn lemma_section_stable(s: Seq<u8>, t: Seq<u8>, pos: usize)
    requires
        extends(t, s),
        s.len() <= usize::MAX,
        !(parse_section(s, pos) is Incomplete),
    ensures
        parse_section(t, pos) == parse_section(s, pos),
{
    lemma_varint_stable(s, t, pos as int);
    if parse_varint(s, pos as int) is Value {
        lemma_varint_bounds(s, pos as int);
    }
}

proof fn lemma_section_bounds(s: Seq<u8>, pos: usize)
    requires
        s.len() <= usize::MAX,
        parse_section(s, pos) is Done,
    ensures
        pos < parse_section(s, pos)->item.start <= parse_section(s, pos)->item.end,
        parse_section(s, pos)->item.end == parse_section(s, pos)->used,
        parse_section(s, pos)->used <= s.len(),
{
    lemma_varint_bounds(s, pos as int);
}

/// Where a parsed window's parts lie: the header first, then the sections
/// in order, all within the bytes that the window takes.
pub open spec fn window_laid_out(interleaved: bool, p: Seq<u8>, w: Window, used: usize) -> bool {
    &&& 0 < w.inst.start <= w.inst.end <= w.addr.end <= w.data.end == used <= p.len()
    &&& w.addr.start <= w.addr.end
    &&& w.data.start <= w.data.end
    &&& interleaved ==> w.addr == w.inst && w.data == w.inst
}

pub proof fn lemma_window_bounds(ctx: WindowContext, p: Seq<u8>)
    requires
        p.len() <= usize::MAX,
        parse_window(ctx, p) is Done,
    ensures
        window_laid_out(ctx.interleaved, p, parse_window(ctx, p)->item, parse_window(ctx, p)->used),
        parse_window(ctx, p)->item.target_len <= ctx.max_window,
        parse_window(ctx, p)->item.target_len <= ctx.remaining,
        parse_window(ctx, p)->item.source.len + parse_window(ctx, p)->item.target_len <= usize::MAX,
        parse_window(ctx, p)->item.source.start + parse_window(ctx, p)->item.source.len <= (if parse_window(
            ctx,
            p,
        )->item.source.from_target {
            ctx.retained_len
        } else {
            ctx.dictionary_len
        }),
        parse_window(ctx, p)->item.checksum is Some == ctx.checksum,
{
    reveal(parse_window);
    lemma_varint_bounds(p, 1);
    let n1 = parse_varint(p, 1)->next;
    lemma_varint_bounds(p, n1 as int);
    let at1 = parse_source(ctx, p)->used;
    let src = parse_source(ctx, p)->item;
    lemma_varint_bounds(p, at1 as int);
    let at2 = parse_target_len(ctx, p, at1, src.len)->used;
    let at3 = parse_checksum(ctx, p, at2)->used;
    lemma_section_bounds(p, at3);
    if !ctx.interleaved {
        let q1 = parse_section(p, at3)->used;
        lemma_section_bounds(p, q1);
        let q2 = parse_section(p, q1)->used;
        lemma_section_bounds(p, q2);
    }
}

/// A window that was told good or bad stays so, with the same parts, when
/// bytes follow.
pub proof fn lemma_window_stable(ctx: WindowContext, s: Seq<u8>, t: Seq<u8>)
    requires
        extends(t, s),
        s.len() <= usize::MAX,
        !(parse_window(ctx, s) is Incomplete),
    ensures
        parse_window(ctx, t) == parse_window(ctx, s),
{
    reveal(parse_window);
    lemma_extends_index(t, s, 0);
    if s[0] != SOURCE_DICTIONARY && s[0] != SOURCE_TARGET {
    } else if s[0] == SOURCE_TARGET && !ctx.allow_target {
    } else {
        lemma_varint_stable(s, t, 1);
        if parse_varint(s, 1) is Value {
            lemma_varint_bounds(s, 1);
            let n1 = parse_varint(s, 1)->next;
            lemma_varint_stable(s, t, n1 as int);
            if parse_varint(s, n1 as int) is Value {
                lemma_varint_bounds(s, n1 as int);
                assert(parse_source(ctx, t) == parse_source(ctx, s));
                if parse_source(ctx, s) is Done {
                    let at1 = parse_source(ctx, s)->used;
                    let src = parse_source(ctx, s)->item;
                    lemma_varint_stable(s, t, at1 as int);
                    assert(parse_target_len(ctx, t, at1, src.len) == parse_target_len(
                        ctx,
                        s,
                        at1,
                        src.len,
                    ));
                    if parse_target_len(ctx, s, at1, src.len) is Done {
                        lemma_varint_bounds(s, at1 as int);
                        let at2 = parse_target_len(ctx, s, at1, src.len)->used;
                        if ctx.checksum {
                            assert(at2 + 4 <= s.len());
                            lemma_extends_index(t, s, at2 as int);
                            lemma_extends_index(t, s, at2 + 1);
                            lemma_extends_index(t, s, at2 + 2);
                            lemma_extends_index(t, s, at2 + 3);
                        }
                        assert(parse_checksum(ctx, t, at2) == parse_checksum(ctx, s, at2));
                        let at3 = parse_checksum(ctx, s, at2)->used;
                        lemma_section_stable(s, t, at3);
                        if parse_section(s, at3) is Done && !ctx.interleaved {
                            lemma_section_bounds(s, at3);
                            let q1 = parse_section(s, at3)->used;
                            lemma_section_stable(s, t, q1);
                            if parse_section(s, q1) is Done {
                                lemma_section_bounds(s, q1);
                                let q2 = parse_section(s, q1)->used;
                                lemma_section_stable(s, t, q2);
                            }
                        }
                    }
                }
            }
        }
    }
}

/// Parses the file header at the start of `input`.
pub fn read_header(input: &[u8]) -> (r: Frame<HeaderFlags>)
    ensures
        r == parse_header(input@),
{
    if input.len() < 1 {
        return Frame::Incomplete;
    }
    if input[0] != MAGIC_0 {
        return Frame::Bad(ErrorKind::FormatError);
    }
    if input.len() < 2 {
        return Frame::Incomplete;
    }
    if input[1] != MAGIC_1 {
        return Frame::Bad(ErrorKind::FormatError);
    }
    if input.len() < 3 {
        return Frame::Incomplete;
    }
    if input[2] != MAGIC_2 {
        return Frame::Bad(ErrorKind::FormatError);
    }
    if input.len() < 4 {
        return Frame::Incomplete;
    }
    if input[3] != FORMAT_VERSION {
        return Frame::Bad(ErrorKind::FormatError);
    }
    if input.len() < 5 {
        return Frame::Incomplete;
    }
    if input[4] >= 4 {
        return Frame::Bad(ErrorKind::FormatError);
    }
    Frame::Done {
        item: HeaderFlags { interleaved: input[4] % 2 == 1, checksum: input[4] / 2 == 1 },
        used: HEADER_LEN,
    }
}

/// Appends a file header to `out`.
pub fn write_header(flags: &HeaderFlags, out: &mut Vec<u8>)
    ensures
        final(out)@ == old(out)@ + header_bytes(*flags),
{
    out.push(MAGIC_0);
    out.push(MAGIC_1);
    out.push(MAGIC_2);
    out.push(FORMAT_VERSION);
    let i: u8 = if flags.interleaved { 1 } else { 0 };
    let c: u8 = if flags.checksum { 2 } else { 0 };
    out.push(i + c);
    assert(out@ =~= old(out)@ + header_bytes(*flags));
}

fn read_source(ctx: &WindowContext, input: &[u8]) -> (r: Frame<SourceSegment>)
    ensures
        r == parse_source(*ctx, input@),
{
    if input.len() == 0 {
        return Frame::Incomplete;
    }
    let flags = input[0];
    if flags != SOURCE_DICTIONARY && flags != SOURCE_TARGET {
        return Frame::Bad(ErrorKind::FormatError);
    }
    if flags == SOURCE_TARGET && !ctx.allow_target {
        return Frame::Bad(ErrorKind::FormatError);
    }
    proof {
        assert(input@.len() == input.len());
    }
    match read_varint(input, 1) {
        Varint::Incomplete => Frame::Incomplete,
        Varint::Overlong => Frame::Bad(ErrorKind::FormatError),
        Varint::Value { value: start, next } => match read_varint(input, next) {
            Varint::Incomplete => Frame::Incomplete,
            Varint::Overlong => Frame::Bad(ErrorKind::FormatError),
            Varint::Value { value: len, next: after } => {
                proof {
                    lemma_varint_bounds(input@, 1);
                    lemma_varint_bounds(input@, next as int);
                }
                let total = if flags == SOURCE_TARGET {
                    ctx.retained_len
                } else {
                    ctx.dictionary_len
                };
                if start > total as u64 || len > total as u64 - start {
                    Frame::Bad(ErrorKind::FormatError)
                } else {
                    Frame::Done {
                        item: SourceSegment {
                            from_target: flags == SOURCE_TARGET,
                            start: start as usize,
                            len: len as usize,
                        },
                        used: after,
                    }
                }
            },
        },
    }
}

fn read_target_len(ctx: &WindowContext, input: &[u8], pos: usize, source_len: usize) -> (r: Frame<usize>)
    ensures
        r == parse_target_len(*ctx, input@, pos, source_len),
{
    match read_varint(input, pos) {
        Varint::Incomplete => Frame::Incomplete,
        Varint::Overlong => Frame::Bad(ErrorKind::FormatError),
        Varint::Value { value, next } => {
            if value > ctx.max_window as u64 || value > ctx.remaining as u64 {
                Frame::Bad(ErrorKind::ResourceLimitExceeded)
            } else if value as usize > usize::MAX - source_len {
                Frame::Bad(ErrorKind::FormatError)
            } else {
                Frame::Done { item: value as usize, used: next }
            }
        },
    }
}

fn read_checksum(ctx: &WindowContext, input: &[u8], pos: usize) -> (r: Frame<Option<u32>>)
    ensures
        r == parse_checksum(*ctx, input@, pos),
{
    if !ctx.checksum {
        Frame::Done { item: None, used: pos }
    } else if pos > input.len() || input.len() - pos < 4 {
        Frame::Incomplete
    } else {
        Frame::Done { item: Some(read_be32(input, pos)), used: pos + 4 }
    }
}

fn read_section(input: &[u8], pos: usize) -> (r: Frame<Span>)
    ensures
        r == parse_section(input@, pos),
{
    proof {
        assert(input@.len() == input.len());
    }
    match read_varint(input, pos) {
        Varint::Incomplete => Frame::Incomplete,
        Varint::Overlong => Frame::Bad(ErrorKind::FormatError),
        Varint::Value { value, next } => {
            proof {
                lemma_varint_bounds(input@, pos as int);
            }
            if value > (input.len() - next) as u64 {
                Frame::Incomplete
            } else {
                let end = next + value as usize;
                Frame::Done { item: Span { start: next, end }, used: end }
            }
        },
    }
}

fn read_sections(interleaved: bool, input: &[u8], pos: usize) -> (r: Frame<(Span, Span, Span)>)
    ensures
        r == parse_sections(interleaved, input@, pos),
{
    let (inst, at1) = match read_section(input, pos) {
        Frame::Incomplete => {
            return Frame::Incomplete;
        },
        Frame::Bad(e) => {
            return Frame::Bad(e);
        },
        Frame::Done { item, used } => (item, used),
    };
    if interleaved {
        let addr = Span { start: inst.start, end: inst.end };
        let data = Span { start: inst.start, end: inst.end };
        return Frame::Done { item: (inst, addr, data), used: at1 };
    }
    let (addr, at2) = match read_section(input, at1) {
        Frame::Incomplete => {
            return Frame::Incomplete;
        },
        Frame::Bad(e) => {
            return Frame::Bad(e);
        },
        Frame::Done { item, used } => (item, used),
    };
    match read_section(input, at2) {
        Frame::Incomplete => Frame::Incomplete,
        Frame::Bad(e) => Frame::Bad(e),
        Frame::Done { item: data, used: at3 } => Frame::Done { item: (inst, addr, data), used: at3 },
    }
}

/// Parses the window at the start of `input`.
pub fn read_window(ctx: &WindowContext, input: &[u8]) -> (r: Frame<Window>)
    ensures
        r == parse_window(*ctx, input@),
        r is Done ==> window_laid_out(ctx.interleaved, input@, r->item, r->used),
{
    proof {
        reveal(parse_window);
        assert(input@.len() == input.len());
        if parse_window(*ctx, input@) is Done {
            lemma_window_bounds(*ctx, input@);
        }
    }
    let (source, at1) = match read_source(ctx, input) {
        Frame::Incomplete => {
            return Frame::Incomplete;
        },
        Frame::Bad(e) => {
            return Frame::Bad(e);
        },
        Frame::Done { item, used } => (item, used),
    };
    let (target_len, at2) = match read_target_len(ctx, input, at1, source.len) {
        Frame::Incomplete => {
            return Frame::Incomplete;
        },
        Frame::Bad(e) => {
            return Frame::Bad(e);
        },
        Frame::Done { item, used } => (item, used),
    };
    let (checksum, at3) = match read_checksum(ctx, input, at2) {
        Frame::Incomplete => {
            return Frame::Incomplete;
        },
        Frame::Bad(e) => {
            return Frame::Bad(e);
        },
        Frame::Done { item, used } => (item, used),
    };
    match read_sections(ctx.interleaved, input, at3) {
        Frame::Incomplete => Frame::Incomplete,
        Frame::Bad(e) => Frame::Bad(e),
        Frame::Done { item: spans, used: at4 } => Frame::Done {
            item: Window { source, target_len, checksum, inst: spans.0, addr: spans.1, data: spans.2 },
            used: at4,
        },
    }
}

} // verus!
