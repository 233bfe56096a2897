//! Reading from a byte stream, one read at a time.
//!
//! Nothing here touches a socket. The caller reads, hands over what the read
//! gave (`ReadOutcome`), and is told whether to read again.

use crate::bytes::{be32, from_be32, lemma_be32, low32, push_be32, read_be32};
use crate::text::{decimal, decimal_text, ends_with, lemma_ends_with};
use vstd::prelude::*;
use vstd::slice::*;
use vstd::string::*;

verus! {

/// The kinds of I/O failure that the decisions tell apart.
#[derive(Debug, Clone, Copy, PartialEq, Eq, Structural)]
pub enum IoKind {
    WouldBlock,
    TimedOut,
    Interrupted,
    UnexpectedEof,
    Other,
}

/// A failed read: its kind, and the text that the system gives for it.
#[derive(Debug, PartialEq, Eq)]
pub struct IoFailure {
    pub kind: IoKind,
    pub text: String,
}

/// What one read of the stream gave. No bytes at all mean that the other side
/// has ended the connection.
#[derive(Debug)]
pub enum ReadOutcome {
    Data(Vec<u8>),
    Failed(IoFailure),
}

/// Why reading failed.
#[derive(Debug, PartialEq, Eq)]
pub enum ReadError {
    /// The connection ended after `read` of `len` bytes.
    Truncated { read: usize, len: usize },
    /// A read failed.
    Io(IoFailure),
    /// A read failed inside the body of a frame.
    Body(IoFailure),
    /// The connection ended inside the body of a frame.
    BodyEnded,
    /// The connection ended where a frame was due.
    Ended,
}

/// The text of a `ReadError`, with the cause that the system gave.
pub open spec fn read_error_text(e: ReadError) -> Seq<char> {
    match e {
        ReadError::Truncated { read, len } => "conexão encerrada no meio de um frame ("@ + decimal(
            read as nat,
        ) + "/"@ + decimal(len as nat) + " bytes)"@,
        ReadError::Io(cause) => "falha ao ler evento do socket: "@ + cause.text@,
        ReadError::Body(cause) => "conexão encerrada no meio de um frame: "@ + cause.text@,
        ReadError::BodyEnded =>
            "conexão encerrada no meio de um frame: failed to fill whole buffer"@,
        ReadError::Ended => "conexão encerrada antes do fim do handshake"@,
    }
}

impl ReadError {
    /// The message shown to the user.
    pub fn message(&self) -> (r: String)
        ensures
            r@ == read_error_text(*self),
    {
        match self {
            ReadError::Truncated { read, len } => {
                let mut out = "conexão encerrada no meio de um frame (".to_string();
                out.append(decimal_text(*read as u64).as_str());
                out.append("/");
                out.append(decimal_text(*len as u64).as_str());
                out.append(" bytes)");
                out
            },
            ReadError::Io(cause) => {
                let mut out = "falha ao ler evento do socket: ".to_string();
                out.append(cause.text.as_str());
                out
            },
            ReadError::Body(cause) => {
                let mut out = "conexão encerrada no meio de um frame: ".to_string();
                out.append(cause.text.as_str());
                out
            },
            ReadError::BodyEnded =>
                "conexão encerrada no meio de um frame: failed to fill whole buffer".to_string(),
            ReadError::Ended => "conexão encerrada antes do fim do handshake".to_string(),
        }
    }
}

/// Whether a failure is only that nothing arrived in time.
pub open spec fn timed_out(e: ReadError) -> bool {
    match e {
        ReadError::Io(cause) => cause.kind == IoKind::WouldBlock || cause.kind
            == IoKind::TimedOut,
        ReadError::Body(cause) => cause.kind == IoKind::WouldBlock || cause.kind
            == IoKind::TimedOut,
        _ => false,
    }
}

/// Whether the read that failed ran into the read timeout of the socket.
pub fn is_read_timeout(e: &ReadError) -> (r: bool)
    ensures
        r == timed_out(*e),
{
    match e {
        ReadError::Io(cause) => cause.kind == IoKind::WouldBlock || cause.kind
            == IoKind::TimedOut,
        ReadError::Body(cause) => cause.kind == IoKind::WouldBlock || cause.kind
            == IoKind::TimedOut,
        _ => false,
    }
}

/// A read of exactly `len` bytes that is under way.
pub struct ExactReader {
    got: Vec<u8>,
    len: usize,
}

/// How a read of a fixed number of bytes stands.
#[derive(Debug, Clone, Copy, PartialEq, Eq, Structural)]
pub enum ReadStep {
    /// Read again.
    More,
    /// All bytes are there.
    Done,
    /// The stream ended before the first byte.
    Closed,
}

/// What is to be done after a read, where `got` of `len` bytes were there
/// before it.
pub open spec fn exact_step(got: Seq<u8>, len: nat, outcome: ReadOutcome) -> Result<
    ReadStep,
    ReadError,
> {
    match outcome {
        ReadOutcome::Data(data) => if data@.len() > 0 {
            if got.len() + data@.len() == len {
                Ok(ReadStep::Done)
            } else {
                Ok(ReadStep::More)
            }
        } else if got.len() == 0 {
            Ok(ReadStep::Closed)
        } else {
            Err(ReadError::Truncated { read: got.len() as usize, len: len as usize })
        },
        ReadOutcome::Failed(failure) => if failure.kind == IoKind::Interrupted {
            Ok(ReadStep::More)
        } else {
            Err(ReadError::Io(failure))
        },
    }
}

/// The bytes that a read added.
pub open spec fn outcome_bytes(outcome: ReadOutcome) -> Seq<u8> {
    match outcome {
        ReadOutcome::Data(data) => data@,
        ReadOutcome::Failed(_) => Seq::empty(),
    }
}

impl ExactReader {
    /// The bytes read so far.
    pub closed spec fn received(&self) -> Seq<u8> {
        self.got@
    }

    /// The number of bytes to read in all.
    pub closed spec fn total(&self) -> nat {
        self.len as nat
    }

    /// No more bytes than wanted are there.
    pub closed spec fn wf(&self) -> bool {
        self.got@.len() <= self.len
    }

    /// Starts a read of `len` bytes.
    pub fn new(len: usize) -> (r: ExactReader)
        ensures
            r.wf(),
            r.received() == Seq::<u8>::empty(),
            r.total() == len,
    {
        ExactReader { got: Vec::new(), len }
    }

    /// The number of bytes still to come: what the next read may give at most.
    pub fn remaining(&self) -> (r: usize)
        requires
            self.wf(),
        ensures
            r == self.total() - self.received().len(),
    {
        self.len - self.got.len()
    }

    /// The bytes read.
    pub fn into_bytes(self) -> (r: Vec<u8>)
        ensures
            r@ == self.received(),
    {
        self.got
    }
}

/// Takes the outcome of one read into account. The end of the stream before
/// the first byte is a normal end; later it is an error. An interrupted read is
/// repeated.
pub fn read_exact_or_eof(reader: &mut ExactReader, outcome: ReadOutcome) -> (r: Result<
    ReadStep,
    ReadError,
>)
    requires
        old(reader).wf(),
        old(reader).received().len() < old(reader).total(),
        outcome_bytes(outcome).len() <= old(reader).total() - old(reader).received().len(),
    ensures
        r == exact_step(old(reader).received(), old(reader).total(), outcome),
        final(reader).wf(),
        final(reader).total() == old(reader).total(),
        final(reader).received() == old(reader).received() + outcome_bytes(outcome),
{
    match outcome {
        ReadOutcome::Data(data) => {
            if data.len() > 0 {
                let mut data = data;
                reader.got.append(&mut data);
                if reader.got.len() == reader.len {
                    Ok(ReadStep::Done)
                } else {
                    Ok(ReadStep::More)
                }
            } else {
                assert(reader.got@ + data@ =~= reader.got@);
                if reader.got.len() == 0 {
                    Ok(ReadStep::Closed)
                } else {
                    Err(ReadError::Truncated { read: reader.got.len(), len: reader.len })
                }
            }
        },
        ReadOutcome::Failed(failure) => {
            assert(reader.got@ + Seq::<u8>::empty() =~= reader.got@);
            if failure.kind == IoKind::Interrupted {
                Ok(ReadStep::More)
            } else {
                Err(ReadError::Io(failure))
            }
        },
    }
}

/// How the reading of a frame stands.
#[derive(Debug)]
pub enum FrameStep {
    /// Read again.
    More,
    /// A frame with this body is complete.
    Frame(Vec<u8>),
    /// The stream ended before the first byte of a frame.
    Closed,
}

/// The number of bytes in a length prefix.
pub const PREFIX_LEN: usize = 4;

/// A frame: the length of the body in four bytes, then the body.
pub open spec fn framed(body: Seq<u8>) -> Seq<u8> {
    be32(low32(body.len())) + body
}

/// The bytes hold the start of a frame and something of it is missing.
pub open spec fn frame_pending(bytes: Seq<u8>) -> bool {
    bytes.len() < PREFIX_LEN || bytes.len() < PREFIX_LEN + from_be32(bytes.take(4))
}

/// How many bytes the next read may give at most: the rest of the length
/// prefix, then the rest of the body.
pub open spec fn frame_wants(bytes: Seq<u8>) -> int {
    if bytes.len() < PREFIX_LEN {
        PREFIX_LEN - bytes.len()
    } else {
        PREFIX_LEN + from_be32(bytes.take(4)) - bytes.len()
    }
}

/// Why a frame cannot be completed, where `bytes` of it were there and no more
/// came.
pub open spec fn frame_cut(bytes: Seq<u8>) -> ReadError {
    if bytes.len() < PREFIX_LEN {
        ReadError::Truncated { read: bytes.len() as usize, len: PREFIX_LEN }
    } else {
        ReadError::BodyEnded
    }
}

/// What one read means for the frame that is being read.
pub enum FrameEvent {
    More,
    Frame(Seq<u8>),
    Closed,
    Failed(ReadError),
}

/// What a read means, where `before` of the frame were there. The end of the
/// stream is a normal end only where nothing of the frame has come yet.
pub open spec fn frame_event(before: Seq<u8>, outcome: ReadOutcome) -> FrameEvent {
    match outcome {
        ReadOutcome::Data(data) => if data@.len() == 0 {
            if before.len() == 0 {
                FrameEvent::Closed
            } else {
                FrameEvent::Failed(frame_cut(before))
            }
        } else if frame_pending(before + data@) {
            FrameEvent::More
        } else {
            FrameEvent::Frame((before + data@).skip(4))
        },
        ReadOutcome::Failed(failure) => if failure.kind == IoKind::Interrupted {
            FrameEvent::More
        } else if before.len() < PREFIX_LEN {
            FrameEvent::Failed(ReadError::Io(failure))
        } else {
            FrameEvent::Failed(ReadError::Body(failure))
        },
    }
}

/// What of a frame is there after a read: the bytes so far, or nothing where
/// the frame was completed.
pub open spec fn frame_left(before: Seq<u8>, outcome: ReadOutcome) -> Seq<u8> {
    if frame_event(before, outcome) is Frame {
        Seq::empty()
    } else {
        before + outcome_bytes(outcome)
    }
}

/// How the bytes of a frame are cut into reads does not matter: two reads that
/// follow each other mean what one read of all their bytes means.
pub proof fn law_cutting_of_reads_does_not_matter(
    before: Seq<u8>,
    first: ReadOutcome,
    second: ReadOutcome,
    both: ReadOutcome,
)
    requires
        first is Data,
        second is Data,
        both is Data,
        outcome_bytes(first).len() > 0,
        outcome_bytes(second).len() > 0,
        outcome_bytes(both) == outcome_bytes(first) + outcome_bytes(second),
        frame_event(before, first) is More,
    ensures
        frame_event(frame_left(before, first), second) == frame_event(before, both),
        frame_left(frame_left(before, first), second) == frame_left(before, both),
{
    assert(before + outcome_bytes(first) + outcome_bytes(second) =~= before + outcome_bytes(both));
}

/// The event that a step reports.
pub open spec fn frame_step(r: Result<FrameStep, ReadError>) -> FrameEvent {
    match r {
        Ok(FrameStep::More) => FrameEvent::More,
        Ok(FrameStep::Frame(body)) => FrameEvent::Frame(body@),
        Ok(FrameStep::Closed) => FrameEvent::Closed,
        Err(e) => FrameEvent::Failed(e),
    }
}

/// The reading of a frame that is under way.
pub struct FrameReader {
    prefix: ExactReader,
    body: Option<ExactReader>,
}

impl FrameReader {
    /// The bytes of the frame read so far, length prefix and body.
    pub closed spec fn received(&self) -> Seq<u8> {
        match self.body {
            Some(body) => self.prefix.received() + body.received(),
            None => self.prefix.received(),
        }
    }

    /// Something of the frame is missing.
    pub closed spec fn wf(&self) -> bool {
        &&& self.prefix.wf()
        &&& self.prefix.total() == PREFIX_LEN
        &&& match self.body {
            Some(body) => {
                &&& body.wf()
                &&& self.prefix.received().len() == PREFIX_LEN
                &&& body.total() == from_be32(self.prefix.received())
                &&& body.received().len() < body.total()
            },
            None => self.prefix.received().len() < PREFIX_LEN,
        }
    }

    /// A well-formed reader waits for something.
    pub proof fn lemma_pending(&self)
        requires
            self.wf(),
        ensures
            frame_pending(self.received()),
            frame_wants(self.received()) > 0,
    {
        if let Some(body) = self.body {
            assert(self.received().take(4) =~= self.prefix.received());
        }
    }

    /// Starts to read a frame.
    pub fn new() -> (r: FrameReader)
        ensures
            r.wf(),
            r.received() == Seq::<u8>::empty(),
    {
        FrameReader { prefix: ExactReader::new(PREFIX_LEN), body: None }
    }

    /// The number of bytes that the next read may give at most.
    pub fn wants(&self) -> (r: usize)
        requires
            self.wf(),
        ensures
            r == frame_wants(self.received()),
    {
        match &self.body {
            Some(body) => {
                assert(self.received().take(4) =~= self.prefix.received());
                body.remaining()
            },
            None => self.prefix.remaining(),
        }
    }
}

/// Takes the outcome of one read into account. A complete frame is handed out,
/// and the reader is ready for the next one. The end of the stream is a normal
/// end only where no byte of the frame has come yet.
pub fn read_frame_or_eof(reader: &mut FrameReader, outcome: ReadOutcome) -> (r: Result<
    FrameStep,
    ReadError,
>)
    requires
        old(reader).wf(),
        outcome_bytes(outcome).len() <= frame_wants(old(reader).received()),
    ensures
        final(reader).wf(),
        frame_step(r) == frame_event(old(reader).received(), outcome),
        final(reader).received() == frame_left(old(reader).received(), outcome),
{
    let ghost before = reader.received();
    let ghost bytes = before + outcome_bytes(outcome);
    let mut body: Option<ExactReader> = None;
    std::mem::swap(&mut reader.body, &mut body);
    match body {
        None => {
            assert(before == reader.prefix.received());
            let step = read_exact_or_eof(&mut reader.prefix, outcome);
            match step {
                Ok(ReadStep::More) => {
                    assert(bytes =~= reader.received());
                    assert(outcome_bytes(outcome).len() == 0 ==> bytes =~= before);
                    Ok(FrameStep::More)
                },
                Ok(ReadStep::Closed) => {
                    assert(bytes =~= before);
                    Ok(FrameStep::Closed)
                },
                Err(e) => {
                    assert(bytes =~= before);
                    Err(e)
                },
                Ok(ReadStep::Done) => {
                    let mut prefix = ExactReader::new(PREFIX_LEN);
                    std::mem::swap(&mut reader.prefix, &mut prefix);
                    assert(bytes.take(4) =~= bytes);
                    assert(prefix.received() == bytes);
                    let len: usize = announced(&prefix);
                    if len == 0 {
                        assert(bytes.skip(4) =~= Seq::<u8>::empty());
                        Ok(FrameStep::Frame(Vec::new()))
                    } else {
                        reader.prefix = prefix;
                        reader.body = Some(ExactReader::new(len));
                        assert(reader.received() =~= bytes);
                        Ok(FrameStep::More)
                    }
                },
            }
        },
        Some(mut body) => {
            let ghost head = reader.prefix.received();
            let ghost tail = body.received();
            assert(before == head + tail);
            assert(before.take(4) =~= head);
            assert(bytes.take(4) =~= head);
            let step = read_exact_or_eof(&mut body, outcome);
            assert(head + body.received() =~= bytes);
            match step {
                Ok(ReadStep::More) => {
                    assert(outcome_bytes(outcome).len() == 0 ==> bytes =~= before);
                    reader.body = Some(body);
                    Ok(FrameStep::More)
                },
                Ok(ReadStep::Done) => {
                    assert(bytes.skip(4) =~= body.received());
                    reader.prefix = ExactReader::new(PREFIX_LEN);
                    Ok(FrameStep::Frame(body.into_bytes()))
                },
                Ok(ReadStep::Closed) => {
                    assert(bytes =~= before);
                    reader.body = Some(body);
                    Err(ReadError::BodyEnded)
                },
                Err(ReadError::Io(failure)) => {
                    assert(bytes =~= before);
                    reader.body = Some(body);
                    Err(ReadError::Body(failure))
                },
                Err(_) => {
                    assert(bytes =~= before);
                    reader.body = Some(body);
                    Err(ReadError::BodyEnded)
                },
            }
        },
    }
}

/// The length that a complete prefix announces.
fn announced(prefix: &ExactReader) -> (r: usize)
    requires
        prefix.received().len() == PREFIX_LEN,
    ensures
        r == from_be32(prefix.received()),
{
    let got = &prefix.got;
    assert(got@ =~= seq![got@[0], got@[1], got@[2], got@[3]]);
    read_be32(got[0], got[1], got[2], got[3]) as usize
}

/// Like `read_frame_or_eof`, where a frame is due: the end of the stream is
/// then always an error.
pub fn read_frame(reader: &mut FrameReader, outcome: ReadOutcome) -> (r: Result<
    Option<Vec<u8>>,
    ReadError,
>)
    requires
        old(reader).wf(),
        outcome_bytes(outcome).len() <= frame_wants(old(reader).received()),
    ensures
        final(reader).wf(),
        final(reader).received() == frame_left(old(reader).received(), outcome),
        match frame_event(old(reader).received(), outcome) {
            FrameEvent::More => r matches Ok(None),
            FrameEvent::Frame(body) => r matches Ok(Some(b)) && b@ == body,
            FrameEvent::Closed => r == Err::<Option<Vec<u8>>, ReadError>(ReadError::Ended),
            FrameEvent::Failed(e) => r == Err::<Option<Vec<u8>>, ReadError>(e),
        },
{
    match read_frame_or_eof(reader, outcome) {
        Ok(FrameStep::More) => Ok(None),
        Ok(FrameStep::Frame(body)) => Ok(Some(body)),
        Ok(FrameStep::Closed) => Err(ReadError::Ended),
        Err(e) => Err(e),
    }
}

/// Appends a frame to what is to be sent. Of the length, the low 32 bits are
/// written.
pub fn write_frame(out: &mut Vec<u8>, data: &[u8])
    ensures
        final(out)@ == old(out)@ + framed(data@),
{
    push_be32(out, (data.len() as u64 % 4294967296) as u32);
    out.extend_from_slice(data);
    assert(out@ =~= old(out)@ + framed(data@));
}

/// The first frame at the start of a run of bytes, as its body and the bytes
/// after it: none where there are no bytes, an error where it is cut off.
pub open spec fn first_frame(bytes: Seq<u8>) -> Result<Option<(Seq<u8>, Seq<u8>)>, ReadError> {
    if bytes.len() == 0 {
        Ok(None)
    } else if frame_pending(bytes) {
        Err(frame_cut(bytes))
    } else {
        let end = PREFIX_LEN + from_be32(bytes.take(4));
        Ok(Some((bytes.subrange(4, end), bytes.skip(end))))
    }
}

/// A frame is read back from the start of whatever it is followed by, where
/// the length of its body fits in four bytes.
pub proof fn law_frame_delimits_body(body: Seq<u8>, rest: Seq<u8>)
    requires
        body.len() <= u32::MAX,
    ensures
        first_frame(framed(body) + rest) == Ok::<Option<(Seq<u8>, Seq<u8>)>, ReadError>(
            Some((body, rest)),
        ),
{
    let bytes = framed(body) + rest;
    lemma_be32(low32(body.len()));
    assert(bytes.take(4) =~= be32(low32(body.len())));
    let end = PREFIX_LEN + from_be32(bytes.take(4));
    assert(bytes.subrange(4, end) =~= body);
    assert(bytes.skip(end) =~= rest);
}

/// A stream whose bytes are all in memory.
pub struct ByteReader {
    data: Vec<u8>,
    pos: usize,
}

impl ByteReader {
    /// The bytes not read yet.
    pub closed spec fn rest(&self) -> Seq<u8> {
        self.data@.skip(self.pos as int)
    }

    /// The position lies within the bytes.
    pub closed spec fn wf(&self) -> bool {
        self.pos <= self.data@.len()
    }

    /// A stream that gives the bytes of `data`, then ends.
    pub fn new(data: Vec<u8>) -> (r: ByteReader)
        ensures
            r.wf(),
            r.rest() == data@,
    {
        let r = ByteReader { data, pos: 0 };
        assert(r.rest() =~= data@);
        r
    }

    /// Reads up to `max` bytes.
    pub fn read(&mut self, max: usize) -> (r: Vec<u8>)
        requires
            old(self).wf(),
        ensures
            final(self).wf(),
            r@.len() == if max <= old(self).rest().len() {
                max as int
            } else {
                old(self).rest().len() as int
            },
            r@ == old(self).rest().take(r@.len() as int),
            final(self).rest() == old(self).rest().skip(r@.len() as int),
    {
        let left: usize = self.data.len() - self.pos;
        let n: usize = if max <= left {
            max
        } else {
            left
        };
        let out: Vec<u8> = slice_to_vec(
            slice_subrange(self.data.as_slice(), self.pos, self.pos + n),
        );
        assert(out@ =~= self.rest().take(n as int));
        assert(self.rest().skip(n as int) =~= self.data@.skip(self.pos + n));
        self.pos = self.pos + n;
        out
    }

    /// Reads exactly `len` bytes; `None` at the end of the stream.
    pub fn read_exact(&mut self, len: usize) -> (r: Result<Option<Vec<u8>>, ReadError>)
        requires
            old(self).wf(),
            len > 0,
        ensures
            final(self).wf(),
            match r {
                Ok(Some(bytes)) => {
                    &&& len <= old(self).rest().len()
                    &&& bytes@ == old(self).rest().take(len as int)
                    &&& final(self).rest() == old(self).rest().skip(len as int)
                },
                Ok(None) => old(self).rest().len() == 0 && final(self).rest() == old(self).rest(),
                Err(e) => {
                    &&& 0 < old(self).rest().len() < len
                    &&& e == (ReadError::Truncated { read: old(self).rest().len() as usize, len })
                    &&& final(self).rest().len() == 0
                },
            },
    {
        let ghost start = self.rest();
        assert(self.data.len() <= usize::MAX);
        let mut reader = ExactReader::new(len);
        assert(start.take(0) =~= Seq::<u8>::empty());
        assert(start.skip(0) =~= start);
        loop
            invariant
                self.wf(),
                reader.wf(),
                reader.total() == len,
                reader.received().len() < len,
                reader.received().len() <= start.len(),
                reader.received() == start.take(reader.received().len() as int),
                self.rest() == start.skip(reader.received().len() as int),
                start == old(self).rest(),
                start.len() <= usize::MAX,
            decreases start.len() - reader.received().len(),
        {
            let max: usize = reader.remaining();
            let ghost before = reader.received();
            let data: Vec<u8> = self.read(max);
            let ghost added = data@;
            assert(before + added =~= start.take((before + added).len() as int));
            assert(self.rest() =~= start.skip((before + added).len() as int));
            match read_exact_or_eof(&mut reader, ReadOutcome::Data(data)) {
                Ok(ReadStep::More) => {},
                Ok(ReadStep::Done) => {
                    return Ok(Some(reader.into_bytes()));
                },
                Ok(ReadStep::Closed) => {
                    assert(self.rest() =~= start);
                    return Ok(None);
                },
                Err(e) => {
                    return Err(e);
                },
            }
        }
    }

    /// Reads the next frame; `None` at the end of the stream.
    pub fn read_frame_or_eof(&mut self) -> (r: Result<Option<Vec<u8>>, ReadError>)
        requires
            old(self).wf(),
        ensures
            final(self).wf(),
            match r {
                Ok(Some(body)) => first_frame(old(self).rest()) == Ok::<
                    Option<(Seq<u8>, Seq<u8>)>,
                    ReadError,
                >(Some((body@, final(self).rest()))),
                Ok(None) => {
                    &&& first_frame(old(self).rest()) == Ok::<
                        Option<(Seq<u8>, Seq<u8>)>,
                        ReadError,
                    >(None)
                    &&& final(self).rest() == old(self).rest()
                },
                Err(e) => {
                    &&& first_frame(old(self).rest()) == Err::<
                        Option<(Seq<u8>, Seq<u8>)>,
                        ReadError,
                    >(e)
                    &&& final(self).rest() == Seq::<u8>::empty()
                },
            },
    {
        let ghost start = self.rest();
        let mut reader = FrameReader::new();
        assert(start.take(0) =~= Seq::<u8>::empty());
        assert(start.skip(0) =~= start);
        loop
            invariant
                self.wf(),
                reader.wf(),
                start == old(self).rest(),
                reader.received().len() <= start.len(),
                reader.received() == start.take(reader.received().len() as int),
                self.rest() == start.skip(reader.received().len() as int),
            decreases start.len() - reader.received().len(),
        {
            let max: usize = reader.wants();
            let ghost before = reader.received();
            proof {
                reader.lemma_pending();
            }
            let data: Vec<u8> = self.read(max);
            let ghost bytes = before + data@;
            assert(bytes =~= start.take(bytes.len() as int));
            assert(self.rest() =~= start.skip(bytes.len() as int));
            assert(bytes.len() >= 4 ==> start.take(4) =~= bytes.take(4));
            assert(before.len() >= 4 ==> start.take(4) =~= before.take(4));
            match read_frame_or_eof(&mut reader, ReadOutcome::Data(data)) {
                Ok(FrameStep::More) => {},
                Ok(FrameStep::Frame(body)) => {
                    assert(body@ =~= start.subrange(4, 4 + from_be32(start.take(4))));
                    return Ok(Some(body));
                },
                Ok(FrameStep::Closed) => {
                    assert(start.len() == 0);
                    assert(self.rest() =~= start);
                    return Ok(None);
                },
                Err(e) => {
                    assert(before =~= start);
                    assert(self.rest() =~= Seq::<u8>::empty());
                    return Err(e);
                },
            }
        }
    }
}

/// A frame that is cut off is refused: inside its length as so many bytes of
/// four, behind that as a body that ended.
pub proof fn law_cut_frame_is_refused(body: Seq<u8>, n: int)
    requires
        body.len() <= u32::MAX,
        0 < n < 4 + body.len(),
    ensures
        framed(body).len() == 4 + body.len(),
        first_frame(framed(body).take(n)) == Err::<Option<(Seq<u8>, Seq<u8>)>, ReadError>(
            if n < 4 {
                ReadError::Truncated { read: n as usize, len: 4 }
            } else {
                ReadError::BodyEnded
            },
        ),
{
    lemma_be32(low32(body.len()));
    let bytes = framed(body).take(n);
    if n >= 4 {
        assert(bytes.take(4) =~= be32(low32(body.len())));
    }
}

/// Reading a frame of which `n` bytes are there: more of its bytes are taken in,
/// its last ones complete it, the end of the stream is an end only before its
/// first byte, an interrupted read is repeated, and any other failure is
/// reported, told apart by whether the length was complete.
pub proof fn law_reading_a_frame(body: Seq<u8>, n: int, outcome: ReadOutcome)
    requires
        body.len() <= u32::MAX,
        0 <= n < 4 + body.len(),
        outcome_bytes(outcome).len() <= 4 + body.len() - n,
        outcome_bytes(outcome) == framed(body).subrange(
            n,
            n + outcome_bytes(outcome).len() as int,
        ),
    ensures
        ({
            let event = frame_event(framed(body).take(n), outcome);
            let left = frame_left(framed(body).take(n), outcome);
            match outcome {
                ReadOutcome::Data(data) => if data@.len() == 0 {
                    &&& left == framed(body).take(n)
                    &&& event == if n == 0 {
                        FrameEvent::Closed
                    } else if n < 4 {
                        FrameEvent::Failed(ReadError::Truncated { read: n as usize, len: 4 })
                    } else {
                        FrameEvent::Failed(ReadError::BodyEnded)
                    }
                } else if n + data@.len() < 4 + body.len() {
                    event is More && left == framed(body).take(n + data@.len())
                } else {
                    event == FrameEvent::Frame(body) && left.len() == 0
                },
                ReadOutcome::Failed(failure) => {
                    &&& left == framed(body).take(n)
                    &&& event == if failure.kind == IoKind::Interrupted {
                        FrameEvent::More
                    } else if n < 4 {
                        FrameEvent::Failed(ReadError::Io(failure))
                    } else {
                        FrameEvent::Failed(ReadError::Body(failure))
                    }
                },
            }
        }),
{
    let whole = framed(body);
    lemma_be32(low32(body.len()));
    let before = whole.take(n);
    let data = outcome_bytes(outcome);
    let bytes = before + data;
    assert(bytes =~= whole.take(n + data.len()));
    if bytes.len() >= 4 {
        assert(bytes.take(4) =~= be32(low32(body.len())));
    }
    if data.len() == 0 {
        assert(bytes =~= before);
    } else if n + data.len() == 4 + body.len() {
        assert(bytes.skip(4) =~= body);
    }
}

/// Reading `len` bytes of which `got` are there: bytes are taken in until all
/// are there, the end of the stream is an end only before the first of them, an
/// interrupted read is repeated, and any other failure is reported.
pub proof fn law_reading_a_number_of_bytes(got: Seq<u8>, len: nat, outcome: ReadOutcome)
    ensures
        match outcome {
            ReadOutcome::Data(data) => exact_step(got, len, outcome) == if data@.len() == 0 && got.len()
                == 0 {
                Ok::<ReadStep, ReadError>(ReadStep::Closed)
            } else if data@.len() == 0 {
                Err(ReadError::Truncated { read: got.len() as usize, len: len as usize })
            } else if got.len() + data@.len() == len {
                Ok(ReadStep::Done)
            } else {
                Ok(ReadStep::More)
            },
            ReadOutcome::Failed(failure) => exact_step(got, len, outcome) == if failure.kind
                == IoKind::Interrupted {
                Ok::<ReadStep, ReadError>(ReadStep::More)
            } else {
                Err(ReadError::Io(failure))
            },
        },
        outcome matches ReadOutcome::Data(data) ==> outcome_bytes(outcome) == data@,
        outcome is Failed ==> outcome_bytes(outcome).len() == 0,
{
}

/// Only a failed read can be a timeout, and it is one by its kind: that nothing
/// was there, or that the time was over.
pub proof fn law_what_a_timeout_is(e: ReadError)
    ensures
        timed_out(e) <==> match e {
            ReadError::Io(f) => f.kind == IoKind::WouldBlock || f.kind == IoKind::TimedOut,
            ReadError::Body(f) => f.kind == IoKind::WouldBlock || f.kind == IoKind::TimedOut,
            ReadError::Truncated { .. } => false,
            ReadError::BodyEnded => false,
            ReadError::Ended => false,
        },
{
}

/// A failed read is reported with the text that the system gave for it.
pub proof fn law_read_error_tells_its_cause(cause: IoFailure)
    ensures
        ends_with(read_error_text(ReadError::Io(cause)), cause.text@),
        ends_with(read_error_text(ReadError::Body(cause)), cause.text@),
{
    lemma_ends_with("falha ao ler evento do socket: "@, cause.text@);
    lemma_ends_with("conexão encerrada no meio de um frame: "@, cause.text@);
}

} // verus!
