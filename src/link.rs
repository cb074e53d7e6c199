//! The link protocol: many small calls batched over one pair of ports.
//!
//! Each call is a 12-byte header — its total size as an `i32`, its code and
//! its flags, little-endian — followed by the values attached to it. A
//! `LinkSender` collects calls in a buffer and hands out the whole batch as
//! one frame when it is flushed; a `LinkReceiver` takes such a frame and
//! walks the calls in it.
use vstd::bytes::*;
use vstd::prelude::*;
use vstd::utf8::encode_utf8;

use crate::errors::{ErrorKind, HaikuError};
use crate::flattenable::{text_from_utf8, Flattenable};
use crate::kernel::Port;
use crate::message::{read_le32, read_u32_at};

verus! {

/// The type code of every link frame on a port: "_PTL".
pub const LINK_CODE: i32 = 0x5f50544c;

/// The initial capacity of the send buffer.
pub const INITIAL_BUFFER_SIZE: usize = 2048;

/// A batch is sent before a new call would carry it past this size.
pub const BUFFER_WATERMARK: usize = 2024;

/// The largest call or frame this protocol carries.
pub const MAX_BUFFER_SIZE: usize = 65536;

/// The longest string that can be attached.
pub const MAX_STRING_SIZE: usize = 4096;

/// The flag of a call that expects a reply.
pub const NEEDS_REPLY: u32 = 0x01;

/// Size of a call header.
pub const HEADER_SIZE: usize = 12;

/// The little-endian bytes of a 32-bit value.
pub open spec fn word_bytes(x: u32) -> Seq<u8> {
    spec_u32_to_le_bytes(x)
}

/// `buf` with `bytes` written over it from `pos` on, growing it where the
/// bytes run past its end.
pub open spec fn write_at(buf: Seq<u8>, pos: int, bytes: Seq<u8>) -> Seq<u8> {
    buf.subrange(0, pos) + bytes + if pos + bytes.len() < buf.len() {
        buf.subrange(pos + bytes.len(), buf.len() as int)
    } else {
        Seq::empty()
    }
}

/// The state of a sender: its buffer, its write position, where the open
/// call starts (equal to the position when no call is open), and the frames
/// handed out so far.
pub ghost struct SenderView {
    pub buffer: Seq<u8>,
    pub position: int,
    pub start: int,
    pub frames: Seq<Seq<u8>>,
}

impl SenderView {
    pub open spec fn wf(self) -> bool {
        &&& 0 <= self.start <= self.position <= self.buffer.len()
        &&& self.buffer.len() <= usize::MAX - MAX_BUFFER_SIZE
    }

    /// `n` more bytes can be written without the buffer's length nearing the
    /// limit of `usize`.
    pub open spec fn has_room(self, n: int) -> bool {
        self.position + n <= usize::MAX - MAX_BUFFER_SIZE
    }
}

/// The sender after closing the open call: its size, and the reply flag
/// when asked for, are written into its header.
pub open spec fn ended(v: SenderView, needs_reply: bool) -> SenderView {
    if v.start == v.position {
        v
    } else if v.start + HEADER_SIZE > v.buffer.len() {
        SenderView { start: v.position, ..v }
    } else {
        let sized = write_at(v.buffer, v.start, word_bytes((v.position - v.start) as u32));
        let flagged = if needs_reply {
            write_at(sized, v.start + 8, word_bytes(NEEDS_REPLY))
        } else {
            sized
        };
        SenderView { buffer: flagged, position: v.position, start: v.position, frames: v.frames }
    }
}

/// The sender after a flush: the open call is closed and, when any call was
/// collected, the buffer up to the end of the last call is handed out as
/// one frame and writing starts over at the front.
pub open spec fn flushed(v: SenderView, needs_reply: bool) -> SenderView {
    let e = ended(v, needs_reply);
    if e.start == 0 {
        e
    } else {
        SenderView {
            buffer: e.buffer,
            position: 0,
            start: 0,
            frames: e.frames.push(e.buffer.subrange(0, e.start)),
        }
    }
}

/// The header of a new call with `code`: size and flags still zero.
pub open spec fn call_header(code: i32) -> Seq<u8> {
    word_bytes(0) + word_bytes(code as u32) + word_bytes(0)
}

/// The sender after starting a call with `code` and room for `size_hint`
/// bytes of values.
pub open spec fn started(v: SenderView, code: i32, size_hint: int) -> SenderView {
    let e = ended(v, false);
    let f = if e.position + HEADER_SIZE + size_hint > BUFFER_WATERMARK {
        flushed(e, false)
    } else {
        e
    };
    SenderView {
        buffer: write_at(f.buffer, f.position, call_header(code)),
        position: f.position + HEADER_SIZE,
        ..f
    }
}

/// Collects calls and hands out batches of them as frames.
pub struct LinkSender {
    port: Port,
    buffer: Vec<u8>,
    position: usize,
    current_message_start: usize,
    frames: Vec<Vec<u8>>,
}

/// Write `bytes` over `buf` from `pos` on.
fn write_bytes(buf: &mut Vec<u8>, pos: usize, bytes: &[u8])
    requires
        pos <= old(buf)@.len(),
        pos + bytes@.len() <= usize::MAX,
    ensures
        final(buf)@ == write_at(old(buf)@, pos as int, bytes@),
{
    let mut i: usize = 0;
    let n = bytes.len();
    while i < n
        invariant
            n == bytes@.len(),
            i <= n,
            pos + n <= usize::MAX,
            pos <= old(buf)@.len(),
            buf@ == write_at(old(buf)@, pos as int, bytes@.subrange(0, i as int)),
        decreases n - i,
    {
        let at = pos + i;
        if at < buf.len() {
            buf.set(at, bytes[i]);
        } else {
            buf.push(bytes[i]);
        }
        i = i + 1;
        assert(buf@ =~= write_at(old(buf)@, pos as int, bytes@.subrange(0, i as int)));
    }
    assert(bytes@.subrange(0, n as int) =~= bytes@);
}

impl LinkSender {
    /// What the sender holds.
    pub closed spec fn view(&self) -> SenderView {
        SenderView {
            buffer: self.buffer@,
            position: self.position as int,
            start: self.current_message_start as int,
            frames: self.frames@.map_values(|f: Vec<u8>| f@),
        }
    }

    /// The sender's state is consistent.
    pub closed spec fn wf(&self) -> bool {
        self.view().wf()
    }

    /// The port the frames are for.
    pub closed spec fn spec_port(&self) -> i32 {
        self.port.port
    }

    /// A sender for `port`, with nothing collected.
    pub fn new(port: Port) -> (r: LinkSender)
        ensures
            r.wf(),
            r.view() == (SenderView {
                buffer: Seq::empty(),
                position: 0,
                start: 0,
                frames: Seq::empty(),
            }),
            r.spec_port() == port.port,
    {
        let r = LinkSender {
            port,
            buffer: Vec::with_capacity(INITIAL_BUFFER_SIZE),
            position: 0,
            current_message_start: 0,
            frames: Vec::new(),
        };
        assert(r.view().frames =~= Seq::<Seq<u8>>::empty());
        r
    }

    /// Where the next byte will be written.
    pub fn position(&self) -> (r: usize)
        ensures
            r == self.view().position,
    {
        self.position
    }

    /// The collected bytes.
    pub fn buffer(&self) -> (r: &Vec<u8>)
        ensures
            r@ == self.view().buffer,
    {
        &self.buffer
    }

    /// Take the frames handed out so far, for writing to the port in order.
    pub fn take_frames(&mut self) -> (r: Vec<Vec<u8>>)
        requires
            old(self).wf(),
        ensures
            final(self).wf(),
            r@.map_values(|f: Vec<u8>| f@) == old(self).view().frames,
            final(self).view() == (SenderView { frames: Seq::empty(), ..old(self).view() }),
            final(self).spec_port() == old(self).spec_port(),
    {
        let r = self.frames.split_off(0);
        assert(r@ =~= old(self).frames@);
        assert(self.view().frames =~= Seq::<Seq<u8>>::empty());
        r
    }

    /// The number of frames handed out and not yet written.
    pub fn frame_count(&self) -> (r: usize)
        ensures
            r == self.view().frames.len(),
    {
        self.frames.len()
    }

    /// A copy of the oldest frame not yet written.
    pub fn first_frame(&self) -> (r: Vec<u8>)
        requires
            self.view().frames.len() > 0,
        ensures
            r@ == self.view().frames[0],
    {
        let f = &self.frames[0];
        crate::message::copy_range(f.as_slice(), 0, f.len())
    }

    /// Forget the oldest frame, once it has been written to the port.
    pub fn frame_written(&mut self)
        requires
            old(self).wf(),
            old(self).view().frames.len() > 0,
        ensures
            final(self).wf(),
            final(self).view() == (SenderView { frames: old(self).view().frames.drop_first(), ..old(self).view() }),
            final(self).spec_port() == old(self).spec_port(),
    {
        let ghost before = self.frames@;
        self.frames.remove(0);
        assert(self.view().frames =~= old(self).view().frames.drop_first());
    }

    /// Start a call with `code`, closing the open one. When the header and
    /// `size_hint` bytes would carry the batch past the watermark, the batch
    /// is flushed first.
    pub fn start_message(&mut self, code: i32, size_hint: usize) -> (r: Result<(), HaikuError>)
        requires
            old(self).wf(),
            size_hint <= MAX_BUFFER_SIZE - HEADER_SIZE,
        ensures
            final(self).wf(),
            r is Ok,
            final(self).view() == started(old(self).view(), code, size_hint as int),
            final(self).spec_port() == old(self).spec_port(),
    {
        self.end_message(false);
        if self.position + HEADER_SIZE + size_hint > BUFFER_WATERMARK {
            self.flush(false);
        }
        let mut header: Vec<u8> = u32_to_le_bytes(0);
        let c = u32_to_le_bytes(code as u32);
        crate::flattenable::append_bytes(&mut header, c.as_slice());
        let z = u32_to_le_bytes(0);
        crate::flattenable::append_bytes(&mut header, z.as_slice());
        proof {
            lemma_auto_spec_u32_to_from_le_bytes();
        }
        write_bytes(&mut self.buffer, self.position, header.as_slice());
        self.position = self.position + HEADER_SIZE;
        Ok(())
    }

    /// Drop the open call.
    pub fn cancel_message(&mut self)
        requires
            old(self).wf(),
        ensures
            final(self).wf(),
            final(self).view() == (SenderView { position: old(self).view().start, ..old(self).view() }),
            final(self).spec_port() == old(self).spec_port(),
    {
        self.position = self.current_message_start;
    }

    /// Close the open call: write its size, and the reply flag when
    /// `needs_reply`, into its header.
    pub fn end_message(&mut self, needs_reply: bool) -> (r: Result<(), HaikuError>)
        requires
            old(self).wf(),
        ensures
            final(self).wf(),
            r is Ok,
            final(self).view() == ended(old(self).view(), needs_reply),
            final(self).spec_port() == old(self).spec_port(),
    {
        if self.current_message_start == self.position {
            return Ok(());
        }
        let last = self.position;
        if self.current_message_start + HEADER_SIZE <= self.buffer.len() {
            let size = (last - self.current_message_start) as u32;
            let sb = u32_to_le_bytes(size);
            proof {
                lemma_auto_spec_u32_to_from_le_bytes();
            }
            write_bytes(&mut self.buffer, self.current_message_start, sb.as_slice());
            if needs_reply {
                let fb = u32_to_le_bytes(NEEDS_REPLY);
                write_bytes(&mut self.buffer, self.current_message_start + 8, fb.as_slice());
            }
        }
        self.position = last;
        self.current_message_start = last;
        Ok(())
    }

    /// Attach a value to the open call.
    ///
    /// Fails with `InvalidInput`, and changes nothing, when no call is open.
    pub fn attach<T: Flattenable<T>>(&mut self, data: &T) -> (r: Result<(), HaikuError>)
        requires
            old(self).wf(),
            data.flat().len() <= MAX_BUFFER_SIZE,
            old(self).view().has_room(data.flat().len() as int),
        ensures
            final(self).wf(),
            final(self).spec_port() == old(self).spec_port(),
            old(self).view().position == old(self).view().start ==> (r matches Err(e)
                && e.spec_kind() == ErrorKind::InvalidInput && final(self).view() == old(self).view()),
            old(self).view().position != old(self).view().start ==> (r is Ok && final(self).view() == (
            SenderView {
                buffer: write_at(old(self).view().buffer, old(self).view().position, data.flat()),
                position: old(self).view().position + data.flat().len(),
                ..old(self).view()
            })),
    {
        if self.position == self.current_message_start {
            return Err(HaikuError::new(ErrorKind::InvalidInput, "cannot attach data before starting a message"));
        }
        let bytes = data.flatten();
        write_bytes(&mut self.buffer, self.position, bytes.as_slice());
        self.position = self.position + bytes.len();
        Ok(())
    }

    /// Attach a string: its length as an `i32`, then its bytes, without a
    /// terminator.
    ///
    /// Fails with `InvalidInput`, and changes nothing, when the string is
    /// longer than `MAX_STRING_SIZE` bytes.
    pub fn attach_string(&mut self, data: &str) -> (r: Result<(), HaikuError>)
        requires
            old(self).wf(),
            old(self).view().has_room(4 + MAX_STRING_SIZE),
        ensures
            final(self).wf(),
            final(self).spec_port() == old(self).spec_port(),
            encode_utf8(data@).len() > MAX_STRING_SIZE ==> (r matches Err(e) && e.spec_kind()
                == ErrorKind::InvalidInput && final(self).view() == old(self).view()),
            encode_utf8(data@).len() <= MAX_STRING_SIZE ==> (r is Ok && final(self).view() == (
            SenderView {
                buffer: write_at(
                    old(self).view().buffer,
                    old(self).view().position,
                    word_bytes(encode_utf8(data@).len() as u32) + encode_utf8(data@),
                ),
                position: old(self).view().position + 4 + encode_utf8(data@).len(),
                ..old(self).view()
            })),
    {
        let bytes = data.as_bytes();
        if bytes.len() > MAX_STRING_SIZE {
            return Err(HaikuError::new(ErrorKind::InvalidInput, "string too long"));
        }
        let mut out = u32_to_le_bytes(bytes.len() as u32);
        crate::flattenable::append_bytes(&mut out, bytes);
        proof {
            lemma_auto_spec_u32_to_from_le_bytes();
        }
        write_bytes(&mut self.buffer, self.position, out.as_slice());
        self.position = self.position + out.len();
        Ok(())
    }

    /// Close the open call and hand out everything collected as one frame.
    pub fn flush(&mut self, needs_reply: bool) -> (r: Result<(), HaikuError>)
        requires
            old(self).wf(),
        ensures
            final(self).wf(),
            r is Ok,
            final(self).view() == flushed(old(self).view(), needs_reply),
            final(self).spec_port() == old(self).spec_port(),
    {
        self.end_message(needs_reply);
        if self.current_message_start == 0 {
            return Ok(());
        }
        let frame = crate::message::copy_range(self.buffer.as_slice(), 0, self.current_message_start);
        let ghost before = self.frames@.map_values(|f: Vec<u8>| f@);
        self.frames.push(frame);
        assert(self.frames@.map_values(|f: Vec<u8>| f@) =~= before.push(frame@));
        self.position = 0;
        self.current_message_start = 0;
        Ok(())
    }

    /// The id of the port the frames are for.
    pub fn get_port_id(&self) -> (r: i32)
        ensures
            r == self.spec_port(),
    {
        self.port.get_port_id()
    }

    /// Send the following frames to `port`.
    pub fn set_port(&mut self, port: Port)
        requires
            old(self).wf(),
        ensures
            final(self).wf(),
            final(self).view() == old(self).view(),
            final(self).spec_port() == port.port,
    {
        self.port = port;
    }
}


/// Link batching: starting a call whose header and size hint would carry the
/// batch past the watermark first hands out everything collected so far as
/// one frame, then writes the new call's header at the front of the buffer,
/// so that the write position ends just past that header.
pub proof fn lemma_batch_flush(v: SenderView, code: i32, size_hint: int)
    requires
        v.wf(),
        0 <= size_hint,
        v.position + HEADER_SIZE + size_hint > BUFFER_WATERMARK,
    ensures
        started(v, code, size_hint).position == HEADER_SIZE,
        started(v, code, size_hint).start == 0,
        v.position > 0 ==> started(v, code, size_hint).frames == v.frames.push(
            ended(v, false).buffer.subrange(0, v.position),
        ),
{
}

/// Where a receiver stands in its buffer.
#[derive(Clone, Copy, Debug, PartialEq, Eq, Structural)]
pub enum Position {
    /// At the start of the call at this offset.
    Start(usize),
    /// Inside a call: at the first offset, with the call ending at the second.
    Inside(usize, usize),
    /// Nothing to read.
    Empty,
}

/// The call header at `pos` of `buf`: its code, its size, and whether it
/// expects a reply; `None` when the bytes left do not hold a header or the
/// size it gives is below a header's or past the end.
pub open spec fn header_at(buf: Seq<u8>, pos: int) -> Option<(u32, int, bool)> {
    if buf.len() - pos < HEADER_SIZE {
        None
    } else {
        let size = (read_le32(buf.subrange(pos, buf.len() as int)) as u32) as i32;
        let code = read_le32(buf.subrange(pos + 4, buf.len() as int)) as u32;
        let flags = read_le32(buf.subrange(pos + 8, buf.len() as int)) as u32;
        if size < HEADER_SIZE || size > buf.len() - pos {
            None
        } else {
            Some((code, size as int, flags & NEEDS_REPLY != 0))
        }
    }
}

/// Walks the calls of the frames it is given.
pub struct LinkReceiver {
    port: Port,
    buffer: Vec<u8>,
    position: Position,
}

impl LinkReceiver {
    /// The port the frames come from.
    pub closed spec fn spec_port(&self) -> i32 {
        self.port.port
    }

    /// The id of the port the frames come from.
    pub fn get_port_id(&self) -> (r: i32)
        ensures
            r == self.spec_port(),
    {
        self.port.get_port_id()
    }

    /// The frame being read.
    pub closed spec fn spec_buffer(&self) -> Seq<u8> {
        self.buffer@
    }

    /// Where the reader stands.
    pub closed spec fn spec_position(&self) -> Position {
        self.position
    }

    /// The position lies within the frame.
    pub open spec fn wf(&self) -> bool {
        match self.spec_position() {
            Position::Start(p) => p <= self.spec_buffer().len(),
            Position::Inside(p, e) => p <= e <= self.spec_buffer().len(),
            Position::Empty => true,
        }
    }

    /// A receiver for `port`, with nothing to read.
    pub fn new(port: Port) -> (r: LinkReceiver)
        ensures
            r.wf(),
            r.spec_position() == Position::Empty,
            r.spec_buffer() == Seq::<u8>::empty(),
            r.spec_port() == port.port,
    {
        LinkReceiver { port, buffer: Vec::with_capacity(INITIAL_BUFFER_SIZE), position: Position::Empty }
    }

    /// Where the reader stands.
    pub fn position(&self) -> (r: Position)
        ensures
            r == self.spec_position(),
    {
        self.position
    }

    /// The frame being read.
    pub fn buffer(&self) -> (r: &Vec<u8>)
        ensures
            r@ == self.spec_buffer(),
    {
        &self.buffer
    }

    /// Whether every call of the frame has been reached, so that the next
    /// call must come from a new frame.
    pub fn needs_fetch(&self) -> (r: bool)
        ensures
            r == (match self.spec_position() {
                Position::Empty => true,
                Position::Start(_) => false,
                Position::Inside(_, end) => end == self.spec_buffer().len(),
            }),
    {
        match self.position {
            Position::Empty => true,
            Position::Start(_) => false,
            Position::Inside(_, end) => end == self.buffer.len(),
        }
    }

    /// Take a frame read from the port: `type_code` is its type and `data`
    /// its bytes. An empty frame leaves nothing to read.
    ///
    /// Fails with `InvalidData`, leaving nothing to read, when the frame is
    /// not a link frame or is larger than `MAX_BUFFER_SIZE`.
    pub fn fetch(&mut self, type_code: i32, data: Vec<u8>) -> (r: Result<(), HaikuError>)
        ensures
            final(self).wf(),
            final(self).spec_port() == old(self).spec_port(),
            data@.len() == 0 ==> r is Ok && final(self).spec_position() == Position::Empty,
            data@.len() > 0 && (type_code != LINK_CODE || data@.len() > MAX_BUFFER_SIZE) ==> (r matches Err(
                e,
            ) && e.spec_kind() == ErrorKind::InvalidData && final(self).spec_position() == Position::Empty),
            data@.len() > 0 && type_code == LINK_CODE && data@.len() <= MAX_BUFFER_SIZE ==> (r is Ok
                && final(self).spec_position() == Position::Start(0) && final(self).spec_buffer()
                == data@),
    {
        if data.len() == 0 {
            self.invalidate_buffer();
            return Ok(());
        }
        if data.len() > MAX_BUFFER_SIZE || type_code != LINK_CODE {
            self.invalidate_buffer();
            return Err(HaikuError::new(ErrorKind::InvalidData, "frame is not a link frame"));
        }
        self.buffer = data;
        self.position = Position::Start(0);
        Ok(())
    }

    /// Read the header of the next call, fetching a new frame first when the
    /// current one is used up. `frame` is what the port gave when
    /// `needs_fetch()` held; it is not used otherwise.
    pub fn get_next_message(&mut self, frame: Option<(i32, Vec<u8>)>) -> (r: Option<(u32, usize, bool)>)
        requires
            old(self).wf(),
        ensures
            final(self).wf(),
            final(self).spec_port() == old(self).spec_port(),
            !old(self).spec_needs_fetch() ==> (old(self).spec_position() matches Position::Start(p)
                ==> old(self).spec_read_header(old(self).spec_buffer(), p as int, r, *final(self))),
            !old(self).spec_needs_fetch() ==> (old(self).spec_position() matches Position::Inside(_, e)
                ==> old(self).spec_read_header(old(self).spec_buffer(), e as int, r, *final(self))),
            old(self).spec_needs_fetch() && frame is None ==> r is None && final(self).spec_position()
                == old(self).spec_position() && final(self).spec_buffer() == old(self).spec_buffer(),
            old(self).spec_needs_fetch() ==> (frame matches Some((code, data)) ==> {
                if data@.len() == 0 || code != LINK_CODE || data@.len() > MAX_BUFFER_SIZE {
                    r is None && final(self).spec_position() == Position::Empty
                } else {
                    old(self).spec_read_header(data@, 0, r, *final(self))
                }
            }),
    {
        if self.needs_fetch() {
            match frame {
                Some((code, data)) => {
                    if self.fetch(code, data).is_err() {
                        return None;
                    }
                },
                None => return None,
            }
        }
        self.get_next_message_from_buffer()
    }

    /// Whether every call of the frame has been reached.
    pub open spec fn spec_needs_fetch(&self) -> bool {
        match self.spec_position() {
            Position::Empty => true,
            Position::Start(_) => false,
            Position::Inside(_, end) => end == self.spec_buffer().len(),
        }
    }

    /// Read the header of the next call in the current frame.
    pub fn get_next_message_from_buffer(&mut self) -> (r: Option<(u32, usize, bool)>)
        requires
            old(self).wf(),
        ensures
            final(self).wf(),
            final(self).spec_port() == old(self).spec_port(),
            old(self).spec_position() == Position::Empty ==> r is None && final(self).spec_position()
                == Position::Empty,
            old(self).spec_position() matches Position::Start(p) ==> old(self).spec_read_header(
                old(self).spec_buffer(),
                p as int,
                r,
                *final(self),
            ),
            old(self).spec_position() matches Position::Inside(_, e) ==> old(self).spec_read_header(
                old(self).spec_buffer(),
                e as int,
                r,
                *final(self),
            ),
    {
        match self.position {
            Position::Start(pos) => self.read_message_header(pos),
            Position::Inside(_, end) => self.read_message_header(end),
            Position::Empty => None,
        }
    }

    /// What reading the call header at `pos` of `buf` gives: the header and
    /// a position inside that call, or nothing and an emptied receiver.
    pub open spec fn spec_read_header(
        &self,
        buf: Seq<u8>,
        pos: int,
        r: Option<(u32, usize, bool)>,
        after: LinkReceiver,
    ) -> bool {
        match header_at(buf, pos) {
            Some((code, size, reply)) => {
                &&& r == Some((code, size as usize, reply))
                &&& after.spec_buffer() == buf
                &&& after.spec_position() == Position::Inside(
                    (pos + HEADER_SIZE) as usize,
                    (pos + size) as usize,
                )
            },
            None => r is None && after.spec_position() == Position::Empty && after.spec_buffer()
                == Seq::<u8>::empty(),
        }
    }

    /// Read the call header at `pos` and step inside the call.
    fn read_message_header(&mut self, pos: usize) -> (r: Option<(u32, usize, bool)>)
        requires
            pos <= old(self).spec_buffer().len(),
        ensures
            final(self).wf(),
            final(self).spec_port() == old(self).spec_port(),
            old(self).spec_read_header(old(self).spec_buffer(), pos as int, r, *final(self)),
    {
        let len = self.buffer.len();
        if len - pos < HEADER_SIZE {
            self.invalidate_buffer();
            return None;
        }
        let size = read_u32_at(self.buffer.as_slice(), pos) as i32;
        let code = read_u32_at(self.buffer.as_slice(), pos + 4);
        let flags = read_u32_at(self.buffer.as_slice(), pos + 8);
        proof {
            assert(self.buffer@.subrange(pos + 4, len as int) =~= self.buffer@.subrange(pos + 4, self.buffer@.len() as int));
        }
        if size < HEADER_SIZE as i32 || size as usize > len - pos {
            self.invalidate_buffer();
            return None;
        }
        let size = size as usize;
        self.position = Position::Inside(pos + HEADER_SIZE, pos + size);
        Some((code, size, (flags & NEEDS_REPLY) != 0))
    }

    /// Read a value of type `T` from the current call. For a type of fixed
    /// size `size` is not used; for other types it gives the value's size.
    ///
    /// Fails with `NotAllowed` when the reader is not inside a call, and with
    /// `InvalidData`, without moving, when the value would run past the call
    /// or its bytes are not a `T`.
    pub fn read<T: Flattenable<T>>(&mut self, size: usize) -> (r: Result<T, HaikuError>)
        requires
            old(self).wf(),
        ensures
            final(self).wf(),
            final(self).spec_port() == old(self).spec_port(),
            final(self).spec_buffer() == old(self).spec_buffer(),
            !(old(self).spec_position() is Inside) ==> (r matches Err(e) && e.spec_kind()
                == ErrorKind::NotAllowed && final(self).spec_position() == old(self).spec_position()),
            old(self).spec_position() matches Position::Inside(pos, end) ==> {
                let n = if T::spec_fixed_size() {
                    T::spec_item_size() as int
                } else {
                    size as int
                };
                if n > end - pos {
                    r matches Err(e) && e.spec_kind() == ErrorKind::InvalidData && final(self).spec_position()
                        == old(self).spec_position()
                } else {
                    let bytes = old(self).spec_buffer().subrange(pos as int, pos + n);
                    &&& r is Ok <==> T::decodable(bytes)
                    &&& r matches Ok(v) ==> T::decodes_to(bytes, v) && final(self).spec_position()
                        == Position::Inside((pos + n) as usize, end)
                    &&& r matches Err(e) ==> e.spec_kind() == ErrorKind::InvalidData
                        && final(self).spec_position() == old(self).spec_position()
                }
            },
    {
        let (pos, end) = match self.position {
            Position::Inside(pos, end) => (pos, end),
            _ => {
                return Err(HaikuError::new(ErrorKind::NotAllowed, "the reader is not inside a message; read its header first"));
            },
        };
        let n = if T::is_fixed_size() {
            T::item_size()
        } else {
            size
        };
        if n > end - pos {
            return Err(HaikuError::new(ErrorKind::InvalidData, "value runs past the end of the message"));
        }
        let bytes = vstd::slice::slice_subrange(self.buffer.as_slice(), pos, pos + n);
        let result = T::unflatten(bytes);
        if result.is_ok() {
            self.position = Position::Inside(pos + n, end);
        }
        result
    }

    /// Read a string from the current call: its length as an `i32`, then
    /// that many bytes of UTF-8 without a terminator.
    ///
    /// Fails with `NotAllowed` when the reader is not inside a call, and with
    /// `InvalidData` when the length is missing or negative (the reader then
    /// stays before it), or when the text runs past the call or is not UTF-8
    /// (the reader then stays after the length).
    pub fn read_string(&mut self) -> (r: Result<String, HaikuError>)
        requires
            old(self).wf(),
        ensures
            final(self).wf(),
            final(self).spec_port() == old(self).spec_port(),
            final(self).spec_buffer() == old(self).spec_buffer(),
            !(old(self).spec_position() is Inside) ==> (r matches Err(e) && e.spec_kind()
                == ErrorKind::NotAllowed),
            old(self).spec_position() matches Position::Inside(pos, end) ==> {
                let buf = old(self).spec_buffer();
                if end - pos < 4 {
                    r matches Err(e) && e.spec_kind() == ErrorKind::InvalidData
                } else {
                    let len = (read_le32(buf.subrange(pos as int, buf.len() as int)) as u32) as i32;
                    if len < 0 {
                        r matches Err(e) && e.spec_kind() == ErrorKind::InvalidData
                            && final(self).spec_position() == old(self).spec_position()
                    } else if len > end - pos - 4 {
                        r matches Err(e) && e.spec_kind() == ErrorKind::InvalidData
                    } else {
                        let text = buf.subrange(pos + 4, pos + 4 + len);
                        &&& r is Ok <==> vstd::utf8::valid_utf8(text)
                        &&& r matches Ok(s) ==> encode_utf8(s@) == text && final(self).spec_position()
                            == Position::Inside((pos + 4 + len) as usize, end)
                        &&& r matches Err(e) ==> e.spec_kind() == ErrorKind::InvalidData
                    }
                }
            },
    {
        let (pos, end) = match self.position {
            Position::Inside(pos, end) => (pos, end),
            _ => {
                return Err(HaikuError::new(ErrorKind::NotAllowed, "the reader is not inside a message; read its header first"));
            },
        };
        let size = self.read::<i32>(0)?;
        proof {
            vstd::bytes::lemma_auto_spec_u32_to_from_le_bytes();
            let buf = self.spec_buffer();
            assert(buf.subrange(pos as int, pos + 4) =~= buf.subrange(pos as int, buf.len() as int).subrange(0, 4));
            assert(spec_u32_to_le_bytes(size as u32).len() == 4);
            assert(spec_u32_from_le_bytes(buf.subrange(pos as int, pos + 4)) == size as u32);
            let x = size;
            assert((x as u32) as i32 == x) by (bit_vector);
        }
        if size < 0 {
            self.position = Position::Inside(pos, end);
            return Err(HaikuError::new(ErrorKind::InvalidData, "negative string length"));
        }
        let start = pos + 4;
        let size = size as usize;
        if size > end - start {
            return Err(HaikuError::new(ErrorKind::InvalidData, "string runs past the end of the message"));
        }
        if size == 0 {
            proof {
                assert(self.spec_buffer().subrange(start as int, start as int) =~= Seq::<u8>::empty());
                assert(encode_utf8(Seq::<char>::empty()) =~= Seq::<u8>::empty()) by {
                    reveal_with_fuel(encode_utf8, 1);
                }
            }
            return Ok(String::new());
        }
        let bytes = vstd::slice::slice_subrange(self.buffer.as_slice(), start, start + size);
        match text_from_utf8(bytes) {
            Some(s) => {
                self.position = Position::Inside(start + size, end);
                Ok(s)
            },
            None => Err(HaikuError::new(ErrorKind::InvalidData, "the string holds invalid characters")),
        }
    }

    /// Drop the current frame.
    pub fn invalidate_buffer(&mut self)
        ensures
            final(self).wf(),
            final(self).spec_port() == old(self).spec_port(),
            final(self).spec_buffer() == Seq::<u8>::empty(),
            final(self).spec_position() == Position::Empty,
    {
        self.buffer.clear();
        self.position = Position::Empty;
    }
}

} // verus!
