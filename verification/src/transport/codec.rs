//! Messages and frames.
//!
//! A frame is a body with its length in front, as four bytes with the most significant first.
//! The length keeps messages apart that arrive glued together or in pieces.

use crate::domain::robot::copy_nodes;
use crate::domain::{Battery, Heartbeat, Location, NodeId, RobotId, TaskId};
use bytes::{Buf, BytesMut};
use std::marker::PhantomData;
use vstd::prelude::*;

verus! {

/// A message from a robot to the server.
#[derive(Debug, Clone, Copy)]
pub enum ClientMsg {
    /// The robot comes online.
    Register { id: RobotId, location: Location, battery: Battery },
    /// The robot reports its state.
    Heartbeat(Heartbeat),
    /// The robot has finished a task.
    TaskDone { robot: RobotId, task: TaskId },
}

/// A message from the server to a robot.
#[derive(Debug)]
pub enum ServerMsg {
    /// The robot is registered.
    RegisterAck { robot: RobotId },
    /// The robot is to carry out a task.
    TaskAssign {
        task: TaskId,
        /// The nodes to drive along.
        path: Vec<NodeId>,
        /// The node where the robot takes its load.
        pickup: Option<NodeId>,
    },
}

impl Clone for ServerMsg {
    fn clone(&self) -> (r: Self)
        ensures
            match *self {
                ServerMsg::RegisterAck { .. } => r == *self,
                ServerMsg::TaskAssign { task, path, pickup } => {
                    &&& r is TaskAssign
                    &&& r->task == task
                    &&& r->path@ == path@
                    &&& r->pickup == pickup
                },
            },
    {
        match self {
            ServerMsg::RegisterAck { robot } => ServerMsg::RegisterAck { robot: *robot },
            ServerMsg::TaskAssign { task, path, pickup } => ServerMsg::TaskAssign {
                task: *task,
                path: copy_nodes(path),
                pickup: *pickup,
            },
        }
    }
}

/// The longest body that a reader accepts, in bytes.
pub const MAX_FRAME_LEN: usize = 1_048_576;

/// The number of bytes of the length.
pub const LEN_PREFIX: usize = 4;

/// Why a frame could not be read.
#[derive(Debug, Clone, Copy, PartialEq, Eq, Structural)]
pub enum FrameError {
    /// The length in front of the body is greater than [`MAX_FRAME_LEN`].
    TooLarge,
}

impl FrameError {
    /// The text of the error.
    pub fn message(&self) -> (r: String)
        ensures
            r@ == "frame too large"@,
    {
        let mut out = String::new();
        out.append("frame too large");
        assert(out@ =~= "frame too large"@);
        out
    }
}

// ---------------------------------------------------------------- the buffer
/// The growing byte buffer of the `bytes` crate.
#[verifier::external_type_specification]
#[verifier::external_body]
pub struct ExBytesMut(BytesMut);

/// The bytes in a buffer.
pub uninterp spec fn buffered(buffer: BytesMut) -> Seq<u8>;

/// `BytesMut::len`: the number of bytes in the buffer.
#[verifier::external_body]
fn buffer_len(buffer: &BytesMut) -> (r: usize)
    ensures
        r == buffered(*buffer).len(),
{
    buffer.len()
}

/// Indexing of a `BytesMut`, which dereferences to a slice: the byte at a place.
#[verifier::external_body]
fn buffer_byte(buffer: &BytesMut, i: usize) -> (r: u8)
    requires
        i < buffered(*buffer).len(),
    ensures
        r == buffered(*buffer)[i as int],
{
    buffer[i]
}

/// `BytesMut::reserve`: makes room and leaves the bytes alone.
#[verifier::external_body]
fn buffer_reserve(buffer: &mut BytesMut, additional: usize)
    requires
        buffered(*old(buffer)).len() + additional <= isize::MAX,
    ensures
        buffered(*final(buffer)) == buffered(*old(buffer)),
{
    buffer.reserve(additional)
}

/// `Buf::advance` of a `BytesMut`: drops bytes at the front.
#[verifier::external_body]
fn buffer_advance(buffer: &mut BytesMut, count: usize)
    requires
        count <= buffered(*old(buffer)).len(),
    ensures
        buffered(*final(buffer)) == buffered(*old(buffer)).skip(count as int),
{
    buffer.advance(count)
}

/// `BytesMut::split_to`: moves bytes at the front into a buffer of their own, handed out as a
/// vector.
#[verifier::external_body]
fn buffer_split_to(buffer: &mut BytesMut, at: usize) -> (r: Vec<u8>)
    requires
        at <= buffered(*old(buffer)).len(),
    ensures
        r@ == buffered(*old(buffer)).take(at as int),
        buffered(*final(buffer)) == buffered(*old(buffer)).skip(at as int),
{
    buffer.split_to(at).to_vec()
}

/// `BytesMut::extend_from_slice`: adds bytes at the end.
#[verifier::external_body]
fn buffer_extend(buffer: &mut BytesMut, more: &[u8])
    requires
        buffered(*old(buffer)).len() + more@.len() <= isize::MAX,
    ensures
        buffered(*final(buffer)) == buffered(*old(buffer)) + more@,
{
    buffer.extend_from_slice(more)
}

// ---------------------------------------------------------------- frames
/// The four bytes of a length, the most significant first. Only the last 32 bits count.
pub open spec fn length_bytes(n: nat) -> Seq<u8> {
    seq![
        ((n / 0x100_0000) % 0x100) as u8,
        ((n / 0x1_0000) % 0x100) as u8,
        ((n / 0x100) % 0x100) as u8,
        (n % 0x100) as u8,
    ]
}

/// The length that the first four bytes give.
pub open spec fn announced(bytes: Seq<u8>) -> nat {
    (bytes[0] * 0x100_0000 + bytes[1] * 0x1_0000 + bytes[2] * 0x100 + bytes[3]) as nat
}

/// The frame of a body.
pub open spec fn frame(body: Seq<u8>) -> Seq<u8> {
    length_bytes(body.len()) + body
}

/// What a reader makes of the bytes that have arrived: an error, nothing yet, or the body of
/// the first frame and the bytes behind it.
pub open spec fn unframed(bytes: Seq<u8>) -> Result<Option<(Seq<u8>, Seq<u8>)>, FrameError> {
    if bytes.len() < LEN_PREFIX {
        Ok(None)
    } else if announced(bytes) > MAX_FRAME_LEN {
        Err(FrameError::TooLarge)
    } else if bytes.len() < LEN_PREFIX + announced(bytes) {
        Ok(None)
    } else {
        let end = LEN_PREFIX + announced(bytes);
        Ok(Some((bytes.subrange(LEN_PREFIX as int, end), bytes.skip(end))))
    }
}

/// Reader of messages `In` and writer of messages `Out`, one per frame.
pub struct BincodeCodec<In, Out> {
    _in: PhantomData<In>,
    _out: PhantomData<Out>,
}

impl<In, Out> Default for BincodeCodec<In, Out> {
    fn default() -> (r: Self)
        ensures
            r == Self::fresh(),
    {
        Self::new()
    }
}

impl<In, Out> BincodeCodec<In, Out> {
    /// A codec. It has no state.
    pub closed spec fn fresh() -> Self {
        Self { _in: PhantomData, _out: PhantomData }
    }

    /// A codec.
    pub fn new() -> (r: Self)
        ensures
            r == Self::fresh(),
    {
        Self { _in: PhantomData, _out: PhantomData }
    }

    /// Takes the body of the first frame out of a buffer. If the frame has not arrived
    /// completely, the buffer stays as it is and there is no body yet.
    pub fn decode_frame(&mut self, src: &mut BytesMut) -> (r: Result<Option<Vec<u8>>, FrameError>)
        ensures
            *final(self) == *old(self),
            match unframed(buffered(*old(src))) {
                Ok(Some((body, rest))) => {
                    &&& r matches Ok(Some(got)) && got@ == body
                    &&& buffered(*final(src)) == rest
                },
                Ok(None) => {
                    &&& r matches Ok(None)
                    &&& buffered(*final(src)) == buffered(*old(src))
                },
                Err(e) => {
                    &&& r matches Err(got) && got == e
                    &&& buffered(*final(src)) == buffered(*old(src))
                },
            },
    {
        let ghost bytes = buffered(*src);
        let have: usize = buffer_len(src);
        if have < LEN_PREFIX {
            buffer_reserve(src, LEN_PREFIX - have);
            return Ok(None);
        }
        let len: usize = buffer_byte(src, 0) as usize * 0x100_0000 + buffer_byte(src, 1) as usize
            * 0x1_0000 + buffer_byte(src, 2) as usize * 0x100 + buffer_byte(src, 3) as usize;
        if len > MAX_FRAME_LEN {
            return Err(FrameError::TooLarge);
        }
        if have < LEN_PREFIX + len {
            buffer_reserve(src, LEN_PREFIX + len - have);
            return Ok(None);
        }
        buffer_advance(src, LEN_PREFIX);
        let body = buffer_split_to(src, len);
        proof {
            let end = LEN_PREFIX + announced(bytes);
            assert(body@ =~= bytes.subrange(LEN_PREFIX as int, end));
            assert(buffered(*src) =~= bytes.skip(end));
        }
        Ok(Some(body))
    }

    /// Adds the frame of a body to a buffer.
    pub fn encode_frame(&mut self, body: &[u8], dst: &mut BytesMut)
        requires
            buffered(*old(dst)).len() + LEN_PREFIX + body@.len() <= isize::MAX,
        ensures
            *final(self) == *old(self),
            buffered(*final(dst)) == buffered(*old(dst)) + frame(body@),
    {
        let n: usize = body.len();
        buffer_reserve(dst, LEN_PREFIX + n);
        let mut prefix: Vec<u8> = Vec::new();
        prefix.push((n / 0x100_0000 % 0x100) as u8);
        prefix.push((n / 0x1_0000 % 0x100) as u8);
        prefix.push((n / 0x100 % 0x100) as u8);
        prefix.push((n % 0x100) as u8);
        assert(prefix@ =~= length_bytes(body@.len()));
        buffer_extend(dst, prefix.as_slice());
        buffer_extend(dst, body);
        assert(buffered(*dst) =~= buffered(*old(dst)) + frame(body@));
    }

    /// Adds the frame of a body to a buffer that has room for it, and says whether it has. A
    /// buffer without room stays as it is.
    pub fn try_encode_frame(&mut self, body: &[u8], dst: &mut BytesMut) -> (done: bool)
        ensures
            *final(self) == *old(self),
            done <==> buffered(*old(dst)).len() + LEN_PREFIX + body@.len() <= isize::MAX,
            done ==> buffered(*final(dst)) == buffered(*old(dst)) + frame(body@),
            !done ==> buffered(*final(dst)) == buffered(*old(dst)),
    {
        let most: usize = isize::MAX as usize;
        let have: usize = buffer_len(dst);
        if have <= most && LEN_PREFIX <= most - have && body.len() <= most - have - LEN_PREFIX {
            self.encode_frame(body, dst);
            true
        } else {
            false
        }
    }
}

// ---------------------------------------------------------------- laws
/// Four bytes give back the length that they were made of.
proof fn lemma_length(n: nat)
    requires
        n < 0x1_0000_0000,
    ensures
        announced(length_bytes(n)) == n,
{
}

/// A reader gives back the body that a writer framed, and leaves what comes behind it alone.
pub proof fn law_reading_undoes_writing(body: Seq<u8>, rest: Seq<u8>)
    requires
        body.len() <= MAX_FRAME_LEN,
    ensures
        unframed(frame(body) + rest) == Ok::<Option<(Seq<u8>, Seq<u8>)>, FrameError>(
            Some((body, rest)),
        ),
{
    let bytes = frame(body) + rest;
    lemma_length(body.len());
    let prefix = length_bytes(body.len());
    assert(bytes[0] == prefix[0] && bytes[1] == prefix[1] && bytes[2] == prefix[2] && bytes[3]
        == prefix[3]);
    assert(announced(bytes) == announced(prefix));
    let end = LEN_PREFIX + announced(bytes);
    assert(bytes.subrange(LEN_PREFIX as int, end) =~= body);
    assert(bytes.skip(end) =~= rest);
}

/// A reader waits for the whole frame: from a part of it it takes nothing.
pub proof fn law_a_partial_frame_is_left_alone(body: Seq<u8>, n: int)
    requires
        body.len() <= MAX_FRAME_LEN,
        0 <= n < frame(body).len(),
    ensures
        unframed(frame(body).take(n)) == Ok::<Option<(Seq<u8>, Seq<u8>)>, FrameError>(None),
{
    let bytes = frame(body).take(n);
    lemma_length(body.len());
    if n >= LEN_PREFIX {
        let prefix = length_bytes(body.len());
        assert(bytes[0] == prefix[0] && bytes[1] == prefix[1] && bytes[2] == prefix[2] && bytes[3]
            == prefix[3]);
        assert(announced(bytes) == announced(prefix));
    }
}

/// The frames of several bodies, one behind the other.
pub open spec fn frames(bodies: Seq<Seq<u8>>) -> Seq<u8>
    decreases bodies.len(),
{
    if bodies.len() == 0 {
        Seq::empty()
    } else {
        frame(bodies[0]) + frames(bodies.skip(1))
    }
}

/// Frames that arrive glued together are read one by one, in their order.
pub proof fn law_glued_frames_are_read_in_order(bodies: Seq<Seq<u8>>)
    requires
        bodies.len() > 0,
        bodies[0].len() <= MAX_FRAME_LEN,
    ensures
        unframed(frames(bodies)) == Ok::<Option<(Seq<u8>, Seq<u8>)>, FrameError>(
            Some((bodies[0], frames(bodies.skip(1)))),
        ),
{
    law_reading_undoes_writing(bodies[0], frames(bodies.skip(1)));
}

/// A length beyond the limit is an error, whatever follows.
pub proof fn law_oversized_frames_are_refused(body: Seq<u8>, rest: Seq<u8>)
    requires
        MAX_FRAME_LEN < body.len() < 0x1_0000_0000,
    ensures
        unframed(frame(body) + rest) == Err::<Option<(Seq<u8>, Seq<u8>)>, FrameError>(
            FrameError::TooLarge,
        ),
{
    let bytes = frame(body) + rest;
    lemma_length(body.len());
    let prefix = length_bytes(body.len());
    assert(bytes[0] == prefix[0] && bytes[1] == prefix[1] && bytes[2] == prefix[2] && bytes[3]
        == prefix[3]);
    assert(announced(bytes) == announced(prefix));
}

/// A frame is four bytes longer than its body, which it ends with. The four bytes are the length
/// of the body in base 256, with the most significant digit first.
pub proof fn law_a_frame_is_the_length_and_the_body(body: Seq<u8>)
    requires
        body.len() < 0x1_0000_0000,
    ensures
        frame(body).len() == 4 + body.len(),
        frame(body).skip(4) == body,
        ((frame(body)[0] * 256 + frame(body)[1]) * 256 + frame(body)[2]) * 256 + frame(body)[3]
            == body.len(),
{
    assert(frame(body).skip(4) =~= body);
    lemma_length(body.len());
    let prefix = length_bytes(body.len());
    assert(frame(body)[0] == prefix[0] && frame(body)[1] == prefix[1] && frame(body)[2]
        == prefix[2] && frame(body)[3] == prefix[3]);
}

/// What a reader does depends on the length in front alone: without four bytes it waits; with a
/// length of more than 1048576 it fails; with fewer bytes than announced it waits; and else it
/// takes the announced bytes and no more.
pub proof fn law_a_reader_takes_what_is_announced(bytes: Seq<u8>)
    ensures
        ({
            let n = ((bytes[0] * 256 + bytes[1]) * 256 + bytes[2]) * 256 + bytes[3];
            let read = unframed(bytes);
            &&& bytes.len() < 4 ==> read is Ok && read->Ok_0 is None
            &&& bytes.len() >= 4 && n > 1_048_576 ==> read is Err
            &&& bytes.len() >= 4 && n <= 1_048_576 && bytes.len() < 4 + n ==> read is Ok
                && read->Ok_0 is None
            &&& bytes.len() >= 4 + n && n <= 1_048_576 ==> {
                &&& read is Ok
                &&& read->Ok_0 is Some
                &&& (read->Ok_0->0).0.len() == n
                &&& bytes == bytes.take(4) + (read->Ok_0->0).0 + (read->Ok_0->0).1
            }
        }),
{
    let n = ((bytes[0] * 256 + bytes[1]) * 256 + bytes[2]) * 256 + bytes[3];
    if bytes.len() >= 4 + n && n <= 1_048_576 {
        assert(bytes =~= bytes.take(4) + bytes.subrange(4, 4 + n) + bytes.skip(4 + n));
    }
}

} // verus!
