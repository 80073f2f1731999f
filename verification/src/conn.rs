//! The decisions of the per-connection state machine: what one buffered
//! read yields, how a read of zero bytes is classified, and how one decoded
//! request turns into exactly one response.

use vstd::prelude::*;

use crate::cmd::{cmd_of, exec_post, Cmd};
use crate::frame::{check, fview, parse_at, split_front, Frame, FrameError, FrameS, POut};
use crate::store::Store;

verus! {

/// What attempting to decode the connection buffer yields.
#[derive(Debug)]
pub enum ReadStep {
    Frame(Frame),
    NeedMore,
    Bad(String),
}

/// How a read of zero bytes ends the connection.
#[derive(Debug, PartialEq, Eq, Structural)]
pub enum EofKind {
    CleanClose,
    Reset,
}

/// Tries to decode one frame from the connection buffer. A complete frame
/// consumes exactly its own bytes, so a second pipelined request stays
/// buffered and gets its own response; an incomplete buffer is left
/// untouched so the caller can read more bytes and retry; a malformed one
/// reports the protocol error and discards the buffer, since the stream is
/// desynchronized, while the connection stays alive.
pub fn extract_frame(buffer: &mut Vec<u8>) -> (r: ReadStep)
    ensures
        match r {
            ReadStep::Frame(f) => match parse_at(old(buffer)@, 0) {
                POut::Val(g, p) => g == fview(f) && final(buffer)@ == old(buffer)@.skip(p),
                _ => false,
            },
            ReadStep::NeedMore => parse_at(old(buffer)@, 0) is Incomplete && final(buffer)@ == old(
                buffer,
            )@,
            ReadStep::Bad(_) => parse_at(old(buffer)@, 0) is Bad && final(buffer)@ == Seq::<
                u8,
            >::empty(),
        },
{
    let mut pos: usize = 0;
    match check(buffer.as_slice(), &mut pos) {
        Result::Ok(()) => {},
        Result::Err(e) => match e {
            FrameError::Incomplete => {
                return ReadStep::NeedMore;
            },
            FrameError::Protocol(m) => {
                buffer.clear();
                return ReadStep::Bad(m);
            },
            FrameError::EndOfStream => {
                proof {
                    assert(false);
                }
                return ReadStep::NeedMore;
            },
        },
    }
    match Frame::parse_protocol(buffer.as_slice()) {
        Result::Ok(f) => {
            let _ = split_front(buffer, pos);
            ReadStep::Frame(f)
        },
        Result::Err(_) => {
            proof {
                assert(false);
            }
            ReadStep::NeedMore
        },
    }
}

/// Classifies a read that returned zero bytes: with an empty buffer the
/// peer closed cleanly; with buffered bytes it reset mid-frame.
pub fn on_zero_read(buffer_len: usize) -> (r: EofKind)
    ensures
        r == (if buffer_len == 0 {
            EofKind::CleanClose
        } else {
            EofKind::Reset
        }),
{
    if buffer_len == 0 {
        EofKind::CleanClose
    } else {
        EofKind::Reset
    }
}

/// Turns one decoded request frame into exactly one response frame: the
/// frame is parsed into a command and executed against the store; a parse
/// failure answers an error frame and leaves the store untouched, so one
/// malformed command never kills the connection.
pub fn respond(frame: Frame, store: &mut Store, now: u64) -> (r: Frame)
    requires
        old(store).wf(),
    ensures
        final(store).wf(),
        match cmd_of(fview(frame), now) {
            Result::Ok(c) => exec_post(
                c,
                old(store).entries_map(),
                final(store).entries_map(),
                fview(r),
                now,
            ),
            Result::Err(_) => final(store).entries_map() == old(store).entries_map() && fview(
                r,
            ) is Error,
        },
{
    match Cmd::try_from(frame, now) {
        Result::Ok(cmd) => cmd.execute(store, now),
        Result::Err(e) => match e {
            FrameError::Protocol(m) => Frame::Error(m),
            _ => Frame::Error("protocol error; request ended early".to_owned()),
        },
    }
}

} // verus!
