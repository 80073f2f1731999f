//! The alternate, buffer-splitting codecs kept for auxiliary tooling: a
//! line-oriented codec and a frame codec over the same wire grammar as the
//! server path.

use vstd::prelude::*;

use crate::frame::{check, enc, fview, parse_at, split_front, Frame, FrameError, POut, push_all};
use vstd::string::StrSliceExecFns;
use vstd::utf8::{decode_utf8, encode_utf8, valid_utf8};

verus! {

/// A codec for LF-terminated text lines.
pub struct LineCodec;

/// The frame value the auxiliary codec exchanges: the same recursive wire
/// value as the server path.
pub type RedisFrame = Frame;

/// A codec for whole frames over a splittable buffer.
pub struct RedisCodec;

/// The position of the first LF at or after `i`.
pub open spec fn nl_pos(s: Seq<u8>, i: int) -> Option<int>
    decreases s.len() - i,
{
    if i < 0 || i >= s.len() {
        Option::None
    } else if s[i] == 10 {
        Option::Some(i)
    } else {
        nl_pos(s, i + 1)
    }
}

proof fn lemma_nl_pos_found(s: Seq<u8>, i: int, e: int)
    requires
        0 <= i <= e < s.len(),
        s[e] == 10,
        forall|j: int| i <= j < e ==> (#[trigger] s[j]) != 10,
    ensures
        nl_pos(s, i) == Option::Some(e),
    decreases e - i,
{
    if i < e {
        lemma_nl_pos_found(s, i + 1, e);
    }
}

proof fn lemma_nl_pos_none(s: Seq<u8>, i: int)
    requires
        0 <= i,
        forall|j: int| i <= j < s.len() ==> (#[trigger] s[j]) != 10,
    ensures
        nl_pos(s, i) is None,
    decreases s.len() - i,
{
    if i < s.len() {
        lemma_nl_pos_none(s, i + 1);
    }
}

impl LineCodec {
    /// Splits one LF-terminated line off the front of the buffer, dropping
    /// the terminator and validating the line as UTF-8; `Ok(None)` when no
    /// full line is buffered yet.
    #[verifier::loop_isolation(false)]
    pub fn decode(&mut self, src: &mut Vec<u8>) -> (r: Result<Option<String>, FrameError>)
        ensures
            match nl_pos(old(src)@, 0) {
                Option::Some(i) => final(src)@ == old(src)@.skip(i + 1) && (match r {
                    Result::Ok(o) => (o matches Option::Some(s) && valid_utf8(old(src)@.take(i))
                        && s@ == decode_utf8(old(src)@.take(i))),
                    Result::Err(e) => (e matches FrameError::Protocol(_) && !valid_utf8(
                        old(src)@.take(i),
                    )),
                }),
                Option::None => final(src)@ == old(src)@ && (r matches Result::Ok(o) && o is None),
            },
    {
        let mut i: usize = 0;
        loop
            invariant
                i <= src@.len(),
                *src == *old(src),
                forall|j: int| 0 <= j < i ==> (#[trigger] src@[j]) != 10,
            decreases src@.len() - i,
        {
            if i >= src.len() {
                proof {
                    lemma_nl_pos_none(src@, 0);
                }
                return Ok(None);
            }
            if src[i] == 10 {
                proof {
                    lemma_nl_pos_found(src@, 0, i as int);
                }
                let line = split_front(src, i);
                let _ = split_front(src, 1);
                proof {
                    assert(src@ =~= old(src)@.skip(i as int + 1));
                }
                match crate::text::bytes_to_string(line.as_slice()) {
                    Option::Some(s) => {
                        return Ok(Some(s));
                    },
                    Option::None => {
                        return Err(FrameError::Protocol("Invalid UTF-8".to_owned()));
                    },
                }
            }
            i = i + 1;
        }
    }

    /// Appends the line and an LF terminator to the buffer.
    pub fn encode(&mut self, item: String, dst: &mut Vec<u8>) -> (r: Result<(), FrameError>)
        ensures
            final(dst)@ == old(dst)@ + encode_utf8(item@) + seq![10u8],
            r is Ok,
    {
        push_all(dst, item.as_str().as_bytes());
        dst.push(10u8);
        proof {
            assert(final(dst)@ =~= old(dst)@ + encode_utf8(item@) + seq![10u8]);
        }
        Ok(())
    }
}

impl RedisCodec {
    /// Decodes one whole frame off the front of the buffer, consuming
    /// exactly its bytes: `Ok(None)` on an empty buffer, an error on a
    /// truncated or malformed one.
    pub fn decode(&mut self, src: &mut Vec<u8>) -> (r: Result<Option<RedisFrame>, FrameError>)
        ensures
            match r {
                Result::Ok(o) => match o {
                    Option::None => old(src)@.len() == 0 && final(src)@ == old(src)@,
                    Option::Some(f) => match parse_at(old(src)@, 0) {
                        POut::Val(g, p) => g == fview(f) && final(src)@ == old(src)@.skip(p),
                        _ => false,
                    },
                },
                Result::Err(e) => final(src)@ == old(src)@ && old(src)@.len() > 0 && match e {
                    FrameError::Incomplete => parse_at(old(src)@, 0) is Incomplete,
                    FrameError::Protocol(_) => parse_at(old(src)@, 0) is Bad,
                    FrameError::EndOfStream => false,
                },
            },
    {
        if src.len() == 0 {
            return Ok(None);
        }
        let mut pos: usize = 0;
        match check(src.as_slice(), &mut pos) {
            Result::Ok(()) => {},
            Result::Err(e) => {
                return Err(e);
            },
        }
        let f = match Frame::parse_protocol(src.as_slice()) {
            Result::Ok(f) => f,
            Result::Err(e) => {
                proof {
                    assert(false);
                }
                return Err(e);
            },
        };
        let _ = split_front(src, pos);
        Ok(Some(f))
    }

    /// Appends the frame's wire bytes to the buffer.
    pub fn encode(&mut self, item: RedisFrame, dst: &mut Vec<u8>) -> (r: Result<(), FrameError>)
        ensures
            final(dst)@ == old(dst)@ + enc(fview(item)),
            r is Ok,
    {
        let bytes = match item.to_protocol() {
            Result::Ok(v) => v,
            Result::Err(e) => {
                proof {
                    assert(false);
                }
                return Err(e);
            },
        };
        push_all(dst, bytes.as_slice());
        Ok(())
    }
}

} // verus!
