//! The wire-level frame type of the protocol, its byte encoding, and the
//! streaming decoder: a check pass that confirms a whole frame is buffered,
//! and a materialize pass that builds the `Frame` tree.

use vstd::prelude::*;

use crate::num::{dec_digits, i64_dec, spec_atoi64, atoi_i64, usize_to_dec, i64_to_dec};
use crate::text::bytes_to_string;
use vstd::utf8::{valid_utf8, decode_utf8, encode_utf8};
use vstd::string::StrSliceExecFns;

verus! {

broadcast use vstd::std_specs::vec::axiom_vec_index_decreases, vstd::std_specs::vec::axiom_vec_decreases_to_view, vstd::seq::axiom_seq_index_decreases, vstd::seq::axiom_seq_subrange_decreases;

/// A value of the wire protocol: either a line-oriented scalar or an array of
/// further frames.
#[derive(Debug, PartialEq)]
pub enum Frame {
    Simple(String),
    Error(String),
    Integer(i64),
    Bulk(Vec<u8>),
    Array(Vec<Frame>),
}

/// Errors of the frame layer: a frame not fully buffered yet, an argument
/// cursor running off the end of a request, or a malformed byte sequence.
#[derive(Debug, PartialEq)]
pub enum FrameError {
    Incomplete,
    EndOfStream,
    Protocol(String),
}

/// The mathematical shape of a frame, with sequences in place of the
/// executable containers.
pub enum FrameS {
    Simple(Seq<char>),
    Error(Seq<char>),
    Integer(int),
    Bulk(Seq<u8>),
    Array(Seq<FrameS>),
}

/// The model of a frame.
pub open spec fn fview(f: Frame) -> FrameS
    decreases f,
{
    match f {
        Frame::Simple(s) => FrameS::Simple(s@),
        Frame::Error(s) => FrameS::Error(s@),
        Frame::Integer(v) => FrameS::Integer(v as int),
        Frame::Bulk(d) => FrameS::Bulk(d@),
        Frame::Array(a) => FrameS::Array(fviews(a@)),
    }
}

/// The models of a sequence of frames, in order.
pub open spec fn fviews(a: Seq<Frame>) -> Seq<FrameS>
    decreases a,
{
    if a.len() == 0 {
        Seq::empty()
    } else {
        seq![fview(a.first())] + fviews(a.drop_first())
    }
}

/// `fviews` maps `fview` over the sequence, element by element.
pub proof fn lemma_fviews(a: Seq<Frame>)
    ensures
        fviews(a).len() == a.len(),
        forall|i: int| 0 <= i < a.len() ==> fviews(a)[i] == fview(#[trigger] a[i]),
    decreases a.len(),
{
    if a.len() > 0 {
        lemma_fviews(a.drop_first());
        assert forall|i: int| 0 <= i < a.len() implies fviews(a)[i] == fview(a[i]) by {
            if i > 0 {
                assert(a.drop_first()[i - 1] == a[i]);
                assert(fviews(a)[i] == fviews(a.drop_first())[i - 1]);
            }
        }
    }
}

/// Extending a frame sequence extends its model pointwise.
pub proof fn lemma_fviews_push(a: Seq<Frame>, x: Frame)
    ensures
        fviews(a.push(x)) == fviews(a).push(fview(x)),
    decreases a.len(),
{
    if a.len() == 0 {
        assert(a.push(x).drop_first() =~= Seq::<Frame>::empty());
        assert(a.push(x).first() == x);
        assert(fviews(Seq::<Frame>::empty()) == Seq::<FrameS>::empty());
        assert(fviews(a.push(x)) =~= fviews(a).push(fview(x)));
    } else {
        assert(a.push(x).drop_first() =~= a.drop_first().push(x));
        lemma_fviews_push(a.drop_first(), x);
        assert(fviews(a.push(x)) =~= fviews(a).push(fview(x)));
    }
}

/// The two-byte frame terminator.
pub open spec fn crlf() -> Seq<u8> {
    seq![13u8, 10u8]
}

/// The byte encoding of a frame: a type byte, then a value or length line,
/// then for bulk data the payload and for arrays the encoded children.
pub open spec fn enc(fs: FrameS) -> Seq<u8>
    decreases fs,
{
    match fs {
        FrameS::Simple(s) => seq![43u8] + encode_utf8(s) + crlf(),
        FrameS::Error(s) => seq![45u8] + encode_utf8(s) + crlf(),
        FrameS::Integer(v) => seq![58u8] + i64_dec(v) + crlf(),
        FrameS::Bulk(d) => seq![36u8] + dec_digits(d.len() as int) + crlf() + d + crlf(),
        FrameS::Array(a) => seq![42u8] + dec_digits(a.len() as int) + crlf() + enc_all(a),
    }
}

/// The concatenated encodings of a sequence of frames.
pub open spec fn enc_all(a: Seq<FrameS>) -> Seq<u8>
    decreases a,
{
    if a.len() == 0 {
        Seq::empty()
    } else {
        enc(a.first()) + enc_all(a.drop_first())
    }
}

pub proof fn lemma_enc_all_snoc(a: Seq<FrameS>, x: FrameS)
    ensures
        enc_all(a.push(x)) == enc_all(a) + enc(x),
    decreases a.len(),
{
    if a.len() == 0 {
        assert(a.push(x).drop_first() =~= Seq::<FrameS>::empty());
        assert(a.push(x).first() == x);
        assert(enc_all(Seq::<FrameS>::empty()) == Seq::<u8>::empty());
        assert(enc_all(a.push(x)) =~= enc_all(a) + enc(x));
    } else {
        assert(a.push(x).drop_first() =~= a.drop_first().push(x));
        lemma_enc_all_snoc(a.drop_first(), x);
        assert(enc_all(a.push(x)) =~= enc_all(a) + enc(x));
    }
}

/// The position of the first CRLF pair at or after `i`, if any pair lies
/// wholly inside the buffer.
pub open spec fn line_end(s: Seq<u8>, i: int) -> Option<int>
    decreases s.len() - i,
{
    if i < 0 || i + 1 >= s.len() {
        Option::None
    } else if s[i] == 13 && s[i + 1] == 10 {
        Option::Some(i)
    } else {
        line_end(s, i + 1)
    }
}

/// Bounds and first-match character of `line_end`.
pub proof fn lemma_line_end(s: Seq<u8>, i: int)
    ensures
        match line_end(s, i) {
            Option::Some(e) => {
                &&& i <= e
                &&& e + 2 <= s.len()
                &&& s[e] == 13 && s[e + 1] == 10
                &&& forall|j: int| i <= j < e ==> !((#[trigger] s[j]) == 13 && s[j + 1] == 10)
            },
            Option::None => i >= 0 ==> forall|j: int| i <= j < s.len() - 1 ==> !((#[trigger] s[j]) == 13 && s[j + 1] == 10),
        },
    decreases s.len() - i,
{
    if i < 0 || i + 1 >= s.len() {
    } else if s[i] == 13 && s[i + 1] == 10 {
    } else {
        lemma_line_end(s, i + 1);
    }
}

/// `line_end` finds exactly the pair at `e` when no earlier pair exists.
pub proof fn lemma_line_end_found(s: Seq<u8>, i: int, e: int)
    requires
        0 <= i <= e,
        e + 2 <= s.len(),
        s[e] == 13 && s[e + 1] == 10,
        forall|j: int| i <= j < e ==> !((#[trigger] s[j]) == 13 && s[j + 1] == 10),
    ensures
        line_end(s, i) == Option::Some(e),
    decreases e - i,
{
    if i < e {
        lemma_line_end_found(s, i + 1, e);
    }
}

/// The outcome of reading one decimal header line.
pub enum LOut {
    NoLine,
    NotNum,
    Num(int, int),
}

/// Reading a CRLF-terminated line at `pos` and parsing it as a decimal
/// number: `NoLine` when no full line is buffered, `NotNum` when the line is
/// not UTF-8 or not a number, else the value and the position after the line.
pub open spec fn line_num(b: Seq<u8>, pos: int) -> LOut {
    match line_end(b, pos) {
        Option::None => LOut::NoLine,
        Option::Some(e) => {
            let lb = b.subrange(pos, e);
            if !valid_utf8(lb) {
                LOut::NotNum
            } else {
                match spec_atoi64(lb) {
                    Option::None => LOut::NotNum,
                    Option::Some(v) => LOut::Num(v as int, e + 2),
                }
            }
        },
    }
}

/// The outcome of decoding one frame.
pub enum POut {
    Val(FrameS, int),
    Incomplete,
    Bad,
}

/// The outcome of decoding a run of frames.
pub enum PMany {
    Val(Seq<FrameS>, int),
    Incomplete,
    Bad,
}

/// The decoder, as a function of the buffer: the frame starting at `pos` and
/// the position after it, or `Incomplete` when the buffer ends too early, or
/// `Bad` when the bytes cannot be a frame.
pub open spec fn parse_at(b: Seq<u8>, pos: int) -> POut
    decreases b.len() - pos, 0int,
    via parse_at_dec
{
    if pos < 0 || pos >= b.len() {
        POut::Incomplete
    } else {
        let t = b[pos];
        if t == 43 || t == 45 {
            match line_end(b, pos + 1) {
                Option::None => POut::Incomplete,
                Option::Some(e) => {
                    let lb = b.subrange(pos + 1, e);
                    if valid_utf8(lb) {
                        if t == 43 {
                            POut::Val(FrameS::Simple(decode_utf8(lb)), e + 2)
                        } else {
                            POut::Val(FrameS::Error(decode_utf8(lb)), e + 2)
                        }
                    } else {
                        POut::Bad
                    }
                },
            }
        } else if t == 58 {
            match line_num(b, pos + 1) {
                LOut::NoLine => POut::Incomplete,
                LOut::NotNum => POut::Bad,
                LOut::Num(v, p2) => POut::Val(FrameS::Integer(v), p2),
            }
        } else if t == 36 {
            match line_num(b, pos + 1) {
                LOut::NoLine => POut::Incomplete,
                LOut::NotNum => POut::Bad,
                LOut::Num(n, p2) => {
                    if n < 0 {
                        POut::Incomplete
                    } else if b.len() - p2 < n + 2 {
                        POut::Incomplete
                    } else if b[p2 + n] == 13 && b[p2 + n + 1] == 10 {
                        POut::Val(FrameS::Bulk(b.subrange(p2, p2 + n)), p2 + n + 2)
                    } else {
                        POut::Bad
                    }
                },
            }
        } else if t == 42 {
            match line_num(b, pos + 1) {
                LOut::NoLine => POut::Incomplete,
                LOut::NotNum => POut::Bad,
                LOut::Num(n, p2) => {
                    if n < 0 {
                        POut::Incomplete
                    } else {
                        match parse_many(b, p2, n) {
                            PMany::Val(fs, p3) => POut::Val(FrameS::Array(fs), p3),
                            PMany::Incomplete => POut::Incomplete,
                            PMany::Bad => POut::Bad,
                        }
                    }
                },
            }
        } else {
            POut::Bad
        }
    }
}

#[via_fn]
proof fn parse_at_dec(b: Seq<u8>, pos: int) {
    lemma_line_end(b, pos + 1);
}

/// `n` frames decoded in sequence starting at `pos`.
pub open spec fn parse_many(b: Seq<u8>, pos: int, n: int) -> PMany
    decreases b.len() - pos, n + 1,
{
    if n <= 0 {
        PMany::Val(Seq::empty(), pos)
    } else {
        match parse_at(b, pos) {
            POut::Val(f, p2) => {
                if pos < p2 <= b.len() {
                    match parse_many(b, p2, n - 1) {
                        PMany::Val(fs, p3) => PMany::Val(seq![f] + fs, p3),
                        PMany::Incomplete => PMany::Incomplete,
                        PMany::Bad => PMany::Bad,
                    }
                } else {
                    PMany::Bad
                }
            },
            POut::Incomplete => PMany::Incomplete,
            POut::Bad => PMany::Bad,
        }
    }
}

/// A decoded frame always ends strictly after it starts and inside the
/// buffer.
pub proof fn lemma_parse_progress(b: Seq<u8>, pos: int)
    ensures
        forall|f: FrameS, p: int|
            parse_at(b, pos) == POut::Val(f, p) ==> pos < p <= b.len(),
    decreases b.len() - pos, 0int,
{
    if 0 <= pos < b.len() {
        lemma_line_end(b, pos + 1);
        if b[pos] == 42 {
            if let LOut::Num(n, p2) = line_num(b, pos + 1) {
                if n >= 0 {
                    lemma_parse_many_progress(b, p2, n);
                }
            }
        }
    }
}

/// A decoded run of frames never moves the position backwards or out of the
/// buffer.
pub proof fn lemma_parse_many_progress(b: Seq<u8>, pos: int, n: int)
    ensures
        forall|fs: Seq<FrameS>, p: int|
            parse_many(b, pos, n) == PMany::Val(fs, p) ==> pos <= p <= b.len() || !(0 <= pos
                <= b.len()),
    decreases b.len() - pos, n + 1,
{
    if n <= 0 {
    } else {
        match parse_at(b, pos) {
            POut::Val(f, p2) => {
                if pos < p2 <= b.len() {
                    lemma_parse_many_progress(b, p2, n - 1);
                }
            },
            _ => {},
        }
    }
}

/// A run of `n` frames splits into its first `k` frames and the rest.
pub proof fn lemma_parse_many_prefix(b: Seq<u8>, pos: int, k: int, n: int, fs1: Seq<FrameS>, p1: int)
    requires
        0 <= k <= n,
        parse_many(b, pos, k) == PMany::Val(fs1, p1),
    ensures
        parse_many(b, pos, n) == (match parse_many(b, p1, n - k) {
            PMany::Val(fs2, p2) => PMany::Val(fs1 + fs2, p2),
            PMany::Incomplete => PMany::Incomplete,
            PMany::Bad => PMany::Bad,
        }),
    decreases k,
{
    if k == 0 {
        assert(fs1 =~= Seq::<FrameS>::empty());
        assert(p1 == pos);
        match parse_many(b, p1, n) {
            PMany::Val(fs2, p2) => {
                assert(fs1 + fs2 =~= fs2);
            },
            _ => {},
        }
    } else {
        match parse_at(b, pos) {
            POut::Val(f, q) => {
                if pos < q <= b.len() {
                    match parse_many(b, q, k - 1) {
                        PMany::Val(fs1r, p1r) => {
                            assert(fs1 == seq![f] + fs1r && p1 == p1r);
                            lemma_parse_many_prefix(b, q, k - 1, n - 1, fs1r, p1r);
                            match parse_many(b, p1, n - k) {
                                PMany::Val(fs2, p2) => {
                                    assert(seq![f] + (fs1r + fs2) =~= (seq![f] + fs1r) + fs2);
                                },
                                _ => {},
                            }
                        },
                        _ => {
                            assert(false);
                        },
                    }
                } else {
                    assert(false);
                }
            },
            _ => {
                assert(false);
            },
        }
    }
}

/// Appending one more decoded frame to a decoded run.
pub proof fn lemma_parse_many_snoc(
    b: Seq<u8>,
    pos: int,
    k: int,
    fs: Seq<FrameS>,
    p: int,
    f: FrameS,
    p2: int,
)
    requires
        0 <= k,
        parse_many(b, pos, k) == PMany::Val(fs, p),
        parse_at(b, p) == POut::Val(f, p2),
        p < p2 <= b.len(),
    ensures
        parse_many(b, pos, k + 1) == PMany::Val(fs.push(f), p2),
{
    lemma_parse_many_prefix(b, pos, k, k + 1, fs, p);
    assert(parse_many(b, p2, 0) == PMany::Val(Seq::<FrameS>::empty(), p2));
    assert(fs + (seq![f] + Seq::<FrameS>::empty()) =~= fs.push(f));
}

impl Frame {
    /// The canonical `OK` acknowledgement frame.
    pub fn ok() -> (r: Frame)
        ensures
            fview(r) == FrameS::Simple("OK"@),
    {
        Frame::Simple("OK".to_owned())
    }

    /// The sentinel frame for an absent value.
    pub fn nil() -> (r: Frame)
        ensures
            fview(r) == FrameS::Integer(-1),
    {
        Frame::Integer(-1i64)
    }
}

/// Reads the byte at the cursor and advances past it; `Incomplete` at the end
/// of the buffer.
pub fn get_u8(buf: &[u8], pos: &mut usize) -> (r: Result<u8, FrameError>)
    ensures
        match r {
            Result::Ok(v) => {
                &&& *old(pos) < buf@.len()
                &&& v == buf@[*old(pos) as int]
                &&& *final(pos) == *old(pos) + 1
            },
            Result::Err(e) => {
                &&& e == FrameError::Incomplete
                &&& *old(pos) >= buf@.len()
                &&& *final(pos) == *old(pos)
            },
        },
{
    if *pos < buf.len() {
        let v = buf[*pos];
        *pos = *pos + 1;
        Ok(v)
    } else {
        Err(FrameError::Incomplete)
    }
}

/// Reads the byte at the cursor without advancing.
pub fn peek_u8(buf: &[u8], pos: usize) -> (r: Result<u8, FrameError>)
    ensures
        match r {
            Result::Ok(v) => pos < buf@.len() && v == buf@[pos as int],
            Result::Err(e) => e == FrameError::Incomplete && pos >= buf@.len(),
        },
{
    if pos < buf.len() {
        Ok(buf[pos])
    } else {
        Err(FrameError::Incomplete)
    }
}

/// Advances the cursor over `n` bytes; `Incomplete` when fewer remain.
pub fn skip(buf: &[u8], pos: &mut usize, n: usize) -> (r: Result<(), FrameError>)
    ensures
        match r {
            Result::Ok(()) => {
                &&& *old(pos) + n <= buf@.len()
                &&& *final(pos) == *old(pos) + n
            },
            Result::Err(e) => {
                &&& e == FrameError::Incomplete
                &&& (*old(pos) > buf@.len() || buf@.len() - *old(pos) < n)
                &&& *final(pos) == *old(pos)
            },
        },
{
    if *pos > buf.len() || buf.len() - *pos < n {
        Err(FrameError::Incomplete)
    } else {
        *pos = *pos + n;
        Ok(())
    }
}

/// The bytes of `buf` between `from` and `to`, as an owned vector.
#[verifier::loop_isolation(false)]
fn copy_range(buf: &[u8], from: usize, to: usize) -> (r: Vec<u8>)
    requires
        from <= to <= buf@.len(),
    ensures
        r@ == buf@.subrange(from as int, to as int),
{
    let mut out: Vec<u8> = Vec::new();
    assert(out@ =~= buf@.subrange(from as int, from as int));
    let mut i: usize = from;
    while i < to
        invariant
            from <= i <= to <= buf@.len(),
            out@ == buf@.subrange(from as int, i as int),
        decreases to - i,
    {
        out.push(buf[i]);
        assert(out@ =~= buf@.subrange(from as int, i as int + 1));
        i = i + 1;
    }
    out
}

/// Reads a CRLF-terminated line starting at the cursor, validates it as
/// UTF-8, and leaves the cursor after the terminator.
#[verifier::loop_isolation(false)]
pub fn get_line(buf: &[u8], pos: &mut usize) -> (r: Result<String, FrameError>)
    ensures
        match r {
            Result::Ok(s) => match line_end(buf@, *old(pos) as int) {
                Option::Some(e) => {
                    &&& valid_utf8(buf@.subrange(*old(pos) as int, e))
                    &&& s@ == decode_utf8(buf@.subrange(*old(pos) as int, e))
                    &&& *final(pos) == e + 2
                },
                Option::None => false,
            },
            Result::Err(e) => match e {
                FrameError::Incomplete => line_end(buf@, *old(pos) as int) is None && *final(pos)
                    == *old(pos),
                FrameError::Protocol(_) => match line_end(buf@, *old(pos) as int) {
                    Option::Some(e2) => !valid_utf8(buf@.subrange(*old(pos) as int, e2))
                        && *final(pos) == e2 + 2,
                    Option::None => false,
                },
                FrameError::EndOfStream => false,
            },
        },
{
    let ghost p0 = *pos as int;
    let start: usize = *pos;
    let mut i: usize = start;
    loop
        invariant
            start <= i,
            p0 == start as int,
            *pos == start,
            i <= buf@.len() || i == start,
            forall|j: int| p0 <= j < i ==> !((#[trigger] buf@[j]) == 13 && buf@[j + 1] == 10),
        decreases buf@.len() - i,
    {
        if i >= buf.len() || i + 1 >= buf.len() {
            proof {
                lemma_line_end(buf@, p0);
                if let Option::Some(e) = line_end(buf@, p0) {
                    assert(!(buf@[e] == 13 && buf@[e + 1] == 10));
                }
            }
            return Err(FrameError::Incomplete);
        }
        if buf[i] == 13 && buf[i + 1] == 10 {
            proof {
                lemma_line_end_found(buf@, p0, i as int);
            }
            *pos = i + 2;
            let line = copy_range(buf, start, i);
            match bytes_to_string(line.as_slice()) {
                Option::Some(s) => {
                    return Ok(s);
                },
                Option::None => {
                    return Err(FrameError::Protocol("protocol error; invalid frame format".to_owned()));
                },
            }
        }
        i = i + 1;
    }
}

/// Reads a CRLF-terminated line and parses it as a signed decimal number.
pub fn get_decimal(buf: &[u8], pos: &mut usize) -> (r: Result<i64, FrameError>)
    ensures
        match r {
            Result::Ok(v) => line_num(buf@, *old(pos) as int) == LOut::Num(v as int, *final(pos) as int),
            Result::Err(e) => match e {
                FrameError::Incomplete => line_num(buf@, *old(pos) as int) is NoLine && *final(pos)
                    == *old(pos),
                FrameError::Protocol(_) => line_num(buf@, *old(pos) as int) is NotNum,
                FrameError::EndOfStream => false,
            },
        },
{
    let ghost p0 = *pos as int;
    let line = match get_line(buf, pos) {
        Result::Ok(s) => s,
        Result::Err(e) => {
            return Err(e);
        },
    };
    let ghost e = line_end(buf@, p0)->Some_0;
    let ghost lb = buf@.subrange(p0, e);
    proof {
        vstd::utf8::decode_utf8_encode_utf8(lb);
    }
    let bs = line.as_str().as_bytes();
    assert(bs@ == lb);
    match atoi_i64(bs) {
        Option::Some(v) => Ok(v),
        Option::None => Err(FrameError::Protocol("invalid frame format".to_owned())),
    }
}

/// Appends all of `add` to `out`.
#[verifier::loop_isolation(false)]
pub(crate) fn push_all(out: &mut Vec<u8>, add: &[u8])
    ensures
        final(out)@ == old(out)@ + add@,
{
    let mut i: usize = 0;
    while i < add.len()
        invariant
            i <= add@.len(),
            out@ == old(out)@ + add@.subrange(0, i as int),
        decreases add@.len() - i,
    {
        out.push(add[i]);
        assert(out@ =~= old(out)@ + add@.subrange(0, i as int + 1));
        i = i + 1;
    }
    assert(add@.subrange(0, add@.len() as int) =~= add@);
}

/// Removes and returns the first `n` bytes of the buffer.
pub(crate) fn split_front(v: &mut Vec<u8>, n: usize) -> (r: Vec<u8>)
    requires
        n <= old(v)@.len(),
    ensures
        r@ == old(v)@.take(n as int),
        final(v)@ == old(v)@.skip(n as int),
{
    let mut head: Vec<u8> = Vec::new();
    let mut i: usize = 0;
    while i < n
        invariant
            i <= n <= v@.len(),
            v == old(v),
            head@ == v@.take(i as int),
        decreases n - i,
    {
        head.push(v[i]);
        assert(head@ =~= v@.take(i as int + 1));
        i = i + 1;
    }
    let mut tail: Vec<u8> = Vec::new();
    let mut j: usize = n;
    while j < v.len()
        invariant
            n <= j <= v@.len(),
            v == old(v),
            tail@ == v@.subrange(n as int, j as int),
        decreases v@.len() - j,
    {
        tail.push(v[j]);
        assert(tail@ =~= v@.subrange(n as int, j as int + 1));
        j = j + 1;
    }
    *v = tail;
    head
}

/// The check pass: walks one frame using only lengths and terminators,
/// leaving the cursor after it, without building anything. Classifies the
/// buffer exactly as the decoder `parse_at` does.
#[verifier::loop_isolation(false)]
pub fn check(buf: &[u8], pos: &mut usize) -> (r: Result<(), FrameError>)
    ensures
        match r {
            Result::Ok(()) => match parse_at(buf@, *old(pos) as int) {
                POut::Val(_, p) => p == *final(pos) as int && p <= buf@.len(),
                _ => false,
            },
            Result::Err(e) => match e {
                FrameError::Incomplete => parse_at(buf@, *old(pos) as int) is Incomplete,
                FrameError::Protocol(_) => parse_at(buf@, *old(pos) as int) is Bad,
                FrameError::EndOfStream => false,
            },
        },
    decreases buf@.len() - *pos,
{
    let ghost p0 = *pos as int;
    let t = match get_u8(buf, pos) {
        Result::Ok(t) => t,
        Result::Err(_) => {
            return Err(FrameError::Incomplete);
        },
    };
    proof {
        lemma_line_end(buf@, p0 + 1);
    }
    if t == 43 || t == 45 {
        match get_line(buf, pos) {
            Result::Ok(_) => Ok(()),
            Result::Err(e) => Err(e),
        }
    } else if t == 58 {
        match get_decimal(buf, pos) {
            Result::Ok(_) => Ok(()),
            Result::Err(e) => Err(e),
        }
    } else if t == 36 {
        let n = match get_decimal(buf, pos) {
            Result::Ok(n) => n,
            Result::Err(e) => {
                return Err(e);
            },
        };
        if n < 0 {
            return Err(FrameError::Incomplete);
        }
        let rem: usize = buf.len() - *pos;
        if (rem as u64) < (n as u64) + 2 {
            return Err(FrameError::Incomplete);
        }
        let a: usize = *pos + (n as usize);
        if buf[a] == 13 && buf[a + 1] == 10 {
            match skip(buf, pos, (n as usize) + 2) {
                Result::Ok(()) => Ok(()),
                Result::Err(_) => {
                    proof {
                        assert(false);
                    }
                    Err(FrameError::Incomplete)
                },
            }
        } else {
            Err(FrameError::Protocol("protocol error; bulk frame not terminated".to_owned()))
        }
    } else if t == 42 {
        let n = match get_decimal(buf, pos) {
            Result::Ok(n) => n,
            Result::Err(e) => {
                return Err(e);
            },
        };
        if n < 0 {
            return Err(FrameError::Incomplete);
        }
        let ghost pstart = *pos as int;
        assert(parse_many(buf@, pstart, 0) == PMany::Val(Seq::<FrameS>::empty(), pstart));
        let mut k: i64 = 0;
        while k < n
            invariant
                0 <= k <= n,
                pstart <= *pos as int <= buf@.len(),
                exists|fs: Seq<FrameS>|
                    parse_many(buf@, pstart, k as int) == PMany::Val(fs, *pos as int),
            decreases n - k,
        {
            let ghost prev = *pos as int;
            let ghost gfs = choose|fs: Seq<FrameS>|
                parse_many(buf@, pstart, k as int) == PMany::Val(fs, prev);
            match check(buf, pos) {
                Result::Ok(()) => {
                    proof {
                        lemma_parse_progress(buf@, prev);
                        let f = parse_at(buf@, prev)->Val_0;
                        lemma_parse_many_snoc(buf@, pstart, k as int, gfs, prev, f, *pos as int);
                    }
                    k = k + 1;
                },
                Result::Err(e) => {
                    proof {
                        lemma_parse_many_prefix(buf@, pstart, k as int, n as int, gfs, prev);
                    }
                    return Err(e);
                },
            }
        }
        proof {
            let gfs = choose|fs: Seq<FrameS>|
                parse_many(buf@, pstart, n as int) == PMany::Val(fs, *pos as int);
            assert(parse_at(buf@, p0) == POut::Val(FrameS::Array(gfs), *pos as int));
        }
        Ok(())
    } else {
        Err(FrameError::Protocol("protocol error; invalid frame type byte".to_owned()))
    }
}

/// The materialize pass: builds the frame that the check pass confirmed,
/// re-walking the same bytes.
#[verifier::loop_isolation(false)]
fn parse(buf: &[u8], pos: &mut usize) -> (r: Result<Frame, FrameError>)
    requires
        parse_at(buf@, *old(pos) as int) is Val,
    ensures
        match r {
            Result::Ok(f) => parse_at(buf@, *old(pos) as int) == POut::Val(
                fview(f),
                *final(pos) as int,
            ),
            Result::Err(_) => false,
        },
    decreases buf@.len() - *pos,
{
    let ghost p0 = *pos as int;
    let t = match get_u8(buf, pos) {
        Result::Ok(t) => t,
        Result::Err(_) => {
            proof {
                assert(false);
            }
            return Err(FrameError::Incomplete);
        },
    };
    proof {
        lemma_line_end(buf@, p0 + 1);
    }
    if t == 43 || t == 45 {
        match get_line(buf, pos) {
            Result::Ok(s) => {
                if t == 43 {
                    Ok(Frame::Simple(s))
                } else {
                    Ok(Frame::Error(s))
                }
            },
            Result::Err(e) => {
                proof {
                    assert(false);
                }
                Err(e)
            },
        }
    } else if t == 58 {
        match get_decimal(buf, pos) {
            Result::Ok(v) => Ok(Frame::Integer(v)),
            Result::Err(e) => {
                proof {
                    assert(false);
                }
                Err(e)
            },
        }
    } else if t == 36 {
        let n = match get_decimal(buf, pos) {
            Result::Ok(n) => n,
            Result::Err(e) => {
                proof {
                    assert(false);
                }
                return Err(e);
            },
        };
        assert(n >= 0);
        let blen: usize = buf.len();
        assert(*pos + n + 2 <= blen);
        let data = copy_range(buf, *pos, *pos + (n as usize));
        match skip(buf, pos, (n as usize) + 2) {
            Result::Ok(()) => Ok(Frame::Bulk(data)),
            Result::Err(e) => {
                proof {
                    assert(false);
                }
                Err(e)
            },
        }
    } else if t == 42 {
        let n = match get_decimal(buf, pos) {
            Result::Ok(n) => n,
            Result::Err(e) => {
                proof {
                    assert(false);
                }
                return Err(e);
            },
        };
        assert(n >= 0);
        let ghost pstart = *pos as int;
        let ghost whole = parse_many(buf@, pstart, n as int);
        assert(whole is Val);
        let mut out: Vec<Frame> = Vec::new();
        assert(parse_many(buf@, pstart, 0) == PMany::Val(Seq::<FrameS>::empty(), pstart));
        proof {
            lemma_fviews(out@);
            assert(fviews(out@) =~= Seq::<FrameS>::empty());
        }
        let mut k: i64 = 0;
        while k < n
            invariant
                0 <= k <= n,
                pstart <= *pos as int <= buf@.len(),
                out@.len() == k as int,
                parse_many(buf@, pstart, k as int) == PMany::Val(fviews(out@), *pos as int),
            decreases n - k,
        {
            let ghost prev = *pos as int;
            proof {
                lemma_parse_many_prefix(buf@, pstart, k as int, n as int, fviews(out@), prev);
                assert(parse_many(buf@, prev, n - k) is Val);
                assert(parse_at(buf@, prev) is Val);
            }
            let child = match parse(buf, pos) {
                Result::Ok(f) => f,
                Result::Err(e) => {
                    proof {
                        assert(false);
                    }
                    return Err(e);
                },
            };
            proof {
                lemma_parse_progress(buf@, prev);
                lemma_parse_many_snoc(
                    buf@,
                    pstart,
                    k as int,
                    fviews(out@),
                    prev,
                    fview(child),
                    *pos as int,
                );
            }
            proof {
                lemma_fviews_push(out@, child);
            }
            out.push(child);
            k = k + 1;
        }
        assert(parse_at(buf@, p0) == POut::Val(FrameS::Array(fviews(out@)), *pos as int));
        Ok(Frame::Array(out))
    } else {
        proof {
            assert(false);
        }
        Err(FrameError::Protocol("protocol error; invalid frame type byte".to_owned()))
    }
}

impl Frame {
    /// Decodes one frame from the front of the buffer: first the check pass,
    /// and only when a whole frame is present the materialize pass, so that
    /// an incomplete buffer is never half-consumed.
    pub fn parse_protocol(buf: &[u8]) -> (r: Result<Frame, FrameError>)
        ensures
            match r {
                Result::Ok(f) => match parse_at(buf@, 0) {
                    POut::Val(g, _) => g == fview(f),
                    _ => false,
                },
                Result::Err(e) => match e {
                    FrameError::Incomplete => parse_at(buf@, 0) is Incomplete,
                    FrameError::Protocol(_) => parse_at(buf@, 0) is Bad,
                    FrameError::EndOfStream => false,
                },
            },
    {
        let mut cpos: usize = 0;
        match check(buf, &mut cpos) {
            Result::Ok(()) => {},
            Result::Err(e) => {
                return Err(e);
            },
        }
        let mut ppos: usize = 0;
        match parse(buf, &mut ppos) {
            Result::Ok(f) => Ok(f),
            Result::Err(e) => {
                proof {
                    assert(false);
                }
                Err(e)
            },
        }
    }

    /// Encodes the frame as its wire bytes; the structural inverse of
    /// decoding.
    #[verifier::loop_isolation(false)]
    pub fn to_protocol(&self) -> (r: Result<Vec<u8>, FrameError>)
        ensures
            match r {
                Result::Ok(v) => v@ == enc(fview(*self)),
                Result::Err(_) => false,
            },
        decreases *self,
    {
        let mut out: Vec<u8> = Vec::new();
        match self {
            Frame::Simple(s) => {
                out.push(43u8);
                push_all(&mut out, s.as_str().as_bytes());
                out.push(13u8);
                out.push(10u8);
                assert(out@ =~= enc(fview(*self)));
            },
            Frame::Error(s) => {
                out.push(45u8);
                push_all(&mut out, s.as_str().as_bytes());
                out.push(13u8);
                out.push(10u8);
                assert(out@ =~= enc(fview(*self)));
            },
            Frame::Integer(v) => {
                out.push(58u8);
                let d = i64_to_dec(*v);
                push_all(&mut out, d.as_slice());
                out.push(13u8);
                out.push(10u8);
                assert(out@ =~= enc(fview(*self)));
            },
            Frame::Bulk(data) => {
                out.push(36u8);
                let l = usize_to_dec(data.len());
                push_all(&mut out, l.as_slice());
                out.push(13u8);
                out.push(10u8);
                push_all(&mut out, data.as_slice());
                out.push(13u8);
                out.push(10u8);
                assert(out@ =~= enc(fview(*self)));
            },
            Frame::Array(a) => {
                out.push(42u8);
                let l = usize_to_dec(a.len());
                push_all(&mut out, l.as_slice());
                out.push(13u8);
                out.push(10u8);
                proof {
                    lemma_fviews(a@);
                }
                let ghost gs = fviews(a@);
                let ghost head = out@;
                assert(gs.subrange(0, 0) =~= Seq::<FrameS>::empty());
                assert(out@ =~= head + enc_all(gs.subrange(0, 0)));
                let mut i: usize = 0;
                while i < a.len()
                    invariant
                        i <= a@.len(),
                        out@ == head + enc_all(gs.subrange(0, i as int)),
                    decreases a@.len() - i,
                {
                    let sub = match a[i].to_protocol() {
                        Result::Ok(v) => v,
                        Result::Err(e) => {
                            proof {
                                assert(false);
                            }
                            return Err(e);
                        },
                    };
                    push_all(&mut out, sub.as_slice());
                    proof {
                        lemma_enc_all_snoc(gs.subrange(0, i as int), gs[i as int]);
                        assert(gs.subrange(0, i as int).push(gs[i as int]) =~= gs.subrange(
                            0,
                            i as int + 1,
                        ));
                    }
                    i = i + 1;
                }
                assert(gs.subrange(0, gs.len() as int) =~= gs);
                assert(out@ =~= enc(fview(*self)));
            },
        }
        Ok(out)
    }
}


/// The text a request argument denotes: simple frames give their string,
/// bulk frames their bytes decoded as UTF-8, and nothing else qualifies.
pub open spec fn as_string(fs: FrameS) -> Option<Seq<char>> {
    match fs {
        FrameS::Simple(s) => Option::Some(s),
        FrameS::Bulk(d) => if valid_utf8(d) {
            Option::Some(decode_utf8(d))
        } else {
            Option::None
        },
        _ => Option::None,
    }
}

/// The bytes a request argument denotes: bulk frames give their payload and
/// simple frames their UTF-8 bytes.
pub open spec fn as_bytes(fs: FrameS) -> Option<Seq<u8>> {
    match fs {
        FrameS::Bulk(d) => Option::Some(d),
        FrameS::Simple(s) => Option::Some(encode_utf8(s)),
        _ => Option::None,
    }
}

/// The integer a request argument denotes: integer frames directly, simple
/// and bulk frames through decimal parsing of their bytes.
pub open spec fn as_int(fs: FrameS) -> Option<int> {
    match fs {
        FrameS::Integer(v) => Option::Some(v),
        FrameS::Simple(s) => match spec_atoi64(encode_utf8(s)) {
            Option::Some(v) => Option::Some(v as int),
            Option::None => Option::None,
        },
        FrameS::Bulk(d) => match spec_atoi64(d) {
            Option::Some(v) => Option::Some(v as int),
            Option::None => Option::None,
        },
        _ => Option::None,
    }
}

/// A consuming, ordered cursor over the flat argument list of a request
/// frame, with typed extraction.
#[derive(Debug)]
pub struct FrameIter(Vec<Frame>);

impl FrameIter {
    /// The arguments not yet consumed, in order.
    pub closed spec fn rest(self) -> Seq<FrameS> {
        fviews(self.0@)
    }

    /// A cursor over the given arguments.
    pub fn new(frames: Vec<Frame>) -> (r: FrameIter)
        ensures
            r.rest() == fviews(frames@),
    {
        FrameIter(frames)
    }

    /// Takes the next argument; `EndOfStream` when none remain.
    fn next(&mut self) -> (r: Result<Frame, FrameError>)
        ensures
            match r {
                Result::Ok(f) => {
                    &&& old(self).rest().len() > 0
                    &&& fview(f) == old(self).rest()[0]
                    &&& final(self).rest() == old(self).rest().drop_first()
                },
                Result::Err(e) => {
                    &&& e == FrameError::EndOfStream
                    &&& old(self).rest().len() == 0
                    &&& final(self).rest() == old(self).rest()
                },
            },
    {
        proof {
            lemma_fviews(self.0@);
        }
        if self.0.len() > 0 {
            let f = self.0.remove(0);
            proof {
                lemma_fviews(self.0@);
                assert(self.0@ =~= old(self).0@.drop_first());
                assert(final(self).rest() =~= old(self).rest().drop_first());
            }
            Ok(f)
        } else {
            Err(FrameError::EndOfStream)
        }
    }

    /// Takes the next argument as a string.
    pub fn next_string(&mut self) -> (r: Result<String, FrameError>)
        ensures
            match r {
                Result::Ok(s) => {
                    &&& old(self).rest().len() > 0
                    &&& as_string(old(self).rest()[0]) == Option::Some(s@)
                    &&& final(self).rest() == old(self).rest().drop_first()
                },
                Result::Err(e) => match e {
                    FrameError::EndOfStream => old(self).rest().len() == 0 && final(self).rest()
                        == old(self).rest(),
                    FrameError::Protocol(_) => {
                        &&& old(self).rest().len() > 0
                        &&& as_string(old(self).rest()[0]) is None
                        &&& final(self).rest() == old(self).rest().drop_first()
                    },
                    FrameError::Incomplete => false,
                },
            },
    {
        match self.next() {
            Result::Ok(f) => match f {
                Frame::Simple(s) => Ok(s),
                Frame::Bulk(d) => match bytes_to_string(d.as_slice()) {
                    Option::Some(s) => Ok(s),
                    Option::None => Err(
                        FrameError::Protocol("protocol error; invalid string".to_owned()),
                    ),
                },
                _ => Err(
                    FrameError::Protocol(
                        "protocol error; expected simple or bulk frame".to_owned(),
                    ),
                ),
            },
            Result::Err(e) => Err(e),
        }
    }

    /// Takes the next argument as a byte-string.
    pub fn next_bytes(&mut self) -> (r: Result<Vec<u8>, FrameError>)
        ensures
            match r {
                Result::Ok(v) => {
                    &&& old(self).rest().len() > 0
                    &&& as_bytes(old(self).rest()[0]) == Option::Some(v@)
                    &&& final(self).rest() == old(self).rest().drop_first()
                },
                Result::Err(e) => match e {
                    FrameError::EndOfStream => old(self).rest().len() == 0 && final(self).rest()
                        == old(self).rest(),
                    FrameError::Protocol(_) => {
                        &&& old(self).rest().len() > 0
                        &&& as_bytes(old(self).rest()[0]) is None
                        &&& final(self).rest() == old(self).rest().drop_first()
                    },
                    FrameError::Incomplete => false,
                },
            },
    {
        match self.next() {
            Result::Ok(f) => match f {
                Frame::Bulk(d) => Ok(d),
                Frame::Simple(s) => {
                    let v = s.as_str().as_bytes_vec();
                    Ok(v)
                },
                _ => Err(
                    FrameError::Protocol(
                        "protocol error; expected simple or bulk frame".to_owned(),
                    ),
                ),
            },
            Result::Err(e) => Err(e),
        }
    }

    /// Takes the next argument as a signed 64-bit integer.
    pub fn next_int(&mut self) -> (r: Result<i64, FrameError>)
        ensures
            match r {
                Result::Ok(v) => {
                    &&& old(self).rest().len() > 0
                    &&& as_int(old(self).rest()[0]) == Option::Some(v as int)
                    &&& final(self).rest() == old(self).rest().drop_first()
                },
                Result::Err(e) => match e {
                    FrameError::EndOfStream => old(self).rest().len() == 0 && final(self).rest()
                        == old(self).rest(),
                    FrameError::Protocol(_) => {
                        &&& old(self).rest().len() > 0
                        &&& as_int(old(self).rest()[0]) is None
                        &&& final(self).rest() == old(self).rest().drop_first()
                    },
                    FrameError::Incomplete => false,
                },
            },
    {
        match self.next() {
            Result::Ok(f) => match f {
                Frame::Integer(v) => Ok(v),
                Frame::Simple(s) => match atoi_i64(s.as_str().as_bytes()) {
                    Option::Some(v) => Ok(v),
                    Option::None => Err(
                        FrameError::Protocol("protocol error; invalid number".to_owned()),
                    ),
                },
                Frame::Bulk(d) => match atoi_i64(d.as_slice()) {
                    Option::Some(v) => Ok(v),
                    Option::None => Err(
                        FrameError::Protocol("protocol error; invalid number".to_owned()),
                    ),
                },
                _ => Err(
                    FrameError::Protocol("protocol error; expected int frame".to_owned()),
                ),
            },
            Result::Err(e) => Err(e),
        }
    }

    /// Requires that every argument has been consumed.
    pub fn finish(&mut self) -> (r: Result<(), FrameError>)
        ensures
            final(self).rest() == old(self).rest(),
            match r {
                Result::Ok(()) => old(self).rest().len() == 0,
                Result::Err(e) => e matches FrameError::Protocol(_) && old(self).rest().len() > 0,
            },
    {
        proof {
            lemma_fviews(self.0@);
        }
        if !self.has_remaining() {
            Ok(())
        } else {
            Err(
                FrameError::Protocol(
                    "protocol error; expected end of frame, but there was more".to_owned(),
                ),
            )
        }
    }

    /// Whether any argument remains.
    pub fn has_remaining(&self) -> (r: bool)
        ensures
            r == (self.rest().len() > 0),
    {
        proof {
            lemma_fviews(self.0@);
        }
        self.0.len() > 0
    }
}


} // verus!
