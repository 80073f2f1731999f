//! The laws of the frame codec: decoding inverts encoding, and decoding any
//! strict prefix of a valid encoding reports an incomplete buffer.

use vstd::prelude::*;

use crate::frame::{
    enc, enc_all, fview, line_end, line_num, parse_at, parse_many, Frame, FrameS, LOut, POut,
    PMany, crlf, lemma_line_end, lemma_line_end_found,
};
use crate::num::{
    dec_digits, i64_dec, is_digit, lemma_atoi_i64_dec, lemma_dec_digits,
};
use vstd::utf8::{
    decode_utf8, encode_utf8, encode_utf8_decode_utf8, encode_utf8_valid_utf8,
    is_leading_byte_width_1, partial_valid_utf8, partial_valid_utf8_extend_ascii_block,
    valid_utf8,
};

verus! {

broadcast use vstd::seq::axiom_seq_index_decreases, vstd::seq::axiom_seq_subrange_decreases;

/// True of line payloads that never contain the CRLF pair, so that the
/// terminator after them is the first one a scanner meets.
pub open spec fn line_clean(u: Seq<u8>) -> bool {
    forall|j: int| 0 <= j < u.len() - 1 ==> !((#[trigger] u[j]) == 13 && u[j + 1] == 10)
}

/// A frame that the wire grammar can carry faithfully: line payloads hold no
/// embedded terminator, and lengths fit the signed 64-bit length headers.
pub open spec fn wf(fs: FrameS) -> bool
    decreases fs,
{
    match fs {
        FrameS::Simple(s) => line_clean(encode_utf8(s)),
        FrameS::Error(s) => line_clean(encode_utf8(s)),
        FrameS::Integer(v) => i64::MIN <= v <= i64::MAX,
        FrameS::Bulk(d) => d.len() <= i64::MAX,
        FrameS::Array(a) => a.len() <= i64::MAX && forall|i: int|
            0 <= i < a.len() ==> wf(#[trigger] a[i]),
    }
}

/// Bytes of an all-ASCII sequence form valid UTF-8.
proof fn lemma_ascii_valid(u: Seq<u8>)
    requires
        forall|j: int| 0 <= j < u.len() ==> (#[trigger] u[j]) < 128,
    ensures
        valid_utf8(u),
{
    assert(u.subrange(0, 0) =~= Seq::<u8>::empty());
    assert(partial_valid_utf8(u, 0));
    assert(forall|i: int| 0 <= i < u.len() ==> is_leading_byte_width_1(#[trigger] u[i]));
    partial_valid_utf8_extend_ascii_block(u, 0, u.len() as int);
    assert(u.subrange(0, u.len() as int) =~= u);
}

/// From a subrange equality, each byte of the window agrees.
proof fn lemma_sub_index(b: Seq<u8>, pos: int, s: Seq<u8>)
    requires
        0 <= pos,
        pos + s.len() <= b.len(),
        b.subrange(pos, pos + s.len() as int) == s,
    ensures
        forall|j: int| 0 <= j < s.len() ==> b[pos + j] == #[trigger] s[j],
{
    assert forall|j: int| 0 <= j < s.len() implies b[pos + j] == s[j] by {
        assert(b.subrange(pos, pos + s.len() as int)[j] == s[j]);
    }
}

/// The bytes of a decimal number: a possible leading sign, then digits, all
/// ASCII and free of CR and LF.
proof fn lemma_i64_dec_bytes(v: int)
    requires
        i64::MIN <= v <= i64::MAX,
    ensures
        i64_dec(v).len() >= 1,
        forall|j: int| 0 <= j < i64_dec(v).len() ==> ((#[trigger] i64_dec(v)[j]) == 45
            || is_digit(i64_dec(v)[j])),
        forall|j: int| 0 <= j < i64_dec(v).len() ==> (#[trigger] i64_dec(v)[j]) < 128,
        line_clean(i64_dec(v)),
{
    if v < 0 {
        lemma_dec_digits(-v);
    } else {
        lemma_dec_digits(v);
    }
}

/// Every encoding is at least one byte long.
proof fn lemma_enc_len(fs: FrameS)
    ensures
        enc(fs).len() >= 1,
{
}

/// A terminator-free line embedded at `pos`, followed by CRLF, is exactly
/// what the line scanner finds.
proof fn lemma_clean_line_end(b: Seq<u8>, pos: int, u: Seq<u8>, rest: int)
    requires
        0 <= pos,
        0 <= rest,
        line_clean(u),
        pos + u.len() + 2 + rest <= b.len(),
        b.subrange(pos, pos + u.len() as int) == u,
        b[pos + u.len() as int] == 13,
        b[pos + u.len() as int + 1] == 10,
    ensures
        line_end(b, pos) == Option::Some(pos + u.len() as int),
{
    lemma_sub_index(b, pos, u);
    let e = pos + u.len() as int;
    assert forall|j: int| pos <= j < e implies !((#[trigger] b[j]) == 13 && b[j + 1] == 10) by {
        assert(b[j] == u[j - pos]);
        if j + 1 < e {
            assert(b[j + 1] == u[j + 1 - pos]);
            assert(!(u[j - pos] == 13 && u[j - pos + 1] == 10));
        } else {
            assert(b[j + 1] == 13);
        }
    }
    lemma_line_end_found(b, pos, e);
}

/// A number line embedded at `pos` reads back as its value.
proof fn lemma_line_num_at(b: Seq<u8>, pos: int, v: int, rest: int)
    requires
        i64::MIN <= v <= i64::MAX,
        0 <= pos,
        0 <= rest,
        pos + i64_dec(v).len() + 2 + rest <= b.len(),
        b.subrange(pos, pos + i64_dec(v).len() as int) == i64_dec(v),
        b[pos + i64_dec(v).len()] == 13,
        b[pos + i64_dec(v).len() + 1] == 10,
    ensures
        line_num(b, pos) == LOut::Num(v, pos + i64_dec(v).len() + 2),
{
    let u = i64_dec(v);
    lemma_i64_dec_bytes(v);
    lemma_clean_line_end(b, pos, u, rest);
    let e = pos + u.len() as int;
    assert(b.subrange(pos, e) =~= u);
    lemma_ascii_valid(u);
    lemma_atoi_i64_dec(v);
}

/// Decoding at an embedded encoding of a well-formed frame yields that frame
/// and stops exactly at its end.
pub proof fn lemma_parse_enc(b: Seq<u8>, pos: int, fs: FrameS)
    requires
        wf(fs),
        0 <= pos,
        pos + enc(fs).len() <= b.len(),
        b.subrange(pos, pos + enc(fs).len() as int) == enc(fs),
    ensures
        parse_at(b, pos) == POut::Val(fs, pos + enc(fs).len()),
    decreases fs,
{
    let w = enc(fs);
    lemma_sub_index(b, pos, w);
    match fs {
        FrameS::Simple(s) => {
            let u = encode_utf8(s);
            assert(b[pos] == w[0] && w[0] == 43);
            let e = pos + 1 + u.len() as int;
            assert(b.subrange(pos + 1, e) =~= u) by {
                assert forall|j: int| 0 <= j < u.len() implies b.subrange(pos + 1, e)[j] == u[j] by {
                    assert(b[pos + 1 + j] == w[1 + j]);
                }
            }
            assert(b[e] == w[1 + u.len() as int] && w[1 + u.len() as int] == 13);
            assert(b[e + 1] == w[2 + u.len() as int] && w[2 + u.len() as int] == 10);
            lemma_clean_line_end(b, pos + 1, u, 0);
            assert(b.subrange(pos + 1, e) =~= u);
            encode_utf8_valid_utf8(s);
            encode_utf8_decode_utf8(s);
        },
        FrameS::Error(s) => {
            let u = encode_utf8(s);
            assert(b[pos] == w[0] && w[0] == 45);
            let e = pos + 1 + u.len() as int;
            assert(b.subrange(pos + 1, e) =~= u) by {
                assert forall|j: int| 0 <= j < u.len() implies b.subrange(pos + 1, e)[j] == u[j] by {
                    assert(b[pos + 1 + j] == w[1 + j]);
                }
            }
            assert(b[e] == w[1 + u.len() as int] && w[1 + u.len() as int] == 13);
            assert(b[e + 1] == w[2 + u.len() as int] && w[2 + u.len() as int] == 10);
            lemma_clean_line_end(b, pos + 1, u, 0);
            assert(b.subrange(pos + 1, e) =~= u);
            encode_utf8_valid_utf8(s);
            encode_utf8_decode_utf8(s);
        },
        FrameS::Integer(v) => {
            let u = i64_dec(v);
            assert(b[pos] == w[0] && w[0] == 58);
            assert(b.subrange(pos + 1, pos + 1 + u.len() as int) =~= u) by {
                assert forall|j: int| 0 <= j < u.len() implies b.subrange(
                    pos + 1,
                    pos + 1 + u.len() as int,
                )[j] == u[j] by {
                    assert(b[pos + 1 + j] == w[1 + j]);
                }
            }
            assert(b[pos + 1 + u.len() as int] == w[1 + u.len() as int] && w[1 + u.len() as int] == 13);
            assert(b[pos + 1 + u.len() as int + 1] == w[2 + u.len() as int] && w[2 + u.len() as int] == 10);
            lemma_line_num_at(b, pos + 1, v, 0);
        },
        FrameS::Bulk(d) => {
            let u = i64_dec(d.len() as int);
            assert(u == dec_digits(d.len() as int));
            assert(b[pos] == w[0] && w[0] == 36);
            assert(b.subrange(pos + 1, pos + 1 + u.len() as int) =~= u) by {
                assert forall|j: int| 0 <= j < u.len() implies b.subrange(
                    pos + 1,
                    pos + 1 + u.len() as int,
                )[j] == u[j] by {
                    assert(b[pos + 1 + j] == w[1 + j]);
                }
            }
            assert(b[pos + 1 + u.len() as int] == w[1 + u.len() as int] && w[1 + u.len() as int] == 13);
            assert(b[pos + 1 + u.len() as int + 1] == w[2 + u.len() as int] && w[2 + u.len() as int] == 10);
            lemma_line_num_at(b, pos + 1, d.len() as int, d.len() as int + 2);
            let p2 = pos + 1 + u.len() as int + 2;
            assert(b[p2 + d.len() as int] == w[3 + u.len() as int + d.len() as int]);
            assert(w[3 + u.len() as int + d.len() as int] == 13);
            assert(b[p2 + d.len() as int + 1] == w[4 + u.len() as int + d.len() as int] && w[4 + u.len() as int + d.len() as int]
                == 10);
            assert(b.subrange(p2, p2 + d.len() as int) =~= d) by {
                assert forall|j: int| 0 <= j < d.len() implies b.subrange(
                    p2,
                    p2 + d.len() as int,
                )[j] == d[j] by {
                    assert(b[p2 + j] == w[3 + u.len() as int + j]);
                }
            }
        },
        FrameS::Array(a) => {
            let u = i64_dec(a.len() as int);
            assert(u == dec_digits(a.len() as int));
            assert(b[pos] == w[0] && w[0] == 42);
            assert(b.subrange(pos + 1, pos + 1 + u.len() as int) =~= u) by {
                assert forall|j: int| 0 <= j < u.len() implies b.subrange(
                    pos + 1,
                    pos + 1 + u.len() as int,
                )[j] == u[j] by {
                    assert(b[pos + 1 + j] == w[1 + j]);
                }
            }
            assert(b[pos + 1 + u.len() as int] == w[1 + u.len() as int] && w[1 + u.len() as int] == 13);
            assert(b[pos + 1 + u.len() as int + 1] == w[2 + u.len() as int] && w[2 + u.len() as int] == 10);
            lemma_line_num_at(b, pos + 1, a.len() as int, enc_all(a).len() as int);
            let p2 = pos + 1 + u.len() as int + 2;
            assert(b.subrange(p2, p2 + enc_all(a).len() as int) =~= enc_all(a)) by {
                assert forall|j: int| 0 <= j < enc_all(a).len() implies b.subrange(
                    p2,
                    p2 + enc_all(a).len() as int,
                )[j] == enc_all(a)[j] by {
                    assert(b[p2 + j] == w[3 + u.len() as int + j]);
                }
            }
            lemma_parse_enc_many(b, p2, a);
        },
    }
}

/// Decoding at embedded encodings of a run of well-formed frames yields that
/// run.
pub proof fn lemma_parse_enc_many(b: Seq<u8>, pos: int, a: Seq<FrameS>)
    requires
        forall|i: int| 0 <= i < a.len() ==> wf(#[trigger] a[i]),
        0 <= pos,
        pos + enc_all(a).len() <= b.len(),
        b.subrange(pos, pos + enc_all(a).len() as int) == enc_all(a),
    ensures
        parse_many(b, pos, a.len() as int) == PMany::Val(a, pos + enc_all(a).len()),
    decreases a,
{
    if a.len() == 0 {
        assert(a =~= Seq::<FrameS>::empty());
    } else {
        let f0 = a.first();
        let l1 = enc(f0).len() as int;
        lemma_sub_index(b, pos, enc_all(a));
        assert(b.subrange(pos, pos + l1) =~= enc(f0)) by {
            assert forall|j: int| 0 <= j < l1 implies b.subrange(pos, pos + l1)[j] == enc(f0)[j] by {
                assert(b[pos + j] == enc_all(a)[j]);
                assert(enc_all(a)[j] == (enc(f0) + enc_all(a.drop_first()))[j]);
            }
        }
        lemma_parse_enc(b, pos, f0);
        lemma_enc_len(f0);
        let rest = a.drop_first();
        assert(b.subrange(pos + l1, pos + l1 + enc_all(rest).len() as int) =~= enc_all(rest)) by {
            assert forall|j: int| 0 <= j < enc_all(rest).len() implies b.subrange(
                pos + l1,
                pos + l1 + enc_all(rest).len() as int,
            )[j] == enc_all(rest)[j] by {
                assert(b[pos + l1 + j] == enc_all(a)[l1 + j]);
                assert(enc_all(a)[l1 + j] == (enc(f0) + enc_all(rest))[l1 + j]);
            }
        }
        lemma_parse_enc_many(b, pos + l1, rest);
        assert(seq![f0] + rest =~= a);
    }
}

/// Round trip: decoding the encoding of any well-formed frame yields exactly
/// that frame, consuming exactly its bytes.
pub proof fn lemma_round_trip(f: Frame)
    requires
        wf(fview(f)),
    ensures
        parse_at(enc(fview(f)), 0) == POut::Val(fview(f), enc(fview(f)).len() as int),
{
    let w = enc(fview(f));
    assert(w.subrange(0, w.len() as int) =~= w);
    lemma_parse_enc(w, 0, fview(f));
}

/// When no CRLF pair lies wholly inside the scanned region, the scanner
/// finds nothing.
proof fn lemma_line_end_none(s: Seq<u8>, i: int)
    requires
        0 <= i,
        forall|j: int| i <= j < s.len() - 1 ==> !((#[trigger] s[j]) == 13 && s[j + 1] == 10),
    ensures
        line_end(s, i) is None,
{
    lemma_line_end(s, i);
    if let Option::Some(e) = line_end(s, i) {
        assert(!(s[e] == 13 && s[e + 1] == 10));
    }
}

/// A clean line cut anywhere before the end of its terminator leaves the
/// scanner with nothing to find.
proof fn lemma_cut_line_none(b: Seq<u8>, pos: int, u: Seq<u8>)
    requires
        0 <= pos <= b.len(),
        line_clean(u),
        b.len() - pos < u.len() + 2,
        b.subrange(pos, b.len() as int) == (u + crlf()).subrange(0, b.len() - pos),
    ensures
        line_end(b, pos) is None,
{
    let m = b.len() - pos;
    let w = (u + crlf()).subrange(0, m);
    lemma_sub_index(b, pos, w);
    assert forall|j: int| pos <= j < b.len() - 1 implies !((#[trigger] b[j]) == 13 && b[j + 1]
        == 10) by {
        assert(b[j] == w[j - pos]);
        assert(b[j + 1] == w[j + 1 - pos]);
        if j + 1 - pos < u.len() {
            assert(w[j - pos] == u[j - pos]);
            assert(w[j + 1 - pos] == u[j + 1 - pos]);
            assert(!(u[j - pos] == 13 && u[j - pos + 1] == 10));
        } else {
            assert(j + 1 - pos == u.len());
            assert(w[j + 1 - pos] == 13);
        }
    }
    lemma_line_end_none(b, pos);
}

/// Decoding at a strict prefix of an embedded well-formed encoding reports
/// an incomplete buffer, never a value and never a protocol error.
pub proof fn lemma_parse_prefix(b: Seq<u8>, pos: int, fs: FrameS)
    requires
        wf(fs),
        0 <= pos <= b.len(),
        b.len() - pos < enc(fs).len(),
        b.subrange(pos, b.len() as int) == enc(fs).subrange(0, b.len() - pos),
    ensures
        parse_at(b, pos) == POut::Incomplete,
    decreases fs,
{
    let w = enc(fs);
    let m = b.len() - pos;
    lemma_sub_index(b, pos, w.subrange(0, m));
    assert forall|j: int| 0 <= j < m implies b[pos + j] == (#[trigger] w[j]) by {
        assert(b[pos + j] == w.subrange(0, m)[j]);
    }
    if m == 0 {
    } else {
        match fs {
            FrameS::Simple(s) => {
                let u = encode_utf8(s);
                assert(b[pos] == w[0] && w[0] == 43);
                assert(b.subrange(pos + 1, b.len() as int) =~= (u + crlf()).subrange(
                    0,
                    b.len() - (pos + 1),
                )) by {
                    assert forall|j: int|
                        #![trigger (u + crlf()).subrange(0, b.len() - (pos + 1))[j]]
                        0 <= j < m - 1 implies b.subrange(
                        pos + 1,
                        b.len() as int,
                    )[j] == (u + crlf()).subrange(0, b.len() - (pos + 1))[j] by {
                        assert(b[pos + 1 + j] == w[1 + j]);
                    }
                }
                lemma_cut_line_none(b, pos + 1, u);
            },
            FrameS::Error(s) => {
                let u = encode_utf8(s);
                assert(b[pos] == w[0] && w[0] == 45);
                assert(b.subrange(pos + 1, b.len() as int) =~= (u + crlf()).subrange(
                    0,
                    b.len() - (pos + 1),
                )) by {
                    assert forall|j: int|
                        #![trigger (u + crlf()).subrange(0, b.len() - (pos + 1))[j]]
                        0 <= j < m - 1 implies b.subrange(
                        pos + 1,
                        b.len() as int,
                    )[j] == (u + crlf()).subrange(0, b.len() - (pos + 1))[j] by {
                        assert(b[pos + 1 + j] == w[1 + j]);
                    }
                }
                lemma_cut_line_none(b, pos + 1, u);
            },
            FrameS::Integer(v) => {
                let u = i64_dec(v);
                lemma_i64_dec_bytes(v);
                assert(b[pos] == w[0] && w[0] == 58);
                assert(b.subrange(pos + 1, b.len() as int) =~= (u + crlf()).subrange(
                    0,
                    b.len() - (pos + 1),
                )) by {
                    assert forall|j: int|
                        #![trigger (u + crlf()).subrange(0, b.len() - (pos + 1))[j]]
                        0 <= j < m - 1 implies b.subrange(
                        pos + 1,
                        b.len() as int,
                    )[j] == (u + crlf()).subrange(0, b.len() - (pos + 1))[j] by {
                        assert(b[pos + 1 + j] == w[1 + j]);
                    }
                }
                lemma_cut_line_none(b, pos + 1, u);
            },
            FrameS::Bulk(d) => {
                let u = i64_dec(d.len() as int);
                lemma_i64_dec_bytes(d.len() as int);
                assert(b[pos] == w[0] && w[0] == 36);
                let hl = 3 + u.len() as int;
                if m < hl {
                    assert(b.subrange(pos + 1, b.len() as int) =~= (u + crlf()).subrange(
                        0,
                        b.len() - (pos + 1),
                    )) by {
                        assert forall|j: int|
                            #![trigger (u + crlf()).subrange(0, b.len() - (pos + 1))[j]]
                            0 <= j < m - 1 implies b.subrange(
                            pos + 1,
                            b.len() as int,
                        )[j] == (u + crlf()).subrange(0, b.len() - (pos + 1))[j] by {
                            assert(b[pos + 1 + j] == w[1 + j]);
                        }
                    }
                    lemma_cut_line_none(b, pos + 1, u);
                } else {
                    assert(b.subrange(pos + 1, pos + 1 + u.len() as int) =~= u) by {
                        assert forall|j: int| 0 <= j < u.len() implies b.subrange(
                            pos + 1,
                            pos + 1 + u.len() as int,
                        )[j] == u[j] by {
                            assert(b[pos + 1 + j] == w[1 + j]);
                        }
                    }
                    assert(b[pos + 1 + u.len() as int] == w[1 + u.len() as int] && w[1 + u.len() as int] == 13);
                    assert(b[pos + 1 + u.len() as int + 1] == w[2 + u.len() as int] && w[2 + u.len() as int] == 10);
                    lemma_clean_line_end(b, pos + 1, u, m - hl);
                    assert(b.subrange(pos + 1, pos + 1 + u.len() as int) =~= u);
                    lemma_ascii_valid(u);
                    lemma_atoi_i64_dec(d.len() as int);
                    assert(line_num(b, pos + 1) == LOut::Num(d.len() as int, pos + hl));
                    assert(b.len() - (pos + hl) < d.len() + 2);
                }
            },
            FrameS::Array(a) => {
                let u = i64_dec(a.len() as int);
                lemma_i64_dec_bytes(a.len() as int);
                assert(b[pos] == w[0] && w[0] == 42);
                let hl = 3 + u.len() as int;
                if m < hl {
                    assert(b.subrange(pos + 1, b.len() as int) =~= (u + crlf()).subrange(
                        0,
                        b.len() - (pos + 1),
                    )) by {
                        assert forall|j: int|
                            #![trigger (u + crlf()).subrange(0, b.len() - (pos + 1))[j]]
                            0 <= j < m - 1 implies b.subrange(
                            pos + 1,
                            b.len() as int,
                        )[j] == (u + crlf()).subrange(0, b.len() - (pos + 1))[j] by {
                            assert(b[pos + 1 + j] == w[1 + j]);
                        }
                    }
                    lemma_cut_line_none(b, pos + 1, u);
                } else {
                    assert(b.subrange(pos + 1, pos + 1 + u.len() as int) =~= u) by {
                        assert forall|j: int| 0 <= j < u.len() implies b.subrange(
                            pos + 1,
                            pos + 1 + u.len() as int,
                        )[j] == u[j] by {
                            assert(b[pos + 1 + j] == w[1 + j]);
                        }
                    }
                    assert(b[pos + 1 + u.len() as int] == w[1 + u.len() as int] && w[1 + u.len() as int] == 13);
                    assert(b[pos + 1 + u.len() as int + 1] == w[2 + u.len() as int] && w[2 + u.len() as int] == 10);
                    lemma_clean_line_end(b, pos + 1, u, m - hl);
                    assert(b.subrange(pos + 1, pos + 1 + u.len() as int) =~= u);
                    lemma_ascii_valid(u);
                    lemma_atoi_i64_dec(a.len() as int);
                    assert(line_num(b, pos + 1) == LOut::Num(a.len() as int, pos + hl));
                    let p2 = pos + hl;
                    assert(b.subrange(p2, b.len() as int) =~= enc_all(a).subrange(0, b.len() - p2))
                        by {
                        assert forall|j: int|
                            #![trigger enc_all(a).subrange(0, b.len() - p2)[j]]
                            0 <= j < b.len() - p2 implies b.subrange(
                            p2,
                            b.len() as int,
                        )[j] == enc_all(a).subrange(0, b.len() - p2)[j] by {
                            assert(b[p2 + j] == w[hl + j]);
                            assert(w[hl + j] == enc_all(a)[j]);
                        }
                    }
                    lemma_parse_prefix_many(b, p2, a);
                }
            },
        }
    }
}

/// Decoding a run of frames from a strict prefix of their embedded
/// encodings reports an incomplete buffer.
pub proof fn lemma_parse_prefix_many(b: Seq<u8>, pos: int, a: Seq<FrameS>)
    requires
        forall|i: int| 0 <= i < a.len() ==> wf(#[trigger] a[i]),
        0 <= pos <= b.len(),
        b.len() - pos < enc_all(a).len(),
        b.subrange(pos, b.len() as int) == enc_all(a).subrange(0, b.len() - pos),
    ensures
        parse_many(b, pos, a.len() as int) == PMany::Incomplete,
    decreases a,
{
    let m = b.len() - pos;
    assert(a.len() > 0);
    let f0 = a.first();
    let rest = a.drop_first();
    let l1 = enc(f0).len() as int;
    lemma_sub_index(b, pos, enc_all(a).subrange(0, m));
    assert forall|j: int| 0 <= j < m implies b[pos + j] == (#[trigger] enc_all(a)[j]) by {
        assert(b[pos + j] == enc_all(a).subrange(0, m)[j]);
    }
    assert(enc_all(a) == enc(f0) + enc_all(rest));
    if m < l1 {
        assert(b.subrange(pos, b.len() as int) =~= enc(f0).subrange(0, m)) by {
            assert forall|j: int|
                #![trigger enc(f0).subrange(0, m)[j]]
                0 <= j < m implies b.subrange(pos, b.len() as int)[j] == enc(
                f0,
            ).subrange(0, m)[j] by {
                assert(b[pos + j] == enc_all(a)[j]);
            }
        }
        lemma_parse_prefix(b, pos, f0);
    } else {
        assert(b.subrange(pos, pos + l1) =~= enc(f0)) by {
            assert forall|j: int| 0 <= j < l1 implies b.subrange(pos, pos + l1)[j] == enc(f0)[j] by {
                assert(b[pos + j] == enc_all(a)[j]);
            }
        }
        lemma_parse_enc(b, pos, f0);
        lemma_enc_len(f0);
        assert(b.subrange(pos + l1, b.len() as int) =~= enc_all(rest).subrange(
            0,
            b.len() - (pos + l1),
        )) by {
            assert forall|j: int|
                #![trigger enc_all(rest).subrange(0, b.len() - (pos + l1))[j]]
                0 <= j < m - l1 implies b.subrange(pos + l1, b.len() as int)[j]
                == enc_all(rest).subrange(0, b.len() - (pos + l1))[j] by {
                assert(b[pos + l1 + j] == enc_all(a)[l1 + j]);
            }
        }
        lemma_parse_prefix_many(b, pos + l1, rest);
    }
}

/// Incompleteness monotonicity: decoding any strict prefix of a valid
/// encoded frame yields `Incomplete`, never a wrong frame and never a
/// protocol error.
pub proof fn lemma_prefix_incomplete(f: Frame, n: int)
    requires
        wf(fview(f)),
        0 <= n < enc(fview(f)).len(),
    ensures
        parse_at(enc(fview(f)).subrange(0, n), 0) == POut::Incomplete,
{
    let w = enc(fview(f));
    let b = w.subrange(0, n);
    assert(b.subrange(0, b.len() as int) =~= w.subrange(0, n));
    lemma_parse_prefix(b, 0, fview(f));
}


} // verus!
