//! The command grammar and dispatcher: a decoded request frame becomes a
//! typed command through one parser per command name, and a command executes
//! against the store to produce a response frame.

use vstd::prelude::*;

use crate::frame::{
    as_bytes, as_int, as_string, fview, Frame, FrameError, FrameIter, FrameS, fviews,
};
use crate::num::{i64_dec, spec_atoi64, atoi_i64, i64_to_dec};
use crate::store::{key_views, live_bytes, prev_bytes, remove_upto, EntryS, Store, ValueS};
use crate::text::{str_eq, to_upper, upper_of};
use vstd::string::{StrSliceExecFns, StringExecFns};
use vstd::utf8::encode_utf8;

verus! {

/// The model of a parsed SET command.
pub struct SetS {
    pub key: Seq<char>,
    pub value: Seq<u8>,
    pub expire_at: Option<u64>,
    pub nx: bool,
    pub xx: bool,
    pub get_old: bool,
    pub keep_ttl: bool,
}

/// The model of a parsed command.
pub enum CmdS {
    SetC(SetS),
    GetC(Seq<char>),
    MGetC(Seq<Seq<char>>),
    DelC(Seq<Seq<char>>),
    DecrByC { key: Seq<char>, decrement: int },
    AppendC { key: Seq<char>, value: Seq<u8> },
    PingC,
    UnknownC(Seq<char>),
}

/// How parsing a request fails: the cursor ran out of arguments, or an
/// argument was malformed.
pub enum PErr {
    Eos,
    Bad,
}

/// `x` clamped into the unsigned 64-bit range from above.
pub open spec fn clamp_u64(x: int) -> u64 {
    if x > u64::MAX {
        u64::MAX
    } else {
        x as u64
    }
}

/// The longest run of string-like arguments at the front of the list.
pub open spec fn string_prefix(args: Seq<FrameS>) -> Seq<Seq<char>>
    decreases args.len(),
{
    if args.len() == 0 {
        Seq::empty()
    } else {
        match as_string(args[0]) {
            Option::None => Seq::empty(),
            Option::Some(k) => seq![k] + string_prefix(args.drop_first()),
        }
    }
}

/// A string prefix is never longer than the argument list.
pub proof fn lemma_string_prefix_len(args: Seq<FrameS>)
    ensures
        string_prefix(args).len() <= args.len(),
    decreases args.len(),
{
    if args.len() > 0 {
        match as_string(args[0]) {
            Option::None => {},
            Option::Some(_) => {
                lemma_string_prefix_len(args.drop_first());
            },
        }
    }
}

/// The outcome of reading the option keywords of a SET request.
pub enum OptsOut {
    Done(SetS),
    Short,
    BadTok,
}

/// A fresh SET with neither options nor expiry.
pub open spec fn set_init(k: Seq<char>, v: Seq<u8>) -> SetS {
    SetS {
        key: k,
        value: v,
        expire_at: Option::None,
        nx: false,
        xx: false,
        get_old: false,
        keep_ttl: false,
    }
}

/// Reads the option keywords of a SET request left to right: expiry options
/// take one integer argument and convert to an absolute instant in
/// milliseconds, saturating at the top of the range; flag keywords stand
/// alone; an unrecognized or non-string keyword, or a negative or
/// unreadable amount, is a protocol error; a missing amount exhausts the
/// cursor.
pub open spec fn set_opts(args: Seq<FrameS>, now: u64, acc: SetS) -> OptsOut
    decreases args.len(),
{
    if args.len() == 0 {
        OptsOut::Done(acc)
    } else {
        match as_string(args[0]) {
            Option::None => OptsOut::BadTok,
            Option::Some(kw0) => {
                let kw = upper_of(kw0);
                if kw == "EX"@ || kw == "PX"@ || kw == "EXAT"@ || kw == "PXAT"@ {
                    if args.len() < 2 {
                        OptsOut::Short
                    } else {
                        match as_int(args[1]) {
                            Option::None => OptsOut::BadTok,
                            Option::Some(v) => if v < 0 {
                                OptsOut::BadTok
                            } else {
                                let e: u64 = if kw == "EX"@ {
                                    clamp_u64(now + v * 1000)
                                } else if kw == "PX"@ {
                                    clamp_u64(now + v)
                                } else if kw == "EXAT"@ {
                                    clamp_u64(v * 1000)
                                } else {
                                    clamp_u64(v)
                                };
                                set_opts(
                                    args.skip(2),
                                    now,
                                    SetS { expire_at: Option::Some(e), ..acc },
                                )
                            },
                        }
                    }
                } else if kw == "NX"@ {
                    set_opts(args.skip(1), now, SetS { nx: true, ..acc })
                } else if kw == "XX"@ {
                    set_opts(args.skip(1), now, SetS { xx: true, ..acc })
                } else if kw == "GET"@ {
                    set_opts(args.skip(1), now, SetS { get_old: true, ..acc })
                } else if kw == "KEEPTTL"@ {
                    set_opts(args.skip(1), now, SetS { keep_ttl: true, ..acc })
                } else {
                    OptsOut::BadTok
                }
            },
        }
    }
}

/// What a request frame parses to: the dispatcher requires an array, reads
/// the first element as the case-insensitive command name, hands the rest to
/// that command's parser, and rejects leftover arguments.
pub open spec fn cmd_of(fs: FrameS, now: u64) -> Result<CmdS, PErr> {
    match fs {
        FrameS::Array(args) => {
            if args.len() == 0 {
                Result::Err(PErr::Eos)
            } else {
                match as_string(args[0]) {
                    Option::None => Result::Err(PErr::Bad),
                    Option::Some(name) => cmd_named(
                        upper_of(name),
                        name,
                        args.drop_first(),
                        now,
                    ),
                }
            }
        },
        _ => Result::Err(PErr::Bad),
    }
}

/// The per-command grammars, selected by the uppercased name.
pub open spec fn cmd_named(up: Seq<char>, name: Seq<char>, rest: Seq<FrameS>, now: u64) -> Result<
    CmdS,
    PErr,
> {
    if up == "GET"@ {
        if rest.len() == 0 {
            Result::Err(PErr::Eos)
        } else {
            match as_string(rest[0]) {
                Option::None => Result::Err(PErr::Bad),
                Option::Some(k) => if rest.len() == 1 {
                    Result::Ok(CmdS::GetC(k))
                } else {
                    Result::Err(PErr::Bad)
                },
            }
        }
    } else if up == "MGET"@ {
        if string_prefix(rest).len() == rest.len() {
            Result::Ok(CmdS::MGetC(string_prefix(rest)))
        } else {
            Result::Err(PErr::Bad)
        }
    } else if up == "DEL"@ {
        if string_prefix(rest).len() == rest.len() {
            Result::Ok(CmdS::DelC(string_prefix(rest)))
        } else {
            Result::Err(PErr::Bad)
        }
    } else if up == "SET"@ {
        if rest.len() == 0 {
            Result::Err(PErr::Eos)
        } else {
            match as_string(rest[0]) {
                Option::None => Result::Err(PErr::Bad),
                Option::Some(k) => if rest.len() == 1 {
                    Result::Err(PErr::Eos)
                } else {
                    match as_bytes(rest[1]) {
                        Option::None => Result::Err(PErr::Bad),
                        Option::Some(v) => match set_opts(rest.skip(2), now, set_init(k, v)) {
                            OptsOut::Done(st) => Result::Ok(CmdS::SetC(st)),
                            OptsOut::Short => Result::Err(PErr::Eos),
                            OptsOut::BadTok => Result::Err(PErr::Bad),
                        },
                    }
                },
            }
        }
    } else if up == "APPEND"@ {
        if rest.len() == 0 {
            Result::Err(PErr::Eos)
        } else {
            match as_string(rest[0]) {
                Option::None => Result::Err(PErr::Bad),
                Option::Some(k) => if rest.len() == 1 {
                    Result::Err(PErr::Eos)
                } else {
                    match as_bytes(rest[1]) {
                        Option::None => Result::Err(PErr::Bad),
                        Option::Some(v) => if rest.len() == 2 {
                            Result::Ok(CmdS::AppendC { key: k, value: v })
                        } else {
                            Result::Err(PErr::Bad)
                        },
                    }
                },
            }
        }
    } else if up == "PING"@ {
        if rest.len() == 0 {
            Result::Ok(CmdS::PingC)
        } else {
            Result::Err(PErr::Bad)
        }
    } else if up == "DECRBY"@ || up == "DECR"@ {
        decr_grammar(rest, true)
    } else if up == "INCRBY"@ || up == "INCR"@ {
        decr_grammar(rest, false)
    } else {
        if rest.len() == 0 {
            Result::Ok(CmdS::UnknownC(name))
        } else {
            Result::Err(PErr::Bad)
        }
    }
}

/// The DECRBY/INCRBY grammar: a key, then an optional amount defaulting to
/// one; INCRBY negates the amount so that execution always subtracts.
pub open spec fn decr_grammar(rest: Seq<FrameS>, positive: bool) -> Result<CmdS, PErr> {
    if rest.len() == 0 {
        Result::Err(PErr::Eos)
    } else {
        match as_string(rest[0]) {
            Option::None => Result::Err(PErr::Bad),
            Option::Some(k) => if rest.len() == 1 {
                Result::Ok(
                    CmdS::DecrByC {
                        key: k,
                        decrement: if positive {
                            1
                        } else {
                            -1
                        },
                    },
                )
            } else {
                match as_int(rest[1]) {
                    Option::None => Result::Err(PErr::Bad),
                    Option::Some(v) => {
                        let d: int = if positive {
                            v
                        } else {
                            -v
                        };
                        if !(i64::MIN <= d <= i64::MAX) {
                            Result::Err(PErr::Bad)
                        } else if rest.len() > 2 {
                            Result::Err(PErr::Bad)
                        } else {
                            Result::Ok(CmdS::DecrByC { key: k, decrement: d })
                        }
                    },
                }
            },
        }
    }
}

/// GET: one key, answered with the live byte-string or nil.
#[derive(Debug)]
pub struct Get(pub String);

/// MGET: one answer per key, in request order.
#[derive(Debug)]
pub struct MultiGet {
    pub keys: Vec<String>,
}

/// DEL: removes each key, acknowledged with OK.
#[derive(Debug)]
pub struct Del(pub Vec<String>);

/// DECRBY/INCRBY: subtracts the (possibly negated) amount from the stored
/// decimal value.
#[derive(Debug)]
pub struct DecrBy {
    pub key: String,
    pub decrement: i64,
}

/// APPEND: concatenates bytes onto an existing value in place.
#[derive(Debug)]
pub struct Append {
    pub key: String,
    pub value: Vec<u8>,
}

/// PING: a fixed response.
#[derive(Debug)]
pub struct Ping;

/// An unrecognized command name, answered with an error frame.
#[derive(Debug)]
pub struct Unknown {
    pub cmd: String,
}

impl Get {
    /// Reads the single key.
    pub fn parse_frames(iter: &mut FrameIter) -> (r: Result<Get, FrameError>)
        ensures
            match r {
                Result::Ok(g) => {
                    &&& old(iter).rest().len() > 0
                    &&& as_string(old(iter).rest()[0]) == Option::Some(g.0@)
                    &&& final(iter).rest() == old(iter).rest().drop_first()
                },
                Result::Err(e) => match e {
                    FrameError::EndOfStream => old(iter).rest().len() == 0 && final(iter).rest()
                        == old(iter).rest(),
                    FrameError::Protocol(_) => old(iter).rest().len() > 0 && as_string(
                        old(iter).rest()[0],
                    ) is None && final(iter).rest() == old(iter).rest().drop_first(),
                    FrameError::Incomplete => false,
                },
            },
    {
        let key = iter.next_string()?;
        Ok(Get(key))
    }
}

impl Append {
    /// Reads the key and the bytes to append.
    pub fn parse_frames(iter: &mut FrameIter) -> (r: Result<Append, FrameError>)
        ensures
            match r {
                Result::Ok(a) => {
                    &&& old(iter).rest().len() >= 2
                    &&& as_string(old(iter).rest()[0]) == Option::Some(a.key@)
                    &&& as_bytes(old(iter).rest()[1]) == Option::Some(a.value@)
                    &&& final(iter).rest() == old(iter).rest().skip(2)
                },
                Result::Err(e) => match e {
                    FrameError::EndOfStream => (old(iter).rest().len() == 0 || (old(
                        iter,
                    ).rest().len() == 1 && as_string(old(iter).rest()[0]) is Some)),
                    FrameError::Protocol(_) => (old(iter).rest().len() > 0 && as_string(
                        old(iter).rest()[0],
                    ) is None) || (old(iter).rest().len() >= 2 && as_string(old(iter).rest()[0])
                        is Some && as_bytes(old(iter).rest()[1]) is None),
                    FrameError::Incomplete => false,
                },
            },
    {
        let key = iter.next_string()?;
        let value = iter.next_bytes()?;
        proof {
            assert(final(iter).rest() =~= old(iter).rest().skip(2));
        }
        Ok(Append { key, value })
    }
}

impl DecrBy {
    /// Reads the key and the optional amount; `positive` keeps the amount
    /// as given, otherwise it is negated.
    pub fn parse_frames(iter: &mut FrameIter, positive: bool) -> (r: Result<DecrBy, FrameError>)
        ensures
            match r {
                Result::Ok(d) => {
                    &&& decr_grammar(old(iter).rest(), positive) == Result::<CmdS, PErr>::Ok(
                        CmdS::DecrByC { key: d.key@, decrement: d.decrement as int },
                    ) || (old(iter).rest().len() > 2 && decr_grammar(
                        old(iter).rest().take(2),
                        positive,
                    ) == Result::<CmdS, PErr>::Ok(
                        CmdS::DecrByC { key: d.key@, decrement: d.decrement as int },
                    ))
                    &&& final(iter).rest() == (if old(iter).rest().len() <= 1 {
                        old(iter).rest().skip(1)
                    } else {
                        old(iter).rest().skip(2)
                    })
                },
                Result::Err(e) => match e {
                    FrameError::EndOfStream => old(iter).rest().len() == 0,
                    FrameError::Protocol(_) => (old(iter).rest().len() > 0 && as_string(
                        old(iter).rest()[0],
                    ) is None) || (old(iter).rest().len() >= 2 && as_string(old(iter).rest()[0])
                        is Some && (as_int(old(iter).rest()[1]) is None || (!positive && as_int(
                        old(iter).rest()[1],
                    ) == Option::Some(i64::MIN as int)))),
                    FrameError::Incomplete => false,
                },
            },
    {
        let key = iter.next_string()?;
        let mut decrement: i64 = 1;
        if iter.has_remaining() {
            decrement = iter.next_int()?;
        }
        if !positive {
            if decrement == i64::MIN {
                return Err(FrameError::Protocol("decrement would overflow".to_owned()));
            }
            decrement = -decrement;
        }
        proof {
            if old(iter).rest().len() > 1 {
                assert(old(iter).rest().drop_first()[0] == old(iter).rest()[1]);
                assert(old(iter).rest().drop_first().drop_first() =~= old(iter).rest().skip(2));
            } else {
                assert(old(iter).rest().drop_first() =~= old(iter).rest().skip(1));
            }
            if old(iter).rest().len() == 2 {
                assert(old(iter).rest().take(2) =~= old(iter).rest());
            }
            if old(iter).rest().len() > 2 {
                assert(old(iter).rest().take(2)[0] == old(iter).rest()[0]);
                assert(old(iter).rest().take(2)[1] == old(iter).rest()[1]);
            }
        }
        Ok(DecrBy { key, decrement })
    }
}

impl MultiGet {
    /// Reads keys until the cursor is exhausted; every argument must be a
    /// string, and a non-string one is a protocol error, never silently
    /// ignored.
    pub fn parse_frames(iter: &mut FrameIter) -> (r: Result<MultiGet, FrameError>)
        ensures
            match r {
                Result::Ok(m) => {
                    &&& key_views(m.keys@) == string_prefix(old(iter).rest())
                    &&& string_prefix(old(iter).rest()).len() == old(iter).rest().len()
                    &&& final(iter).rest().len() == 0
                },
                Result::Err(e) => match e {
                    FrameError::Protocol(_) => string_prefix(old(iter).rest()).len() < old(
                        iter,
                    ).rest().len(),
                    _ => false,
                },
            },
    {
        let mut keys: Vec<String> = Vec::new();
        proof {
            assert(old(iter).rest().skip(0) =~= old(iter).rest());
            assert(key_views(keys@) =~= Seq::<Seq<char>>::empty());
        }
        loop
            invariant
                string_prefix(old(iter).rest()) == key_views(keys@) + string_prefix(iter.rest()),
                iter.rest() == old(iter).rest().skip(key_views(keys@).len() as int),
                key_views(keys@).len() <= old(iter).rest().len(),
            decreases iter.rest().len(),
        {
            let ghost pre = iter.rest();
            match iter.next_string() {
                Result::Ok(key) => {
                    proof {
                        assert(string_prefix(pre) == seq![key@] + string_prefix(
                            pre.drop_first(),
                        ));
                    }
                    keys.push(key);
                    proof {
                        assert(key_views(keys@) =~= key_views(keys@.drop_last()).push(
                            keys@.last()@,
                        ));
                        assert(key_views(keys@.drop_last()) + string_prefix(pre) =~= key_views(
                            keys@,
                        ) + string_prefix(pre.drop_first()));
                        assert(pre.drop_first() =~= old(iter).rest().skip(
                            key_views(keys@).len() as int,
                        ));
                    }
                },
                Result::Err(e) => {
                    proof {
                        assert(string_prefix(pre) =~= Seq::<Seq<char>>::empty());
                        assert(key_views(keys@) + string_prefix(pre) =~= key_views(keys@));
                    }
                    if let FrameError::EndOfStream = e {
                        return Ok(MultiGet { keys });
                    } else {
                        proof {
                            lemma_string_prefix_len(old(iter).rest());
                        }
                        return Err(e);
                    }
                },
            }
        }
    }
}

impl Del {
    /// Reads keys exactly as MGET does.
    pub fn parse_frames(iter: &mut FrameIter) -> (r: Result<Del, FrameError>)
        ensures
            match r {
                Result::Ok(d) => {
                    &&& key_views(d.0@) == string_prefix(old(iter).rest())
                    &&& string_prefix(old(iter).rest()).len() == old(iter).rest().len()
                    &&& final(iter).rest().len() == 0
                },
                Result::Err(e) => match e {
                    FrameError::Protocol(_) => string_prefix(old(iter).rest()).len() < old(
                        iter,
                    ).rest().len(),
                    _ => false,
                },
            },
    {
        let m = MultiGet::parse_frames(iter)?;
        Ok(Del(m.keys))
    }
}

impl Unknown {
    /// A command carrying the unrecognized name it was called by.
    pub fn new(cmd: String) -> (r: Unknown)
        ensures
            r.cmd@ == cmd@,
    {
        Unknown { cmd }
    }
}

/// SET with its parsed options: expiry, existence preconditions, previous
/// value request, and expiry preservation.
#[derive(Debug)]
pub struct SetCmd {
    pub key: String,
    pub value: Vec<u8>,
    pub expire_at: Option<u64>,
    pub nx: bool,
    pub xx: bool,
    pub get_old: bool,
    pub keep_ttl: bool,
}

/// The model of a SET command value.
pub open spec fn sview(s: SetCmd) -> SetS {
    SetS {
        key: s.key@,
        value: s.value@,
        expire_at: s.expire_at,
        nx: s.nx,
        xx: s.xx,
        get_old: s.get_old,
        keep_ttl: s.keep_ttl,
    }
}

/// `v * 1000`, saturating at the top of the unsigned 64-bit range.
fn sat_mul_1000(v: u64) -> (r: u64)
    ensures
        r == clamp_u64(v as int * 1000),
{
    if v > u64::MAX / 1000 {
        proof {
            assert(v as int * 1000 >= (u64::MAX as int / 1000 + 1) * 1000) by (nonlinear_arith)
                requires
                    v as int >= u64::MAX as int / 1000 + 1,
            ;
        }
        u64::MAX
    } else {
        proof {
            assert(v as int * 1000 <= (u64::MAX as int / 1000) * 1000) by (nonlinear_arith)
                requires
                    v as int <= u64::MAX as int / 1000,
            ;
        }
        v * 1000
    }
}

/// `a + b`, saturating at the top of the unsigned 64-bit range.
fn sat_add(a: u64, b: u64) -> (r: u64)
    ensures
        r == clamp_u64(a as int + b as int),
{
    if a > u64::MAX - b {
        u64::MAX
    } else {
        a + b
    }
}

impl SetCmd {
    /// A SET of `key` to `value` with no options.
    pub fn new(key: String, value: Vec<u8>) -> (r: SetCmd)
        ensures
            sview(r) == set_init(key@, value@),
    {
        SetCmd {
            key,
            value,
            expire_at: None,
            nx: false,
            xx: false,
            get_old: false,
            keep_ttl: false,
        }
    }

    /// Reads the key, the value, and then the option keywords until the
    /// cursor is exhausted.
    #[verifier::loop_isolation(false)]
    pub fn parse_frames(iter: &mut FrameIter, now: u64) -> (r: Result<SetCmd, FrameError>)
        ensures
            match r {
                Result::Ok(st) => {
                    &&& old(iter).rest().len() >= 2
                    &&& as_string(old(iter).rest()[0]) == Option::Some(sview(st).key)
                    &&& as_bytes(old(iter).rest()[1]) == Option::Some(sview(st).value)
                    &&& set_opts(
                        old(iter).rest().skip(2),
                        now,
                        set_init(sview(st).key, sview(st).value),
                    ) == OptsOut::Done(sview(st))
                    &&& final(iter).rest().len() == 0
                },
                Result::Err(e) => match e {
                    FrameError::EndOfStream => old(iter).rest().len() == 0 || (as_string(
                        old(iter).rest()[0],
                    ) is Some && (old(iter).rest().len() == 1 || (as_bytes(old(iter).rest()[1])
                        is Some && set_opts(
                        old(iter).rest().skip(2),
                        now,
                        set_init(
                            as_string(old(iter).rest()[0])->Some_0,
                            as_bytes(old(iter).rest()[1])->Some_0,
                        ),
                    ) == OptsOut::Short))),
                    FrameError::Protocol(_) => (old(iter).rest().len() > 0 && as_string(
                        old(iter).rest()[0],
                    ) is None) || (old(iter).rest().len() >= 2 && as_string(old(iter).rest()[0])
                        is Some && (as_bytes(old(iter).rest()[1]) is None || set_opts(
                        old(iter).rest().skip(2),
                        now,
                        set_init(
                            as_string(old(iter).rest()[0])->Some_0,
                            as_bytes(old(iter).rest()[1])->Some_0,
                        ),
                    ) == OptsOut::BadTok)),
                    FrameError::Incomplete => false,
                },
            },
    {
        let key = iter.next_string()?;
        let value = iter.next_bytes()?;
        let ghost k0 = key@;
        let ghost v0 = value@;
        let mut set = SetCmd::new(key, value);
        proof {
            assert(iter.rest() =~= old(iter).rest().skip(2));
        }
        let ghost args0 = iter.rest();
        loop
            invariant
                set_opts(args0, now, set_init(k0, v0)) == set_opts(iter.rest(), now, sview(set)),
                sview(set).key == k0,
                sview(set).value == v0,
            decreases iter.rest().len(),
        {
            let ghost pre = iter.rest();
            let ghost acc = sview(set);
            let kw = match iter.next_string() {
                Result::Ok(kw) => kw,
                Result::Err(e) => {
                    if let FrameError::EndOfStream = e {
                        return Ok(set);
                    } else {
                        return Err(e);
                    }
                },
            };
            let up = to_upper(kw.as_str());
            let is_ex = str_eq(up.as_str(), "EX");
            let is_px = str_eq(up.as_str(), "PX");
            let is_exat = str_eq(up.as_str(), "EXAT");
            let is_pxat = str_eq(up.as_str(), "PXAT");
            if is_ex || is_px || is_exat || is_pxat {
                let v = match iter.next_int() {
                    Result::Ok(v) => v,
                    Result::Err(e) => {
                        proof {
                            if pre.len() >= 2 {
                                assert(pre.drop_first()[0] == pre[1]);
                            }
                        }
                        return Err(e);
                    },
                };
                proof {
                    assert(pre.drop_first()[0] == pre[1]);
                }
                if v < 0 {
                    return Err(FrameError::Protocol("invalid expire time".to_owned()));
                }
                let e_ms: u64 = if is_ex {
                    sat_add(now, sat_mul_1000(v as u64))
                } else if is_px {
                    sat_add(now, v as u64)
                } else if is_exat {
                    sat_mul_1000(v as u64)
                } else {
                    v as u64
                };
                set.expire_at = Some(e_ms);
                proof {
                    if is_ex {
                        assert(e_ms == clamp_u64(now + v * 1000));
                    }
                    assert(iter.rest() =~= pre.skip(2));
                    assert(sview(set) == (SetS { expire_at: Option::Some(e_ms), ..acc }));
                    assert(set_opts(pre, now, acc) == set_opts(iter.rest(), now, sview(set)));
                }
            } else if str_eq(up.as_str(), "NX") {
                set.nx = true;
                proof {
                    assert(iter.rest() =~= pre.skip(1));
                    assert(sview(set) == (SetS { nx: true, ..acc }));
                }
            } else if str_eq(up.as_str(), "XX") {
                set.xx = true;
                proof {
                    assert(iter.rest() =~= pre.skip(1));
                    assert(sview(set) == (SetS { xx: true, ..acc }));
                }
            } else if str_eq(up.as_str(), "GET") {
                set.get_old = true;
                proof {
                    assert(iter.rest() =~= pre.skip(1));
                    assert(sview(set) == (SetS { get_old: true, ..acc }));
                }
            } else if str_eq(up.as_str(), "KEEPTTL") {
                set.keep_ttl = true;
                proof {
                    assert(iter.rest() =~= pre.skip(1));
                    assert(sview(set) == (SetS { keep_ttl: true, ..acc }));
                }
            } else {
                let mut msg = "unhandle keyword:".to_owned();
                msg.append(kw.as_str());
                return Err(FrameError::Protocol(msg));
            }
        }
    }
}


/// The byte-string answer for an optional value: a bulk frame, or the nil
/// sentinel.
pub open spec fn opt_bulk(b: Option<Seq<u8>>) -> FrameS {
    match b {
        Option::Some(x) => FrameS::Bulk(x),
        Option::None => FrameS::Integer(-1),
    }
}

/// One answer per key for MGET, in request order.
pub open spec fn mget_frames(m: Map<Seq<char>, EntryS>, ks: Seq<Seq<char>>, now: u64) -> Seq<
    FrameS,
> {
    Seq::new(ks.len(), |i: int| opt_bulk(live_bytes(m, ks[i], now)))
}

/// What executing DECRBY/INCRBY does: the live stored value (or zero for an
/// absent key) is read as a decimal, the decrement is subtracted, and the
/// result is stored back in decimal; an unreadable stored value or an
/// out-of-range result leaves the store untouched and answers an error.
pub open spec fn decr_post(
    m0: Map<Seq<char>, EntryS>,
    m1: Map<Seq<char>, EntryS>,
    k: Seq<char>,
    d: int,
    now: u64,
    resp: FrameS,
) -> bool {
    match live_bytes(m0, k, now) {
        Option::Some(b) => match spec_atoi64(b) {
            Option::None => m1 == m0 && resp is Error,
            Option::Some(n) => {
                let res = n - d;
                if i64::MIN <= res <= i64::MAX {
                    m1 == m0.insert(
                        k,
                        EntryS { data: ValueS::Bytes(i64_dec(res)), expire_at: m0[k].expire_at },
                    ) && resp == FrameS::Integer(res)
                } else {
                    m1 == m0 && resp is Error
                }
            },
        },
        Option::None => {
            let res = 0 - d;
            if i64::MIN <= res <= i64::MAX {
                m1 == m0.insert(
                    k,
                    EntryS { data: ValueS::Bytes(i64_dec(res)), expire_at: Option::None },
                ) && resp == FrameS::Integer(res)
            } else {
                m1 == m0 && resp is Error
            }
        },
    }
}

/// What executing SET does: NX and XX precondition failures answer nil (or
/// the previous value under GET) and change nothing; otherwise the entry is
/// installed, KEEPTTL preserving an existing expiry, and the answer is OK or
/// the previous value.
pub open spec fn set_post(
    m0: Map<Seq<char>, EntryS>,
    m1: Map<Seq<char>, EntryS>,
    st: SetS,
    now: u64,
    resp: FrameS,
) -> bool {
    let prev = live_bytes(m0, st.key, now);
    let exists_live = prev is Some;
    if (st.nx && exists_live) || (st.xx && !exists_live) {
        m1 == m0 && resp == (if st.get_old {
            opt_bulk(prev)
        } else {
            FrameS::Integer(-1)
        })
    } else {
        let e = if st.keep_ttl {
            if m0.contains_key(st.key) {
                EntryS { data: ValueS::Bytes(st.value), expire_at: m0[st.key].expire_at }
            } else {
                EntryS { data: ValueS::Bytes(st.value), expire_at: Option::None }
            }
        } else {
            EntryS { data: ValueS::Bytes(st.value), expire_at: st.expire_at }
        };
        m1 == m0.insert(st.key, e) && resp == (if st.get_old {
            opt_bulk(prev)
        } else {
            FrameS::Simple("OK"@)
        })
    }
}

impl Get {
    /// Answers the live byte-string under the key, or nil.
    pub fn execute(self, store: &Store, now: u64) -> (r: Frame)
        requires
            store.wf(),
        ensures
            fview(r) == opt_bulk(live_bytes(store.entries_map(), self.0@, now)),
    {
        if let Option::Some(data) = store.get_bytes(self.0.as_str(), now) {
            return Frame::Bulk(data);
        }
        Frame::nil()
    }
}

impl MultiGet {
    /// Answers one byte-string-or-nil per key, in request order.
    pub fn execute(self, store: &Store, now: u64) -> (r: Frame)
        requires
            store.wf(),
        ensures
            fview(r) == FrameS::Array(
                mget_frames(store.entries_map(), key_views(self.keys@), now),
            ),
    {
        let ghost goal = mget_frames(store.entries_map(), key_views(self.keys@), now);
        let mut vec: Vec<Frame> = Vec::new();
        proof {
            assert(fviews(vec@) =~= goal.subrange(0, 0));
        }
        let mut i: usize = 0;
        while i < self.keys.len()
            invariant
                store.wf(),
                i <= self.keys@.len(),
                goal == mget_frames(store.entries_map(), key_views(self.keys@), now),
                fviews(vec@) == goal.subrange(0, i as int),
            decreases self.keys@.len() - i,
        {
            let f = if let Option::Some(data) = store.get_bytes(self.keys[i].as_str(), now) {
                Frame::Bulk(data)
            } else {
                Frame::nil()
            };
            proof {
                crate::frame::lemma_fviews_push(vec@, f);
                assert(goal.subrange(0, i as int).push(goal[i as int]) =~= goal.subrange(
                    0,
                    i as int + 1,
                ));
            }
            vec.push(f);
            i = i + 1;
        }
        proof {
            assert(goal.subrange(0, goal.len() as int) =~= goal);
        }
        Frame::Array(vec)
    }
}

impl Del {
    /// Removes each key eagerly and acknowledges with OK.
    pub fn execute(self, store: &mut Store) -> (r: Frame)
        requires
            old(store).wf(),
        ensures
            final(store).wf(),
            final(store).entries_map() == remove_upto(
                old(store).entries_map(),
                key_views(self.0@),
                self.0@.len() as int,
            ),
            fview(r) == FrameS::Simple("OK"@),
    {
        store.remove_vec(&self.0);
        Frame::ok()
    }
}

impl Append {
    /// Concatenates the new bytes onto an existing live byte-string in
    /// place, leaving its expiry untouched; a no-op for an absent key;
    /// always acknowledges with OK.
    pub fn execute(self, store: &mut Store, now: u64) -> (r: Frame)
        requires
            old(store).wf(),
        ensures
            final(store).wf(),
            match live_bytes(old(store).entries_map(), self.key@, now) {
                Option::Some(b) => final(store).entries_map() == old(
                    store,
                ).entries_map().insert(
                    self.key@,
                    EntryS {
                        data: ValueS::Bytes(b + self.value@),
                        expire_at: old(store).entries_map()[self.key@].expire_at,
                    },
                ),
                Option::None => final(store).entries_map() == old(store).entries_map(),
            },
            fview(r) == FrameS::Simple("OK"@),
    {
        if let Option::Some(data) = store.get_bytes(self.key.as_str(), now) {
            let mut merged = data;
            crate::frame::push_all(&mut merged, self.value.as_slice());
            store.update_bytes(self.key.as_str(), merged);
        }
        Frame::ok()
    }
}

impl DecrBy {
    /// Subtracts the decrement from the stored decimal value, creating the
    /// key from zero when absent; an unreadable stored value or an
    /// out-of-range result answers an error frame.
    pub fn execute(self, store: &mut Store, now: u64) -> (r: Frame)
        requires
            old(store).wf(),
        ensures
            final(store).wf(),
            decr_post(
                old(store).entries_map(),
                final(store).entries_map(),
                self.key@,
                self.decrement as int,
                now,
                fview(r),
            ),
    {
        if let Option::Some(data) = store.get_bytes(self.key.as_str(), now) {
            let n = match atoi_i64(data.as_slice()) {
                Option::Some(n) => n,
                Option::None => {
                    return Frame::Error("value is not an integer".to_owned());
                },
            };
            let fits: bool = if self.decrement >= 0 {
                n >= i64::MIN + self.decrement
            } else {
                n <= i64::MAX + self.decrement
            };
            if !fits {
                return Frame::Error("decrement would overflow".to_owned());
            }
            let number = n - self.decrement;
            store.update_bytes(self.key.as_str(), i64_to_dec(number));
            Frame::Integer(number)
        } else {
            if self.decrement == i64::MIN {
                return Frame::Error("decrement would overflow".to_owned());
            }
            let number = 0i64 - self.decrement;
            store.set_bytes(self.key.as_str(), i64_to_dec(number), None);
            Frame::Integer(number)
        }
    }
}

impl SetCmd {
    /// Installs the value under the key, honouring the parsed options.
    pub fn execute(self, store: &mut Store, now: u64) -> (r: Frame)
        requires
            old(store).wf(),
        ensures
            final(store).wf(),
            set_post(
                old(store).entries_map(),
                final(store).entries_map(),
                sview(self),
                now,
                fview(r),
            ),
    {
        let prev = store.get_bytes(self.key.as_str(), now);
        let exists_live = prev.is_some();
        if (self.nx && exists_live) || (self.xx && !exists_live) {
            if self.get_old {
                match prev {
                    Option::Some(v) => Frame::Bulk(v),
                    Option::None => Frame::nil(),
                }
            } else {
                Frame::nil()
            }
        } else {
            if self.keep_ttl {
                if store.contains_key(self.key.as_str()) {
                    store.update_bytes(self.key.as_str(), self.value);
                } else {
                    store.set_bytes(self.key.as_str(), self.value, None);
                }
            } else {
                store.set_bytes(self.key.as_str(), self.value, self.expire_at);
            }
            if self.get_old {
                match prev {
                    Option::Some(v) => Frame::Bulk(v),
                    Option::None => Frame::nil(),
                }
            } else {
                Frame::ok()
            }
        }
    }
}

impl Ping {
    /// The fixed PING answer.
    pub fn execute(self) -> (r: Frame)
        ensures
            fview(r) == FrameS::Bulk(encode_utf8("pong"@)),
    {
        Frame::Bulk("pong".as_bytes_vec())
    }
}

impl Unknown {
    /// Answers an error frame; an unrecognized command never kills the
    /// connection.
    pub fn execute(self) -> (r: Frame)
        ensures
            fview(r) == FrameS::Error("Unknown Command"@),
    {
        Frame::Error("Unknown Command".to_owned())
    }
}

/// GETDEL: removes the key and answers what it held.
#[derive(Debug)]
pub struct GetDel(pub String);

impl GetDel {
    /// Reads the single key.
    pub fn parse_frames(iter: &mut FrameIter) -> (r: Result<GetDel, FrameError>)
        ensures
            match r {
                Result::Ok(g) => {
                    &&& old(iter).rest().len() > 0
                    &&& as_string(old(iter).rest()[0]) == Option::Some(g.0@)
                    &&& final(iter).rest() == old(iter).rest().drop_first()
                },
                Result::Err(e) => match e {
                    FrameError::EndOfStream => old(iter).rest().len() == 0,
                    FrameError::Protocol(_) => old(iter).rest().len() > 0 && as_string(
                        old(iter).rest()[0],
                    ) is None,
                    FrameError::Incomplete => false,
                },
            },
    {
        let key = iter.next_string()?;
        Ok(GetDel(key))
    }

    /// Removes the entry and answers the byte-string it held, or nil.
    pub fn execute(self, store: &mut Store) -> (r: Frame)
        requires
            old(store).wf(),
        ensures
            final(store).wf(),
            final(store).entries_map() == old(store).entries_map().remove(self.0@),
            fview(r) == opt_bulk(prev_bytes(old(store).entries_map(), self.0@)),
    {
        let data = store.remove(self.0.as_str());
        if let Option::Some(data) = data {
            Frame::Bulk(data)
        } else {
            Frame::nil()
        }
    }
}

/// GETSET: parsed like APPEND; its execution is a placeholder that answers
/// nil and changes nothing.
#[derive(Debug)]
pub struct GetAndSet {
    pub key: String,
    pub value: Vec<u8>,
}

impl GetAndSet {
    /// Reads the key and the value.
    pub fn parse_frames(iter: &mut FrameIter) -> (r: Result<GetAndSet, FrameError>)
        ensures
            match r {
                Result::Ok(a) => {
                    &&& old(iter).rest().len() >= 2
                    &&& as_string(old(iter).rest()[0]) == Option::Some(a.key@)
                    &&& as_bytes(old(iter).rest()[1]) == Option::Some(a.value@)
                    &&& final(iter).rest() == old(iter).rest().skip(2)
                },
                Result::Err(e) => match e {
                    FrameError::EndOfStream => (old(iter).rest().len() == 0 || (old(
                        iter,
                    ).rest().len() == 1 && as_string(old(iter).rest()[0]) is Some)),
                    FrameError::Protocol(_) => (old(iter).rest().len() > 0 && as_string(
                        old(iter).rest()[0],
                    ) is None) || (old(iter).rest().len() >= 2 && as_string(old(iter).rest()[0])
                        is Some && as_bytes(old(iter).rest()[1]) is None),
                    FrameError::Incomplete => false,
                },
            },
    {
        let key = iter.next_string()?;
        let value = iter.next_bytes()?;
        proof {
            assert(final(iter).rest() =~= old(iter).rest().skip(2));
        }
        Ok(GetAndSet { key, value })
    }

    /// A placeholder: answers nil and leaves the store untouched.
    pub fn execute(self, store: &mut Store) -> (r: Frame)
        ensures
            *final(store) == *old(store),
            fview(r) == FrameS::Integer(-1),
    {
        Frame::nil()
    }
}

/// COMMAND metadata for one command name.
pub struct CommandInfo {
    pub name: String,
    pub arith: i32,
    pub flags: Vec<String>,
    pub first_key: Option<String>,
    pub last_key: Option<String>,
    pub step: Option<i32>,
}

impl CommandInfo {
    /// Metadata with only the name, arity and flags filled in.
    pub fn new(name: String, arith: i32, flags: Vec<String>) -> (r: CommandInfo)
        ensures
            r.name@ == name@,
            r.arith == arith,
            r.flags@ == flags@,
            r.first_key is None,
            r.last_key is None,
            r.step is None,
    {
        CommandInfo { name, arith, flags, first_key: None, last_key: None, step: None }
    }

    /// The reply fragment for this command: an array holding its name.
    pub fn to_frame(&self) -> (r: Frame)
        ensures
            fview(r) == FrameS::Array(seq![FrameS::Simple(self.name@)]),
    {
        let mut vec: Vec<Frame> = Vec::new();
        vec.push(Frame::Simple(self.name.clone()));
        proof {
            crate::frame::lemma_fviews(vec@);
            assert(fviews(vec@) =~= seq![FrameS::Simple(self.name@)]);
        }
        Frame::Array(vec)
    }
}


/// The supported operations, each holding its already-validated arguments.
#[derive(Debug)]
pub enum Cmd {
    SetCmd(SetCmd),
    Get(Get),
    MGet(MultiGet),
    Del(Del),
    DecrBy(DecrBy),
    APPEND(Append),
    Ping(Ping),
    UnKnown(Unknown),
}

/// The model of a command value.
pub open spec fn cview(c: Cmd) -> CmdS {
    match c {
        Cmd::SetCmd(s) => CmdS::SetC(sview(s)),
        Cmd::Get(g) => CmdS::GetC(g.0@),
        Cmd::MGet(m) => CmdS::MGetC(key_views(m.keys@)),
        Cmd::Del(d) => CmdS::DelC(key_views(d.0@)),
        Cmd::DecrBy(d) => CmdS::DecrByC { key: d.key@, decrement: d.decrement as int },
        Cmd::APPEND(a) => CmdS::AppendC { key: a.key@, value: a.value@ },
        Cmd::Ping(_) => CmdS::PingC,
        Cmd::UnKnown(u) => CmdS::UnknownC(u.cmd@),
    }
}

/// What executing a command does to the store, and what it answers.
pub open spec fn exec_post(
    c: CmdS,
    m0: Map<Seq<char>, EntryS>,
    m1: Map<Seq<char>, EntryS>,
    resp: FrameS,
    now: u64,
) -> bool {
    match c {
        CmdS::GetC(k) => m1 == m0 && resp == opt_bulk(live_bytes(m0, k, now)),
        CmdS::MGetC(ks) => m1 == m0 && resp == FrameS::Array(mget_frames(m0, ks, now)),
        CmdS::DelC(ks) => m1 == remove_upto(m0, ks, ks.len() as int) && resp == FrameS::Simple(
            "OK"@,
        ),
        CmdS::PingC => m1 == m0 && resp == FrameS::Bulk(encode_utf8("pong"@)),
        CmdS::UnknownC(_) => m1 == m0 && resp == FrameS::Error("Unknown Command"@),
        CmdS::AppendC { key, value } => (match live_bytes(m0, key, now) {
            Option::Some(b) => m1 == m0.insert(
                key,
                EntryS { data: ValueS::Bytes(b + value), expire_at: m0[key].expire_at },
            ),
            Option::None => m1 == m0,
        }) && resp == FrameS::Simple("OK"@),
        CmdS::DecrByC { key, decrement } => decr_post(m0, m1, key, decrement, now, resp),
        CmdS::SetC(st) => set_post(m0, m1, st, now, resp),
    }
}

impl Cmd {
    /// Converts a decoded request frame into a command: the request must be
    /// an array; the first element is the command name, matched
    /// case-insensitively; the named parser consumes its own arguments; and
    /// leftover arguments are a protocol error. Unrecognized names become
    /// the Unknown command rather than an error.
    pub fn try_from(value: Frame, now: u64) -> (r: Result<Cmd, FrameError>)
        ensures
            match r {
                Result::Ok(c) => cmd_of(fview(value), now) == Result::<CmdS, PErr>::Ok(cview(c)),
                Result::Err(e) => match e {
                    FrameError::EndOfStream => cmd_of(fview(value), now) == Result::<
                        CmdS,
                        PErr,
                    >::Err(PErr::Eos),
                    FrameError::Protocol(_) => cmd_of(fview(value), now) == Result::<
                        CmdS,
                        PErr,
                    >::Err(PErr::Bad),
                    FrameError::Incomplete => false,
                },
            },
    {
        let frames = match value {
            Frame::Array(array) => array,
            _ => {
                return Err(FrameError::Protocol("request cmd must be array type".to_owned()));
            },
        };
        let mut frame_iter = FrameIter::new(frames);
        let ghost args = frame_iter.rest();
        let name = frame_iter.next_string()?;
        let ghost name0 = name@;
        let ghost rest0 = frame_iter.rest();
        proof {
            assert(rest0 == args.drop_first());
        }
        let up = to_upper(name.as_str());
        let ghost up0 = up@;
        let command: Cmd = if str_eq(up.as_str(), "GET") {
            Cmd::Get(Get::parse_frames(&mut frame_iter)?)
        } else if str_eq(up.as_str(), "MGET") {
            Cmd::MGet(MultiGet::parse_frames(&mut frame_iter)?)
        } else if str_eq(up.as_str(), "DEL") {
            Cmd::Del(Del::parse_frames(&mut frame_iter)?)
        } else if str_eq(up.as_str(), "SET") {
            Cmd::SetCmd(SetCmd::parse_frames(&mut frame_iter, now)?)
        } else if str_eq(up.as_str(), "APPEND") {
            Cmd::APPEND(Append::parse_frames(&mut frame_iter)?)
        } else if str_eq(up.as_str(), "PING") {
            Cmd::Ping(Ping)
        } else if str_eq(up.as_str(), "DECRBY") || str_eq(up.as_str(), "DECR") {
            Cmd::DecrBy(DecrBy::parse_frames(&mut frame_iter, true)?)
        } else if str_eq(up.as_str(), "INCRBY") || str_eq(up.as_str(), "INCR") {
            Cmd::DecrBy(DecrBy::parse_frames(&mut frame_iter, false)?)
        } else {
            Cmd::UnKnown(Unknown::new(name))
        };
        let ghost restp = frame_iter.rest();
        match frame_iter.finish() {
            Result::Ok(()) => {},
            Result::Err(e) => {
                proof {
                    assert(restp.len() > 0);
                    if rest0.len() > 2 {
                        assert(rest0.take(2)[0] == rest0[0]);
                        assert(rest0.take(2)[1] == rest0[1]);
                    }
                    lemma_string_prefix_len(rest0);
                    if rest0.len() > 2 {
                        assert(rest0.take(2)[0] == rest0[0]);
                        assert(rest0.take(2)[1] == rest0[1]);
                    }
                }
                return Err(e);
            },
        }
        Ok(command)
    }
}

impl Cmd {
    /// Executes the command against the store at observation time `now` and
    /// returns the response frame; exactly one response per request, always.
    pub fn execute(self, store: &mut Store, now: u64) -> (r: Frame)
        requires
            old(store).wf(),
        ensures
            final(store).wf(),
            exec_post(
                cview(self),
                old(store).entries_map(),
                final(store).entries_map(),
                fview(r),
                now,
            ),
    {
        match self {
            Cmd::SetCmd(set) => set.execute(store, now),
            Cmd::Get(get) => get.execute(store, now),
            Cmd::MGet(multi_get) => multi_get.execute(store, now),
            Cmd::DecrBy(decr_by) => decr_by.execute(store, now),
            Cmd::Ping(ping) => ping.execute(),
            Cmd::Del(del) => del.execute(store),
            Cmd::APPEND(append) => append.execute(store, now),
            Cmd::UnKnown(unknown) => unknown.execute(),
        }
    }
}


/// Argument exhaustion, across the command table: a request that offers a
/// parser more arguments than it consumes makes dispatch fail with a
/// protocol error, and one that offers fewer than the parser needs fails
/// with end-of-stream; the exact single-key GET grammar is also stated.
pub proof fn lemma_argument_exhaustion(up: Seq<char>, name: Seq<char>, args: Seq<FrameS>, now: u64)
    ensures
        up == "GET"@ && args.len() > 1 ==> cmd_named(up, name, args, now) == Result::<
            CmdS,
            PErr,
        >::Err(PErr::Bad),
        up == "GET"@ && args.len() == 0 ==> cmd_named(up, name, args, now) == Result::<
            CmdS,
            PErr,
        >::Err(PErr::Eos),
        up == "GET"@ && args.len() == 1 && as_string(args[0]) is Some ==> cmd_named(
            up,
            name,
            args,
            now,
        ) == Result::<CmdS, PErr>::Ok(CmdS::GetC(as_string(args[0])->Some_0)),
        up == "APPEND"@ && args.len() > 2 ==> cmd_named(up, name, args, now) == Result::<
            CmdS,
            PErr,
        >::Err(PErr::Bad),
        up == "APPEND"@ && args.len() == 0 ==> cmd_named(up, name, args, now) == Result::<
            CmdS,
            PErr,
        >::Err(PErr::Eos),
        up == "APPEND"@ && args.len() == 1 && as_string(args[0]) is Some ==> cmd_named(
            up,
            name,
            args,
            now,
        ) == Result::<CmdS, PErr>::Err(PErr::Eos),
        up == "PING"@ && args.len() > 0 ==> cmd_named(up, name, args, now) == Result::<
            CmdS,
            PErr,
        >::Err(PErr::Bad),
        (up == "DECRBY"@ || up == "DECR"@ || up == "INCRBY"@ || up == "INCR"@) && args.len() > 2
            ==> cmd_named(up, name, args, now) == Result::<CmdS, PErr>::Err(PErr::Bad),
        (up == "DECRBY"@ || up == "DECR"@ || up == "INCRBY"@ || up == "INCR"@) && args.len() == 0
            ==> cmd_named(up, name, args, now) == Result::<CmdS, PErr>::Err(PErr::Eos),
        (up == "MGET"@ || up == "DEL"@) && string_prefix(args).len() < args.len() ==> cmd_named(
            up,
            name,
            args,
            now,
        ) == Result::<CmdS, PErr>::Err(PErr::Bad),
        up == "SET"@ && args.len() == 0 ==> cmd_named(up, name, args, now) == Result::<
            CmdS,
            PErr,
        >::Err(PErr::Eos),
{
    reveal_strlit("GET");
    reveal_strlit("MGET");
    reveal_strlit("DEL");
    reveal_strlit("SET");
    reveal_strlit("APPEND");
    reveal_strlit("PING");
    reveal_strlit("DECRBY");
    reveal_strlit("DECR");
    reveal_strlit("INCRBY");
    reveal_strlit("INCR");
    assert("GET"@.len() == 3 && "MGET"@.len() == 4 && "DEL"@.len() == 3 && "SET"@.len() == 3
        && "APPEND"@.len() == 6 && "PING"@.len() == 4 && "DECRBY"@.len() == 6 && "DECR"@.len() == 4
        && "INCRBY"@.len() == 6 && "INCR"@.len() == 4);
    assert("GET"@[0] == 'G' && "MGET"@[0] == 'M' && "DEL"@[0] == 'D' && "SET"@[0] == 'S'
        && "APPEND"@[0] == 'A' && "PING"@[0] == 'P' && "DECRBY"@[0] == 'D' && "DECR"@[0] == 'D'
        && "INCRBY"@[0] == 'I' && "INCR"@[0] == 'I');
    lemma_string_prefix_len(args);
}

} // verus!
