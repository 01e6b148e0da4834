use crate::error::{key_not_found_text, KvsError};
use vstd::prelude::*;
use vstd::slice::{slice_subrange, slice_to_vec};
use vstd::utf8::{
    decode_utf8, encode_scalar, encode_utf8, encode_utf8_decode_utf8, encode_utf8_valid_utf8, valid_utf8,
};

verus! {

/// Request frames, as sent by a client:
/// a 4-byte big-endian payload length, a 1-byte opcode, then the body.
#[derive(Clone, Debug, PartialEq, Eq)]
pub enum Cmd {
    Get(GetCmd),
    SetKey(SetCmd),
    Remove(RemoveCmd),
    Scan(ScanCmd),
    VGet(GetVector),
    VSet(SetVector),
    VDel(DelVector),
    Ping(PingCmd),
}

#[derive(Clone, Debug, PartialEq, Eq)]
pub struct GetCmd {
    pub key: String,
}

#[derive(Clone, Debug, PartialEq, Eq)]
pub struct SetCmd {
    pub key: String,
    pub value: String,
    pub expire: u32,
}

#[derive(Clone, Debug, PartialEq, Eq)]
pub struct RemoveCmd {
    pub key: String,
}

#[derive(Clone, Debug, PartialEq, Eq)]
pub struct ScanCmd {
    pub start: String,
    pub end: String,
}

#[derive(Clone, Debug, PartialEq, Eq)]
pub struct GetVector {
    pub key: String,
}

#[derive(Clone, Debug, PartialEq, Eq)]
pub struct SetVector {
    pub key: String,
    pub value: String,
    pub expire: u32,
}

#[derive(Clone, Debug, PartialEq, Eq)]
pub struct DelVector {
    pub key: String,
}

#[derive(Clone, Debug, PartialEq, Eq)]
pub struct PingCmd {
    pub message: String,
}

/// The mathematical content of a command: its strings as character sequences.
pub enum CmdView {
    Get(Seq<char>),
    SetKey(Seq<char>, Seq<char>, u32),
    Remove(Seq<char>),
    Scan(Seq<char>, Seq<char>),
    VGet(Seq<char>),
    VSet(Seq<char>, Seq<char>, u32),
    VDel(Seq<char>),
    Ping(Seq<char>),
}

impl View for Cmd {
    type V = CmdView;

    open spec fn view(&self) -> CmdView {
        match self {
            Cmd::Get(c) => CmdView::Get(c.key@),
            Cmd::SetKey(c) => CmdView::SetKey(c.key@, c.value@, c.expire),
            Cmd::Remove(c) => CmdView::Remove(c.key@),
            Cmd::Scan(c) => CmdView::Scan(c.start@, c.end@),
            Cmd::VGet(c) => CmdView::VGet(c.key@),
            Cmd::VSet(c) => CmdView::VSet(c.key@, c.value@, c.expire),
            Cmd::VDel(c) => CmdView::VDel(c.key@),
            Cmd::Ping(c) => CmdView::Ping(c.message@),
        }
    }
}

/// Four bytes, most significant first.
pub open spec fn be32(n: u32) -> Seq<u8> {
    seq![
        (n / 0x1000000) as u8,
        ((n / 0x10000) % 0x100) as u8,
        ((n / 0x100) % 0x100) as u8,
        (n % 0x100) as u8,
    ]
}

/// The number that four big-endian bytes stand for.
pub open spec fn be32_value(b: Seq<u8>) -> nat {
    (b[0] as nat) * 0x1000000 + (b[1] as nat) * 0x10000 + (b[2] as nat) * 0x100 + (b[3] as nat)
}

/// A string on the wire: its UTF-8 length, then its UTF-8 bytes.
pub open spec fn text_field(s: Seq<char>) -> Seq<u8> {
    be32(encode_utf8(s).len() as u32) + encode_utf8(s)
}

pub open spec fn opcode(c: CmdView) -> u8 {
    match c {
        CmdView::Get(_) => 1,
        CmdView::SetKey(_, _, _) => 2,
        CmdView::Remove(_) => 3,
        CmdView::Scan(_, _) => 4,
        CmdView::VGet(_) => 5,
        CmdView::VSet(_, _, _) => 6,
        CmdView::VDel(_) => 7,
        CmdView::Ping(_) => 8,
    }
}

/// The bytes after the opcode.
pub open spec fn frame_body(c: CmdView) -> Seq<u8> {
    match c {
        CmdView::Get(k) => text_field(k),
        CmdView::SetKey(k, v, t) => text_field(k) + text_field(v) + be32(t),
        CmdView::Remove(k) => text_field(k),
        CmdView::Scan(s, e) => text_field(s) + text_field(e),
        CmdView::VGet(k) => text_field(k),
        CmdView::VSet(k, v, t) => text_field(k) + text_field(v) + be32(t),
        CmdView::VDel(k) => text_field(k),
        CmdView::Ping(m) => text_field(m),
    }
}

/// The payload: opcode and body.
pub open spec fn frame_payload(c: CmdView) -> Seq<u8> {
    seq![opcode(c)] + frame_body(c)
}

/// A whole request frame: the payload's length, then the payload.
pub open spec fn frame(c: CmdView) -> Seq<u8> {
    be32(frame_payload(c).len() as u32) + frame_payload(c)
}

/// The payload's length can be written in the 4-byte length prefix.
pub open spec fn frame_fits(c: CmdView) -> bool {
    frame_payload(c).len() <= u32::MAX
}

/// The length-prefixed field that starts at `at`, and where it ends.
pub open spec fn field_at(s: Seq<u8>, at: int) -> Option<(Seq<u8>, int)> {
    if 0 <= at && at + 4 <= s.len() {
        let n = be32_value(s.subrange(at, at + 4));
        if at + 4 + n <= s.len() {
            Some((s.subrange(at + 4, at + 4 + n), at + 4 + n))
        } else {
            None
        }
    } else {
        None
    }
}

/// The string field that starts at `at`, if its bytes are UTF-8, and where it ends.
pub open spec fn text_at(s: Seq<u8>, at: int) -> Option<(Seq<char>, int)> {
    match field_at(s, at) {
        Some((b, next)) => if valid_utf8(b) {
            Some((decode_utf8(b), next))
        } else {
            None
        },
        None => None,
    }
}

/// The big-endian number at `at`.
pub open spec fn u32_at(s: Seq<u8>, at: int) -> Option<u32> {
    if 0 <= at && at + 4 <= s.len() {
        Some(be32_value(s.subrange(at, at + 4)) as u32)
    } else {
        None
    }
}

/// A key, a value and a time-to-live, starting at `at`.
pub open spec fn set_fields_at(s: Seq<u8>, at: int) -> Option<(Seq<char>, Seq<char>, u32)> {
    match text_at(s, at) {
        Some((k, i)) => match text_at(s, i) {
            Some((v, j)) => match u32_at(s, j) {
                Some(t) => Some((k, v, t)),
                None => None,
            },
            None => None,
        },
        None => None,
    }
}

/// Two strings, starting at `at`.
pub open spec fn pair_at(s: Seq<u8>, at: int) -> Option<(Seq<char>, Seq<char>)> {
    match text_at(s, at) {
        Some((a, i)) => match text_at(s, i) {
            Some((b, _)) => Some((a, b)),
            None => None,
        },
        None => None,
    }
}

/// The command that a payload holds; bytes after the last field are ignored.
pub open spec fn parse_payload(s: Seq<u8>) -> Option<CmdView> {
    if s.len() == 0 {
        None
    } else if s[0] == 1 || s[0] == 3 || s[0] == 5 || s[0] == 7 || s[0] == 8 {
        match text_at(s, 1) {
            Some((k, _)) => Some(
                if s[0] == 1 {
                    CmdView::Get(k)
                } else if s[0] == 3 {
                    CmdView::Remove(k)
                } else if s[0] == 5 {
                    CmdView::VGet(k)
                } else if s[0] == 7 {
                    CmdView::VDel(k)
                } else {
                    CmdView::Ping(k)
                },
            ),
            None => None,
        }
    } else if s[0] == 2 || s[0] == 6 {
        match set_fields_at(s, 1) {
            Some((k, v, t)) => Some(
                if s[0] == 2 {
                    CmdView::SetKey(k, v, t)
                } else {
                    CmdView::VSet(k, v, t)
                },
            ),
            None => None,
        }
    } else if s[0] == 4 {
        match pair_at(s, 1) {
            Some((a, b)) => Some(CmdView::Scan(a, b)),
            None => None,
        }
    } else {
        None
    }
}

/// What `Cmd::decode` yields for a declared length and the bytes received:
/// only the first `len` bytes are read; an opcode outside 1 to 8 is an
/// invalid command, any other malformed payload a decoding error.
pub open spec fn decode_spec(len: u32, s: Seq<u8>) -> Result<CmdView, KvsError> {
    if len > s.len() || len == 0 {
        Err(KvsError::DecodeError)
    } else if !(1 <= s[0] <= 8) {
        Err(KvsError::InvalidCommand)
    } else {
        match parse_payload(s.take(len as int)) {
            Some(c) => Ok(c),
            None => Err(KvsError::DecodeError),
        }
    }
}

proof fn lemma_be32_value(n: u32)
    ensures
        be32(n).len() == 4,
        be32_value(be32(n)) == n,
{
    let b = be32(n);
    assert(b[0] as nat == n / 0x1000000);
    assert(b[1] as nat == (n / 0x10000) % 0x100);
    assert(b[2] as nat == (n / 0x100) % 0x100);
    assert(b[3] as nat == n % 0x100);
    assert((n / 0x1000000) * 0x1000000 + ((n / 0x10000) % 0x100) * 0x10000 + ((n / 0x100)
        % 0x100) * 0x100 + n % 0x100 == n) by (nonlinear_arith);
}

/// A string field written after any prefix reads back at the prefix's end.
proof fn lemma_text_at(p: Seq<u8>, x: Seq<char>, rest: Seq<u8>)
    requires
        encode_utf8(x).len() <= u32::MAX,
    ensures
        text_at(p + text_field(x) + rest, p.len() as int) == Some(
            (x, p.len() + text_field(x).len() as int),
        ),
{
    broadcast use encode_utf8_valid_utf8, encode_utf8_decode_utf8;

    let e = encode_utf8(x);
    let s = p + text_field(x) + rest;
    let at = p.len() as int;
    lemma_be32_value(e.len() as u32);
    assert(s.subrange(at, at + 4) =~= be32(e.len() as u32));
    assert(s.subrange(at + 4, at + 4 + e.len()) =~= e);
}

/// A number written after any prefix reads back at the prefix's end.
proof fn lemma_u32_at(p: Seq<u8>, n: u32, rest: Seq<u8>)
    ensures
        u32_at(p + be32(n) + rest, p.len() as int) == Some(n),
{
    lemma_be32_value(n);
    assert((p + be32(n) + rest).subrange(p.len() as int, p.len() as int + 4) =~= be32(n));
}

proof fn lemma_payload_key(c: CmdView, k: Seq<char>)
    requires
        frame_fits(c),
        c == CmdView::Get(k) || c == CmdView::Remove(k) || c == CmdView::VGet(k) || c
            == CmdView::VDel(k) || c == CmdView::Ping(k),
    ensures
        parse_payload(frame_payload(c)) == Some(c),
{
    let op = seq![opcode(c)];
    lemma_text_at(op, k, Seq::empty());
    assert(frame_payload(c) =~= op + text_field(k) + Seq::empty());
}

proof fn lemma_payload_set(c: CmdView, k: Seq<char>, v: Seq<char>, t: u32)
    requires
        frame_fits(c),
        c == CmdView::SetKey(k, v, t) || c == CmdView::VSet(k, v, t),
    ensures
        parse_payload(frame_payload(c)) == Some(c),
{
    let op = seq![opcode(c)];
    let pl = frame_payload(c);
    lemma_text_at(op, k, text_field(v) + be32(t));
    assert(pl =~= op + text_field(k) + (text_field(v) + be32(t)));
    lemma_text_at(op + text_field(k), v, be32(t));
    assert(pl =~= (op + text_field(k)) + text_field(v) + be32(t));
    lemma_u32_at(op + text_field(k) + text_field(v), t, Seq::empty());
    assert(pl =~= (op + text_field(k) + text_field(v)) + be32(t) + Seq::empty());
    assert(set_fields_at(pl, 1) == Some((k, v, t)));
}

proof fn lemma_payload_scan(a: Seq<char>, b: Seq<char>)
    requires
        frame_fits(CmdView::Scan(a, b)),
    ensures
        parse_payload(frame_payload(CmdView::Scan(a, b))) == Some(CmdView::Scan(a, b)),
{
    let c = CmdView::Scan(a, b);
    let op = seq![opcode(c)];
    let pl = frame_payload(c);
    lemma_text_at(op, a, text_field(b));
    assert(pl =~= op + text_field(a) + text_field(b));
    lemma_text_at(op + text_field(a), b, Seq::empty());
    assert(pl =~= (op + text_field(a)) + text_field(b) + Seq::empty());
    assert(pair_at(pl, 1) == Some((a, b)));
}

/// Decoding the payload of a command's frame, with the length that the
/// frame declares, yields the command.
pub proof fn lemma_frame_round_trip(c: CmdView)
    requires
        frame_fits(c),
    ensures
        frame(c).len() >= 4,
        decode_spec(be32_value(frame(c).take(4)) as u32, frame(c).skip(4)) == Ok::<CmdView, KvsError>(c),
{
    let pl = frame_payload(c);
    let f = frame(c);
    lemma_be32_value(pl.len() as u32);
    assert(f.take(4) =~= be32(pl.len() as u32));
    assert(f.skip(4) =~= pl);
    assert(pl.take(pl.len() as int) =~= pl);
    match c {
        CmdView::SetKey(k, v, t) => lemma_payload_set(c, k, v, t),
        CmdView::VSet(k, v, t) => lemma_payload_set(c, k, v, t),
        CmdView::Scan(a, b) => lemma_payload_scan(a, b),
        CmdView::Get(k) => lemma_payload_key(c, k),
        CmdView::Remove(k) => lemma_payload_key(c, k),
        CmdView::VGet(k) => lemma_payload_key(c, k),
        CmdView::VDel(k) => lemma_payload_key(c, k),
        CmdView::Ping(k) => lemma_payload_key(c, k),
    }
}

/// Relies on `String::from_utf8`: it succeeds exactly on valid UTF-8, and the
/// string then holds the characters that the bytes encode.
#[verifier::external_body]
fn string_from_utf8(b: Vec<u8>) -> (r: Option<String>)
    ensures
        r is Some <==> valid_utf8(b@),
        r matches Some(s) ==> s@ == decode_utf8(b@),
{
    String::from_utf8(b).ok()
}

fn push_be32(out: &mut Vec<u8>, n: u32)
    ensures
        final(out)@ == old(out)@ + be32(n),
{
    out.push((n / 0x1000000) as u8);
    out.push(((n / 0x10000) % 0x100) as u8);
    out.push(((n / 0x100) % 0x100) as u8);
    out.push((n % 0x100) as u8);
    assert(final(out)@ =~= old(out)@ + be32(n));
}

fn push_text(out: &mut Vec<u8>, s: &String)
    requires
        encode_utf8(s@).len() <= u32::MAX,
    ensures
        final(out)@ == old(out)@ + text_field(s@),
{
    let b = s.as_str().as_bytes();
    push_be32(out, b.len() as u32);
    let mut v = slice_to_vec(b);
    out.append(&mut v);
    assert(final(out)@ =~= old(out)@ + text_field(s@));
}

/// Reads the big-endian number at `at`.
fn read_u32(s: &Vec<u8>, at: usize) -> (r: Option<u32>)
    ensures
        r == u32_at(s@, at as int),
{
    if at <= s.len() && 4 <= s.len() - at {
        let n: u32 = (s[at] as u32) * 0x1000000 + (s[at + 1] as u32) * 0x10000 + (s[at + 2]
            as u32) * 0x100 + (s[at + 3] as u32);
        assert(s@.subrange(at as int, at + 4)[0] == s@[at as int]);
        assert(s@.subrange(at as int, at + 4)[1] == s@[at + 1]);
        assert(s@.subrange(at as int, at + 4)[2] == s@[at + 2]);
        assert(s@.subrange(at as int, at + 4)[3] == s@[at + 3]);
        Some(n)
    } else {
        None
    }
}

/// Reads the string field at `at`; yields it and where it ends.
fn read_text(s: &Vec<u8>, at: usize) -> (r: Option<(String, usize)>)
    ensures
        match r {
            Some((t, next)) => text_at(s@, at as int) == Some((t@, next as int)),
            None => text_at(s@, at as int) is None,
        },
{
    if at > s.len() || s.len() - at < 4 {
        return None;
    }
    match read_u32(s, at) {
        None => None,
        Some(n) => {
            let start = at + 4;
            if (n as usize) <= s.len() - start {
                let end = start + n as usize;
                let b = slice_to_vec(slice_subrange(s.as_slice(), start, end));
                match string_from_utf8(b) {
                    Some(t) => Some((t, end)),
                    None => None,
                }
            } else {
                None
            }
        },
    }
}

impl Cmd {
    /// The command's name.
    pub fn to_string(&self) -> (r: String)
        ensures
            r@ == match self {
                Cmd::Get(_) => "Get"@,
                Cmd::SetKey(_) => "Set"@,
                Cmd::Remove(_) => "Remove"@,
                Cmd::Scan(_) => "Scan"@,
                Cmd::VGet(_) => "VGet"@,
                Cmd::VSet(_) => "VSet"@,
                Cmd::VDel(_) => "VDel"@,
                Cmd::Ping(_) => "Ping"@,
            },
    {
        match self {
            Cmd::Get(_) => "Get".to_owned(),
            Cmd::SetKey(_) => "Set".to_owned(),
            Cmd::Remove(_) => "Remove".to_owned(),
            Cmd::Scan(_) => "Scan".to_owned(),
            Cmd::VGet(_) => "VGet".to_owned(),
            Cmd::VSet(_) => "VSet".to_owned(),
            Cmd::VDel(_) => "VDel".to_owned(),
            Cmd::Ping(_) => "Ping".to_owned(),
        }
    }

    /// The whole request frame for this command.
    pub fn encode(&self) -> (r: Vec<u8>)
        requires
            frame_fits(self@),
        ensures
            r@ == frame(self@),
    {
        let mut res: Vec<u8> = Vec::new();
        match self {
            Cmd::Get(c) => {
                res.push(1u8);
                push_text(&mut res, &c.key);
            },
            Cmd::SetKey(c) => {
                res.push(2u8);
                push_text(&mut res, &c.key);
                push_text(&mut res, &c.value);
                push_be32(&mut res, c.expire);
            },
            Cmd::Remove(c) => {
                res.push(3u8);
                push_text(&mut res, &c.key);
            },
            Cmd::Scan(c) => {
                res.push(4u8);
                push_text(&mut res, &c.start);
                push_text(&mut res, &c.end);
            },
            Cmd::VGet(c) => {
                res.push(5u8);
                push_text(&mut res, &c.key);
            },
            Cmd::VSet(c) => {
                res.push(6u8);
                push_text(&mut res, &c.key);
                push_text(&mut res, &c.value);
                push_be32(&mut res, c.expire);
            },
            Cmd::VDel(c) => {
                res.push(7u8);
                push_text(&mut res, &c.key);
            },
            Cmd::Ping(c) => {
                res.push(8u8);
                push_text(&mut res, &c.message);
            },
        }
        assert(res@ =~= frame_payload(self@));
        let mut fres: Vec<u8> = Vec::new();
        push_be32(&mut fres, res.len() as u32);
        fres.append(&mut res);
        fres
    }

    /// Decodes a payload whose declared length is `len`.
    pub fn decode(len: u32, s: Vec<u8>) -> (r: Result<Cmd, KvsError>)
        ensures
            match r {
                Ok(c) => decode_spec(len, s@) == Ok::<CmdView, KvsError>(c@),
                Err(e) => decode_spec(len, s@) == Err::<CmdView, KvsError>(e),
            },
    {
        if len as usize > s.len() || len == 0 {
            return Err(KvsError::DecodeError);
        }
        if s[0] < 1 || s[0] > 8 {
            return Err(KvsError::InvalidCommand);
        }
        let s = slice_to_vec(slice_subrange(s.as_slice(), 0, len as usize));
        let op = s[0];
        if op == 1 || op == 3 || op == 5 || op == 7 || op == 8 {
            match read_text(&s, 1) {
                Some((k, _)) => Ok(
                    if op == 1 {
                        Cmd::Get(GetCmd { key: k })
                    } else if op == 3 {
                        Cmd::Remove(RemoveCmd { key: k })
                    } else if op == 5 {
                        Cmd::VGet(GetVector { key: k })
                    } else if op == 7 {
                        Cmd::VDel(DelVector { key: k })
                    } else {
                        Cmd::Ping(PingCmd { message: k })
                    },
                ),
                None => Err(KvsError::DecodeError),
            }
        } else if op == 2 || op == 6 {
            match read_text(&s, 1) {
                Some((k, i)) => match read_text(&s, i) {
                    Some((v, j)) => match read_u32(&s, j) {
                        Some(t) => Ok(
                            if op == 2 {
                                Cmd::SetKey(SetCmd { key: k, value: v, expire: t })
                            } else {
                                Cmd::VSet(SetVector { key: k, value: v, expire: t })
                            },
                        ),
                        None => Err(KvsError::DecodeError),
                    },
                    None => Err(KvsError::DecodeError),
                },
                None => Err(KvsError::DecodeError),
            }
        } else if op == 4 {
            match read_text(&s, 1) {
                Some((a, i)) => match read_text(&s, i) {
                    Some((b, _)) => Ok(Cmd::Scan(ScanCmd { start: a, end: b })),
                    None => Err(KvsError::DecodeError),
                },
                None => Err(KvsError::DecodeError),
            }
        } else {
            Err(KvsError::DecodeError)
        }
    }
}

const NEWLINE: u8 = 10;

const SPACE: u8 = 32;

/// `OK`
pub open spec fn ok_prefix() -> Seq<u8> {
    seq![79u8, 75u8]
}

/// `Error`
pub open spec fn error_prefix() -> Seq<u8> {
    seq![69u8, 114u8, 114u8, 111u8, 114u8]
}

/// A response line: a prefix, a payload and a newline.
pub open spec fn response_line(success: bool, payload: Seq<u8>) -> Seq<u8> {
    (if success {
        ok_prefix()
    } else {
        error_prefix()
    }) + payload + seq![10u8]
}

/// The failure line for an error.
pub open spec fn error_line(e: KvsError) -> Seq<u8> {
    response_line(false, encode_utf8(e.message_spec()))
}

/// Values separated by single spaces.
pub open spec fn joined(vs: Seq<Seq<char>>) -> Seq<u8>
    decreases vs.len(),
{
    if vs.len() == 0 {
        Seq::empty()
    } else if vs.len() == 1 {
        encode_utf8(vs[0])
    } else {
        joined(vs.drop_last()) + seq![32u8] + encode_utf8(vs.last())
    }
}

/// The line answering `Get` and `VGet`.
pub open spec fn get_line(r: Result<Option<Seq<char>>, KvsError>) -> Seq<u8> {
    match r {
        Ok(Some(v)) => response_line(true, encode_utf8(v)),
        Ok(None) => error_line(KvsError::KeyNotFound),
        Err(e) => error_line(e),
    }
}

/// The line answering `Set`, `Remove` and their vector forms.
pub open spec fn write_line(r: Result<(), KvsError>) -> Seq<u8> {
    match r {
        Ok(()) => response_line(true, Seq::empty()),
        Err(e) => error_line(e),
    }
}

/// The line answering `Scan`.
pub open spec fn scan_line(r: Result<Seq<Seq<char>>, KvsError>) -> Seq<u8> {
    match r {
        Ok(vs) => response_line(true, joined(vs)),
        Err(e) => error_line(e),
    }
}

/// The line answering `Ping`: the message echoed, or `PONG` for an empty one.
pub open spec fn ping_line(m: Seq<char>) -> Seq<u8> {
    if m.len() == 0 {
        response_line(true, seq![80u8, 79u8, 78u8, 71u8])
    } else {
        response_line(true, encode_utf8(m))
    }
}

/// The line without one trailing newline, if it has one.
pub open spec fn without_newline(b: Seq<u8>) -> Seq<u8> {
    if b.len() > 0 && b.last() == 10 {
        b.drop_last()
    } else {
        b
    }
}

/// What a client reads from a response line.
pub enum Reply {
    /// The payload of a success.
    Value(Seq<char>),
    /// The reserved absent-key failure.
    NotFound,
    /// The message of another failure.
    Message(Seq<char>),
    /// A line that is neither.
    Malformed,
}

/// What the client makes of a response line.
pub open spec fn parse_response_spec(b: Seq<u8>) -> Reply {
    let t = without_newline(b);
    if t.len() >= 2 && t.take(2) == ok_prefix() {
        let p = t.skip(2);
        if valid_utf8(p) {
            Reply::Value(decode_utf8(p))
        } else {
            Reply::Malformed
        }
    } else if t.len() >= 5 && t.take(5) == error_prefix() {
        let m = t.skip(5);
        if m == encode_utf8(key_not_found_text()) {
            Reply::NotFound
        } else if valid_utf8(m) {
            Reply::Message(decode_utf8(m))
        } else {
            Reply::Malformed
        }
    } else {
        Reply::Malformed
    }
}

fn push_str_bytes(out: &mut Vec<u8>, s: &String)
    ensures
        final(out)@ == old(out)@ + encode_utf8(s@),
{
    let mut v = slice_to_vec(s.as_str().as_bytes());
    out.append(&mut v);
}

/// A response line: `OK` or `Error`, then `s`, then a newline.
pub fn generate_response(success: bool, s: &String) -> (r: Vec<u8>)
    ensures
        r@ == response_line(success, encode_utf8(s@)),
{
    let mut res: Vec<u8> = Vec::new();
    if success {
        res.push(79u8);
        res.push(75u8);
    } else {
        res.push(69u8);
        res.push(114u8);
        res.push(114u8);
        res.push(111u8);
        res.push(114u8);
    }
    push_str_bytes(&mut res, s);
    res.push(NEWLINE);
    assert(res@ =~= response_line(success, encode_utf8(s@)));
    res
}

/// The failure line for `e`.
pub fn error_response(e: &KvsError) -> (r: Vec<u8>)
    ensures
        r@ == error_line(*e),
{
    generate_response(false, &e.message())
}

/// Answers `Get` or `VGet` from the engine's outcome.
pub fn get_response(r: &Result<Option<String>, KvsError>) -> (out: Vec<u8>)
    ensures
        out@ == get_line(
            match r {
                Ok(Some(v)) => Ok(Some(v@)),
                Ok(None) => Ok(None),
                Err(e) => Err(*e),
            },
        ),
{
    match r {
        Ok(Some(v)) => generate_response(true, v),
        Ok(None) => error_response(&KvsError::KeyNotFound),
        Err(e) => error_response(e),
    }
}

/// Answers `Set`, `Remove` or their vector forms from the engine's outcome.
pub fn write_response(r: &Result<(), KvsError>) -> (out: Vec<u8>)
    ensures
        out@ == write_line(*r),
{
    match r {
        Ok(()) => {
            let mut res: Vec<u8> = Vec::new();
            res.push(79u8);
            res.push(75u8);
            res.push(NEWLINE);
            assert(res@ =~= response_line(true, Seq::empty()));
            res
        },
        Err(e) => error_response(e),
    }
}

/// Answers `Scan` from the engine's outcome: the values separated by spaces.
pub fn scan_response(r: &Result<Vec<String>, KvsError>) -> (out: Vec<u8>)
    ensures
        out@ == scan_line(
            match r {
                Ok(vs) => Ok(vs@.map_values(|v: String| v@)),
                Err(e) => Err(*e),
            },
        ),
{
    match r {
        Ok(vs) => {
            let ghost views = vs@.map_values(|v: String| v@);
            let mut payload: Vec<u8> = Vec::new();
            let mut i: usize = 0;
            while i < vs.len()
                invariant
                    i <= vs.len(),
                    views == vs@.map_values(|v: String| v@),
                    payload@ == joined(views.take(i as int)),
                decreases vs.len() - i,
            {
                if i > 0 {
                    payload.push(SPACE);
                }
                push_str_bytes(&mut payload, &vs[i]);
                assert(views.take(i + 1).drop_last() =~= views.take(i as int));
                i = i + 1;
            }
            assert(views.take(vs.len() as int) =~= views);
            let mut res: Vec<u8> = Vec::new();
            res.push(79u8);
            res.push(75u8);
            res.append(&mut payload);
            res.push(NEWLINE);
            assert(res@ =~= response_line(true, joined(views)));
            res
        },
        Err(e) => error_response(e),
    }
}

/// Answers `Ping`: `PONG` for an empty message, else the message.
pub fn ping_response(message: &String) -> (out: Vec<u8>)
    ensures
        out@ == ping_line(message@),
{
    if message.as_str().as_bytes().len() == 0 {
        proof {
            encode_utf8_decode_utf8(message@);
        }
        let mut res: Vec<u8> = Vec::new();
        res.push(79u8);
        res.push(75u8);
        res.push(80u8);
        res.push(79u8);
        res.push(78u8);
        res.push(71u8);
        res.push(NEWLINE);
        assert(res@ =~= response_line(true, seq![80u8, 79u8, 78u8, 71u8]));
        res
    } else {
        proof {
            assert(message@.len() != 0) by {
                if message@.len() == 0 {
                    assert(encode_utf8(message@) =~= Seq::<u8>::empty());
                }
            }
        }
        generate_response(true, message)
    }
}

/// Reads a response line; a trailing newline may be present or not.
pub fn parse_response(s: String) -> (r: Result<String, KvsError>)
    ensures
        parse_response_spec(encode_utf8(s@)) == match r {
            Ok(v) => Reply::Value(v@),
            Err(KvsError::KeyNotFound) => Reply::NotFound,
            Err(KvsError::StringError(m)) => Reply::Message(m@),
            Err(_) => Reply::Malformed,
        },
        r matches Err(e) ==> e is KeyNotFound || e is StringError || e is DecodeError,
{
    let b = s.as_str().as_bytes();
    let ghost t = without_newline(b@);
    let mut end: usize = b.len();
    if end > 0 && b[end - 1] == NEWLINE {
        end = end - 1;
    }
    assert(t =~= b@.take(end as int));
    if end >= 2 && b[0] == 79u8 && b[1] == 75u8 {
        assert(t.take(2) =~= ok_prefix());
        let p = slice_to_vec(slice_subrange(b, 2, end));
        assert(p@ =~= t.skip(2));
        match string_from_utf8(p) {
            Some(v) => Ok(v),
            None => Err(KvsError::DecodeError),
        }
    } else if end >= 5 && b[0] == 69u8 && b[1] == 114u8 && b[2] == 114u8 && b[3] == 111u8 && b[4]
        == 114u8 {
        assert(t.take(5) =~= error_prefix());
        assert(!(t.len() >= 2 && t.take(2) == ok_prefix())) by {
            if t.len() >= 2 && t.take(2) == ok_prefix() {
                assert(t.take(2)[0] == t[0]);
            }
        }
        let m = slice_to_vec(slice_subrange(b, 5, end));
        assert(m@ =~= t.skip(5));
        if is_key_not_found(&m) {
            Err(KvsError::KeyNotFound)
        } else {
            match string_from_utf8(m) {
                Some(v) => Err(KvsError::StringError(v)),
                None => Err(KvsError::DecodeError),
            }
        }
    } else {
        assert(!(t.len() >= 2 && t.take(2) == ok_prefix())) by {
            if t.len() >= 2 && t.take(2) == ok_prefix() {
                assert(t.take(2)[0] == t[0]);
                assert(t.take(2)[1] == t[1]);
            }
        }
        assert(!(t.len() >= 5 && t.take(5) == error_prefix())) by {
            if t.len() >= 5 && t.take(5) == error_prefix() {
                assert(t.take(5)[0] == t[0]);
                assert(t.take(5)[1] == t[1]);
                assert(t.take(5)[2] == t[2]);
                assert(t.take(5)[3] == t[3]);
                assert(t.take(5)[4] == t[4]);
            }
        }
        Err(KvsError::DecodeError)
    }
}

/// Whether `m` holds the bytes of the reserved absent-key message.
fn is_key_not_found(m: &Vec<u8>) -> (r: bool)
    ensures
        r == (m@ == encode_utf8(key_not_found_text())),
{
    let expected = KvsError::KeyNotFound.message();
    let e = expected.as_str().as_bytes();
    if e.len() != m.len() {
        return false;
    }
    let mut i: usize = 0;
    while i < e.len()
        invariant
            i <= e@.len(),
            e@.len() == m@.len(),
            e@ == encode_utf8(key_not_found_text()),
            forall|j: int| 0 <= j < i ==> e@[j] == m@[j],
        decreases e@.len() - i,
    {
        if e[i] != m[i] {
            return false;
        }
        i = i + 1;
    }
    assert(m@ =~= e@);
    true
}

/// Values separated by single spaces, as text.
pub open spec fn joined_text(vs: Seq<Seq<char>>) -> Seq<char>
    decreases vs.len(),
{
    if vs.len() == 0 {
        Seq::empty()
    } else if vs.len() == 1 {
        vs[0]
    } else {
        joined_text(vs.drop_last()) + seq![' '] + vs.last()
    }
}

proof fn lemma_encode_concat(a: Seq<char>, b: Seq<char>)
    ensures
        encode_utf8(a + b) == encode_utf8(a) + encode_utf8(b),
    decreases a.len(),
{
    if a.len() == 0 {
        assert(a + b =~= b);
    } else {
        lemma_encode_concat(a.drop_first(), b);
        assert((a + b).drop_first() =~= a.drop_first() + b);
    }
}

proof fn lemma_ascii_char(c: char, b: u8)
    requires
        c as u32 == b as u32,
        b < 128,
    ensures
        encode_utf8(seq![c]) == seq![b],
{
    let x = c as u32;
    assert((x & 0x7F) as u8 == b) by (bit_vector)
        requires
            x == b as u32,
            b < 128,
    ;
    assert(seq![c].drop_first() =~= Seq::<char>::empty());
    assert(seq![c][0] == c);
    assert(encode_utf8(Seq::<char>::empty()) =~= Seq::<u8>::empty());
    assert(encode_scalar(x) =~= seq![b]);
    assert(encode_utf8(seq![c]) =~= encode_scalar(x) + encode_utf8(Seq::<char>::empty()));
    assert(encode_utf8(seq![c]) =~= seq![b]);
}

proof fn lemma_joined(vs: Seq<Seq<char>>)
    ensures
        joined(vs) == encode_utf8(joined_text(vs)),
    decreases vs.len(),
{
    if vs.len() > 1 {
        lemma_joined(vs.drop_last());
        let a = joined_text(vs.drop_last());
        lemma_encode_concat(a + seq![' '], vs.last());
        lemma_encode_concat(a, seq![' ']);
        lemma_ascii_char(' ', 32u8);
    } else if vs.len() == 0 {
        assert(encode_utf8(Seq::<char>::empty()) =~= Seq::<u8>::empty());
    }
}

/// A success line reads back as its payload's text.
proof fn lemma_ok_line(x: Seq<char>)
    ensures
        parse_response_spec(response_line(true, encode_utf8(x))) == Reply::Value(x),
{
    broadcast use encode_utf8_valid_utf8, encode_utf8_decode_utf8;

    let b = response_line(true, encode_utf8(x));
    let t = ok_prefix() + encode_utf8(x);
    assert(without_newline(b) =~= t);
    assert(t.take(2) =~= ok_prefix());
    assert(t.skip(2) =~= encode_utf8(x));
}

/// A failure line reads back as the reserved absent-key failure or as its message.
proof fn lemma_error_line(m: Seq<char>)
    ensures
        parse_response_spec(response_line(false, encode_utf8(m))) == if m == key_not_found_text() {
            Reply::NotFound
        } else {
            Reply::Message(m)
        },
{
    broadcast use encode_utf8_valid_utf8, encode_utf8_decode_utf8;

    let b = response_line(false, encode_utf8(m));
    let t = error_prefix() + encode_utf8(m);
    assert(without_newline(b) =~= t);
    assert(t.take(2)[0] == 69u8);
    assert(t.take(5) =~= error_prefix());
    assert(t.skip(5) =~= encode_utf8(m));
    if encode_utf8(m) == encode_utf8(key_not_found_text()) {
        encode_utf8_decode_utf8(key_not_found_text());
    }
}

/// Every response line that the server writes for a result of the engine
/// reads back on the client as that result: a value, the values of a scan
/// separated by spaces, an empty payload for a write, the ping's echo,
/// the absent-key failure, or the message of another failure.
pub proof fn lemma_response_round_trip(
    v: Seq<char>,
    vs: Seq<Seq<char>>,
    m: Seq<char>,
    e: KvsError,
)
    ensures
        parse_response_spec(get_line(Ok(Some(v)))) == Reply::Value(v),
        parse_response_spec(get_line(Ok(None))) == Reply::NotFound,
        parse_response_spec(write_line(Ok(()))) == Reply::Value(Seq::empty()),
        parse_response_spec(scan_line(Ok(vs))) == Reply::Value(joined_text(vs)),
        parse_response_spec(ping_line(m)) == Reply::Value(
            if m.len() == 0 {
                seq!['P', 'O', 'N', 'G']
            } else {
                m
            },
        ),
        parse_response_spec(error_line(e)) == if e.message_spec() == key_not_found_text() {
            Reply::NotFound
        } else {
            Reply::Message(e.message_spec())
        },
{
    lemma_ok_line(v);
    lemma_error_line(key_not_found_text());
    lemma_ok_line(Seq::empty());
    assert(encode_utf8(Seq::<char>::empty()) =~= Seq::<u8>::empty());
    lemma_joined(vs);
    lemma_ok_line(joined_text(vs));
    lemma_ok_line(m);
    lemma_ok_line(seq!['P', 'O', 'N', 'G']);
    lemma_ascii_char('P', 80u8);
    lemma_ascii_char('O', 79u8);
    lemma_ascii_char('N', 78u8);
    lemma_ascii_char('G', 71u8);
    lemma_encode_concat(seq!['P'], seq!['O']);
    assert(seq!['P'] + seq!['O'] =~= seq!['P', 'O']);
    lemma_encode_concat(seq!['P', 'O'], seq!['N']);
    assert(seq!['P', 'O'] + seq!['N'] =~= seq!['P', 'O', 'N']);
    lemma_encode_concat(seq!['P', 'O', 'N'], seq!['G']);
    assert(seq!['P', 'O', 'N'] + seq!['G'] =~= seq!['P', 'O', 'N', 'G']);
    assert(encode_utf8(seq!['P', 'O', 'N', 'G']) =~= seq![80u8, 79u8, 78u8, 71u8]);
    lemma_error_line(e.message_spec());
}

} // verus!
