//! The record stored for each workspace: its name and the canonical path of
//! its working copy, in a field-tagged binary form (field 1: name, field 2:
//! path, both length-delimited UTF-8). Fields that the decoder does not know
//! are skipped, so records written by later versions still read.

use vstd::prelude::*;
use vstd::utf8::*;
use crate::varint::{lemma_varint_at, put_varint, read_varint, varint, varint_at};

verus! {

broadcast use {encode_utf8_valid_utf8, encode_utf8_decode_utf8};

/// The wire type of a varint field.
pub const WIRE_VARINT: u64 = 0;
/// The wire type of an eight-byte field.
pub const WIRE_FIXED64: u64 = 1;
/// The wire type of a length-delimited field.
pub const WIRE_LEN: u64 = 2;
/// The wire type that opens a group.
pub const WIRE_START_GROUP: u64 = 3;
/// The wire type that closes a group.
pub const WIRE_END_GROUP: u64 = 4;
/// The wire type of a four-byte field.
pub const WIRE_FIXED32: u64 = 5;

/// The field number of the workspace name.
pub const NAME_TAG: u64 = 1;
/// The field number of the workspace path.
pub const PATH_TAG: u64 = 2;

/// How deeply nested groups may be before a record counts as malformed.
pub const RECURSION_LIMIT: u64 = 100;

/// A workspace record as values: its name and the path of its working copy.
pub struct WorkspaceRecord {
    pub name: Seq<char>,
    pub path: Seq<char>,
}

/// A workspace record: the workspace's name and the canonical path of its
/// working copy.
#[derive(Debug, Clone, PartialEq, Eq)]
pub struct Workspace {
    pub name: String,
    pub path: String,
}

impl View for Workspace {
    type V = WorkspaceRecord;

    open spec fn view(&self) -> WorkspaceRecord {
        WorkspaceRecord { name: self.name@, path: self.path@ }
    }
}

/// The bytes were not a well-formed record.
#[derive(Debug, Clone, Copy, PartialEq, Eq)]
pub struct DecodeError;

/// A length-delimited string field; an empty string is left out.
pub open spec fn string_field(tag: nat, s: Seq<char>) -> Seq<u8> {
    if s.len() == 0 {
        Seq::empty()
    } else {
        varint(tag * 8 + 2) + varint(encode_utf8(s).len()) + encode_utf8(s)
    }
}

/// The encoded form of a record.
pub open spec fn encode_record(r: WorkspaceRecord) -> Seq<u8> {
    string_field(1, r.name) + string_field(2, r.path)
}

/// A length-delimited field of number `tag` holding `payload`.
pub open spec fn length_delimited_field(tag: nat, payload: Seq<u8>) -> Seq<u8> {
    varint(tag * 8 + 2) + varint(payload.len()) + payload
}

/// A varint field of number `tag` holding `v`.
pub open spec fn varint_field(tag: nat, v: nat) -> Seq<u8> {
    varint(tag * 8) + varint(v)
}

/// The field key at `pos`: field number, wire type and the position after it.
pub open spec fn key_at(b: Seq<u8>, pos: int) -> Option<(nat, nat, int)> {
    match varint_at(b, pos) {
        Some((k, p)) => if k > 0xffff_ffff || k % 8 > 5 || k / 8 == 0 {
            None
        } else {
            Some((k / 8, k % 8, p))
        },
        None => None,
    }
}

/// Skips the payload of a field of the given number and wire type that
/// starts at `pos`, with `depth` levels of group nesting still allowed:
/// the position after it.
pub open spec fn skip_at(b: Seq<u8>, pos: int, tag: nat, wire: nat, depth: nat) -> Option<int>
    decreases depth, b.len() - pos, 1nat,
{
    if depth == 0 || !(0 <= pos <= b.len()) {
        None
    } else if wire == 0 {
        match varint_at(b, pos) {
            Some((_, p)) => Some(p),
            None => None,
        }
    } else if wire == 1 {
        if 8 <= b.len() - pos {
            Some(pos + 8)
        } else {
            None
        }
    } else if wire == 2 {
        match varint_at(b, pos) {
            Some((n, p)) => if n <= b.len() - p {
                Some(p + n)
            } else {
                None
            },
            None => None,
        }
    } else if wire == 3 {
        skip_group(b, pos, tag, depth)
    } else if wire == 5 {
        if 4 <= b.len() - pos {
            Some(pos + 4)
        } else {
            None
        }
    } else {
        None
    }
}

/// Skips the fields of a group of number `tag` up to and with the key that
/// closes it.
pub open spec fn skip_group(b: Seq<u8>, pos: int, tag: nat, depth: nat) -> Option<int>
    decreases depth, b.len() - pos, 0nat,
{
    if depth == 0 || !(0 <= pos <= b.len()) {
        None
    } else {
        match key_at(b, pos) {
            None => None,
            Some((t, w, p)) => if w == 4 {
                if t == tag {
                    Some(p)
                } else {
                    None
                }
            } else {
                match skip_at(b, p, t, w, (depth - 1) as nat) {
                    None => None,
                    Some(q) => if pos < q <= b.len() {
                        skip_group(b, q, tag, depth)
                    } else {
                        None
                    },
                }
            },
        }
    }
}

/// Reads the fields from `pos` to the end into `acc`: a later field of a
/// number replaces an earlier one, fields of other numbers are skipped.
pub open spec fn decode_fields(b: Seq<u8>, pos: int, acc: WorkspaceRecord) -> Option<
    WorkspaceRecord,
>
    decreases b.len() - pos,
{
    if !(0 <= pos < b.len()) {
        if pos == b.len() {
            Some(acc)
        } else {
            None
        }
    } else {
        match key_at(b, pos) {
            None => None,
            Some((tag, wire, p)) => if tag == 1 || tag == 2 {
                if wire != 2 {
                    None
                } else {
                    match varint_at(b, p) {
                        None => None,
                        Some((n, q)) => if n > b.len() - q || !valid_utf8(
                            b.subrange(q, q + n),
                        ) {
                            None
                        } else {
                            let s = decode_utf8(b.subrange(q, q + n));
                            let next = if tag == 1 {
                                WorkspaceRecord { name: s, ..acc }
                            } else {
                                WorkspaceRecord { path: s, ..acc }
                            };
                            decode_fields(b, q + n, next)
                        },
                    }
                }
            } else {
                match skip_at(b, p, tag, wire, 100) {
                    None => None,
                    Some(q) => if pos < q <= b.len() {
                        decode_fields(b, q, acc)
                    } else {
                        None
                    },
                }
            },
        }
    }
}

/// The record that `b` decodes to, or `None` where it is malformed.
pub open spec fn decode_record(b: Seq<u8>) -> Option<WorkspaceRecord> {
    decode_fields(b, 0, WorkspaceRecord { name: Seq::empty(), path: Seq::empty() })
}

/// Relies on std::str::from_utf8: it succeeds exactly on valid UTF-8, and the
/// string it gives holds the characters those bytes encode.
#[verifier::external_body]
fn str_from_utf8<'a>(b: &'a [u8]) -> (r: Option<&'a str>)
    ensures
        r is Some <==> valid_utf8(b@),
        r matches Some(s) ==> s@ == decode_utf8(b@),
{
    std::str::from_utf8(b).ok()
}

/// Appends the string field `tag` holding `s`, or nothing where `s` is empty.
fn put_string_field(tag: u64, s: &String, out: &mut Vec<u8>)
    requires
        tag == NAME_TAG || tag == PATH_TAG,
    ensures
        final(out)@ == old(out)@ + string_field(tag as nat, s@),
{
    let text = s.as_str();
    if !text.is_empty() {
        put_varint(tag * 8 + WIRE_LEN, out);
        let bytes = text.as_bytes();
        put_varint(bytes.len() as u64, out);
        let ghost before = out@;
        let mut i: usize = 0;
        while i < bytes.len()
            invariant
                i <= bytes@.len(),
                out@ == before + bytes@.subrange(0, i as int),
            decreases bytes@.len() - i,
        {
            out.push(bytes[i]);
            i = i + 1;
            proof {
                assert(bytes@.subrange(0, i as int) =~= bytes@.subrange(0, i - 1) + seq![
                    bytes@[i - 1],
                ]);
            }
        }
        proof {
            assert(bytes@.subrange(0, i as int) =~= bytes@);
            assert(old(out)@ + string_field(tag as nat, s@) =~= before + bytes@);
        }
    } else {
        proof {
            assert(old(out)@ + string_field(tag as nat, s@) =~= old(out)@);
        }
    }
}

/// Encodes a record: its name as field 1, its path as field 2, each left out
/// where it is empty.
pub fn encode(w: &Workspace) -> (r: Vec<u8>)
    ensures
        r@ == encode_record(w@),
{
    let mut out: Vec<u8> = Vec::new();
    put_string_field(NAME_TAG, &w.name, &mut out);
    put_string_field(PATH_TAG, &w.path, &mut out);
    proof {
        assert(out@ =~= encode_record(w@));
    }
    out
}

/// Reads the field key at `pos`.
fn read_key(b: &[u8], pos: usize) -> (r: Option<(u64, u64, usize)>)
    requires
        pos <= b@.len(),
    ensures
        match key_at(b@, pos as int) {
            Some((t, w, p)) => r == Some((t as u64, w as u64, p as usize)) && 1 <= t < 0x2000_0000
                && w <= 5 && pos < p <= b@.len(),
            None => r is None,
        },
{
    match read_varint(b, pos) {
        None => None,
        Some((k, p)) => {
            if k > 0xffff_ffff || k % 8 > 5 || k / 8 == 0 {
                None
            } else {
                Some((k / 8, k % 8, p))
            }
        },
    }
}

/// Skips the payload of a field that starts at `pos`.
fn skip_field(b: &[u8], pos: usize, tag: u64, wire: u64, depth: u64) -> (r: Option<usize>)
    requires
        pos <= b@.len(),
    ensures
        match skip_at(b@, pos as int, tag as nat, wire as nat, depth as nat) {
            Some(q) => r == Some(q as usize) && pos <= q <= b@.len(),
            None => r is None,
        },
    decreases depth, b@.len() - pos, 1nat,
{
    let len = b.len();
    if depth == 0 {
        None
    } else if wire == WIRE_VARINT {
        match read_varint(b, pos) {
            Some((_, p)) => Some(p),
            None => None,
        }
    } else if wire == WIRE_FIXED64 {
        if 8 <= len - pos {
            Some(pos + 8)
        } else {
            None
        }
    } else if wire == WIRE_LEN {
        match read_varint(b, pos) {
            Some((n, p)) => {
                if n <= (len - p) as u64 {
                    Some(p + n as usize)
                } else {
                    None
                }
            },
            None => None,
        }
    } else if wire == WIRE_START_GROUP {
        skip_group_fields(b, pos, tag, depth)
    } else if wire == WIRE_FIXED32 {
        if 4 <= len - pos {
            Some(pos + 4)
        } else {
            None
        }
    } else {
        None
    }
}

/// Skips the fields of a group up to and with the key that closes it.
fn skip_group_fields(b: &[u8], pos: usize, tag: u64, depth: u64) -> (r: Option<usize>)
    requires
        pos <= b@.len(),
        depth > 0,
    ensures
        match skip_group(b@, pos as int, tag as nat, depth as nat) {
            Some(q) => r == Some(q as usize) && pos <= q <= b@.len(),
            None => r is None,
        },
    decreases depth, b@.len() - pos, 0nat,
{
    let mut cur = pos;
    let len = b.len();
    loop
        invariant
            len == b@.len(),
            pos <= cur <= b@.len(),
            depth > 0,
            skip_group(b@, cur as int, tag as nat, depth as nat) == skip_group(
                b@,
                pos as int,
                tag as nat,
                depth as nat,
            ),
        decreases b@.len() - cur,
    {
        match read_key(b, cur) {
            None => {
                return None;
            },
            Some((t, w, p)) => {
                if w == WIRE_END_GROUP {
                    if t == tag {
                        return Some(p);
                    } else {
                        return None;
                    }
                }
                match skip_field(b, p, t, w, depth - 1) {
                    None => {
                        return None;
                    },
                    Some(q) => {
                        cur = q;
                    },
                }
            },
        }
    }
}

/// Decodes a record. Fields other than 1 and 2 are skipped; where a field
/// comes twice, the later one counts.
pub fn decode(b: &[u8]) -> (r: Result<Workspace, DecodeError>)
    ensures
        match decode_record(b@) {
            Some(rec) => r matches Ok(w) && w@ == rec,
            None => r is Err,
        },
{
    let mut name = String::new();
    let mut path = String::new();
    let mut pos: usize = 0;
    let len = b.len();
    while pos < len
        invariant
            len == b@.len(),
            pos <= len,
            decode_fields(b@, pos as int, WorkspaceRecord { name: name@, path: path@ })
                == decode_record(b@),
        decreases len - pos,
    {
        match read_key(b, pos) {
            None => {
                return Err(DecodeError);
            },
            Some((tag, wire, p)) => {
                if tag == NAME_TAG || tag == PATH_TAG {
                    if wire != WIRE_LEN {
                        return Err(DecodeError);
                    }
                    match read_varint(b, p) {
                        None => {
                            return Err(DecodeError);
                        },
                        Some((n, q)) => {
                            if n > (len - q) as u64 {
                                return Err(DecodeError);
                            }
                            let end = q + n as usize;
                            match str_from_utf8(&b[q..end]) {
                                None => {
                                    return Err(DecodeError);
                                },
                                Some(s) => {
                                    if tag == NAME_TAG {
                                        name = s.to_owned();
                                    } else {
                                        path = s.to_owned();
                                    }
                                    pos = end;
                                },
                            }
                        },
                    }
                } else {
                    match skip_field(b, p, tag, wire, RECURSION_LIMIT) {
                        None => {
                            return Err(DecodeError);
                        },
                        Some(q) => {
                            pos = q;
                        },
                    }
                }
            },
        }
    }
    Ok(Workspace { name, path })
}

proof fn lemma_split3(b: Seq<u8>, pos: int, x: Seq<u8>, y: Seq<u8>, z: Seq<u8>)
    requires
        0 <= pos,
        pos + x.len() + y.len() + z.len() <= b.len(),
        b.subrange(pos, pos + x.len() + y.len() + z.len()) == x + y + z,
    ensures
        b.subrange(pos, pos + x.len()) == x,
        b.subrange(pos + x.len(), pos + x.len() + y.len()) == y,
        b.subrange(pos + x.len() + y.len(), pos + x.len() + y.len() + z.len()) == z,
{
    let w = x + y + z;
    assert forall|i: int| 0 <= i < x.len() implies b.subrange(pos, pos + x.len())[i] == x[i] by {
        assert(w[i] == x[i]);
        assert(b.subrange(pos, pos + w.len())[i] == w[i]);
    }
    assert forall|i: int| 0 <= i < y.len() implies b.subrange(
        pos + x.len(),
        pos + x.len() + y.len(),
    )[i] == y[i] by {
        assert(w[x.len() + i] == y[i]);
        assert(b.subrange(pos, pos + w.len())[x.len() + i] == w[x.len() + i]);
    }
    assert forall|i: int| 0 <= i < z.len() implies b.subrange(
        pos + x.len() + y.len(),
        pos + x.len() + y.len() + z.len(),
    )[i] == z[i] by {
        assert(w[x.len() + y.len() + i] == z[i]);
        assert(b.subrange(pos, pos + w.len())[x.len() + y.len() + i] == w[x.len() + y.len() + i]);
    }
    assert(b.subrange(pos, pos + x.len()) =~= x);
    assert(b.subrange(pos + x.len(), pos + x.len() + y.len()) =~= y);
    assert(b.subrange(pos + x.len() + y.len(), pos + x.len() + y.len() + z.len()) =~= z);
}

/// Where `b` holds the string field `tag` of `s` at `pos`, decoding reads it
/// into the record and goes on after it.
proof fn lemma_decode_string_field(
    b: Seq<u8>,
    pos: int,
    tag: nat,
    s: Seq<char>,
    acc: WorkspaceRecord,
)
    requires
        tag == 1 || tag == 2,
        s.len() > 0,
        encode_utf8(s).len() < 0x1_0000_0000_0000_0000,
        0 <= pos,
        pos + string_field(tag, s).len() <= b.len(),
        b.subrange(pos, pos + string_field(tag, s).len()) == string_field(tag, s),
    ensures
        decode_fields(b, pos, acc) == decode_fields(
            b,
            pos + string_field(tag, s).len(),
            if tag == 1 {
                WorkspaceRecord { name: s, ..acc }
            } else {
                WorkspaceRecord { path: s, ..acc }
            },
        ),
{
    let key = tag * 8 + 2;
    let e = encode_utf8(s);
    let kv = varint(key);
    let lv = varint(e.len());
    lemma_split3(b, pos, kv, lv, e);
    lemma_varint_at(b, pos, key);
    lemma_varint_at(b, pos + kv.len(), e.len());
    assert(key_at(b, pos) == Some((tag, 2nat, pos + kv.len())));
}

/// Decoding an encoded record, whatever follows it, reads the record's
/// fields and goes on after them.
proof fn lemma_decode_record_prefix(r: WorkspaceRecord, rest: Seq<u8>)
    requires
        encode_utf8(r.name).len() < 0x1_0000_0000_0000_0000,
        encode_utf8(r.path).len() < 0x1_0000_0000_0000_0000,
    ensures
        decode_record(encode_record(r) + rest) == decode_fields(
            encode_record(r) + rest,
            encode_record(r).len() as int,
            r,
        ),
{
    let b = encode_record(r) + rest;
    let f1 = string_field(1, r.name);
    let f2 = string_field(2, r.path);
    let empty = WorkspaceRecord { name: Seq::empty(), path: Seq::empty() };
    let mid = WorkspaceRecord { name: r.name, path: Seq::empty() };
    assert(b.subrange(0, f1.len() as int) =~= f1);
    assert(b.subrange(f1.len() as int, (f1.len() + f2.len()) as int) =~= f2);
    if r.name.len() > 0 {
        lemma_decode_string_field(b, 0, 1, r.name, empty);
    } else {
        assert(r.name =~= Seq::<char>::empty());
    }
    if r.path.len() > 0 {
        lemma_decode_string_field(b, f1.len() as int, 2, r.path, mid);
    } else {
        assert(r.path =~= Seq::<char>::empty());
    }
}

/// Decoding the encoding of a record gives the record back.
pub proof fn lemma_round_trip(r: WorkspaceRecord)
    requires
        encode_utf8(r.name).len() < 0x1_0000_0000_0000_0000,
        encode_utf8(r.path).len() < 0x1_0000_0000_0000_0000,
    ensures
        decode_record(encode_record(r)) == Some(r),
{
    lemma_decode_record_prefix(r, Seq::empty());
    assert(encode_record(r) + Seq::empty() =~= encode_record(r));
}

/// A length-delimited field of a number the record does not define,
/// appended to an encoded record, still decodes to that record.
#[verifier::rlimit(40)]
pub proof fn lemma_unknown_length_delimited_field(r: WorkspaceRecord, tag: nat, payload: Seq<u8>)
    requires
        encode_utf8(r.name).len() < 0x1_0000_0000_0000_0000,
        encode_utf8(r.path).len() < 0x1_0000_0000_0000_0000,
        3 <= tag < 0x2000_0000,
        payload.len() < 0x1_0000_0000_0000_0000,
    ensures
        decode_record(encode_record(r) + length_delimited_field(tag, payload)) == Some(r),
{
    let e = encode_record(r);
    let f = length_delimited_field(tag, payload);
    let b = e + f;
    lemma_decode_record_prefix(r, f);
    let key = tag * 8 + 2;
    let kv = varint(key);
    let lv = varint(payload.len());
    assert(b.subrange(e.len() as int, b.len() as int) =~= kv + lv + payload);
    lemma_split3(b, e.len() as int, kv, lv, payload);
    lemma_varint_at(b, e.len() as int, key);
    lemma_varint_at(b, (e.len() + kv.len()) as int, payload.len());
    assert(key % 8 == 2 && key / 8 == tag) by (nonlinear_arith)
        requires
            key == tag * 8 + 2,
    ;
    assert(key_at(b, e.len() as int) == Some((tag, 2nat, (e.len() + kv.len()) as int)));
    assert(skip_at(b, (e.len() + kv.len()) as int, tag, 2, 100) == Some(b.len() as int));
    assert(decode_fields(b, b.len() as int, r) == Some(r));
    assert(decode_fields(b, e.len() as int, r) == Some(r));
}

/// A varint field of a number the record does not define, appended to an
/// encoded record, still decodes to that record.
#[verifier::rlimit(40)]
pub proof fn lemma_unknown_varint_field(r: WorkspaceRecord, tag: nat, v: nat)
    requires
        encode_utf8(r.name).len() < 0x1_0000_0000_0000_0000,
        encode_utf8(r.path).len() < 0x1_0000_0000_0000_0000,
        3 <= tag < 0x2000_0000,
        v < 0x1_0000_0000_0000_0000,
    ensures
        decode_record(encode_record(r) + varint_field(tag, v)) == Some(r),
{
    let e = encode_record(r);
    let f = varint_field(tag, v);
    let b = e + f;
    lemma_decode_record_prefix(r, f);
    let key = tag * 8;
    let kv = varint(key);
    let vv = varint(v);
    assert(b.subrange(e.len() as int, b.len() as int) =~= kv + vv + Seq::<u8>::empty());
    lemma_split3(b, e.len() as int, kv, vv, Seq::empty());
    lemma_varint_at(b, e.len() as int, key);
    lemma_varint_at(b, (e.len() + kv.len()) as int, v);
    assert(key % 8 == 0 && key / 8 == tag) by (nonlinear_arith)
        requires
            key == tag * 8,
    ;
    assert(key_at(b, e.len() as int) == Some((tag, 0nat, (e.len() + kv.len()) as int)));
    assert(skip_at(b, (e.len() + kv.len()) as int, tag, 0, 100) == Some(b.len() as int));
    assert(decode_fields(b, b.len() as int, r) == Some(r));
    assert(decode_fields(b, e.len() as int, r) == Some(r));
}

} // verus!
