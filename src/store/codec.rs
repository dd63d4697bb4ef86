use vstd::prelude::*;
use vstd::utf8::{decode_utf8, encode_utf8, valid_utf8};

use crate::error::{common_err, CustomError, CustomResult};

verus! {

broadcast use vstd::utf8::encode_utf8_decode_utf8, vstd::utf8::encode_utf8_valid_utf8,
    vstd::utf8::decode_utf8_encode_utf8;

/// `n` as four bytes, most significant first.
pub open spec fn be_bytes(n: u32) -> Seq<u8> {
    seq![(n >> 24u32) as u8, (n >> 16u32) as u8, (n >> 8u32) as u8, n as u8]
}

/// The `u32` that the four bytes at `pos` hold, most significant first.
pub open spec fn be_value(b: Seq<u8>, pos: int) -> u32 {
    ((b[pos] as u32) << 24u32) | ((b[pos + 1] as u32) << 16u32) | ((b[pos + 2] as u32) << 8u32) | (b[pos + 3] as u32)
}

pub proof fn lemma_be_round_trip(n: u32)
    ensures
        be_bytes(n).len() == 4,
        be_value(be_bytes(n), 0) == n,
{
    let b = be_bytes(n);
    assert(((((n >> 24u32) as u8) as u32) << 24u32) | ((((n >> 16u32) as u8) as u32) << 16u32) | ((((n
        >> 8u32) as u8) as u32) << 8u32) | ((n as u8) as u32) == n) by (bit_vector);
}

proof fn lemma_be_value_shift(a: Seq<u8>, b: Seq<u8>, pos: int)
    requires
        0 <= pos,
        pos + 4 <= b.len(),
    ensures
        be_value(a + b, a.len() + pos) == be_value(b, pos),
{
    assert((a + b)[a.len() + pos] == b[pos]);
    assert((a + b)[a.len() + pos + 1] == b[pos + 1]);
    assert((a + b)[a.len() + pos + 2] == b[pos + 2]);
    assert((a + b)[a.len() + pos + 3] == b[pos + 3]);
}

/// A log record's frame: the payload length, then the payload.
pub open spec fn frame_bytes(payload: Seq<u8>) -> Seq<u8> {
    be_bytes(payload.len() as u32) + payload
}

/// The record framed at `pos` of a log: its frame length and payload. None where the log
/// ends before the frame does (a torn or corrupt tail reads as the end of the log).
pub open spec fn frame_at(log: Seq<u8>, pos: int) -> Option<(u32, Seq<u8>)> {
    if 0 <= pos && pos + 4 <= log.len() {
        let l = be_value(log, pos);
        if l + 4 <= u32::MAX && pos + 4 + l <= log.len() {
            Some(((l + 4) as u32, log.subrange(pos + 4, pos + 4 + l)))
        } else {
            None
        }
    } else {
        None
    }
}

/// A record framed at the end of a log reads back as its payload, whatever is appended
/// after it.
pub proof fn lemma_frame_round_trip(log: Seq<u8>, payload: Seq<u8>, rest: Seq<u8>)
    requires
        payload.len() + 4 <= u32::MAX,
    ensures
        frame_at(log + frame_bytes(payload) + rest, log.len() as int) == Some(
            ((payload.len() + 4) as u32, payload),
        ),
{
    let f = frame_bytes(payload);
    let all = log + f + rest;
    lemma_be_round_trip(payload.len() as u32);
    assert(all =~= log + (f + rest));
    lemma_be_value_shift(log, f + rest, 0);
    assert((f + rest).subrange(0, 4) =~= be_bytes(payload.len() as u32));
    assert(be_value(f + rest, 0) == be_value(be_bytes(payload.len() as u32), 0));
    assert(all.subrange(log.len() as int + 4, log.len() as int + 4 + payload.len() as int) =~= payload);
}

/// Copies `b[from..to]`.
pub fn copy_range(b: &Vec<u8>, from: usize, to: usize) -> (r: Vec<u8>)
    requires
        from <= to <= b@.len(),
    ensures
        r@ == b@.subrange(from as int, to as int),
{
    let mut r: Vec<u8> = Vec::new();
    let mut i = from;
    while i < to
        invariant
            from <= i <= to <= b@.len(),
            r@ == b@.subrange(from as int, i as int),
        decreases to - i,
    {
        r.push(b[i]);
        i = i + 1;
        assert(r@ =~= b@.subrange(from as int, i as int));
    }
    r
}

fn push_be(out: &mut Vec<u8>, n: u32)
    ensures
        final(out)@ == old(out)@ + be_bytes(n),
{
    out.push((n >> 24u32) as u8);
    out.push((n >> 16u32) as u8);
    out.push((n >> 8u32) as u8);
    out.push(n as u8);
    assert(final(out)@ =~= old(out)@ + be_bytes(n));
}

fn read_be(b: &Vec<u8>, pos: usize) -> (r: u32)
    requires
        pos + 4 <= b@.len(),
    ensures
        r == be_value(b@, pos as int),
{
    let _n = b.len();
    ((b[pos] as u32) << 24u32) | ((b[pos + 1] as u32) << 16u32) | ((b[pos + 2] as u32) << 8u32) | (b[pos + 3] as u32)
}

fn append_all(out: &mut Vec<u8>, b: &Vec<u8>)
    ensures
        final(out)@ == old(out)@ + b@,
{
    let mut i: usize = 0;
    while i < b.len()
        invariant
            i <= b@.len(),
            out@ == old(out)@ + b@.subrange(0, i as int),
        decreases b@.len() - i,
    {
        out.push(b[i]);
        i = i + 1;
        assert(out@ =~= old(out)@ + b@.subrange(0, i as int));
    }
    assert(b@.subrange(0, i as int) =~= b@);
}

/// Frames a payload as a log record.
pub fn encode_frame(payload: &Vec<u8>) -> (r: Vec<u8>)
    requires
        payload@.len() + 4 <= u32::MAX,
    ensures
        r@ == frame_bytes(payload@),
{
    let mut out: Vec<u8> = Vec::new();
    push_be(&mut out, payload.len() as u32);
    append_all(&mut out, payload);
    assert(out@ =~= frame_bytes(payload@));
    out
}

/// Reads the record framed at `pos` of a log: its frame length and its payload.
pub fn read_data_item(log: &Vec<u8>, pos: usize) -> (r: CustomResult<(u32, Vec<u8>)>)
    ensures
        match frame_at(log@, pos as int) {
            Some((l, p)) => r matches Ok((rl, rp)) && rl == l && rp@ == p,
            None => r is Err,
        },
{
    let n = log.len();
    if pos > n || n - pos < 4 {
        return Err(common_err(String::from_str("log ends inside a record header")));
    }
    let l = read_be(log, pos);
    if l > u32::MAX - 4 || n - pos - 4 < l as usize {
        return Err(common_err(String::from_str("log ends inside a record")));
    }
    let payload = copy_range(log, pos + 4, pos + 4 + l as usize);
    Ok((l + 4, payload))
}

/// The frame length of the record framed at `pos` of a log, if a complete one is there.
pub fn frame_len_at(log: &Vec<u8>, pos: usize) -> (r: Option<u32>)
    ensures
        r == match frame_at(log@, pos as int) {
            Some((l, _)) => Some(l),
            None => None::<u32>,
        },
{
    let n = log.len();
    if pos > n || n - pos < 4 {
        return None;
    }
    let l = read_be(log, pos);
    if l > u32::MAX - 4 || n - pos - 4 < l as usize {
        return None;
    }
    Some(l + 4)
}

/// The records of a log from `pos` on, each as (offset, frame length, payload), up to the
/// first frame that is incomplete or whose offset does not fit a `u32`.
pub open spec fn frames_from(log: Seq<u8>, pos: int) -> Seq<(u32, u32, Seq<u8>)>
    decreases log.len() - pos,
{
    if 0 <= pos <= u32::MAX {
        match frame_at(log, pos) {
            Some((l, p)) => seq![(pos as u32, l, p)] + frames_from(log, pos + l),
            None => Seq::empty(),
        }
    } else {
        Seq::empty()
    }
}

pub open spec fn frames_view(v: Seq<(u32, u32, Vec<u8>)>) -> Seq<(u32, u32, Seq<u8>)> {
    v.map_values(|e: (u32, u32, Vec<u8>)| (e.0, e.1, e.2@))
}

/// Every complete record of a log, in order, each as (offset, frame length, payload).
pub fn scan_frames(log: &Vec<u8>) -> (r: Vec<(u32, u32, Vec<u8>)>)
    ensures
        frames_view(r@) == frames_from(log@, 0),
{
    let mut r: Vec<(u32, u32, Vec<u8>)> = Vec::new();
    let mut pos: usize = 0;
    let n = log.len();
    loop
        invariant
            n == log@.len(),
            pos <= log@.len(),
            frames_view(r@) + frames_from(log@, pos as int) == frames_from(log@, 0),
        ensures
            frames_view(r@) == frames_from(log@, 0),
        decreases log@.len() - pos,
    {
        if pos as u64 > 0xffff_ffffu64 {
            assert(frames_view(r@) + frames_from(log@, pos as int) =~= frames_view(r@));
            break;
        }
        match read_data_item(log, pos) {
            Ok((l, p)) => {
                let ghost before = r@;
                r.push((pos as u32, l, p));
                assert(frames_view(r@) =~= frames_view(before) + seq![(pos as u32, l, p@)]);
                assert(frames_view(r@) + frames_from(log@, pos + l) =~= frames_view(before) + frames_from(log@, pos as int));
                pos = pos + l as usize;
            },
            Err(_) => {
                assert(frames_view(r@) + frames_from(log@, pos as int) =~= frames_view(r@));
                break;
            },
        }
    }
    r
}

/// One side-car entry: key length, key bytes, record offset.
pub open spec fn entry_bytes(key: Seq<char>, offset: u32) -> Seq<u8> {
    be_bytes(encode_utf8(key).len() as u32) + encode_utf8(key) + be_bytes(offset)
}

/// A side-car file holding `entries` in order.
pub open spec fn entries_bytes(entries: Seq<(Seq<char>, u32)>) -> Seq<u8>
    decreases entries.len(),
{
    if entries.len() == 0 {
        Seq::empty()
    } else {
        entry_bytes(entries[0].0, entries[0].1) + entries_bytes(entries.drop_first())
    }
}

/// The side-car entry at the start of `buf`: its key, its offset and its byte length.
pub open spec fn entry_at(buf: Seq<u8>) -> Option<(Seq<char>, u32, int)> {
    if buf.len() >= 4 {
        let kl = be_value(buf, 0);
        if 8 + kl <= buf.len() && valid_utf8(buf.subrange(4, 4 + kl)) {
            Some((decode_utf8(buf.subrange(4, 4 + kl)), be_value(buf, 4 + kl), 8 + kl))
        } else {
            None
        }
    } else {
        None
    }
}

/// The entries of a side-car file, up to the first incomplete or malformed one.
pub open spec fn parse_entries(buf: Seq<u8>) -> Seq<(Seq<char>, u32)>
    decreases buf.len(),
{
    match entry_at(buf) {
        Some((k, o, n)) => seq![(k, o)] + parse_entries(buf.subrange(n, buf.len() as int)),
        None => Seq::empty(),
    }
}

pub open spec fn entries_view(v: Seq<(String, u32)>) -> Seq<(Seq<char>, u32)> {
    v.map_values(|e: (String, u32)| (e.0@, e.1))
}

/// Every key of the entries encodes to at most `u32::MAX` bytes.
pub open spec fn keys_fit(entries: Seq<(Seq<char>, u32)>) -> bool {
    forall|i: int| 0 <= i < entries.len() ==> encode_utf8((#[trigger] entries[i]).0).len() <= u32::MAX
}

proof fn lemma_be_value_prefix(a: Seq<u8>, b: Seq<u8>, pos: int)
    requires
        0 <= pos,
        pos + 4 <= a.len(),
    ensures
        be_value(a + b, pos) == be_value(a, pos),
{
}

/// One encoded entry, whatever follows it, parses back as its key and offset.
proof fn lemma_entry_at_of_bytes(k: Seq<char>, o: u32, rest: Seq<u8>)
    requires
        encode_utf8(k).len() <= u32::MAX,
    ensures
        entry_at(entry_bytes(k, o) + rest) == Some((k, o, entry_bytes(k, o).len() as int)),
{
    let kb = encode_utf8(k);
    let e = entry_bytes(k, o);
    let buf = e + rest;
    lemma_be_round_trip(kb.len() as u32);
    lemma_be_round_trip(o);
    lemma_be_value_prefix(e, rest, 0);
    assert(e.subrange(0, 4) =~= be_bytes(kb.len() as u32));
    assert(be_value(e, 0) == be_value(be_bytes(kb.len() as u32), 0));
    let kl = kb.len() as int;
    assert(buf.subrange(4, 4 + kl) =~= kb);
    lemma_be_value_prefix(e, rest, 4 + kl);
    lemma_be_value_shift(be_bytes(kb.len() as u32) + kb, be_bytes(o), 0);
    assert(e =~= (be_bytes(kb.len() as u32) + kb) + be_bytes(o));
}

/// Reading back a side-car file gives the entries it was written from.
pub proof fn lemma_index_round_trip(entries: Seq<(Seq<char>, u32)>)
    requires
        keys_fit(entries),
    ensures
        parse_entries(entries_bytes(entries)) == entries,
    decreases entries.len(),
{
    if entries.len() > 0 {
        let (k, o) = entries[0];
        let e = entry_bytes(k, o);
        let rest = entries_bytes(entries.drop_first());
        let buf = e + rest;
        assert(keys_fit(entries.drop_first())) by {
            assert forall|i: int| 0 <= i < entries.drop_first().len() implies encode_utf8(
                (#[trigger] entries.drop_first()[i]).0,
            ).len() <= u32::MAX by {
                assert(entries.drop_first()[i] == entries[i + 1]);
            }
        }
        lemma_index_round_trip(entries.drop_first());
        assert(encode_utf8(entries[0].0).len() <= u32::MAX);
        lemma_entry_at_of_bytes(k, o, rest);
        assert(buf.subrange(e.len() as int, buf.len() as int) =~= rest);
        assert(entries =~= seq![(k, o)] + entries.drop_first());
    }
}

proof fn lemma_entries_bytes_push(entries: Seq<(Seq<char>, u32)>, k: Seq<char>, o: u32)
    ensures
        entries_bytes(entries.push((k, o))) == entries_bytes(entries) + entry_bytes(k, o),
    decreases entries.len(),
{
    if entries.len() == 0 {
        assert(entries.push((k, o)).drop_first() =~= entries);
        assert(entries_bytes(entries.push((k, o))) =~= entries_bytes(entries) + entry_bytes(k, o));
    } else {
        assert(entries.push((k, o)).drop_first() =~= entries.drop_first().push((k, o)));
        lemma_entries_bytes_push(entries.drop_first(), k, o);
        assert(entries_bytes(entries.push((k, o))) =~= entries_bytes(entries) + entry_bytes(k, o));
    }
}

/// Relies on `String::from_utf8`: it succeeds exactly on valid UTF-8, with the text the
/// bytes encode.
#[verifier::external_body]
fn utf8_to_string(bytes: Vec<u8>) -> (r: Option<String>)
    ensures
        r is Some <==> valid_utf8(bytes@),
        r matches Some(s) ==> s@ == decode_utf8(bytes@),
{
    String::from_utf8(bytes).ok()
}

/// Writes side-car entries (key, record offset) in order.
pub fn encode_index_entries(entries: &Vec<(String, u32)>) -> (r: Vec<u8>)
    requires
        keys_fit(entries_view(entries@)),
    ensures
        r@ == entries_bytes(entries_view(entries@)),
{
    let mut out: Vec<u8> = Vec::new();
    let mut i: usize = 0;
    while i < entries.len()
        invariant
            i <= entries@.len(),
            keys_fit(entries_view(entries@)),
            out@ == entries_bytes(entries_view(entries@).take(i as int)),
        decreases entries@.len() - i,
    {
        let key = entries[i].0.as_str();
        let kb = key.as_bytes();
        assert(encode_utf8(entries_view(entries@)[i as int].0).len() <= u32::MAX);
        let ghost before = out@;
        push_be(&mut out, kb.len() as u32);
        let mut j: usize = 0;
        while j < kb.len()
            invariant
                j <= kb@.len(),
                out@ == before + be_bytes(kb@.len() as u32) + kb@.subrange(0, j as int),
            decreases kb@.len() - j,
        {
            out.push(kb[j]);
            j = j + 1;
            assert(out@ =~= before + be_bytes(kb@.len() as u32) + kb@.subrange(0, j as int));
        }
        push_be(&mut out, entries[i].1);
        proof {
            let v = entries_view(entries@);
            assert(kb@.subrange(0, j as int) =~= kb@);
            lemma_entries_bytes_push(v.take(i as int), v[i as int].0, v[i as int].1);
            assert(v.take(i as int).push((v[i as int].0, v[i as int].1)) =~= v.take(i + 1));
            assert(out@ =~= before + entry_bytes(v[i as int].0, v[i as int].1));
        }
        i = i + 1;
    }
    assert(entries_view(entries@).take(i as int) =~= entries_view(entries@));
    out
}

/// Reads the side-car entry at `pos`: its key and the offset of its record.
pub fn read_index_from_file(buf: &Vec<u8>, pos: usize) -> (r: CustomResult<(String, u32)>)
    requires
        pos <= buf@.len(),
    ensures
        match entry_at(buf@.subrange(pos as int, buf@.len() as int)) {
            Some((k, o, _)) => r matches Ok((rk, ro)) && rk@ == k && ro == o,
            None => r is Err,
        },
{
    let ghost rest = buf@.subrange(pos as int, buf@.len() as int);
    let n = buf.len();
    if n - pos < 4 {
        return Err(common_err(String::from_str("side-car ends inside an entry")));
    }
    let kl = read_be(buf, pos);
    assert(be_value(rest, 0) == kl);
    if ((n - pos) as u64) < 8 + kl as u64 {
        return Err(common_err(String::from_str("side-car ends inside an entry")));
    }
    let kb = copy_range(buf, pos + 4, pos + 4 + kl as usize);
    assert(kb@ =~= rest.subrange(4, 4 + kl));
    let offset = read_be(buf, pos + 4 + kl as usize);
    assert(be_value(rest, 4 + kl) == offset);
    match utf8_to_string(kb) {
        Some(key) => Ok((key, offset)),
        None => Err(common_err(String::from_str("side-car key is not UTF-8"))),
    }
}

proof fn lemma_be_bytes_of_value(b: Seq<u8>, pos: int)
    requires
        0 <= pos,
        pos + 4 <= b.len(),
    ensures
        be_bytes(be_value(b, pos)) == b.subrange(pos, pos + 4),
{
    let (b0, b1, b2, b3) = (b[pos], b[pos + 1], b[pos + 2], b[pos + 3]);
    let v = be_value(b, pos);
    assert(v == ((b0 as u32) << 24u32) | ((b1 as u32) << 16u32) | ((b2 as u32) << 8u32) | (b3 as u32));
    assert((((((b0 as u32) << 24u32) | ((b1 as u32) << 16u32) | ((b2 as u32) << 8u32) | (b3 as u32)) >> 24u32) as u8)
        == b0) by (bit_vector);
    assert((((((b0 as u32) << 24u32) | ((b1 as u32) << 16u32) | ((b2 as u32) << 8u32) | (b3 as u32)) >> 16u32) as u8)
        == b1) by (bit_vector);
    assert((((((b0 as u32) << 24u32) | ((b1 as u32) << 16u32) | ((b2 as u32) << 8u32) | (b3 as u32)) >> 8u32) as u8)
        == b2) by (bit_vector);
    assert(((((b0 as u32) << 24u32) | ((b1 as u32) << 16u32) | ((b2 as u32) << 8u32) | (b3 as u32)) as u8) == b3)
        by (bit_vector);
    assert(be_bytes(v) =~= b.subrange(pos, pos + 4));
}

/// A side-car entry that parses is exactly the bytes it was read from.
proof fn lemma_entry_at_bytes(buf: Seq<u8>)
    requires
        entry_at(buf) is Some,
    ensures
        ({
            let (k, o, n) = entry_at(buf)->Some_0;
            entry_bytes(k, o) == buf.subrange(0, n)
        }),
{
    let kl = be_value(buf, 0) as int;
    let kb = buf.subrange(4, 4 + kl);
    lemma_be_bytes_of_value(buf, 0);
    lemma_be_bytes_of_value(buf, 4 + kl);
    assert(encode_utf8(decode_utf8(kb)) == kb);
    assert(entry_bytes(decode_utf8(kb), be_value(buf, 4 + kl)) =~= buf.subrange(0, 8 + kl));
}

/// Parses side-car entries from the start of `buf`: the entries and how many bytes they span.
fn decode_prefix(buf: &Vec<u8>) -> (r: (Vec<(String, u32)>, usize))
    ensures
        entries_view(r.0@) == parse_entries(buf@),
        r.1 <= buf@.len(),
        buf@.subrange(0, r.1 as int) == entries_bytes(entries_view(r.0@)),
        r.1 < buf@.len() ==> entry_at(buf@.subrange(r.1 as int, buf@.len() as int)) is None,
{
    let mut r: Vec<(String, u32)> = Vec::new();
    let mut pos: usize = 0;
    let n = buf.len();
    assert(buf@.subrange(0, buf@.len() as int) =~= buf@);
    assert(buf@.subrange(0, 0) =~= entries_bytes(entries_view(r@)));
    loop
        invariant
            n == buf@.len(),
            pos <= buf@.len(),
            entries_view(r@) + parse_entries(buf@.subrange(pos as int, buf@.len() as int)) == parse_entries(buf@),
            buf@.subrange(0, pos as int) == entries_bytes(entries_view(r@)),
        ensures
            entries_view(r@) == parse_entries(buf@),
            pos <= buf@.len(),
            buf@.subrange(0, pos as int) == entries_bytes(entries_view(r@)),
            pos < buf@.len() ==> entry_at(buf@.subrange(pos as int, buf@.len() as int)) is None,
        decreases buf@.len() - pos,
    {
        let ghost rest = buf@.subrange(pos as int, buf@.len() as int);
        match read_index_from_file(buf, pos) {
            Ok((key, offset)) => {
                let kl = key.as_str().len();
                let ghost before = r@;
                let ghost step = 8 + be_value(rest, 0);
                assert(kl == be_value(rest, 0));
                r.push((key, offset));
                assert(rest.subrange(step, rest.len() as int) =~= buf@.subrange(pos + step, buf@.len() as int));
                assert(entries_view(r@) =~= entries_view(before) + seq![(key@, offset)]);
                assert(entries_view(r@) + parse_entries(buf@.subrange(pos + step, buf@.len() as int)) =~= entries_view(before) + parse_entries(rest));
                proof {
                    lemma_entry_at_bytes(rest);
                    lemma_entries_bytes_push(entries_view(before), key@, offset);
                    assert(entries_view(before).push((key@, offset)) =~= entries_view(r@));
                    assert(buf@.subrange(0, pos + step) =~= buf@.subrange(0, pos as int) + rest.subrange(0, step));
                }
                pos = pos + 8 + kl;
            },
            Err(_) => {
                assert(entries_view(r@) + parse_entries(rest) =~= entries_view(r@));
                break;
            },
        }
    }
    (r, pos)
}

/// Every entry of a side-car file, in order, up to the first incomplete or malformed one.
pub fn decode_index_entries(buf: &Vec<u8>) -> (r: Vec<(String, u32)>)
    ensures
        entries_view(r@) == parse_entries(buf@),
{
    let (r, _) = decode_prefix(buf);
    r
}

/// The entries of a side-car file when the whole file is well-formed entries; None when
/// any part of it is incomplete or malformed, so the file should be written anew.
pub fn decode_whole_index_file(buf: &Vec<u8>) -> (r: Option<Vec<(String, u32)>>)
    ensures
        r is Some <==> entries_bytes(parse_entries(buf@)) == buf@,
        r matches Some(v) ==> entries_view(v@) == parse_entries(buf@),
{
    let (r, consumed) = decode_prefix(buf);
    if consumed == buf.len() {
        assert(buf@.subrange(0, consumed as int) =~= buf@);
        Some(r)
    } else {
        assert(entries_bytes(parse_entries(buf@)).len() == consumed);
        None
    }
}

} // verus!
