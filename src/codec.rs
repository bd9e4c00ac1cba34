//! The ledger's persisted layout.
//!
//! A ledger is a little-endian `u32` record count followed by its records.
//! A record is its eleven texts, each a little-endian `u32` byte length and
//! its UTF-8 bytes, then its two flags, one byte each (0 or 1). The
//! instruction tag is not stored.
use vstd::prelude::*;
use vstd::utf8::*;
use crate::state::{CustomerData, CustomerDataList, CustomerView};

verus! {

pub open spec fn u32_bytes(n: u32) -> Seq<u8> {
    seq![
        (n & 0xff) as u8,
        ((n >> 8u32) & 0xff) as u8,
        ((n >> 16u32) & 0xff) as u8,
        ((n >> 24u32) & 0xff) as u8,
    ]
}

pub open spec fn le_u32(a: u8, b: u8, c: u8, d: u8) -> u32 {
    (a as u32) | ((b as u32) << 8u32) | ((c as u32) << 16u32) | ((d as u32) << 24u32)
}

/// A text whose byte length can be stored in its `u32` prefix.
pub open spec fn text_fits(t: Seq<char>) -> bool {
    encode_utf8(t).len() <= u32::MAX
}

pub open spec fn enc_text(t: Seq<char>) -> Seq<u8> {
    u32_bytes(encode_utf8(t).len() as u32) + encode_utf8(t)
}

pub open spec fn enc_flag(b: bool) -> Seq<u8> {
    seq![if b { 1u8 } else { 0u8 }]
}

/// The texts of a record in their stored order.
pub open spec fn record_texts(r: CustomerView) -> Seq<Seq<char>> {
    seq![
        r.customer_id,
        r.legal_name,
        r.registration_number,
        r.incorporation_country,
        r.lei_registration_status,
        r.lei,
        r.incorporation_date,
        r.primary_country_operation,
        r.primary_isic_code,
        r.entity_type,
        r.swift_code,
    ]
}

pub open spec fn enc_texts(ts: Seq<Seq<char>>) -> Seq<u8>
    decreases ts.len(),
{
    if ts.len() == 0 {
        Seq::empty()
    } else {
        enc_texts(ts.drop_last()) + enc_text(ts.last())
    }
}

pub open spec fn enc_record(r: CustomerView) -> Seq<u8> {
    enc_texts(record_texts(r)) + enc_flag(r.kyc_status) + enc_flag(r.is_active)
}

pub open spec fn enc_records(rs: Seq<CustomerView>) -> Seq<u8>
    decreases rs.len(),
{
    if rs.len() == 0 {
        Seq::empty()
    } else {
        enc_records(rs.drop_last()) + enc_record(rs.last())
    }
}

/// The bytes that hold ledger `l`.
pub open spec fn enc_ledger(l: Seq<CustomerView>) -> Seq<u8> {
    u32_bytes(l.len() as u32) + enc_records(l)
}

pub open spec fn record_fits(r: CustomerView) -> bool {
    forall|k: int| 0 <= k < 11 ==> text_fits(#[trigger] record_texts(r)[k])
}

/// Ledger `l` has an encoding: its count and every text length fit in a `u32`.
pub open spec fn ledger_fits(l: Seq<CustomerView>) -> bool {
    l.len() <= u32::MAX && forall|i: int| 0 <= i < l.len() ==> record_fits(#[trigger] l[i])
}

/// A record as the layout keeps it: without its instruction tag.
pub open spec fn stored(r: CustomerView) -> CustomerView {
    CustomerView { instruction: Seq::empty(), ..r }
}

pub open spec fn parse_u32(b: Seq<u8>, pos: int) -> Option<(u32, int)> {
    if 0 <= pos && pos + 4 <= b.len() {
        Some((le_u32(b[pos], b[pos + 1], b[pos + 2], b[pos + 3]), pos + 4))
    } else {
        None
    }
}

pub open spec fn parse_text(b: Seq<u8>, pos: int) -> Option<(Seq<char>, int)> {
    match parse_u32(b, pos) {
        Some((n, p)) => if p + n <= b.len() && valid_utf8(b.subrange(p, p + n)) {
            Some((decode_utf8(b.subrange(p, p + n)), p + n))
        } else {
            None
        },
        None => None,
    }
}

pub open spec fn parse_flag(b: Seq<u8>, pos: int) -> Option<(bool, int)> {
    if 0 <= pos < b.len() && b[pos] <= 1 {
        Some((b[pos] == 1, pos + 1))
    } else {
        None
    }
}

pub open spec fn parse_texts(b: Seq<u8>, pos: int, n: nat) -> Option<(Seq<Seq<char>>, int)>
    decreases n,
{
    if n == 0 {
        Some((Seq::empty(), pos))
    } else {
        match parse_texts(b, pos, (n - 1) as nat) {
            Some((ts, p)) => match parse_text(b, p) {
                Some((t, q)) => Some((ts.push(t), q)),
                None => None,
            },
            None => None,
        }
    }
}

/// The record built from eleven texts in stored order and two flags.
pub open spec fn record_of(ts: Seq<Seq<char>>, kyc: bool, active: bool) -> CustomerView {
    CustomerView {
        instruction: Seq::empty(),
        customer_id: ts[0],
        legal_name: ts[1],
        registration_number: ts[2],
        incorporation_country: ts[3],
        lei_registration_status: ts[4],
        lei: ts[5],
        incorporation_date: ts[6],
        primary_country_operation: ts[7],
        primary_isic_code: ts[8],
        entity_type: ts[9],
        swift_code: ts[10],
        kyc_status: kyc,
        is_active: active,
    }
}

pub open spec fn parse_record(b: Seq<u8>, pos: int) -> Option<(CustomerView, int)> {
    match parse_texts(b, pos, 11) {
        Some((ts, p)) => match parse_flag(b, p) {
            Some((kyc, q)) => match parse_flag(b, q) {
                Some((active, e)) => Some((record_of(ts, kyc, active), e)),
                None => None,
            },
            None => None,
        },
        None => None,
    }
}

pub open spec fn parse_records(b: Seq<u8>, pos: int, n: nat) -> Option<(Seq<CustomerView>, int)>
    decreases n,
{
    if n == 0 {
        Some((Seq::empty(), pos))
    } else {
        match parse_records(b, pos, (n - 1) as nat) {
            Some((rs, p)) => match parse_record(b, p) {
                Some((r, q)) => Some((rs.push(r), q)),
                None => None,
            },
            None => None,
        }
    }
}

/// The ledger whose encoding starts buffer `b`, if one does.
pub open spec fn parse_ledger(b: Seq<u8>) -> Option<Seq<CustomerView>> {
    match parse_u32(b, 0) {
        Some((n, p)) => match parse_records(b, p, n as nat) {
            Some((rs, _)) => Some(rs),
            None => None,
        },
        None => None,
    }
}

/// The ledger that buffer `b` holds; a buffer that holds none reads as empty.
pub open spec fn ledger_of(b: Seq<u8>) -> Seq<CustomerView> {
    match parse_ledger(b) {
        Some(rs) => rs,
        None => Seq::empty(),
    }
}

proof fn lemma_le_u32(n: u32)
    ensures
        le_u32(
            (n & 0xff) as u8,
            ((n >> 8u32) & 0xff) as u8,
            ((n >> 16u32) & 0xff) as u8,
            ((n >> 24u32) & 0xff) as u8,
        ) == n,
{
    assert(((((n & 0xff) as u8) as u32) | (((((n >> 8u32) & 0xff) as u8) as u32) << 8u32) | (((((
    n >> 16u32) & 0xff) as u8) as u32) << 16u32) | (((((n >> 24u32) & 0xff) as u8) as u32)
        << 24u32)) == n) by (bit_vector);
}

proof fn lemma_parse_u32(b: Seq<u8>, pos: int, n: u32)
    requires
        0 <= pos,
        pos + 4 <= b.len(),
        b.subrange(pos, pos + 4) == u32_bytes(n),
    ensures
        parse_u32(b, pos) == Some((n, pos + 4)),
{
    lemma_le_u32(n);
    let w = b.subrange(pos, pos + 4);
    assert(b[pos] == w[0] && b[pos + 1] == w[1] && b[pos + 2] == w[2] && b[pos + 3] == w[3]);
}

proof fn lemma_parse_text(b: Seq<u8>, pos: int, t: Seq<char>)
    requires
        text_fits(t),
        0 <= pos,
        pos + enc_text(t).len() <= b.len(),
        b.subrange(pos, pos + enc_text(t).len()) == enc_text(t),
    ensures
        parse_text(b, pos) == Some((t, pos + enc_text(t).len())),
{
    let e = encode_utf8(t);
    let m = enc_text(t).len() as int;
    let w = b.subrange(pos, pos + m);
    assert(b.subrange(pos, pos + 4) =~= w.subrange(0, 4));
    assert(enc_text(t).subrange(0, 4) =~= u32_bytes(e.len() as u32));
    lemma_parse_u32(b, pos, e.len() as u32);
    assert(b.subrange(pos + 4, pos + 4 + e.len()) =~= w.subrange(4, m));
    assert(enc_text(t).subrange(4, m) =~= e);
    encode_utf8_valid_utf8(t);
    encode_utf8_decode_utf8(t);
}

proof fn lemma_parse_texts(b: Seq<u8>, pos: int, ts: Seq<Seq<char>>)
    requires
        forall|k: int| 0 <= k < ts.len() ==> text_fits(#[trigger] ts[k]),
        0 <= pos,
        pos + enc_texts(ts).len() <= b.len(),
        b.subrange(pos, pos + enc_texts(ts).len()) == enc_texts(ts),
    ensures
        parse_texts(b, pos, ts.len()) == Some((ts, pos + enc_texts(ts).len())),
    decreases ts.len(),
{
    if ts.len() == 0 {
        assert(ts =~= Seq::<Seq<char>>::empty());
    } else {
        let init = ts.drop_last();
        let a = enc_texts(init).len() as int;
        let c = enc_text(ts.last()).len() as int;
        let w = b.subrange(pos, pos + a + c);
        assert(enc_texts(ts) == enc_texts(init) + enc_text(ts.last()));
        assert(b.subrange(pos, pos + a) =~= w.subrange(0, a));
        assert(enc_texts(ts).subrange(0, a) =~= enc_texts(init));
        lemma_parse_texts(b, pos, init);
        assert(b.subrange(pos + a, pos + a + c) =~= w.subrange(a, a + c));
        assert(enc_texts(ts).subrange(a, a + c) =~= enc_text(ts.last()));
        assert(text_fits(ts[ts.len() - 1]));
        lemma_parse_text(b, pos + a, ts.last());
        assert(init.push(ts.last()) =~= ts);
    }
}

proof fn lemma_parse_record(b: Seq<u8>, pos: int, r: CustomerView)
    requires
        record_fits(r),
        0 <= pos,
        pos + enc_record(r).len() <= b.len(),
        b.subrange(pos, pos + enc_record(r).len()) == enc_record(r),
    ensures
        parse_record(b, pos) == Some((stored(r), pos + enc_record(r).len())),
{
    let ts = record_texts(r);
    let a = enc_texts(ts).len() as int;
    let w = b.subrange(pos, pos + enc_record(r).len());
    assert(b.subrange(pos, pos + a) =~= w.subrange(0, a));
    assert(enc_record(r).subrange(0, a) =~= enc_texts(ts));
    assert forall|k: int| 0 <= k < ts.len() implies text_fits(#[trigger] ts[k]) by {
        assert(text_fits(record_texts(r)[k]));
    }
    lemma_parse_texts(b, pos, ts);
    assert(b[pos + a] == w[a]);
    assert(b[pos + a + 1] == w[a + 1]);
    assert(record_of(ts, r.kyc_status, r.is_active) == stored(r));
}

proof fn lemma_parse_records(b: Seq<u8>, pos: int, rs: Seq<CustomerView>)
    requires
        forall|i: int| 0 <= i < rs.len() ==> record_fits(#[trigger] rs[i]),
        0 <= pos,
        pos + enc_records(rs).len() <= b.len(),
        b.subrange(pos, pos + enc_records(rs).len()) == enc_records(rs),
    ensures
        parse_records(b, pos, rs.len()) == Some(
            (rs.map_values(|r: CustomerView| stored(r)), pos + enc_records(rs).len()),
        ),
    decreases rs.len(),
{
    if rs.len() == 0 {
        assert(rs.map_values(|r: CustomerView| stored(r)) =~= Seq::<CustomerView>::empty());
    } else {
        let init = rs.drop_last();
        let a = enc_records(init).len() as int;
        let c = enc_record(rs.last()).len() as int;
        let w = b.subrange(pos, pos + a + c);
        assert(enc_records(rs) == enc_records(init) + enc_record(rs.last()));
        assert(b.subrange(pos, pos + a) =~= w.subrange(0, a));
        assert(enc_records(rs).subrange(0, a) =~= enc_records(init));
        lemma_parse_records(b, pos, init);
        assert(b.subrange(pos + a, pos + a + c) =~= w.subrange(a, a + c));
        assert(enc_records(rs).subrange(a, a + c) =~= enc_record(rs.last()));
        assert(record_fits(rs[rs.len() - 1]));
        lemma_parse_record(b, pos + a, rs.last());
        assert(init.map_values(|r: CustomerView| stored(r)).push(stored(rs.last())) =~= rs.map_values(
            |r: CustomerView| stored(r),
        ));
    }
}

proof fn lemma_stored_record(r: CustomerView)
    ensures
        enc_record(stored(r)) == enc_record(r),
        record_fits(stored(r)) == record_fits(r),
{
    assert(record_texts(stored(r)) =~= record_texts(r));
}

proof fn lemma_stored_encoding(l: Seq<CustomerView>)
    ensures
        enc_records(l.map_values(|r: CustomerView| stored(r))) == enc_records(l),
    decreases l.len(),
{
    let m = l.map_values(|r: CustomerView| stored(r));
    if l.len() > 0 {
        lemma_stored_encoding(l.drop_last());
        assert(m.drop_last() =~= l.drop_last().map_values(|r: CustomerView| stored(r)));
        lemma_stored_record(l.last());
    }
}

proof fn lemma_stored_fits(l: Seq<CustomerView>)
    ensures
        ledger_fits(l.map_values(|r: CustomerView| stored(r))) == ledger_fits(l),
{
    let m = l.map_values(|r: CustomerView| stored(r));
    if ledger_fits(l) {
        assert forall|i: int| 0 <= i < m.len() implies record_fits(#[trigger] m[i]) by {
            lemma_stored_record(l[i]);
        }
    }
    if ledger_fits(m) {
        assert forall|i: int| 0 <= i < l.len() implies record_fits(#[trigger] l[i]) by {
            lemma_stored_record(l[i]);
            assert(record_fits(m[i]));
        }
    }
}

/// Decoding the bytes of a ledger, whatever follows them in the buffer, gives
/// that ledger back as the layout keeps it.
pub proof fn lemma_decode_encoded(l: Seq<CustomerView>, rest: Seq<u8>)
    requires
        ledger_fits(l),
    ensures
        parse_ledger(enc_ledger(l) + rest) == Some(l.map_values(|r: CustomerView| stored(r))),
        ledger_of(enc_ledger(l) + rest) == l.map_values(|r: CustomerView| stored(r)),
{
    let b = enc_ledger(l) + rest;
    let e = enc_records(l);
    assert(b.subrange(0, 4) =~= u32_bytes(l.len() as u32));
    lemma_parse_u32(b, 0, l.len() as u32);
    assert(b.subrange(4, 4 + e.len() as int) =~= e);
    lemma_parse_records(b, 4, l);
}

proof fn lemma_parsed_records_stored(b: Seq<u8>, pos: int, n: nat)
    ensures
        parse_records(b, pos, n) matches Some((rs, _)) ==> rs.map_values(
            |r: CustomerView| stored(r),
        ) == rs,
    decreases n,
{
    if n > 0 {
        lemma_parsed_records_stored(b, pos, (n - 1) as nat);
        if let Some((rs, _)) = parse_records(b, pos, n) {
            assert(rs.map_values(|r: CustomerView| stored(r)) =~= rs);
        }
    }
}

/// A decoded ledger holds its records as the layout keeps them.
pub proof fn lemma_ledger_of_stored(b: Seq<u8>)
    ensures
        ledger_of(b).map_values(|r: CustomerView| stored(r)) == ledger_of(b),
{
    if let Some((n, p)) = parse_u32(b, 0) {
        lemma_parsed_records_stored(b, p, n as nat);
    }
    if parse_ledger(b) is None {
        assert(ledger_of(b).map_values(|r: CustomerView| stored(r)) =~= ledger_of(b));
    }
}

proof fn lemma_u32_bytes_le(a: u8, b: u8, c: u8, d: u8)
    ensures
        u32_bytes(le_u32(a, b, c, d)) == seq![a, b, c, d],
{
    let n = le_u32(a, b, c, d);
    assert((((a as u32) | ((b as u32) << 8u32) | ((c as u32) << 16u32) | ((d as u32) << 24u32))
        & 0xff) as u8 == a) by (bit_vector);
    assert(((((a as u32) | ((b as u32) << 8u32) | ((c as u32) << 16u32) | ((d as u32) << 24u32))
        >> 8u32) & 0xff) as u8 == b) by (bit_vector);
    assert(((((a as u32) | ((b as u32) << 8u32) | ((c as u32) << 16u32) | ((d as u32) << 24u32))
        >> 16u32) & 0xff) as u8 == c) by (bit_vector);
    assert(((((a as u32) | ((b as u32) << 8u32) | ((c as u32) << 16u32) | ((d as u32) << 24u32))
        >> 24u32) & 0xff) as u8 == d) by (bit_vector);
    assert(u32_bytes(n) =~= seq![a, b, c, d]);
}

proof fn lemma_parse_text_sound(b: Seq<u8>, pos: int)
    ensures
        parse_text(b, pos) matches Some((t, q)) ==> text_fits(t) && pos <= q <= b.len()
            && b.subrange(pos, q) == enc_text(t),
{
    if let Some((t, q)) = parse_text(b, pos) {
        let n = le_u32(b[pos], b[pos + 1], b[pos + 2], b[pos + 3]);
        let body = b.subrange(pos + 4, q);
        decode_utf8_encode_utf8(body);
        lemma_u32_bytes_le(b[pos], b[pos + 1], b[pos + 2], b[pos + 3]);
        assert(encode_utf8(t) == body);
        assert(b.subrange(pos, q) =~= enc_text(t));
    }
}

proof fn lemma_parse_texts_sound(b: Seq<u8>, pos: int, n: nat)
    requires
        0 <= pos <= b.len(),
    ensures
        parse_texts(b, pos, n) matches Some((ts, q)) ==> ts.len() == n && pos <= q <= b.len()
            && (forall|k: int| 0 <= k < ts.len() ==> text_fits(#[trigger] ts[k])) && b.subrange(
            pos,
            q,
        ) == enc_texts(ts),
    decreases n,
{
    if n == 0 {
    } else {
        lemma_parse_texts_sound(b, pos, (n - 1) as nat);
        if let Some((ts, q)) = parse_texts(b, pos, n) {
            let (init, p) = parse_texts(b, pos, (n - 1) as nat).unwrap();
            lemma_parse_text_sound(b, p);
            assert(ts.drop_last() =~= init);
            assert(b.subrange(pos, q) =~= b.subrange(pos, p) + b.subrange(p, q));
            assert forall|k: int| 0 <= k < ts.len() implies text_fits(#[trigger] ts[k]) by {
                if k < init.len() {
                    assert(ts[k] == init[k]);
                }
            }
        }
    }
}

proof fn lemma_parse_record_sound(b: Seq<u8>, pos: int)
    requires
        0 <= pos <= b.len(),
    ensures
        parse_record(b, pos) matches Some((r, q)) ==> record_fits(r) && pos <= q <= b.len()
            && b.subrange(pos, q) == enc_record(r) && r.instruction.len() == 0,
{
    lemma_parse_texts_sound(b, pos, 11);
    if let Some((r, q)) = parse_record(b, pos) {
        let (ts, p) = parse_texts(b, pos, 11).unwrap();
        assert(record_texts(r) =~= ts);
        assert forall|k: int| 0 <= k < 11 implies text_fits(#[trigger] record_texts(r)[k]) by {
            assert(text_fits(ts[k]));
        }
        assert(b.subrange(pos, q) =~= b.subrange(pos, p) + enc_flag(r.kyc_status) + enc_flag(
            r.is_active,
        ));
    }
}

proof fn lemma_parse_records_sound(b: Seq<u8>, pos: int, n: nat)
    requires
        0 <= pos <= b.len(),
    ensures
        parse_records(b, pos, n) matches Some((rs, q)) ==> rs.len() == n && pos <= q <= b.len()
            && (forall|i: int| 0 <= i < rs.len() ==> record_fits(#[trigger] rs[i])) && b.subrange(
            pos,
            q,
        ) == enc_records(rs),
    decreases n,
{
    if n > 0 {
        lemma_parse_records_sound(b, pos, (n - 1) as nat);
        if let Some((rs, q)) = parse_records(b, pos, n) {
            let (init, p) = parse_records(b, pos, (n - 1) as nat).unwrap();
            lemma_parse_record_sound(b, p);
            assert(rs.drop_last() =~= init);
            assert(b.subrange(pos, q) =~= b.subrange(pos, p) + b.subrange(p, q));
            assert forall|i: int| 0 <= i < rs.len() implies record_fits(#[trigger] rs[i]) by {
                if i < init.len() {
                    assert(rs[i] == init[i]);
                }
            }
        }
    }
}

/// Replacing a record by one of the same encoded length keeps the length of
/// the records' encoding.
pub proof fn lemma_update_keeps_length(l: Seq<CustomerView>, i: int, x: CustomerView)
    requires
        0 <= i < l.len(),
        enc_record(x).len() == enc_record(l[i]).len(),
    ensures
        enc_records(l.update(i, x)).len() == enc_records(l).len(),
    decreases l.len(),
{
    let u = l.update(i, x);
    if i == l.len() - 1 {
        assert(u.drop_last() =~= l.drop_last());
    } else {
        lemma_update_keeps_length(l.drop_last(), i, x);
        assert(u.drop_last() =~= l.drop_last().update(i, x));
    }
}

/// A buffer that decodes to a ledger starts with exactly that ledger's
/// encoding: re-encoding what was decoded reproduces those bytes.
pub proof fn lemma_decoded_is_prefix(b: Seq<u8>)
    requires
        parse_ledger(b) is Some,
    ensures
        ledger_fits(ledger_of(b)),
        enc_ledger(ledger_of(b)).len() <= b.len(),
        b.subrange(0, enc_ledger(ledger_of(b)).len() as int) == enc_ledger(ledger_of(b)),
{
    let (n, p) = parse_u32(b, 0).unwrap();
    lemma_parse_records_sound(b, p, n as nat);
    let (rs, q) = parse_records(b, p, n as nat).unwrap();
    lemma_u32_bytes_le(b[0], b[1], b[2], b[3]);
    assert(b.subrange(0, q) =~= b.subrange(0, 4) + b.subrange(4, q));
    assert(b.subrange(0, 4) =~= seq![b[0], b[1], b[2], b[3]]);
}

/// Re-encoding the ledger decoded from a buffer that holds an
/// encoded ledger gives back exactly the bytes of that encoding.
pub proof fn lemma_round_trip(l: Seq<CustomerView>, rest: Seq<u8>)
    requires
        ledger_fits(l),
    ensures
        ledger_fits(ledger_of(enc_ledger(l) + rest)),
        enc_ledger(ledger_of(enc_ledger(l) + rest)) == enc_ledger(l),
{
    lemma_decode_encoded(l, rest);
    lemma_stored_encoding(l);
    lemma_stored_fits(l);
}

proof fn lemma_texts_stop(b: Seq<u8>, pos: int, n: nat, m: nat)
    requires
        n <= m,
        parse_texts(b, pos, n) is None,
    ensures
        parse_texts(b, pos, m) is None,
    decreases m - n,
{
    if n < m {
        lemma_texts_stop(b, pos, n, (m - 1) as nat);
    }
}

proof fn lemma_records_stop(b: Seq<u8>, pos: int, n: nat, m: nat)
    requires
        n <= m,
        parse_records(b, pos, n) is None,
    ensures
        parse_records(b, pos, m) is None,
    decreases m - n,
{
    if n < m {
        lemma_records_stop(b, pos, n, (m - 1) as nat);
    }
}

/// Relies on std's `String::from_utf8`: it succeeds exactly on valid UTF-8
/// bytes, and the string it returns holds those bytes.
#[verifier::external_body]
pub(crate) fn string_from_utf8(bytes: Vec<u8>) -> (r: Option<String>)
    ensures
        r is Some <==> valid_utf8(bytes@),
        r matches Some(s) ==> encode_utf8(s@) == bytes@,
{
    match String::from_utf8(bytes) {
        Ok(s) => Some(s),
        Err(_) => None,
    }
}

fn read_u32(b: &[u8], pos: usize) -> (r: Option<(u32, usize)>)
    ensures
        match parse_u32(b@, pos as int) {
            Some((n, p)) => r matches Some((m, q)) && m == n && q == p,
            None => r is None,
        },
{
    if pos <= b.len() && b.len() - pos >= 4 {
        let n = (b[pos] as u32) | ((b[pos + 1] as u32) << 8u32) | ((b[pos + 2] as u32) << 16u32)
            | ((b[pos + 3] as u32) << 24u32);
        Some((n, pos + 4))
    } else {
        None
    }
}

fn read_text(b: &[u8], pos: usize) -> (r: Option<(String, usize)>)
    ensures
        match parse_text(b@, pos as int) {
            Some((t, p)) => r matches Some((s, q)) && s@ == t && q == p,
            None => r is None,
        },
{
    match read_u32(b, pos) {
        None => None,
        Some((n, p)) => {
            if n as usize > b.len() - p {
                return None;
            }
            let end = p + n as usize;
            let mut bytes: Vec<u8> = Vec::new();
            let mut i: usize = p;
            while i < end
                invariant
                    p <= i <= end,
                    end <= b.len(),
                    bytes@ == b@.subrange(p as int, i as int),
                decreases end - i,
            {
                bytes.push(b[i]);
                i += 1;
                assert(bytes@ =~= b@.subrange(p as int, i as int));
            }
            match string_from_utf8(bytes) {
                Some(s) => {
                    proof {
                        encode_utf8_decode_utf8(s@);
                    }
                    Some((s, end))
                },
                None => None,
            }
        },
    }
}

fn read_flag(b: &[u8], pos: usize) -> (r: Option<(bool, usize)>)
    ensures
        match parse_flag(b@, pos as int) {
            Some((f, p)) => r matches Some((g, q)) && g == f && q == p,
            None => r is None,
        },
{
    if pos < b.len() && b[pos] <= 1 {
        Some((b[pos] == 1, pos + 1))
    } else {
        None
    }
}

fn read_record(b: &[u8], pos: usize) -> (r: Option<(CustomerData, usize)>)
    ensures
        match parse_record(b@, pos as int) {
            Some((v, p)) => r matches Some((c, q)) && c@ == v && q == p,
            None => r is None,
        },
{
    let mut texts: Vec<String> = Vec::new();
    let mut p = pos;
    let mut k: usize = 0;
    while k < 11
        invariant
            k <= 11,
            texts@.len() == k,
            parse_texts(b@, pos as int, k as nat) == Some(
                (texts@.map_values(|s: String| s@), p as int),
            ),
        decreases 11 - k,
    {
        match read_text(b, p) {
            Some((s, q)) => {
                proof {
                    assert(texts@.push(s).map_values(|s: String| s@) =~= texts@.map_values(
                        |s: String| s@,
                    ).push(s@));
                }
                texts.push(s);
                p = q;
                k += 1;
            },
            None => {
                proof {
                    assert(parse_texts(b@, pos as int, (k + 1) as nat) is None);
                    lemma_texts_stop(b@, pos as int, (k + 1) as nat, 11);
                    assert(parse_texts(b@, pos as int, 11) is None);
                    assert(parse_record(b@, pos as int) is None);
                }
                return None;
            },
        }
    }
    let ghost ts = texts@.map_values(|s: String| s@);
    assert(parse_texts(b@, pos as int, 11) == Some((ts, p as int)));
    let fk = read_flag(b, p);
    if fk.is_none() {
        assert(parse_record(b@, pos as int) is None);
        return None;
    }
    let (kyc, q) = fk.unwrap();
    let fa = read_flag(b, q);
    if fa.is_none() {
        assert(parse_record(b@, pos as int) is None);
        return None;
    }
    let (active, e) = fa.unwrap();
    let c = CustomerData {
        instruction: String::new(),
        customer_id: texts[0].clone(),
        legal_name: texts[1].clone(),
        registration_number: texts[2].clone(),
        incorporation_country: texts[3].clone(),
        lei_registration_status: texts[4].clone(),
        lei: texts[5].clone(),
        incorporation_date: texts[6].clone(),
        primary_country_operation: texts[7].clone(),
        primary_isic_code: texts[8].clone(),
        entity_type: texts[9].clone(),
        swift_code: texts[10].clone(),
        kyc_status: kyc,
        is_active: active,
    };
    proof {
        assert(c@ == record_of(ts, kyc, active));
    }
    Some((c, e))
}

/// Reads the ledger that `data` holds; a buffer that holds none (all zeros
/// reads as a count of zero) gives the empty ledger.
pub fn decode_ledger(data: &[u8]) -> (r: CustomerDataList)
    ensures
        r@ == ledger_of(data@),
{
    let (n, p0) = match read_u32(data, 0) {
        Some(x) => x,
        None => {
            return CustomerDataList { data: Vec::new() };
        },
    };
    let mut out: Vec<CustomerData> = Vec::new();
    let mut p = p0;
    let mut k: u32 = 0;
    while k < n
        invariant
            k <= n,
            parse_u32(data@, 0) == Some((n, p0 as int)),
            parse_records(data@, p0 as int, k as nat) == Some(
                (out@.map_values(|c: CustomerData| c@), p as int),
            ),
        decreases n - k,
    {
        match read_record(data, p) {
            Some((c, q)) => {
                proof {
                    assert(out@.push(c).map_values(|c: CustomerData| c@) =~= out@.map_values(
                        |c: CustomerData| c@,
                    ).push(c@));
                }
                out.push(c);
                p = q;
                k += 1;
            },
            None => {
                proof {
                    lemma_records_stop(data@, p0 as int, (k + 1) as nat, n as nat);
                }
                return CustomerDataList { data: Vec::new() };
            },
        }
    }
    CustomerDataList { data: out }
}

fn write_u32(out: &mut Vec<u8>, n: u32)
    ensures
        final(out)@ == old(out)@ + u32_bytes(n),
{
    let ghost start = out@;
    out.push((n & 0xff) as u8);
    out.push(((n >> 8u32) & 0xff) as u8);
    out.push(((n >> 16u32) & 0xff) as u8);
    out.push(((n >> 24u32) & 0xff) as u8);
    assert(out@ =~= start + u32_bytes(n));
}

fn write_text(out: &mut Vec<u8>, s: &String) -> (ok: bool)
    ensures
        ok == text_fits(s@),
        ok ==> final(out)@ == old(out)@ + enc_text(s@),
{
    let ghost start = out@;
    let bytes = s.as_str().as_bytes();
    assert(bytes@ == encode_utf8(s@));
    if bytes.len() as u64 > 0xffff_ffffu64 {
        return false;
    }
    write_u32(out, bytes.len() as u32);
    let mut i: usize = 0;
    while i < bytes.len()
        invariant
            i <= bytes@.len(),
            bytes@ == encode_utf8(s@),
            out@ == start + u32_bytes(bytes@.len() as u32) + bytes@.subrange(0, i as int),
        decreases bytes@.len() - i,
    {
        out.push(bytes[i]);
        i += 1;
        assert(out@ =~= start + u32_bytes(bytes@.len() as u32) + bytes@.subrange(0, i as int));
    }
    assert(bytes@.subrange(0, i as int) =~= bytes@);
    assert(out@ =~= start + enc_text(s@));
    true
}

fn texts_of(c: &CustomerData) -> (v: Vec<String>)
    ensures
        v@.len() == 11,
        forall|j: int| 0 <= j < 11 ==> #[trigger] v@[j]@ == record_texts(c@)[j],
{
    let mut v: Vec<String> = Vec::new();
    v.push(c.customer_id.clone());
    v.push(c.legal_name.clone());
    v.push(c.registration_number.clone());
    v.push(c.incorporation_country.clone());
    v.push(c.lei_registration_status.clone());
    v.push(c.lei.clone());
    v.push(c.incorporation_date.clone());
    v.push(c.primary_country_operation.clone());
    v.push(c.primary_isic_code.clone());
    v.push(c.entity_type.clone());
    v.push(c.swift_code.clone());
    v
}

fn write_texts(out: &mut Vec<u8>, texts: &Vec<String>) -> (ok: bool)
    ensures
        ok == (forall|j: int| 0 <= j < texts@.len() ==> text_fits(#[trigger] texts@[j]@)),
        ok ==> final(out)@ == old(out)@ + enc_texts(texts@.map_values(|s: String| s@)),
{
    let ghost start = out@;
    let ghost ts = texts@.map_values(|s: String| s@);
    let mut k: usize = 0;
    while k < texts.len()
        invariant
            k <= texts@.len(),
            ts == texts@.map_values(|s: String| s@),
            forall|j: int| 0 <= j < k ==> text_fits(#[trigger] texts@[j]@),
            out@ == start + enc_texts(ts.take(k as int)),
        decreases texts@.len() - k,
    {
        let ok = write_text(out, &texts[k]);
        if !ok {
            return false;
        }
        proof {
            assert(ts.take(k + 1).drop_last() =~= ts.take(k as int));
        }
        k += 1;
        assert(out@ =~= start + enc_texts(ts.take(k as int)));
    }
    assert(ts.take(k as int) =~= ts);
    true
}

fn write_record(out: &mut Vec<u8>, c: &CustomerData) -> (ok: bool)
    ensures
        ok == record_fits(c@),
        ok ==> final(out)@ == old(out)@ + enc_record(c@),
{
    let ghost start = out@;
    let texts = texts_of(c);
    let ghost ts = record_texts(c@);
    assert(texts@.map_values(|s: String| s@) =~= ts);
    let ok = write_texts(out, &texts);
    if !ok {
        assert(exists|j: int| 0 <= j < 11 && !text_fits(#[trigger] texts@[j]@));
        return false;
    }
    out.push(if c.kyc_status { 1u8 } else { 0u8 });
    out.push(if c.is_active { 1u8 } else { 0u8 });
    assert(out@ =~= start + enc_record(c@));
    true
}

/// The bytes of ledger `l`, if its encoding fits in `capacity` bytes.
pub fn encode_ledger(l: &CustomerDataList, capacity: usize) -> (r: Option<Vec<u8>>)
    ensures
        r is Some <==> ledger_fits(l@) && enc_ledger(l@).len() <= capacity,
        r matches Some(v) ==> v@ == enc_ledger(l@),
{
    let ghost lv = l@;
    if l.data.len() as u64 > 0xffff_ffffu64 {
        return None;
    }
    let mut out: Vec<u8> = Vec::new();
    write_u32(&mut out, l.data.len() as u32);
    let mut k: usize = 0;
    while k < l.data.len()
        invariant
            k <= lv.len(),
            lv == l@,
            lv.len() <= u32::MAX,
            forall|j: int| 0 <= j < k ==> record_fits(#[trigger] lv[j]),
            out@ == u32_bytes(lv.len() as u32) + enc_records(lv.take(k as int)),
        decreases lv.len() - k,
    {
        let ok = write_record(&mut out, &l.data[k]);
        if !ok {
            assert(lv[k as int] == l.data@[k as int]@);
            assert(!record_fits(lv[k as int]));
            return None;
        }
        proof {
            assert(lv.take(k + 1).drop_last() =~= lv.take(k as int));
        }
        k += 1;
        assert(out@ =~= u32_bytes(lv.len() as u32) + enc_records(lv.take(k as int)));
    }
    assert(lv.take(lv.len() as int) =~= lv);
    if out.len() <= capacity {
        Some(out)
    } else {
        None
    }
}

} // verus!
