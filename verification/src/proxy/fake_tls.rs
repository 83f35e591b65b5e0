//! Fake TLS: a session that looks like TLS 1.3 from outside, with the proxy's secret proved in
//! the random fields of the two hellos.

use std::collections::VecDeque;

use vstd::prelude::*;
use vstd::slice::{slice_subrange, slice_to_vec};

use crate::proxy::bytes::{array_at, push_be, read_be};
use crate::proxy::crypto::hmac_sha256_tag;
use crate::proxy::random::{random_bytes, random_range};
use crate::proxy::text::text_of;
use crate::proxy::{bytes, crypto};

verus! {

pub const TLS_RECORD_HANDSHAKE: u8 = 0x16;

pub const TLS_RECORD_CCS: u8 = 0x14;

pub const TLS_RECORD_APPDATA: u8 = 0x17;

pub const CLIENT_RANDOM_OFFSET: usize = 11;

pub const CLIENT_RANDOM_LEN: usize = 32;

pub const SESSION_ID_OFFSET: usize = 44;

pub const SESSION_ID_LEN: usize = 32;

pub const TIMESTAMP_TOLERANCE: i64 = 120;

pub const TLS_APPDATA_MAX: usize = 16384;

pub const CCS_FRAME: [u8; 6] = [0x14, 0x03, 0x03, 0x00, 0x01, 0x01];

/// A hello whose random field, 32 bytes at offset 11, is replaced.
pub open spec fn with_random(hello: Seq<u8>, random: Seq<u8>) -> Seq<u8> {
    hello.take(11) + random + hello.skip(43)
}

/// 32 zero bytes.
pub open spec fn zero_random() -> Seq<u8> {
    Seq::new(32, |i: int| 0u8)
}

/// The tag that a client who knows the secret gives its hello: over the hello with the random
/// field set to zero.
pub open spec fn hello_tag(hello: Seq<u8>, secret: Seq<u8>) -> Seq<u8> {
    crypto::hmac_sha256(secret, with_random(hello, zero_random()))
}

/// The four bytes of time that the random field carries.
pub open spec fn hello_time_bytes(hello: Seq<u8>, secret: Seq<u8>) -> Seq<u8> {
    let tag = hello_tag(hello, secret);
    seq![
        hello[39] ^ tag[28],
        hello[40] ^ tag[29],
        hello[41] ^ tag[30],
        hello[42] ^ tag[31],
    ]
}

/// The time, in seconds since 1970, that a hello carries.
pub open spec fn hello_time(hello: Seq<u8>, secret: Seq<u8>) -> int {
    bytes::le_value(hello_time_bytes(hello, secret)) as int
}

/// A client hello of a client who knows the secret.
pub open spec fn is_authentic(hello: Seq<u8>, secret: Seq<u8>) -> bool {
    &&& hello.len() >= 43
    &&& hello[0] == TLS_RECORD_HANDSHAKE
    &&& hello[5] == 0x01
    &&& forall|i: int| 0 <= i < 28 ==> #[trigger] hello[11 + i] == hello_tag(hello, secret)[i]
}

/// The session id of a client hello: zeros unless it has 32 bytes.
pub open spec fn hello_session_id(hello: Seq<u8>) -> Seq<u8> {
    if hello.len() >= 76 && hello[43] == 0x20 {
        hello.subrange(44, 76)
    } else {
        zero_random()
    }
}

/// Two times at most `TIMESTAMP_TOLERANCE` seconds apart.
pub open spec fn is_timely(time: int, now: int) -> bool {
    -TIMESTAMP_TOLERANCE <= now - time <= TIMESTAMP_TOLERANCE
}

/// Compares two byte strings without stopping at the first difference.
fn constant_time_eq(a: &[u8], b: &[u8]) -> (same: bool)
    ensures
        same == (a@ == b@),
{
    if a.len() != b.len() {
        return false;
    }
    let mut result: u8 = 0;
    let mut i: usize = 0;
    while i < a.len()
        invariant
            a@.len() == b@.len(),
            i <= a@.len(),
            result == 0 <==> (forall|j: int| 0 <= j < i ==> a@[j] == b@[j]),
        decreases a@.len() - i,
    {
        let x: u8 = a[i];
        let y: u8 = b[i];
        assert((result | (x ^ y)) == 0 <==> result == 0 && x == y) by (bit_vector);
        result = result | (x ^ y);
        i = i + 1;
    }
    proof {
        if result == 0 {
            assert(a@ =~= b@);
        }
    }
    result == 0
}

/// Verifies a client hello at a given time, in seconds since 1970. On success gives the random
/// field, the session id and the time that the hello carries.
pub fn verify_client_hello_at(data: &[u8], secret: &[u8], now: u64) -> (out: Option<
    ([u8; 32], [u8; 32], i64),
>)
    ensures
        out is Some <==> is_authentic(data@, secret@) && is_timely(
            hello_time(data@, secret@),
            now as int,
        ),
        out matches Some((client_random, session_id, timestamp)) ==> {
            &&& client_random@ == data@.subrange(11, 43)
            &&& session_id@ == hello_session_id(data@)
            &&& timestamp == hello_time(data@, secret@)
        },
        ({
            let tag = crypto::hmac_sha256(
                secret@,
                data@.take(11) + Seq::new(32, |i: int| 0u8) + data@.skip(43),
            );
            let time: int = (data@[39] ^ tag[28]) + 256 * (data@[40] ^ tag[29]) + 65536 * (data@[41]
                ^ tag[30]) + 16777216 * (data@[42] ^ tag[31]);
            &&& out is Some <==> (data@.len() >= 43 && data@[0] == 0x16 && data@[5] == 0x01
                && data@.subrange(11, 39) == tag.take(28) && -120 <= now - time <= 120)
            &&& out matches Some((_, session_id, timestamp)) ==> {
                &&& timestamp == time
                &&& data@.len() >= 76 && data@[43] == 0x20 ==> session_id@ == data@.subrange(44, 76)
                &&& !(data@.len() >= 76 && data@[43] == 0x20) ==> session_id@ == Seq::new(
                    32,
                    |i: int| 0u8,
                )
            }
        }),
{
    proof {
        if data@.len() >= 43 {
            law_hello_checked(data@, secret@);
        }
    }
    if data.len() < 43 {
        return None;
    }
    if data[0] != TLS_RECORD_HANDSHAKE {
        return None;
    }
    if data[5] != 0x01 {
        return None;
    }
    let client_random: [u8; 32] = array_at::<32>(data, CLIENT_RANDOM_OFFSET);

    let zeros: [u8; 32] = [0u8; 32];
    let mut zeroed: Vec<u8> = slice_to_vec(slice_subrange(data, 0, CLIENT_RANDOM_OFFSET));
    zeroed.extend_from_slice(zeros.as_slice());
    zeroed.extend_from_slice(
        slice_subrange(data, CLIENT_RANDOM_OFFSET + CLIENT_RANDOM_LEN, data.len()),
    );
    assert(zeroed@ =~= with_random(data@, zero_random()));

    let expected = hmac_sha256_tag(secret, zeroed.as_slice());
    let ghost tag = hello_tag(data@, secret@);
    assert(expected@ == tag);
    let wanted = slice_subrange(expected.as_slice(), 0, 28);
    let given = slice_subrange(client_random.as_slice(), 0, 28);
    proof {
        assert forall|i: int| 0 <= i < 28 implies given@[i] == #[trigger] data@[11 + i]
            && wanted@[i] == tag[i] by {}
        if is_authentic(data@, secret@) {
            assert forall|i: int| 0 <= i < 28 implies wanted@[i] == given@[i] by {
                assert(data@[11 + i] == tag[i]);
            }
            assert(wanted@ =~= given@);
        }
    }
    if !constant_time_eq(wanted, given) {
        return None;
    }
    proof {
        assert forall|i: int| 0 <= i < 28 implies #[trigger] data@[11 + i] == tag[i] by {
            assert(wanted@[i] == given@[i]);
        }
        assert(is_authentic(data@, secret@));
    }
    let t0: u8 = client_random[28] ^ expected[28];
    let t1: u8 = client_random[29] ^ expected[29];
    let t2: u8 = client_random[30] ^ expected[30];
    let t3: u8 = client_random[31] ^ expected[31];
    let timestamp: i64 = t0 as i64 + 256 * t1 as i64 + 65536 * t2 as i64 + 16777216 * t3 as i64;
    proof {
        let time_bytes = hello_time_bytes(data@, secret@);
        assert(time_bytes =~= seq![t0, t1, t2, t3]);
        bytes::lemma_le_value_4(time_bytes);
    }
    let apart: u64 = if now < timestamp as u64 {
        timestamp as u64 - now
    } else {
        now - timestamp as u64
    };
    if apart > TIMESTAMP_TOLERANCE as u64 {
        return None;
    }
    let session_id: [u8; 32] = if data.len() >= SESSION_ID_OFFSET + SESSION_ID_LEN && data[43]
        == 0x20 {
        array_at::<32>(data, SESSION_ID_OFFSET)
    } else {
        zeros
    };
    assert(session_id@ =~= hello_session_id(data@));
    assert(data@.subrange(11, 39) =~= tag.take(28)) by {
        assert(data@.subrange(11, 39) =~= given@);
        assert(tag.take(28) =~= wanted@);
    }
    Some((client_random, session_id, timestamp))
}

/// Calls `std::time::SystemTime::elapsed` on `UNIX_EPOCH` and gives the whole seconds. Claims
/// nothing: the time is what the machine's clock says. None: the clock stands before 1970.
#[verifier::external_body]
pub(crate) fn unix_seconds() -> (now: Option<u64>) {
    std::time::SystemTime::UNIX_EPOCH.elapsed().ok().map(|d| d.as_secs())
}

/// Verifies a client hello with `verify_client_hello_at`, at the time that the machine's clock
/// says. That time is not known here, so that an authentic hello may be too old or too new.
pub fn verify_client_hello(data: &[u8], secret: &[u8]) -> (out: Option<
    ([u8; 32], [u8; 32], i64),
>)
    ensures
        !is_authentic(data@, secret@) ==> out is None,
        out matches Some((client_random, session_id, timestamp)) ==> {
            &&& client_random@ == data@.subrange(11, 43)
            &&& session_id@ == hello_session_id(data@)
            &&& timestamp == hello_time(data@, secret@)
        },
{
    match unix_seconds() {
        Some(now) => verify_client_hello_at(data, secret, now),
        None => None,
    }
}

/// The random field of a client who knows the secret and whose clock says `time`.
pub open spec fn stamped_random(tag: Seq<u8>, time: Seq<u8>) -> Seq<u8> {
    Seq::new(
        32,
        |i: int|
            if i < 28 {
                tag[i]
            } else {
                tag[i] ^ time[i - 28]
            },
    )
}

/// The hello of a client who knows the secret and whose clock says `time` is accepted whenever
/// the two clocks agree well enough, and the proxy reads that time from it.
pub proof fn law_client_hello_accepted(hello: Seq<u8>, secret: Seq<u8>, time: Seq<u8>)
    requires
        hello.len() >= 43,
        hello[0] == TLS_RECORD_HANDSHAKE,
        hello[5] == 0x01,
        time.len() == 4,
    ensures
        ({
            let sent = with_random(hello, stamped_random(hello_tag(hello, secret), time));
            &&& is_authentic(sent, secret)
            &&& hello_time(sent, secret) == bytes::le_value(time)
            &&& hello_session_id(sent) == hello_session_id(hello)
        }),
{
    let tag = hello_tag(hello, secret);
    let random = stamped_random(tag, time);
    let sent = with_random(hello, random);
    assert(with_random(sent, zero_random()) =~= with_random(hello, zero_random()));
    assert forall|i: int| 0 <= i < 28 implies #[trigger] sent[11 + i] == tag[i] by {
        assert(sent[11 + i] == random[i]);
    }
    assert forall|k: int| 0 <= k < 4 implies #[trigger] hello_time_bytes(sent, secret)[k]
        == time[k] by {
        let a = tag[28 + k];
        let b = time[k];
        assert(sent[39 + k] == random[28 + k]);
        assert((a ^ b) ^ a == b) by (bit_vector);
    }
    assert(hello_time_bytes(sent, secret) =~= time);
    assert(hello_session_id(sent) =~= hello_session_id(hello));
}

/// The server hello's record, for a given random field.
pub open spec fn server_hello_record(
    random: Seq<u8>,
    session_id: Seq<u8>,
    pubkey: Seq<u8>,
) -> Seq<u8> {
    seq![0x16u8, 0x03, 0x03, 0x00, 0x7a, 0x02, 0x00, 0x00, 0x76, 0x03, 0x03] + random + seq![0x20u8]
        + session_id + seq![
        0x13u8,
        0x01,
        0x00,
        0x00,
        0x2e,
        0x00,
        0x33,
        0x00,
        0x24,
        0x00,
        0x1d,
        0x00,
        0x20,
    ] + pubkey + seq![0x00u8, 0x2b, 0x00, 0x02, 0x03, 0x04]
}

/// The whole answer to a client hello: server hello, change of cipher, one encrypted record.
pub open spec fn server_response(
    random: Seq<u8>,
    session_id: Seq<u8>,
    pubkey: Seq<u8>,
    encrypted: Seq<u8>,
) -> Seq<u8> {
    server_hello_record(random, session_id, pubkey) + CCS_FRAME@ + app_record(encrypted)
}

/// The random field that proves to the client that the proxy knows the secret.
pub open spec fn server_random(
    secret: Seq<u8>,
    client_random: Seq<u8>,
    session_id: Seq<u8>,
    pubkey: Seq<u8>,
    encrypted: Seq<u8>,
) -> Seq<u8> {
    crypto::hmac_sha256(
        secret,
        client_random + server_response(zero_random(), session_id, pubkey, encrypted),
    )
}

/// Writes the answer to a client hello for a given key and encrypted record. The client, who
/// knows the secret, finds in the random field the tag of its own random field and the answer
/// with the random field set to zero.
pub fn server_hello_with(
    secret: &[u8],
    client_random: &[u8; 32],
    session_id: &[u8; 32],
    pubkey: &[u8; 32],
    encrypted: &[u8],
) -> (out: Vec<u8>)
    requires
        encrypted@.len() <= 65535,
    ensures
        out@ == server_response(
            server_random(secret@, client_random@, session_id@, pubkey@, encrypted@),
            session_id@,
            pubkey@,
            encrypted@,
        ),
        out@.len() == 138 + encrypted@.len(),
        out@.subrange(11, 43) == crypto::hmac_sha256(
            secret@,
            client_random@ + with_random(out@, zero_random()),
        ),
        out@.take(11) == seq![
            0x16u8,
            0x03,
            0x03,
            0x00,
            0x7a,
            0x02,
            0x00,
            0x00,
            0x76,
            0x03,
            0x03,
        ],
        out@[43] == 0x20,
        out@.subrange(44, 76) == session_id@,
        out@.subrange(89, 121) == pubkey@,
        out@.skip(138) == encrypted@,
{
    let zeros: [u8; 32] = [0u8; 32];
    assert(zeros@ =~= zero_random());
    let unsigned = response_bytes(&zeros, session_id, pubkey, encrypted);
    let mut signed: Vec<u8> = slice_to_vec(client_random.as_slice());
    signed.extend_from_slice(unsigned.as_slice());
    assert(signed@ =~= client_random@ + unsigned@);
    let tag = hmac_sha256_tag(secret, signed.as_slice());
    let random: [u8; 32] = array_at::<32>(tag.as_slice(), 0);
    assert(random@ =~= tag@);
    let out = response_bytes(&random, session_id, pubkey, encrypted);
    assert(out@.subrange(11, 43) =~= tag@);
    assert(with_random(out@, zero_random()) =~= unsigned@);
    proof {
        law_response_bytes(random@, session_id@, pubkey@, encrypted@);
    }
    out
}

fn response_bytes(
    random: &[u8; 32],
    session_id: &[u8; 32],
    pubkey: &[u8; 32],
    encrypted: &[u8],
) -> (out: Vec<u8>)
    requires
        encrypted@.len() <= 65535,
    ensures
        out@ == server_response(random@, session_id@, pubkey@, encrypted@),
        out@.len() == 138 + encrypted@.len(),
{
    let mut out: Vec<u8> = Vec::new();
    let head: [u8; 11] = [0x16, 0x03, 0x03, 0x00, 0x7a, 0x02, 0x00, 0x00, 0x76, 0x03, 0x03];
    out.extend_from_slice(head.as_slice());
    out.extend_from_slice(random.as_slice());
    out.push(0x20);
    out.extend_from_slice(session_id.as_slice());
    let extensions: [u8; 13] = [
        0x13,
        0x01,
        0x00,
        0x00,
        0x2e,
        0x00,
        0x33,
        0x00,
        0x24,
        0x00,
        0x1d,
        0x00,
        0x20,
    ];
    out.extend_from_slice(extensions.as_slice());
    out.extend_from_slice(pubkey.as_slice());
    let versions: [u8; 6] = [0x00, 0x2b, 0x00, 0x02, 0x03, 0x04];
    out.extend_from_slice(versions.as_slice());
    assert(out@ =~= server_hello_record(random@, session_id@, pubkey@));
    out.extend_from_slice(CCS_FRAME.as_slice());
    push_app_record(&mut out, encrypted);
    assert(out@ =~= server_response(random@, session_id@, pubkey@, encrypted@));
    proof {
        bytes::lemma_pow256_values();
        bytes::lemma_be_round_trip(encrypted@.len(), 2);
    }
    out
}

/// An answer to a client hello: with some key, some encrypted record of 1900 to 2099 bytes, and
/// the random field that proves that the proxy knows the secret.
pub open spec fn is_server_hello(
    answer: Seq<u8>,
    secret: Seq<u8>,
    client_random: Seq<u8>,
    session_id: Seq<u8>,
    pubkey: Seq<u8>,
    encrypted: Seq<u8>,
) -> bool {
    &&& pubkey.len() == 32
    &&& 1900 <= encrypted.len() < 2100
    &&& answer.len() == 138 + encrypted.len()
    &&& answer == server_response(
        server_random(secret, client_random, session_id, pubkey, encrypted),
        session_id,
        pubkey,
        encrypted,
    )
}

/// An answer to a client hello, for whatever key and encrypted record, that the client can
/// verify: its random field is the tag of the client's random field and the answer with the
/// random field set to zero.
pub open spec fn is_answer(
    answer: Seq<u8>,
    secret: Seq<u8>,
    client_random: Seq<u8>,
    session_id: Seq<u8>,
) -> bool {
    &&& exists|pubkey: Seq<u8>, encrypted: Seq<u8>| #[trigger]
        is_server_hello(answer, secret, client_random, session_id, pubkey, encrypted)
    &&& answer.subrange(11, 43) == crypto::hmac_sha256(
        secret,
        client_random + with_random(answer, zero_random()),
    )
}

/// Answers a client hello, with a random key and random bytes for the encrypted record.
pub fn build_server_hello(secret: &[u8], client_random: &[u8; 32], session_id: &[u8; 32]) -> (out:
    Vec<u8>)
    ensures
        is_answer(out@, secret@, client_random@, session_id@),
        2038 <= out@.len() < 2238,
        out@.take(11) == seq![
            0x16u8,
            0x03,
            0x03,
            0x00,
            0x7a,
            0x02,
            0x00,
            0x00,
            0x76,
            0x03,
            0x03,
        ],
        out@[43] == 0x20,
        out@.subrange(44, 76) == session_id@,
{
    let pubkey: [u8; 32] = array_at::<32>(random_bytes(32).as_slice(), 0);
    let encrypted_size: usize = random_range(1900, 2100);
    let encrypted = random_bytes(encrypted_size);
    let out = server_hello_with(secret, client_random, session_id, &pubkey, encrypted.as_slice());
    assert(is_server_hello(
        out@,
        secret@,
        client_random@,
        session_id@,
        pubkey@,
        encrypted@,
    ));
    out
}

/// One application data record.
pub open spec fn app_record(data: Seq<u8>) -> Seq<u8> {
    seq![0x17u8, 0x03, 0x03] + bytes::be_bytes(data.len(), 2) + data
}

/// `data` in application data records of at most `TLS_APPDATA_MAX` bytes each.
pub open spec fn wrapped(data: Seq<u8>) -> Seq<u8>
    decreases data.len(),
{
    if data.len() == 0 {
        Seq::empty()
    } else if data.len() <= TLS_APPDATA_MAX {
        app_record(data)
    } else {
        app_record(data.take(TLS_APPDATA_MAX as int)) + wrapped(data.skip(TLS_APPDATA_MAX as int))
    }
}

fn push_app_record(out: &mut Vec<u8>, data: &[u8])
    requires
        data@.len() <= 65535,
    ensures
        final(out)@ == old(out)@ + app_record(data@),
{
    out.push(0x17);
    out.push(0x03);
    out.push(0x03);
    push_be(out, data.len() as u64, 2);
    out.extend_from_slice(data);
    assert(out@ =~= old(out)@ + app_record(data@));
}

/// Wraps data in application data records.
pub fn wrap_tls_record(data: &[u8]) -> (out: Vec<u8>)
    ensures
        out@ == wrapped(data@),
        out@.len() == data@.len() + 5 * ((data@.len() + 16383) / 16384),
{
    let mut out: Vec<u8> = Vec::new();
    let len: usize = data.len();
    let mut from: usize = 0;
    assert(data@.skip(0) =~= data@);
    while from < len
        invariant
            from <= len == data@.len(),
            wrapped(data@) =~= out@ + wrapped(data@.skip(from as int)),
        decreases len - from,
    {
        let ghost before = out@;
        let ghost rest = data@.skip(from as int);
        let end: usize = if len - from <= TLS_APPDATA_MAX {
            len
        } else {
            from + TLS_APPDATA_MAX
        };
        push_app_record(&mut out, slice_subrange(data, from, end));
        proof {
            assert(data@.subrange(from as int, end as int) =~= rest.take(end - from));
            assert(rest.skip(end - from) =~= data@.skip(end as int));
            assert(rest.take(rest.len() as int) =~= rest);
        }
        from = end;
    }
    proof {
        lemma_wrapped_len(data@);
    }
    out
}

/// How many bytes follow a record's header.
pub open spec fn record_len(header: Seq<u8>) -> nat {
    bytes::be_value(header.subrange(3, 5))
}

/// What a stream of records carries: none where it breaks off inside a record, or holds a record
/// of a kind that has no place there. Changes of cipher carry nothing.
pub open spec fn unwrapped(stream: Seq<u8>) -> Option<Seq<u8>>
    decreases stream.len(),
{
    if stream.len() == 0 {
        Some(Seq::empty())
    } else if stream.len() < 5 {
        None
    } else {
        let end = 5 + record_len(stream.take(5));
        if stream.len() < end {
            None
        } else {
            match unwrapped(stream.skip(end as int)) {
                Some(rest) => if stream[0] == TLS_RECORD_APPDATA {
                    Some(stream.subrange(5, end as int) + rest)
                } else if stream[0] == TLS_RECORD_CCS {
                    Some(rest)
                } else {
                    None
                },
                None => None,
            }
        }
    }
}

proof fn lemma_unwrap_record(data: Seq<u8>, rest: Seq<u8>)
    requires
        data.len() <= 65535,
    ensures
        unwrapped(app_record(data) + rest) == match unwrapped(rest) {
            Some(more) => Some(data + more),
            None => None,
        },
{
    let stream = app_record(data) + rest;
    bytes::lemma_pow256_values();
    bytes::lemma_be_round_trip(data.len(), 2);
    assert(stream.take(5).subrange(3, 5) =~= bytes::be_bytes(data.len(), 2));
    let end = 5 + data.len();
    assert(stream.skip(end as int) =~= rest);
    assert(stream.subrange(5, end as int) =~= data);
}

/// What is wrapped in records is unwrapped again, in front of whatever follows.
pub proof fn law_tls_round_trip(data: Seq<u8>, rest: Seq<u8>)
    ensures
        unwrapped(wrapped(data) + rest) == match unwrapped(rest) {
            Some(more) => Some(data + more),
            None => None,
        },
    decreases data.len(),
{
    if data.len() == 0 {
        assert(wrapped(data) + rest =~= rest);
        if unwrapped(rest) is Some {
            assert(data + unwrapped(rest)->0 =~= unwrapped(rest)->0);
        }
    } else if data.len() <= TLS_APPDATA_MAX {
        lemma_unwrap_record(data, rest);
    } else {
        let first = data.take(TLS_APPDATA_MAX as int);
        let others = data.skip(TLS_APPDATA_MAX as int);
        law_tls_round_trip(others, rest);
        lemma_unwrap_record(first, wrapped(others) + rest);
        assert(wrapped(data) + rest =~= app_record(first) + (wrapped(others) + rest));
        if unwrapped(rest) is Some {
            let more = unwrapped(rest)->0;
            assert(first + (others + more) =~= data + more);
        }
    }
}

/// Why a record cannot be read.
#[derive(Debug, Clone, Copy, PartialEq, Eq, Structural)]
pub enum TlsReadError {
    /// The stream ends inside a record's header.
    ShortHeader,
    /// The stream ends inside a record's body.
    ShortBody,
    /// A record of this type has no place here.
    UnexpectedType(u8),
}

/// An upper-case hexadecimal digit.
pub open spec fn upper_hex_digit(d: int) -> char {
    if d < 10 {
        (48 + d) as char
    } else {
        (55 + d) as char
    }
}

fn upper_hex(d: u8) -> (c: char)
    requires
        d < 16,
    ensures
        c == upper_hex_digit(d as int),
{
    let code: u8 = if d < 10 {
        48 + d
    } else {
        55 + d
    };
    code as char
}

impl TlsReadError {
    /// The error as it is shown.
    pub open spec fn text(self) -> Seq<char> {
        match self {
            TlsReadError::ShortHeader => "short TLS record header"@,
            TlsReadError::ShortBody => "short TLS record body"@,
            TlsReadError::UnexpectedType(t) => "unexpected TLS record type 0x"@ + seq![
                upper_hex_digit(t as int / 16),
                upper_hex_digit(t as int % 16),
            ],
        }
    }

    /// The error as it is shown.
    pub fn message(&self) -> (out: String)
        ensures
            out@ == self.text(),
    {
        match *self {
            TlsReadError::ShortHeader => "short TLS record header".to_owned(),
            TlsReadError::ShortBody => "short TLS record body".to_owned(),
            TlsReadError::UnexpectedType(t) => {
                let mut out = "unexpected TLS record type 0x".to_owned();
                let mut digits: Vec<char> = Vec::new();
                digits.push(upper_hex(t / 16));
                digits.push(upper_hex(t % 16));
                out.append(text_of(digits).as_str());
                assert(out@ =~= self.text());
                out
            },
        }
    }
}

/// What is done to read from a stream of records.
#[derive(Debug)]
pub enum RecordStep {
    /// Read up to `len` bytes, hand them to the stream, and go on.
    Read { len: usize },
    /// These bytes are what was to be read.
    Give(Vec<u8>),
    /// Reading fails.
    Fail(TlsReadError),
}

/// Whether `got` starts with a whole record.
pub open spec fn has_record(got: Seq<u8>) -> bool {
    got.len() >= 5 && got.len() >= 5 + record_len(got.take(5))
}

/// What the record at the start carries.
pub open spec fn record_body(got: Seq<u8>) -> Seq<u8> {
    got.subrange(5, 5 + record_len(got.take(5)) as int)
}

/// What follows the record at the start.
pub open spec fn behind_record(got: Seq<u8>) -> Seq<u8> {
    got.skip(5 + record_len(got.take(5)) as int)
}

/// The bytes without the changes of cipher that they start with.
pub open spec fn past_ccs(got: Seq<u8>) -> Seq<u8>
    decreases got.len(),
{
    if has_record(got) && got[0] == TLS_RECORD_CCS {
        past_ccs(behind_record(got))
    } else {
        got
    }
}

/// What has been read of a stream of records and not been handed on yet: what records carried,
/// and bytes of records that have not been looked at.
pub struct RecordState {
    pub buf: Seq<u8>,
    pub got: Seq<u8>,
}

/// What happens to a stream of records.
pub enum RecordEvent {
    /// These bytes come in.
    Received(Seq<u8>),
    /// Up to so many bytes are to be read.
    Read(nat),
}

impl RecordState {
    /// What can be handed on now: none if more has to come in first.
    pub open spec fn ready(self) -> Option<Seq<u8>> {
        let got = past_ccs(self.got);
        if self.buf.len() > 0 {
            Some(self.buf)
        } else if has_record(got) && got[0] == TLS_RECORD_APPDATA {
            Some(record_body(got))
        } else {
            None
        }
    }

    /// What a read hands on, nothing if nothing is ready.
    pub open spec fn given(self, room: nat) -> Seq<u8> {
        match self.ready() {
            Some(ready) => if room < ready.len() {
                ready.take(room as int)
            } else {
                ready
            },
            None => Seq::empty(),
        }
    }

    /// The state after a read.
    pub open spec fn after_read(self, room: nat) -> RecordState {
        let got = past_ccs(self.got);
        match self.ready() {
            Some(ready) => RecordState {
                buf: ready.skip(self.given(room).len() as int),
                got: if self.buf.len() > 0 {
                    self.got
                } else {
                    behind_record(got)
                },
            },
            None => RecordState {
                buf: self.buf,
                got: if has_record(got) {
                    behind_record(got)
                } else {
                    got
                },
            },
        }
    }

    /// Why a read fails where nothing is ready and nothing more comes in.
    pub open spec fn failure(self) -> TlsReadError {
        let got = past_ccs(self.got);
        if has_record(got) {
            TlsReadError::UnexpectedType(got[0])
        } else if got.len() < 5 {
            TlsReadError::ShortHeader
        } else {
            TlsReadError::ShortBody
        }
    }

    /// How many bytes are missing to the next header, or to the record that it opens.
    pub open spec fn missing(self) -> int {
        let got = past_ccs(self.got);
        if got.len() < 5 {
            5 - got.len()
        } else {
            5 + record_len(got.take(5)) - got.len()
        }
    }

    /// What is still to be handed on if `incoming` follows, up to the end of the stream: none
    /// where the stream breaks off inside a record, or holds one that has no place there.
    pub open spec fn carries(self, incoming: Seq<u8>) -> Option<Seq<u8>> {
        match unwrapped(self.got + incoming) {
            Some(rest) => Some(self.buf + rest),
            None => None,
        }
    }

    /// What all the reads among these events hand on, and the state after them.
    pub open spec fn run(self, events: Seq<RecordEvent>) -> (Seq<u8>, RecordState)
        decreases events.len(),
    {
        if events.len() == 0 {
            (Seq::empty(), self)
        } else {
            let (out, state) = self.run(events.drop_last());
            match events.last() {
                RecordEvent::Received(bytes) => (
                    out,
                    RecordState { buf: state.buf, got: state.got + bytes },
                ),
                RecordEvent::Read(room) => (out + state.given(room), state.after_read(room)),
            }
        }
    }
}

/// The bytes that come in with these events.
pub open spec fn received(events: Seq<RecordEvent>) -> Seq<u8>
    decreases events.len(),
{
    if events.len() == 0 {
        Seq::empty()
    } else {
        match events.last() {
            RecordEvent::Received(bytes) => received(events.drop_last()) + bytes,
            RecordEvent::Read(_) => received(events.drop_last()),
        }
    }
}

/// Wraps a stream to encode and decode application data records: what is read comes without the
/// record headers. `buf` holds what has been read but not handed on yet, and `got` what has been
/// read of the next record.
#[derive(Debug)]
pub struct FakeTlsStream<R, W> {
    pub reader: R,
    pub writer: W,
    pub buf: VecDeque<u8>,
    pub got: Vec<u8>,
}

impl<R, W> FakeTlsStream<R, W> {
    /// What has been read and not been handed on yet.
    pub open spec fn state(&self) -> RecordState {
        RecordState { buf: self.buf@, got: self.got@ }
    }
}

impl<R, W> FakeTlsStream<R, W> {
    /// Wraps the two halves of a stream.
    pub fn new(reader: R, writer: W) -> (s: Self)
        ensures
            s.reader == reader,
            s.writer == writer,
            s.buf@ == Seq::<u8>::empty(),
            s.got@ == Seq::<u8>::empty(),
    {
        FakeTlsStream { reader, writer, buf: VecDeque::new(), got: Vec::new() }
    }

    /// Gives the two halves back.
    pub fn into_inner(self) -> (halves: (R, W))
        ensures
            halves == (self.reader, self.writer),
    {
        (self.reader, self.writer)
    }

    /// Hands on what has been read before, up to `room` bytes: none if there is nothing.
    pub fn take_buffered(&mut self, room: usize) -> (out: Option<Vec<u8>>)
        ensures
            final(self).reader == old(self).reader,
            final(self).writer == old(self).writer,
            final(self).got == old(self).got,
            out is None <==> old(self).buf@.len() == 0,
            out is None ==> final(self).buf@ == old(self).buf@,
            out matches Some(data) ==> {
                let n = if room < old(self).buf@.len() {
                    room as int
                } else {
                    old(self).buf@.len() as int
                };
                &&& data@ == old(self).buf@.take(n)
                &&& final(self).buf@ == old(self).buf@.skip(n)
            },
    {
        if self.buf.len() == 0 {
            return None;
        }
        let ghost all = self.buf@;
        let n: usize = if room < self.buf.len() {
            room
        } else {
            self.buf.len()
        };
        let mut data: Vec<u8> = Vec::new();
        let mut i: usize = 0;
        assert(all.skip(0) =~= all);
        while i < n
            invariant
                i <= n <= all.len(),
                self.reader == old(self).reader,
                self.writer == old(self).writer,
                self.got == old(self).got,
                data@ =~= all.take(i as int),
                self.buf@ =~= all.skip(i as int),
            decreases n - i,
        {
            match self.buf.pop_front() {
                Some(b) => {
                    data.push(b);
                },
                None => {},
            }
            i = i + 1;
        }
        Some(data)
    }

    /// Takes what could be read of a record's header and gives the length of its body.
    pub fn read_header(&self, header: &[u8]) -> (out: Result<usize, TlsReadError>)
        ensures
            match out {
                Ok(len) => header@.len() >= 5 && len == record_len(header@),
                Err(e) => header@.len() < 5 && e == TlsReadError::ShortHeader,
            },
    {
        if header.len() < 5 {
            return Err(TlsReadError::ShortHeader);
        }
        proof {
            bytes::lemma_pow256_values();
            bytes::lemma_be_value_bound(header@.subrange(3, 5));
        }
        Ok(read_be(header, 3, 2) as usize)
    }

    /// Takes what could be read of a record's body and hands on up to `room` bytes of it; the
    /// rest is kept. None: the record carries nothing, the next one is to be read.
    pub fn read_record(&mut self, header: &[u8], body: &[u8], room: usize) -> (out: Result<
        Option<Vec<u8>>,
        TlsReadError,
    >)
        requires
            header@.len() >= 5,
            old(self).buf@.len() == 0,
        ensures
            final(self).reader == old(self).reader,
            final(self).writer == old(self).writer,
            final(self).got == old(self).got,
            ({
                let len = record_len(header@);
                let n = if room < len {
                    room as int
                } else {
                    len as int
                };
                match out {
                    Err(TlsReadError::ShortHeader) => false,
                    Err(TlsReadError::ShortBody) => {
                        &&& body@.len() < len
                        &&& final(self).buf@.len() == 0
                    },
                    Err(TlsReadError::UnexpectedType(t)) => {
                        &&& body@.len() >= len
                        &&& t == header@[0]
                        &&& t != TLS_RECORD_APPDATA
                        &&& t != TLS_RECORD_CCS
                        &&& final(self).buf@.len() == 0
                    },
                    Ok(None) => {
                        &&& body@.len() >= len
                        &&& header@[0] == TLS_RECORD_CCS
                        &&& final(self).buf@.len() == 0
                    },
                    Ok(Some(data)) => {
                        &&& body@.len() >= len
                        &&& header@[0] == TLS_RECORD_APPDATA
                        &&& data@ == body@.take(n)
                        &&& final(self).buf@ == body@.subrange(n, len as int)
                    },
                }
            }),
    {
        proof {
            bytes::lemma_pow256_values();
            bytes::lemma_be_value_bound(header@.subrange(3, 5));
        }
        let len: usize = read_be(header, 3, 2) as usize;
        if body.len() < len {
            return Err(TlsReadError::ShortBody);
        }
        if header[0] == TLS_RECORD_CCS {
            return Ok(None);
        }
        if header[0] != TLS_RECORD_APPDATA {
            return Err(TlsReadError::UnexpectedType(header[0]));
        }
        let n: usize = if room < len {
            room
        } else {
            len
        };
        let data = slice_to_vec(slice_subrange(body, 0, n));
        assert(data@ =~= body@.take(n as int));
        let mut i: usize = n;
        while i < len
            invariant
                n <= i <= len <= body@.len(),
                self.reader == old(self).reader,
                self.writer == old(self).writer,
                self.got == old(self).got,
                self.buf@ =~= body@.subrange(n as int, i as int),
            decreases len - i,
        {
            self.buf.push_back(body[i]);
            i = i + 1;
        }
        Ok(Some(data))
    }

    /// Takes bytes that have come in.
    pub fn receive(&mut self, bytes: &[u8])
        ensures
            final(self).reader == old(self).reader,
            final(self).writer == old(self).writer,
            final(self).buf == old(self).buf,
            final(self).got@ == old(self).got@ + bytes@,
    {
        self.got.extend_from_slice(bytes);
        assert(self.got@ =~= old(self).got@ + bytes@);
    }

    /// Says how to go on with a read of up to `room` bytes: what is ready is handed on, what is
    /// missing is asked for, or, if the stream has `ended`, found missing.
    pub fn next_read(&mut self, room: usize, ended: bool) -> (step: RecordStep)
        ensures
            final(self).reader == old(self).reader,
            final(self).writer == old(self).writer,
            final(self).state() == old(self).state().after_read(room as nat),
            match step {
                RecordStep::Give(data) => {
                    &&& old(self).state().ready() is Some
                    &&& data@ == old(self).state().given(room as nat)
                },
                RecordStep::Read { len } => {
                    &&& old(self).state().ready() is None
                    &&& !ended
                    &&& !(old(self).state().failure() is UnexpectedType)
                    &&& len == old(self).state().missing()
                },
                RecordStep::Fail(e) => {
                    &&& old(self).state().ready() is None
                    &&& ended || e is UnexpectedType
                    &&& e == old(self).state().failure()
                },
            },
    {
        let ghost before = self.state();
        if let Some(data) = self.take_buffered(room) {
            assert(data@ =~= before.given(room as nat));
            return RecordStep::Give(data);
        }
        loop
            invariant
                self.reader == old(self).reader,
                self.writer == old(self).writer,
                before == old(self).state(),
                before.buf.len() == 0,
                self.buf@ == before.buf,
                past_ccs(self.got@) == past_ccs(before.got),
            decreases self.got@.len(),
        {
            let ghost got = self.got@;
            let len: usize = match self.read_header(self.got.as_slice()) {
                Ok(len) => len,
                Err(e) => {
                    if ended {
                        return RecordStep::Fail(e);
                    }
                    return RecordStep::Read { len: 5 - self.got.len() };
                },
            };
            assert(got.take(5).subrange(3, 5) =~= got.subrange(3, 5));
            if self.got.len() - 5 < len {
                if ended {
                    return RecordStep::Fail(TlsReadError::ShortBody);
                }
                return RecordStep::Read { len: len - (self.got.len() - 5) };
            }
            let header = slice_to_vec(slice_subrange(self.got.as_slice(), 0, 5));
            let body = slice_to_vec(slice_subrange(self.got.as_slice(), 5, 5 + len));
            let rest = slice_to_vec(
                slice_subrange(self.got.as_slice(), 5 + len, self.got.len()),
            );
            assert(header@ =~= got.take(5));
            assert(body@ =~= record_body(got));
            assert(rest@ =~= behind_record(got));
            self.got = rest;
            match self.read_record(header.as_slice(), body.as_slice(), room) {
                Ok(Some(data)) => {
                    assert(data@ =~= before.given(room as nat));
                    assert(self.buf@ =~= before.after_read(room as nat).buf);
                    return RecordStep::Give(data);
                },
                Ok(None) => {},
                Err(e) => {
                    assert(self.buf@ =~= before.buf);
                    return RecordStep::Fail(e);
                },
            }
        }
    }
}

/// Changes of cipher carry nothing.
proof fn lemma_past_ccs(got: Seq<u8>, incoming: Seq<u8>)
    ensures
        unwrapped(got + incoming) == unwrapped(past_ccs(got) + incoming),
    decreases got.len(),
{
    if has_record(got) && got[0] == TLS_RECORD_CCS {
        let rest = behind_record(got);
        lemma_past_ccs(rest, incoming);
        assert((got + incoming).take(5) =~= got.take(5));
        assert((got + incoming).skip(5 + record_len(got.take(5)) as int) =~= rest + incoming);
    }
}

/// A read hands on the next bytes of what a stream of records carries, and leaves the rest.
proof fn lemma_read_in_order(state: RecordState, room: nat, incoming: Seq<u8>)
    requires
        state.carries(incoming) is Some,
    ensures
        state.after_read(room).carries(incoming) is Some,
        state.carries(incoming)->0 == state.given(room) + state.after_read(room).carries(
            incoming,
        )->0,
{
    let all = state.carries(incoming)->0;
    let after = state.after_read(room);
    let got = past_ccs(state.got);
    lemma_past_ccs(state.got, incoming);
    if has_record(got) {
        assert((got + incoming).take(5) =~= got.take(5));
        assert((got + incoming).skip(5 + record_len(got.take(5)) as int) =~= behind_record(got)
            + incoming);
        assert((got + incoming).subrange(5, 5 + record_len(got.take(5)) as int)
            =~= record_body(got));
        if got[0] == TLS_RECORD_CCS {
            lemma_past_ccs_ends(state.got);
        }
    }
    if state.buf.len() > 0 {
        assert(all =~= state.given(room) + after.carries(incoming)->0);
    } else if state.ready() is Some {
        let body = record_body(got);
        assert(all =~= body + unwrapped(behind_record(got) + incoming)->0);
        assert(all =~= state.given(room) + after.carries(incoming)->0);
    } else {
        assert(all =~= state.given(room) + after.carries(incoming)->0);
    }
}

/// No change of cipher stands at the start of what is left.
proof fn lemma_past_ccs_ends(got: Seq<u8>)
    ensures
        !(has_record(past_ccs(got)) && past_ccs(got)[0] == TLS_RECORD_CCS),
        past_ccs(got).len() <= got.len(),
    decreases got.len(),
{
    if has_record(got) && got[0] == TLS_RECORD_CCS {
        lemma_past_ccs_ends(behind_record(got));
    }
}

/// In whatever pieces the bytes of a stream of records come in, and whenever and with whatever
/// room they are read, the reads hand on what the stream carries, from its start and in order:
/// what they have handed on and what is left for later reads is all that the stream carries.
pub proof fn law_reads_hand_on_the_stream(
    state: RecordState,
    events: Seq<RecordEvent>,
    incoming: Seq<u8>,
)
    requires
        state.carries(received(events) + incoming) is Some,
    ensures
        state.run(events).1.carries(incoming) is Some,
        state.carries(received(events) + incoming)->0 == state.run(events).0 + state.run(
            events,
        ).1.carries(incoming)->0,
    decreases events.len(),
{
    let all = state.carries(received(events) + incoming)->0;
    if events.len() == 0 {
        assert(received(events) + incoming =~= incoming);
        assert(all =~= state.run(events).0 + all);
    } else {
        let before = events.drop_last();
        let (out, reached) = state.run(before);
        match events.last() {
            RecordEvent::Received(bytes) => {
                assert(received(events) + incoming =~= received(before) + (bytes + incoming));
                law_reads_hand_on_the_stream(state, before, bytes + incoming);
                assert(reached.got + (bytes + incoming) =~= (reached.got + bytes) + incoming);
            },
            RecordEvent::Read(room) => {
                law_reads_hand_on_the_stream(state, before, incoming);
                lemma_read_in_order(reached, room, incoming);
                let rest = reached.after_read(room).carries(incoming)->0;
                assert(out + (reached.given(room) + rest) =~= (out + reached.given(room)) + rest);
            },
        }
    }
}

/// Once a stream of records has come in as a whole, a read hands on at least one byte, unless
/// there is no room or the next record is empty, as long as anything is left. After that it fails
/// for want of a header.
pub proof fn law_reads_come_to_the_end(state: RecordState, room: nat)
    requires
        state.carries(Seq::empty()) is Some,
        room > 0,
    ensures
        state.carries(Seq::empty())->0.len() > 0 ==> state.ready() is Some,
        state.ready() matches Some(ready) ==> (ready.len() > 0 <==> state.given(room).len() > 0),
        state.ready() matches Some(ready) && ready.len() == 0 ==> has_record(past_ccs(state.got))
            && record_len(past_ccs(state.got).take(5)) == 0,
        state.ready() is None ==> state.failure() == TlsReadError::ShortHeader,
{
    let got = past_ccs(state.got);
    lemma_past_ccs(state.got, Seq::empty());
    lemma_past_ccs_ends(state.got);
    assert(got + Seq::<u8>::empty() =~= got);
    if state.ready() is None && got.len() > 0 {
        assert(unwrapped(got) is Some);
    }
}

/// What makes a client hello authentic, and what it says. It has at least 43 bytes, the first one
/// 0x16, the sixth one 0x01. The HMAC-SHA-256 tag of the hello with zeros in bytes 11 to 43 starts
/// with bytes 11 to 39; bytes 39 to 43, combined with the rest of the tag, are the time, the low
/// byte first. The session id is bytes 44 to 76, if byte 43 gives it 32 bytes, else zeros. The
/// time may be 120 seconds away from the proxy's, and no more.
pub proof fn law_hello_checked(hello: Seq<u8>, secret: Seq<u8>)
    requires
        hello.len() >= 43,
    ensures
        ({
            let zeros = Seq::new(32, |i: int| 0u8);
            let tag = crypto::hmac_sha256(secret, hello.take(11) + zeros + hello.skip(43));
            &&& is_authentic(hello, secret) <==> (hello[0] == 0x16 && hello[5] == 0x01 && (forall|
                i: int,
            |
                0 <= i < 28 ==> #[trigger] hello[11 + i] == tag[i]))
            &&& hello_time(hello, secret) == (hello[39] ^ tag[28]) + 256 * (hello[40] ^ tag[29])
                + 65536 * (hello[41] ^ tag[30]) + 16777216 * (hello[42] ^ tag[31])
            &&& hello.len() >= 76 && hello[43] == 0x20 ==> hello_session_id(hello)
                == hello.subrange(44, 76)
            &&& !(hello.len() >= 76 && hello[43] == 0x20) ==> hello_session_id(hello) == zeros
        }),
{
    let zeros = Seq::new(32, |i: int| 0u8);
    assert(zero_random() =~= zeros);
    let tag = crypto::hmac_sha256(secret, hello.take(11) + zeros + hello.skip(43));
    assert(hello_tag(hello, secret) == tag);
    bytes::lemma_le_value_4(hello_time_bytes(hello, secret));
}

/// A hello is timely at most 120 seconds before or after the proxy's time.
pub proof fn law_timely_within_two_minutes(time: int, now: int)
    ensures
        is_timely(time, now) <==> now - 120 <= time <= now + 120,
{
}

/// A client that knows the secret: it fills bytes 11 to 43 of its hello, which are zeros before,
/// with the tag of the hello, the last four bytes combined with its time, the low byte first. Its
/// hello is authentic, and the proxy reads its time and its session id from it.
pub proof fn law_client_with_the_secret_is_authentic(
    hello: Seq<u8>,
    secret: Seq<u8>,
    time: Seq<u8>,
    sent: Seq<u8>,
)
    requires
        hello.len() >= 43,
        hello[0] == 0x16,
        hello[5] == 0x01,
        hello.subrange(11, 43) == Seq::new(32, |i: int| 0u8),
        time.len() == 4,
        sent.len() == hello.len(),
        sent.take(11) == hello.take(11),
        sent.skip(43) == hello.skip(43),
        forall|i: int|
            0 <= i < 28 ==> #[trigger] sent[11 + i] == crypto::hmac_sha256(secret, hello)[i],
        forall|i: int|
            0 <= i < 4 ==> #[trigger] sent[39 + i] == crypto::hmac_sha256(secret, hello)[28 + i]
                ^ time[i],
    ensures
        is_authentic(sent, secret),
        hello_time(sent, secret) == time[0] + 256 * time[1] + 65536 * time[2] + 16777216 * time[3],
        hello.len() >= 76 && hello[43] == 0x20 ==> hello_session_id(sent) == hello.subrange(44, 76),
{
    let zeros = Seq::new(32, |i: int| 0u8);
    let tag = crypto::hmac_sha256(secret, hello);
    law_hello_checked(sent, secret);
    assert forall|i: int| 11 <= i < 43 implies hello[i] == 0 by {
        assert(hello.subrange(11, 43)[i - 11] == 0);
    }
    assert(sent.take(11) + zeros + sent.skip(43) =~= hello);
    assert(sent.take(11)[0] == sent[0] && sent.take(11)[5] == sent[5]);
    assert(hello.take(11)[0] == hello[0] && hello.take(11)[5] == hello[5]);
    assert forall|i: int| 0 <= i < 4 implies #[trigger] sent[39 + i] ^ tag[28 + i] == time[i] by {
        let a = tag[28 + i];
        let b = time[i];
        assert((a ^ b) ^ a == b) by (bit_vector);
    }
    assert(sent[39 + 0int] ^ tag[28 + 0int] == time[0]);
    assert(sent[39 + 1int] ^ tag[28 + 1int] == time[1]);
    assert(sent[39 + 2int] ^ tag[28 + 2int] == time[2]);
    assert(sent[39 + 3int] ^ tag[28 + 3int] == time[3]);
    if hello.len() >= 76 && hello[43] == 0x20 {
        assert(sent.skip(43)[0] == hello.skip(43)[0]);
        assert forall|i: int| 44 <= i < 76 implies sent[i] == hello[i] by {
            assert(sent.skip(43)[i - 43] == hello.skip(43)[i - 43]);
        }
        assert(sent.subrange(44, 76) =~= hello.subrange(44, 76));
    }
}

/// The bytes of an answer to a client hello: a server hello record of 127 bytes with the random
/// field, the session id and the key, a change of cipher, and one application data record.
pub proof fn law_response_bytes(
    random: Seq<u8>,
    session_id: Seq<u8>,
    pubkey: Seq<u8>,
    encrypted: Seq<u8>,
)
    requires
        random.len() == 32,
        session_id.len() == 32,
        pubkey.len() == 32,
        encrypted.len() <= 65535,
    ensures
        ({
            let out = server_response(random, session_id, pubkey, encrypted);
            &&& out.len() == 138 + encrypted.len()
            &&& out.take(11) == seq![
                0x16u8,
                0x03,
                0x03,
                0x00,
                0x7a,
                0x02,
                0x00,
                0x00,
                0x76,
                0x03,
                0x03,
            ]
            &&& out.subrange(11, 43) == random
            &&& out[43] == 0x20
            &&& out.subrange(44, 76) == session_id
            &&& out.subrange(76, 89) == seq![
                0x13u8,
                0x01,
                0x00,
                0x00,
                0x2e,
                0x00,
                0x33,
                0x00,
                0x24,
                0x00,
                0x1d,
                0x00,
                0x20,
            ]
            &&& out.subrange(89, 121) == pubkey
            &&& out.subrange(121, 127) == seq![0x00u8, 0x2b, 0x00, 0x02, 0x03, 0x04]
            &&& out.subrange(127, 133) == seq![0x14u8, 0x03, 0x03, 0x00, 0x01, 0x01]
            &&& out.subrange(133, 136) == seq![0x17u8, 0x03, 0x03]
            &&& 256 * out[136] + out[137] == encrypted.len()
            &&& out.skip(138) == encrypted
        }),
{
    let out = server_response(random, session_id, pubkey, encrypted);
    bytes::lemma_pow256_values();
    bytes::lemma_be_round_trip(encrypted.len(), 2);
    bytes::law_two_bytes(encrypted.len());
    assert(CCS_FRAME@ =~= seq![0x14u8, 0x03, 0x03, 0x00, 0x01, 0x01]);
    assert(out.take(11) =~= seq![
        0x16u8,
        0x03,
        0x03,
        0x00,
        0x7a,
        0x02,
        0x00,
        0x00,
        0x76,
        0x03,
        0x03,
    ]);
    assert(out.subrange(11, 43) =~= random);
    assert(out.subrange(44, 76) =~= session_id);
    assert(out.subrange(76, 89) =~= seq![
        0x13u8,
        0x01,
        0x00,
        0x00,
        0x2e,
        0x00,
        0x33,
        0x00,
        0x24,
        0x00,
        0x1d,
        0x00,
        0x20,
    ]);
    assert(out.subrange(89, 121) =~= pubkey);
    assert(out.subrange(121, 127) =~= seq![0x00u8, 0x2b, 0x00, 0x02, 0x03, 0x04]);
    assert(out.subrange(127, 133) =~= CCS_FRAME@);
    assert(out.subrange(133, 136) =~= seq![0x17u8, 0x03, 0x03]);
    assert(out.skip(138) =~= encrypted);
}

/// Whatever key and bytes were drawn, an answer echoes the client's session id, says how many
/// bytes its last record has, and proves in its random field that the proxy knows the secret: the
/// field is the tag of the client's random field and of the answer with zeros in that place.
pub proof fn law_answer_echoes_and_proves(
    answer: Seq<u8>,
    secret: Seq<u8>,
    client_random: Seq<u8>,
    session_id: Seq<u8>,
)
    requires
        session_id.len() == 32,
        is_answer(answer, secret, client_random, session_id),
    ensures
        answer[43] == 0x20,
        answer.subrange(44, 76) == session_id,
        256 * answer[136] + answer[137] == answer.len() - 138,
        1900 <= answer.len() - 138 < 2100,
        answer.subrange(11, 43) == crypto::hmac_sha256(
            secret,
            client_random + (answer.take(11) + Seq::new(32, |i: int| 0u8) + answer.skip(43)),
        ),
{
    let zeros = Seq::new(32, |i: int| 0u8);
    assert(zero_random() =~= zeros);
    let (pubkey, encrypted) = choose|pubkey: Seq<u8>, encrypted: Seq<u8>| #[trigger]
        is_server_hello(answer, secret, client_random, session_id, pubkey, encrypted);
    let random = server_random(secret, client_random, session_id, pubkey, encrypted);
    lemma_response_len(random, session_id, pubkey, encrypted);
    law_response_bytes(random, session_id, pubkey, encrypted);
}

/// The length of an answer shows the length of its random field.
proof fn lemma_response_len(
    random: Seq<u8>,
    session_id: Seq<u8>,
    pubkey: Seq<u8>,
    encrypted: Seq<u8>,
)
    requires
        encrypted.len() <= 65535,
    ensures
        server_response(random, session_id, pubkey, encrypted).len() == 42 + random.len()
            + session_id.len() + pubkey.len() + encrypted.len(),
{
    bytes::lemma_pow256_values();
    bytes::lemma_be_round_trip(encrypted.len(), 2);
}

/// The answer to an authentic hello with a session id of 32 bytes echoes these 32 bytes.
pub proof fn law_hello_is_echoed(
    hello: Seq<u8>,
    secret: Seq<u8>,
    random: Seq<u8>,
    pubkey: Seq<u8>,
    encrypted: Seq<u8>,
)
    requires
        hello.len() >= 76,
        hello[43] == 0x20,
        random.len() == 32,
        pubkey.len() == 32,
        encrypted.len() <= 65535,
    ensures
        server_response(random, hello_session_id(hello), pubkey, encrypted).subrange(44, 76)
            == hello.subrange(44, 76),
{
    law_hello_checked(hello, secret);
    law_response_bytes(random, hello_session_id(hello), pubkey, encrypted);
}

/// Data is written in application data records of 16384 bytes and one with the rest: in each the
/// type 0x17, the version, the length in two bytes, the high one first, and then the bytes.
pub proof fn law_record_bytes(data: Seq<u8>)
    ensures
        data.len() == 0 ==> wrapped(data).len() == 0,
        data.len() > 0 ==> {
            let n: int = if data.len() < 16384 {
                data.len() as int
            } else {
                16384
            };
            let out = wrapped(data);
            &&& out.len() >= 5 + n
            &&& out[0] == 0x17 && out[1] == 0x03 && out[2] == 0x03
            &&& 256 * out[3] + out[4] == n
            &&& out.subrange(5, 5 + n) == data.take(n)
            &&& out.skip(5 + n) == wrapped(data.skip(n))
        },
{
    if data.len() > 0 {
        let n: int = if data.len() < 16384 {
            data.len() as int
        } else {
            16384
        };
        let first = data.take(n);
        let out = wrapped(data);
        bytes::lemma_pow256_values();
        bytes::lemma_be_round_trip(first.len(), 2);
        bytes::law_two_bytes(first.len());
        if data.len() <= 16384 {
            assert(first =~= data);
            assert(data.skip(n).len() == 0);
            assert(wrapped(data.skip(n)) =~= Seq::<u8>::empty());
        }
        assert(out =~= app_record(first) + wrapped(data.skip(n)));
        assert(out.subrange(5, 5 + n) =~= first);
        assert(out.skip(5 + n) =~= wrapped(data.skip(n)));
    }
}

/// Each record adds five bytes.
proof fn lemma_wrapped_len(data: Seq<u8>)
    ensures
        wrapped(data).len() == data.len() + 5 * ((data.len() + 16383) / 16384),
    decreases data.len(),
{
    law_record_bytes(data);
    if data.len() > 0 {
        let n: int = if data.len() < 16384 {
            data.len() as int
        } else {
            16384
        };
        lemma_wrapped_len(data.skip(n));
    }
}

/// What a record adds to what a stream carries: its bytes, if its type is 0x17, nothing, if it is
/// 0x14. Any other type, and a record that breaks off, leave nothing to be read.
pub proof fn law_record_carries(stream: Seq<u8>)
    ensures
        stream.len() == 0 ==> unwrapped(stream) == Some(Seq::<u8>::empty()),
        0 < stream.len() < 5 ==> unwrapped(stream) is None,
        stream.len() >= 5 ==> {
            let end: int = 5 + 256 * stream[3] + stream[4];
            &&& stream.len() < end ==> unwrapped(stream) is None
            &&& stream.len() >= end ==> {
                let rest = unwrapped(stream.skip(end));
                &&& stream[0] == 0x17 && rest is Some ==> unwrapped(stream) == Some(
                    stream.subrange(5, end) + rest->0,
                )
                &&& stream[0] == 0x14 ==> unwrapped(stream) == rest
                &&& (stream[0] != 0x17 && stream[0] != 0x14) || rest is None ==> unwrapped(
                    stream,
                ) is None
            }
        },
{
    if stream.len() >= 5 {
        lemma_record_len(stream);
    }
}

/// The length of a record stands in the last two bytes of its header, the high one first.
proof fn lemma_record_len(got: Seq<u8>)
    requires
        got.len() >= 5,
    ensures
        record_len(got.take(5)) == 256 * got[3] + got[4],
{
    let two = got.take(5).subrange(3, 5);
    bytes::law_two_bytes_value(two);
    assert(two[0] == got[3] && two[1] == got[4]);
}

/// What a read does with what has come in. Bytes that were read before come first. Else a whole
/// record of type 0x17 is handed on, up to the room there is, after any records of type 0x14; what
/// is missing of a header or of a record is asked for; and any other record is an error.
pub proof fn law_read_by_record(state: RecordState, room: nat)
    ensures
        state.given(room).len() <= room,
        state.buf.len() > 0 ==> {
            let n: int = if room < state.buf.len() {
                room as int
            } else {
                state.buf.len() as int
            };
            &&& state.ready() is Some
            &&& state.given(room) == state.buf.take(n)
            &&& state.after_read(room).buf == state.buf.skip(n)
            &&& state.after_read(room).got == state.got
        },
        state.buf.len() == 0 && state.got.len() < 5 ==> {
            &&& state.ready() is None
            &&& state.missing() == 5 - state.got.len()
            &&& state.failure() == TlsReadError::ShortHeader
            &&& state.after_read(room).got == state.got
        },
        state.buf.len() == 0 && state.got.len() >= 5 ==> {
            let len: int = 256 * state.got[3] + state.got[4];
            let kind = state.got[0];
            &&& state.got.len() < 5 + len ==> {
                &&& state.ready() is None
                &&& state.missing() == 5 + len - state.got.len()
                &&& state.failure() == TlsReadError::ShortBody
                &&& state.after_read(room).got == state.got
            }
            &&& state.got.len() >= 5 + len && kind == 0x17 ==> {
                let n: int = if room < len {
                    room as int
                } else {
                    len
                };
                &&& state.ready() is Some
                &&& state.given(room) == state.got.subrange(5, 5 + n)
                &&& state.after_read(room).buf == state.got.subrange(5 + n, 5 + len)
                &&& state.after_read(room).got == state.got.skip(5 + len)
            }
            &&& state.got.len() >= 5 + len && kind == 0x14 ==> {
                let behind = RecordState { buf: state.buf, got: state.got.skip(5 + len) };
                &&& state.ready() == behind.ready()
                &&& state.given(room) == behind.given(room)
                &&& state.after_read(room) == behind.after_read(room)
                &&& state.missing() == behind.missing()
                &&& state.failure() == behind.failure()
            }
            &&& state.got.len() >= 5 + len && kind != 0x17 && kind != 0x14 ==> {
                &&& state.ready() is None
                &&& state.failure() == TlsReadError::UnexpectedType(kind)
                &&& state.after_read(room).got == state.got.skip(5 + len)
            }
        },
{
    let given = state.given(room);
    if state.buf.len() > 0 {
        assert(state.buf.take(state.buf.len() as int) =~= state.buf);
    } else if state.got.len() >= 5 {
        lemma_record_len(state.got);
        let len: int = 256 * state.got[3] + state.got[4];
        if state.got.len() >= 5 + len && state.got[0] == 0x17 {
            let n: int = if room < len {
                room as int
            } else {
                len
            };
            assert(given =~= state.got.subrange(5, 5 + n));
            assert(state.after_read(room).buf =~= state.got.subrange(5 + n, 5 + len));
        }
    }
}

/// What has been read and not been handed on: the bytes in `buf`, then the records in `got`.
pub proof fn law_stream_state<R, W>(stream: FakeTlsStream<R, W>)
    ensures
        stream.state().buf == stream.buf@,
        stream.state().got == stream.got@,
{
}

/// How the errors are shown: the type of a record in two upper-case hexadecimal digits, the high
/// one first.
pub proof fn law_read_errors_shown(t: u8, d: int)
    requires
        0 <= d < 16,
    ensures
        TlsReadError::ShortHeader.text() == "short TLS record header"@,
        TlsReadError::ShortBody.text() == "short TLS record body"@,
        TlsReadError::UnexpectedType(t).text() == "unexpected TLS record type 0x"@ + seq![
            upper_hex_digit(t as int / 16),
            upper_hex_digit(t as int % 16),
        ],
        upper_hex_digit(d) == seq![
            '0',
            '1',
            '2',
            '3',
            '4',
            '5',
            '6',
            '7',
            '8',
            '9',
            'A',
            'B',
            'C',
            'D',
            'E',
            'F',
        ][d],
{
}

} // verus!
