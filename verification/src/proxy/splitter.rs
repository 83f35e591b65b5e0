//! Cuts the encrypted stream towards the relay at the bounds of its MTProto packets.

use vstd::prelude::*;
use vstd::slice::{slice_subrange, slice_to_vec};

use crate::proxy::bytes;
use crate::proxy::crypto;
use crate::proxy::crypto::{aes_ctr_new, AesCtr};
use crate::proxy::utils::{
    PROTO_ABRIDGED_INT, PROTO_INTERMEDIATE_INT, PROTO_PADDED_INTERMEDIATE_INT, ZERO_64,
};

verus! {

/// A packet of `header + payload` bytes at the start of `avail` bytes: none while it is not
/// complete, `Some(0)` where no packet can start.
pub open spec fn whole_packet(header: nat, payload: nat, avail: nat) -> Option<nat> {
    if payload == 0 {
        Some(0)
    } else if avail < header + payload {
        None
    } else {
        Some(header + payload)
    }
}

/// The abridged transport: the length in words takes seven bits, or three bytes behind 0x7f.
pub open spec fn abridged_len(plain: Seq<u8>) -> Option<nat> {
    if plain.len() == 0 {
        None
    } else if plain[0] == 0x7f || plain[0] == 0xff {
        if plain.len() < 4 {
            None
        } else {
            whole_packet(4, 4 * bytes::le_value(plain.subrange(1, 4)), plain.len())
        }
    } else {
        whole_packet(1, (4 * (plain[0] % 128)) as nat, plain.len())
    }
}

/// The intermediate transports: the length in bytes takes the low 31 bits of four bytes.
pub open spec fn intermediate_len(plain: Seq<u8>) -> Option<nat> {
    if plain.len() < 4 {
        None
    } else {
        whole_packet(4, bytes::le_value(plain.take(4)) % 0x8000_0000, plain.len())
    }
}

/// The length of the packet that `plain` starts with: none while the packet is not complete,
/// `Some(0)` where the stream cannot be cut any further.
pub open spec fn packet_len(proto: u32, plain: Seq<u8>) -> Option<nat> {
    if plain.len() == 0 {
        None
    } else if proto == PROTO_ABRIDGED_INT {
        abridged_len(plain)
    } else if proto == PROTO_INTERMEDIATE_INT || proto == PROTO_PADDED_INTERMEDIATE_INT {
        intermediate_len(plain)
    } else {
        Some(0)
    }
}

/// The outcome of cutting a stream: the parts, how many bytes they take, and whether the last
/// part is one that could not be cut.
pub struct Cut {
    pub parts: Seq<Seq<u8>>,
    pub used: nat,
    pub opaque: bool,
}

/// Cuts `cipher` at the packet bounds that its plain text `plain` shows.
pub open spec fn cut(proto: u32, cipher: Seq<u8>, plain: Seq<u8>) -> Cut
    decreases plain.len(),
{
    match packet_len(proto, plain) {
        None => Cut { parts: Seq::empty(), used: 0, opaque: false },
        Some(n) => {
            if n == 0 || n > plain.len() {
                Cut { parts: seq![cipher], used: cipher.len(), opaque: true }
            } else {
                let rest = cut(proto, cipher.skip(n as int), plain.skip(n as int));
                Cut {
                    parts: seq![cipher.take(n as int)] + rest.parts,
                    used: n + rest.used,
                    opaque: rest.opaque,
                }
            }
        },
    }
}

/// The byte sequences of a list of byte vectors.
pub open spec fn part_views(parts: Seq<Vec<u8>>) -> Seq<Seq<u8>> {
    parts.map_values(|part: Vec<u8>| part@)
}

/// What a splitter knows: its cipher, its transport, the bytes that it holds back, encrypted and
/// plain, and whether it has given up cutting.
pub struct SplitterState {
    pub dec: AesCtr,
    pub proto: u32,
    pub cipher: Seq<u8>,
    pub plain: Seq<u8>,
    pub disabled: bool,
}

impl SplitterState {
    /// The plain bytes are what the encrypted bytes decrypt to, right behind what has been cut
    /// off before. They hold no whole packet. A splitter that has given up holds nothing back.
    pub open spec fn wf(self) -> bool {
        &&& self.cipher.len() == self.plain.len()
        &&& self.plain.len() <= self.dec.pos
        &&& self.plain == crypto::ctr_stream(
            self.dec.key@,
            self.dec.iv@,
            (self.dec.pos - self.plain.len()) as nat,
            self.cipher,
        )
        &&& packet_len(self.proto, self.plain) is None
        &&& self.disabled ==> self.cipher.len() == 0
    }

    /// How the stream is cut once `chunk` has come in.
    pub open spec fn cut_with(self, chunk: Seq<u8>) -> Cut {
        cut(self.proto, self.cipher + chunk, self.plain + self.dec.output(chunk))
    }

    /// The parts that come out when `chunk` comes in.
    pub open spec fn parts(self, chunk: Seq<u8>) -> Seq<Seq<u8>> {
        if chunk.len() == 0 {
            Seq::empty()
        } else if self.disabled {
            seq![chunk]
        } else {
            self.cut_with(chunk).parts
        }
    }

    /// The splitter after `chunk` has come in.
    pub open spec fn after(self, chunk: Seq<u8>) -> SplitterState {
        if chunk.len() == 0 || self.disabled {
            self
        } else {
            let done = self.cut_with(chunk);
            SplitterState {
                dec: self.dec.advanced(chunk.len()),
                proto: self.proto,
                cipher: (self.cipher + chunk).skip(done.used as int),
                plain: (self.plain + self.dec.output(chunk)).skip(done.used as int),
                disabled: done.opaque,
            }
        }
    }
}

impl SplitterState {
    /// The splitter after all these chunks have come in, one by one.
    pub open spec fn after_all(self, chunks: Seq<Seq<u8>>) -> SplitterState
        decreases chunks.len(),
    {
        if chunks.len() == 0 {
            self
        } else {
            self.after_all(chunks.drop_last()).after(chunks.last())
        }
    }
}

/// Splits the stream towards the relay into whole MTProto packets.
#[derive(Debug)]
pub struct MsgSplitter {
    dec: AesCtr,
    proto: u32,
    cipher_buf: Vec<u8>,
    plain_buf: Vec<u8>,
    disabled: bool,
}

impl View for MsgSplitter {
    type V = SplitterState;

    closed spec fn view(&self) -> SplitterState {
        SplitterState {
            dec: self.dec,
            proto: self.proto,
            cipher: self.cipher_buf@,
            plain: self.plain_buf@,
            disabled: self.disabled,
        }
    }
}

impl MsgSplitter {
    /// A splitter for the stream that follows the relay handshake `relay_init`.
    pub fn new(relay_init: &[u8], proto_int: u32) -> (splitter: Self)
        requires
            relay_init@.len() >= 56,
        ensures
            splitter@.wf(),
            splitter@.dec.key@ == relay_init@.subrange(8, 40),
            splitter@.dec.iv@ == relay_init@.subrange(40, 56),
            splitter@.dec.pos == 64,
            splitter@.proto == proto_int,
            splitter@.cipher == Seq::<u8>::empty(),
            splitter@.plain == Seq::<u8>::empty(),
            !splitter@.disabled,
    {
        let mut dec = aes_ctr_new(
            slice_subrange(relay_init, 8, 40),
            slice_subrange(relay_init, 40, 56),
        );
        let mut skipped: Vec<u8> = slice_to_vec(ZERO_64.as_slice());
        dec.apply_keystream(&mut skipped);
        let splitter = MsgSplitter {
            dec,
            proto: proto_int,
            cipher_buf: Vec::new(),
            plain_buf: Vec::new(),
            disabled: false,
        };
        assert(splitter@.plain =~= crypto::ctr_stream(
            splitter@.dec.key@,
            splitter@.dec.iv@,
            64,
            splitter@.cipher,
        ));
        splitter
    }

    /// Whether `len` more bytes keep the cipher's position representable.
    pub fn can_split(&self, len: usize) -> (ok: bool)
        ensures
            ok == self@.dec.has_room(len as nat),
    {
        self.dec.can_apply(len)
    }

    /// Takes the next bytes of the stream and gives the parts that are complete.
    #[verifier::rlimit(40)]
    pub fn split(&mut self, chunk: &[u8]) -> (parts: Vec<Vec<u8>>)
        requires
            old(self)@.wf(),
            old(self)@.dec.has_room(chunk@.len()),
        ensures
            final(self)@.wf(),
            part_views(parts@) == old(self)@.parts(chunk@),
            final(self)@ == old(self)@.after(chunk@),
    {
        let mut parts: Vec<Vec<u8>> = Vec::new();
        if chunk.is_empty() {
            assert(part_views(parts@) =~= Seq::<Seq<u8>>::empty());
            return parts;
        }
        if self.disabled {
            parts.push(slice_to_vec(chunk));
            assert(part_views(parts@) =~= seq![chunk@]);
            return parts;
        }
        let ghost before = self@;
        self.cipher_buf.extend_from_slice(chunk);
        let mut decrypted: Vec<u8> = slice_to_vec(chunk);
        self.dec.apply_keystream(&mut decrypted);
        self.plain_buf.extend_from_slice(decrypted.as_slice());
        let ghost cipher = before.cipher + chunk@;
        let ghost plain = before.plain + before.dec.output(chunk@);
        assert(self.cipher_buf@ =~= cipher);
        assert(self.plain_buf@ =~= plain);

        let buf_len: usize = self.cipher_buf.len();
        let mut offset: usize = 0;
        let mut opaque: bool = false;
        assert(cipher.skip(0) =~= cipher);
        assert(plain.skip(0) =~= plain);
        assert(part_views(parts@) =~= Seq::<Seq<u8>>::empty());
        let mut cutting: bool = true;
        while cutting && offset < buf_len
            invariant
                self.cipher_buf@ == cipher,
                self.plain_buf@ == plain,
                cipher.len() == plain.len() == buf_len,
                self.proto == before.proto,
                self.dec == before.dec.advanced(chunk@.len()),
                !self.disabled,
                offset <= buf_len,
                opaque ==> offset == buf_len && !cutting,
                ({
                    let rest = cut(
                        before.proto,
                        cipher.skip(offset as int),
                        plain.skip(offset as int),
                    );
                    let all = cut(before.proto, cipher, plain);
                    &&& cutting ==> all.parts =~= part_views(parts@) + rest.parts
                    &&& cutting ==> all.used == offset + rest.used
                    &&& cutting ==> all.opaque == rest.opaque
                    &&& !cutting ==> all.parts =~= part_views(parts@)
                    &&& !cutting ==> all.used == offset
                    &&& !cutting ==> all.opaque == opaque
                }),
            decreases buf_len - offset + if cutting { 1int } else { 0int },
        {
            let ghost parts_before = part_views(parts@);
            let ghost here = plain.skip(offset as int);
            let ghost here_cipher = cipher.skip(offset as int);
            match self.next_packet_len(offset, buf_len - offset) {
                None => {
                    cutting = false;
                },
                Some(n) => {
                    let end: usize = if n == 0 {
                        buf_len
                    } else {
                        offset + n
                    };
                    let part = slice_to_vec(
                        slice_subrange(self.cipher_buf.as_slice(), offset, end),
                    );
                    parts.push(part);
                    assert(part_views(parts@) =~= parts_before.push(
                        cipher.subrange(offset as int, end as int),
                    ));
                    proof {
                        if n == 0 {
                            assert(cipher.subrange(offset as int, end as int) =~= here_cipher);
                        } else {
                            assert(cipher.subrange(offset as int, end as int)
                                =~= here_cipher.take(n as int));
                            assert(here_cipher.skip(n as int) =~= cipher.skip(end as int));
                            assert(here.skip(n as int) =~= plain.skip(end as int));
                        }
                    }
                    offset = end;
                    if n == 0 {
                        opaque = true;
                        cutting = false;
                    }
                },
            }
        }
        proof {
            if cutting {
                assert(packet_len(before.proto, plain.skip(offset as int)) is None);
            }
        }
        self.disabled = opaque;
        let kept_cipher = slice_to_vec(
            slice_subrange(self.cipher_buf.as_slice(), offset, buf_len),
        );
        let kept_plain = slice_to_vec(slice_subrange(self.plain_buf.as_slice(), offset, buf_len));
        self.cipher_buf = kept_cipher;
        self.plain_buf = kept_plain;
        assert(self.cipher_buf@ =~= cipher.skip(offset as int));
        assert(self.plain_buf@ =~= plain.skip(offset as int));
        proof {
            lemma_rest_is_no_packet(before.proto, cipher, plain);
            let key = before.dec.key@;
            let iv = before.dec.iv@;
            let start = (before.dec.pos - before.plain.len()) as nat;
            crypto::law_ctr_split(key, iv, start, before.cipher, chunk@);
            assert(plain =~= crypto::ctr_stream(key, iv, start, cipher));
            assert(self.plain_buf@ =~= crypto::ctr_stream(
                key,
                iv,
                (start + offset) as nat,
                self.cipher_buf@,
            ));
        }
        parts
    }

    /// The length of the packet at `offset`: none while it is not complete, zero where the
    /// stream cannot be cut.
    fn next_packet_len(&self, offset: usize, avail: usize) -> (len: Option<usize>)
        requires
            offset + avail == self.plain_buf.len(),
        ensures
            len is Some <==> packet_len(self.proto, self.plain_buf@.skip(offset as int)) is Some,
            len matches Some(n) ==> {
                &&& packet_len(self.proto, self.plain_buf@.skip(offset as int)) == Some(n as nat)
                &&& n <= avail
            },
    {
        if avail == 0 {
            return None;
        }
        if self.proto == PROTO_ABRIDGED_INT {
            self.next_abridged_len(offset, avail)
        } else if self.proto == PROTO_INTERMEDIATE_INT || self.proto
            == PROTO_PADDED_INTERMEDIATE_INT {
            self.next_intermediate_len(offset, avail)
        } else {
            Some(0)
        }
    }

    fn next_abridged_len(&self, offset: usize, avail: usize) -> (len: Option<usize>)
        requires
            offset + avail == self.plain_buf.len(),
            avail > 0,
        ensures
            len is Some <==> abridged_len(self.plain_buf@.skip(offset as int)) is Some,
            len matches Some(n) ==> {
                &&& abridged_len(self.plain_buf@.skip(offset as int)) == Some(n as nat)
                &&& n <= avail
            },
    {
        let ghost here = self.plain_buf@.skip(offset as int);
        let first: u8 = self.plain_buf[offset];
        let header: usize;
        let payload: usize;
        if first == 0x7f || first == 0xff {
            if avail < 4 {
                return None;
            }
            header = 4;
            payload = 4 * (self.plain_buf[offset + 1] as usize + 256 * (self.plain_buf[offset
                + 2] as usize) + 65536 * (self.plain_buf[offset + 3] as usize));
            proof {
                bytes::lemma_le_value_3(here.subrange(1, 4));
            }
        } else {
            header = 1;
            payload = 4 * (first % 128) as usize;
        }
        if payload == 0 {
            return Some(0);
        }
        if avail < header + payload {
            return None;
        }
        Some(header + payload)
    }

    fn next_intermediate_len(&self, offset: usize, avail: usize) -> (len: Option<usize>)
        requires
            offset + avail == self.plain_buf.len(),
        ensures
            len is Some <==> intermediate_len(self.plain_buf@.skip(offset as int)) is Some,
            len matches Some(n) ==> {
                &&& intermediate_len(self.plain_buf@.skip(offset as int)) == Some(n as nat)
                &&& n <= avail
            },
    {
        if avail < 4 {
            return None;
        }
        let ghost here = self.plain_buf@.skip(offset as int);
        let word: u32 = self.plain_buf[offset] as u32 + 256 * (self.plain_buf[offset + 1] as u32)
            + 65536 * (self.plain_buf[offset + 2] as u32) + 16777216 * (self.plain_buf[offset
            + 3] as u32);
        proof {
            bytes::lemma_le_value_4(here.take(4));
        }
        let payload: usize = (word % 0x8000_0000) as usize;
        if payload == 0 {
            return Some(0);
        }
        if avail < 4 + payload {
            return None;
        }
        Some(4 + payload)
    }
}

/// More bytes behind a complete packet do not change its length.
proof fn lemma_packet_len_extends(proto: u32, plain: Seq<u8>, more: Seq<u8>)
    requires
        packet_len(proto, plain) is Some,
    ensures
        packet_len(proto, plain + more) == packet_len(proto, plain),
{
    let longer = plain + more;
    if plain.len() >= 4 {
        assert(longer.subrange(1, 4) =~= plain.subrange(1, 4));
        assert(longer.take(4) =~= plain.take(4));
    }
}

/// A packet on its own is as long as it was in the stream.
proof fn lemma_packet_alone(proto: u32, plain: Seq<u8>)
    requires
        packet_len(proto, plain) matches Some(n) && n > 0,
    ensures
        ({
            let n = packet_len(proto, plain)->0;
            &&& n <= plain.len()
            &&& packet_len(proto, plain.take(n as int)) == Some(n)
        }),
{
    let n = packet_len(proto, plain)->0;
    let alone = plain.take(n as int);
    if plain.len() >= 4 && n >= 4 {
        assert(alone.subrange(1, 4) =~= plain.subrange(1, 4));
        assert(alone.take(4) =~= plain.take(4));
    }
}

/// Cutting takes no more bytes than there are.
pub proof fn lemma_cut_bounds(proto: u32, cipher: Seq<u8>, plain: Seq<u8>)
    requires
        cipher.len() == plain.len(),
    ensures
        cut(proto, cipher, plain).used <= cipher.len(),
        cut(proto, cipher, plain).opaque ==> cut(proto, cipher, plain).used == cipher.len(),
    decreases plain.len(),
{
    if let Some(n) = packet_len(proto, plain) {
        if 0 < n <= plain.len() {
            lemma_cut_bounds(proto, cipher.skip(n as int), plain.skip(n as int));
        }
    }
}

/// What is left behind a cut is no whole packet.
proof fn lemma_rest_is_no_packet(proto: u32, cipher: Seq<u8>, plain: Seq<u8>)
    requires
        cipher.len() == plain.len(),
    ensures
        packet_len(proto, plain.skip(cut(proto, cipher, plain).used as int)) is None,
    decreases plain.len(),
{
    match packet_len(proto, plain) {
        None => {
            assert(plain.skip(0) =~= plain);
        },
        Some(n) => {
            if 0 < n <= plain.len() {
                let rest_cipher = cipher.skip(n as int);
                let rest_plain = plain.skip(n as int);
                let used = cut(proto, rest_cipher, rest_plain).used;
                lemma_rest_is_no_packet(proto, rest_cipher, rest_plain);
                lemma_cut_bounds(proto, rest_cipher, rest_plain);
                assert(plain.skip((n + used) as int) =~= rest_plain.skip(used as int));
            }
        },
    }
}

/// Cutting gives no empty part.
proof fn lemma_cut_parts_not_empty(proto: u32, cipher: Seq<u8>, plain: Seq<u8>)
    requires
        cipher.len() == plain.len(),
    ensures
        forall|i: int|
            0 <= i < cut(proto, cipher, plain).parts.len() ==> (#[trigger] cut(
                proto,
                cipher,
                plain,
            ).parts[i]).len() > 0,
    decreases plain.len(),
{
    if let Some(n) = packet_len(proto, plain) {
        if 0 < n <= plain.len() {
            let rest_cipher = cipher.skip(n as int);
            let rest_plain = plain.skip(n as int);
            lemma_cut_parts_not_empty(proto, rest_cipher, rest_plain);
            let rest = cut(proto, rest_cipher, rest_plain).parts;
            assert forall|i: int| 0 <= i < cut(proto, cipher, plain).parts.len() implies (
            #[trigger] cut(proto, cipher, plain).parts[i]).len() > 0 by {
                if i > 0 {
                    assert(cut(proto, cipher, plain).parts[i] == rest[i - 1]);
                }
            }
        }
    }
}

/// The parts and the bytes held back are the stream, in order, with nothing lost or added.
pub proof fn law_cut_loses_nothing(proto: u32, cipher: Seq<u8>, plain: Seq<u8>)
    requires
        cipher.len() == plain.len(),
    ensures
        cut(proto, cipher, plain).parts.flatten() + cipher.skip(
            cut(proto, cipher, plain).used as int,
        ) == cipher,
    decreases plain.len(),
{
    let done = cut(proto, cipher, plain);
    match packet_len(proto, plain) {
        None => {
            assert(done.parts.flatten() + cipher.skip(0) =~= cipher);
        },
        Some(n) => {
            if n == 0 || n > plain.len() {
                seq![cipher].lemma_flatten_one_element();
                assert(done.parts.flatten() + cipher.skip(cipher.len() as int) =~= cipher);
            } else {
                let rest_cipher = cipher.skip(n as int);
                let rest = cut(proto, rest_cipher, plain.skip(n as int));
                law_cut_loses_nothing(proto, rest_cipher, plain.skip(n as int));
                lemma_cut_bounds(proto, rest_cipher, plain.skip(n as int));
                assert(done.parts.drop_first() =~= rest.parts);
                assert(done.parts.flatten() == cipher.take(n as int) + rest.parts.flatten());
                assert(cipher.skip(done.used as int) =~= rest_cipher.skip(rest.used as int));
                assert(done.parts.flatten() + cipher.skip(done.used as int) =~= cipher.take(
                    n as int,
                ) + (rest.parts.flatten() + rest_cipher.skip(rest.used as int)));
                assert(cipher.take(n as int) + rest_cipher =~= cipher);
            }
        },
    }
}

/// What a splitter gives out and what it still holds back is what it held back before and what
/// came in: no byte is lost, added or moved.
pub proof fn law_split_loses_nothing(state: SplitterState, chunk: Seq<u8>)
    requires
        state.wf(),
    ensures
        state.parts(chunk).flatten() + state.after(chunk).cipher == state.cipher + chunk,
{
    if chunk.len() == 0 {
        assert(state.parts(chunk).flatten() + state.after(chunk).cipher =~= state.cipher + chunk);
    } else if state.disabled {
        seq![chunk].lemma_flatten_one_element();
        assert(state.parts(chunk).flatten() + state.after(chunk).cipher =~= state.cipher + chunk);
    } else {
        law_cut_loses_nothing(
            state.proto,
            state.cipher + chunk,
            state.plain + state.dec.output(chunk),
        );
    }
}

/// Cutting a stream in two goes, the second behind what the first held back, gives what cutting
/// it in one go gives.
pub proof fn law_cut_in_two_goes(
    proto: u32,
    cipher: Seq<u8>,
    plain: Seq<u8>,
    more_cipher: Seq<u8>,
    more_plain: Seq<u8>,
)
    requires
        cipher.len() == plain.len(),
        more_cipher.len() == more_plain.len(),
        !cut(proto, cipher, plain).opaque,
    ensures
        ({
            let first = cut(proto, cipher, plain);
            let all = cut(proto, cipher + more_cipher, plain + more_plain);
            let second = cut(
                proto,
                cipher.skip(first.used as int) + more_cipher,
                plain.skip(first.used as int) + more_plain,
            );
            &&& all.parts == first.parts + second.parts
            &&& all.used == first.used + second.used
            &&& all.opaque == second.opaque
        }),
    decreases plain.len(),
{
    let first = cut(proto, cipher, plain);
    match packet_len(proto, plain) {
        None => {
            assert(cipher.skip(0) =~= cipher);
            assert(plain.skip(0) =~= plain);
            let all = cut(proto, cipher + more_cipher, plain + more_plain);
            assert(all.parts =~= first.parts + all.parts);
        },
        Some(n) => {
            let rest_cipher = cipher.skip(n as int);
            let rest_plain = plain.skip(n as int);
            lemma_packet_len_extends(proto, plain, more_plain);
            law_cut_in_two_goes(proto, rest_cipher, rest_plain, more_cipher, more_plain);
            lemma_cut_bounds(proto, rest_cipher, rest_plain);
            let rest = cut(proto, rest_cipher, rest_plain);
            assert((cipher + more_cipher).skip(n as int) =~= rest_cipher + more_cipher);
            assert((plain + more_plain).skip(n as int) =~= rest_plain + more_plain);
            assert((cipher + more_cipher).take(n as int) =~= cipher.take(n as int));
            assert(cipher.skip(first.used as int) =~= rest_cipher.skip(rest.used as int));
            assert(plain.skip(first.used as int) =~= rest_plain.skip(rest.used as int));
            let second = cut(
                proto,
                rest_cipher.skip(rest.used as int) + more_cipher,
                rest_plain.skip(rest.used as int) + more_plain,
            );
            assert(seq![cipher.take(n as int)] + (rest.parts + second.parts) =~= (seq![
                cipher.take(n as int),
            ] + rest.parts) + second.parts);
        },
    }
}

/// Leaving out `m` bytes, then `n` more once `y` has come in, leaves out `m + n` bytes.
proof fn lemma_skip_twice(x: Seq<u8>, y: Seq<u8>, m: int, n: int)
    requires
        0 <= m <= x.len(),
        0 <= n <= x.len() - m + y.len(),
    ensures
        (x.skip(m) + y).skip(n) == (x + y).skip(m + n),
{
    assert((x.skip(m) + y).skip(n) =~= (x + y).skip(m + n));
}

/// How the stream is chopped into chunks does not change the parts, as long as the splitter can
/// cut it.
#[verifier::rlimit(40)]
#[verifier::spinoff_prover]
pub proof fn law_split_independent_of_chunks(state: SplitterState, a: Seq<u8>, b: Seq<u8>)
    requires
        state.wf(),
        state.dec.has_room(a.len() + b.len()),
        !state.disabled,
        !state.after(a).disabled,
    ensures
        state.parts(a + b) == state.parts(a) + state.after(a).parts(b),
        state.after(a + b) == state.after(a).after(b),
{
    if a.len() == 0 {
        assert(a + b =~= b);
        assert(state.parts(a) + state.after(a).parts(b) =~= state.parts(b));
    } else if b.len() == 0 {
        assert(a + b =~= a);
        assert(state.parts(a) + state.after(a).parts(b) =~= state.parts(a));
    } else {
        let dec = state.dec;
        let plain_a = dec.output(a);
        let plain_b = dec.advanced(a.len()).output(b);
        crypto::law_ctr_split(dec.key@, dec.iv@, dec.pos as nat, a, b);
        assert(dec.output(a + b) =~= plain_a + plain_b);
        law_cut_in_two_goes(
            state.proto,
            state.cipher + a,
            state.plain + plain_a,
            b,
            plain_b,
        );
        lemma_cut_bounds(state.proto, state.cipher + a, state.plain + plain_a);
        let first = state.cut_with(a);
        assert((state.cipher + a) + b =~= state.cipher + (a + b));
        assert((state.plain + plain_a) + plain_b =~= state.plain + (plain_a + plain_b));
        let second = state.after(a).cut_with(b);
        let all = state.cut_with(a + b);
        lemma_cut_bounds(
            state.proto,
            state.after(a).cipher + b,
            state.after(a).plain + plain_b,
        );
        lemma_skip_twice(state.cipher + a, b, first.used as int, second.used as int);
        lemma_skip_twice(
            state.plain + plain_a,
            plain_b,
            first.used as int,
            second.used as int,
        );
        assert(all.used == first.used + second.used);
        assert(dec.advanced(a.len()).advanced(b.len()) == dec.advanced((a + b).len()));
    }
}

/// Every part but one that could not be cut is, in plain text, one whole packet of the
/// transport.
pub proof fn law_parts_are_packets(proto: u32, plain: Seq<u8>, i: int)
    requires
        0 <= i < cut(proto, plain, plain).parts.len(),
        cut(proto, plain, plain).opaque ==> i < cut(proto, plain, plain).parts.len() - 1,
    ensures
        packet_len(proto, cut(proto, plain, plain).parts[i]) == Some(
            cut(proto, plain, plain).parts[i].len(),
        ),
    decreases plain.len(),
{
    let n = packet_len(proto, plain)->0;
    if 0 < n <= plain.len() {
        lemma_packet_alone(proto, plain);
        if i > 0 {
            law_parts_are_packets(proto, plain.skip(n as int), i - 1);
        }
    }
}

/// Where the stream is cut depends on the plain text alone.
pub proof fn law_cut_follows_plain_text(proto: u32, cipher: Seq<u8>, plain: Seq<u8>)
    requires
        cipher.len() == plain.len(),
    ensures
        cut(proto, cipher, plain).parts.len() == cut(proto, plain, plain).parts.len(),
        forall|i: int|
            0 <= i < cut(proto, plain, plain).parts.len() ==> #[trigger] cut(
                proto,
                cipher,
                plain,
            ).parts[i].len() == cut(proto, plain, plain).parts[i].len(),
        cut(proto, cipher, plain).used == cut(proto, plain, plain).used,
        cut(proto, cipher, plain).opaque == cut(proto, plain, plain).opaque,
    decreases plain.len(),
{
    if let Some(n) = packet_len(proto, plain) {
        if 0 < n <= plain.len() {
            let rest_cipher = cipher.skip(n as int);
            let rest_plain = plain.skip(n as int);
            law_cut_follows_plain_text(proto, rest_cipher, rest_plain);
            let a = cut(proto, rest_cipher, rest_plain).parts;
            let b = cut(proto, rest_plain, rest_plain).parts;
            assert forall|i: int| 0 <= i < cut(proto, plain, plain).parts.len() implies #[trigger]
            cut(proto, cipher, plain).parts[i].len() == cut(proto, plain, plain).parts[i].len() by {
                if i > 0 {
                    assert(a[i - 1].len() == b[i - 1].len());
                }
            }
        }
    }
}

/// No part that a splitter gives out is empty.
pub proof fn law_no_part_is_empty(state: SplitterState, chunk: Seq<u8>, i: int)
    requires
        state.wf(),
        0 <= i < state.parts(chunk).len(),
    ensures
        state.parts(chunk)[i].len() > 0,
{
    if chunk.len() > 0 && !state.disabled {
        lemma_cut_parts_not_empty(
            state.proto,
            state.cipher + chunk,
            state.plain + state.dec.output(chunk),
        );
    }
}

/// What a splitter holds back is no whole packet: no packet waits that could be given out.
pub proof fn law_held_back_is_no_packet(state: SplitterState, chunk: Seq<u8>)
    requires
        state.wf(),
    ensures
        packet_len(state.proto, state.after(chunk).plain) is None,
        state.after(chunk).proto == state.proto,
{
    if chunk.len() > 0 && !state.disabled {
        lemma_rest_is_no_packet(
            state.proto,
            state.cipher + chunk,
            state.plain + state.dec.output(chunk),
        );
    }
}

/// A splitter that has given up stays as it is.
proof fn lemma_given_up_stays(state: SplitterState, earlier: Seq<Seq<u8>>, later: Seq<Seq<u8>>)
    requires
        state.after_all(earlier).disabled,
    ensures
        state.after_all(earlier + later) == state.after_all(earlier),
    decreases later.len(),
{
    if later.len() == 0 {
        assert(earlier + later =~= earlier);
    } else {
        lemma_given_up_stays(state, earlier, later.drop_last());
        assert((earlier + later).drop_last() =~= earlier + later.drop_last());
    }
}

/// After a part that could not be cut, every later chunk comes out as it came, and nothing is
/// held back.
pub proof fn law_given_up_for_good(
    state: SplitterState,
    earlier: Seq<Seq<u8>>,
    later: Seq<Seq<u8>>,
    chunk: Seq<u8>,
)
    requires
        state.after_all(earlier).wf(),
        state.after_all(earlier).disabled,
    ensures
        state.after_all(earlier + later).parts(chunk) == if chunk.len() == 0 {
            Seq::empty()
        } else {
            seq![chunk]
        },
        state.after_all(earlier + later).after(chunk).cipher.len() == 0,
        state.after_all(earlier + later).after(chunk).disabled,
{
    lemma_given_up_stays(state, earlier, later);
}

/// A packet of a transport, as its sender writes it: the length of the payload, then the payload.
/// Abridged, the length in words of four bytes takes one byte, or, from 127 on, three bytes
/// behind 127, the low one first. Intermediate, the length in bytes takes four bytes, the low one
/// first. The highest bit of the length is free for a flag.
pub open spec fn packet_of(proto: u32, payload: Seq<u8>, flag: bool) -> Seq<u8> {
    let top: int = if flag {
        128
    } else {
        0
    };
    let words: int = payload.len() as int / 4;
    let len: int = payload.len() as int;
    if proto != 0xEFEF_EFEF {
        seq![
            (len % 256) as u8,
            (len / 256 % 256) as u8,
            (len / 65536 % 256) as u8,
            (top + len / 16777216) as u8,
        ] + payload
    } else if words < 127 {
        seq![(top + words) as u8] + payload
    } else {
        long_packet_of(payload, flag)
    }
}

/// An abridged packet whose length takes three bytes.
pub open spec fn long_packet_of(payload: Seq<u8>, flag: bool) -> Seq<u8> {
    let words: int = payload.len() as int / 4;
    seq![
        (if flag {
            255u8
        } else {
            127u8
        }),
        (words % 256) as u8,
        (words / 256 % 256) as u8,
        (words / 65536) as u8,
    ] + payload
}

/// A payload that a transport can carry in one packet.
pub open spec fn can_carry(proto: u32, payload: Seq<u8>) -> bool {
    &&& payload.len() > 0
    &&& if proto == 0xEFEF_EFEF {
        payload.len() % 4 == 0 && payload.len() / 4 < 0x100_0000
    } else {
        (proto == 0xEEEE_EEEE || proto == 0xDDDD_DDDD) && payload.len() < 0x8000_0000
    }
}

/// The length of a long abridged packet, however much follows it, and none while it is not whole.
proof fn lemma_long_packet_len(payload: Seq<u8>, flag: bool, plain: Seq<u8>)
    requires
        payload.len() > 0,
        payload.len() % 4 == 0,
        payload.len() / 4 < 0x100_0000,
        plain.len() >= 4,
        plain.take(4) == long_packet_of(payload, flag).take(4),
    ensures
        packet_len(0xEFEF_EFEF, plain) == if plain.len() < 4 + payload.len() {
            None
        } else {
            Some((4 + payload.len()) as nat)
        },
{
    let head = plain.take(4);
    let three = plain.subrange(1, 4);
    let words: int = payload.len() as int / 4;
    assert(head[0] == plain[0]);
    assert(three[0] == head[1] && three[1] == head[2] && three[2] == head[3]);
    assert(head[1] == (words % 256) as u8);
    assert(head[2] == (words / 256 % 256) as u8);
    assert(head[3] == (words / 65536) as u8);
    bytes::lemma_le_value_3(three);
    assert(bytes::le_value(three) == words);
}

/// The number that four bytes write, the low one first, with a flag in the highest bit.
proof fn lemma_flagged_len(len: nat, top: nat, head: Seq<u8>)
    requires
        len < 0x8000_0000,
        top == 0 || top == 128,
        head.len() == 4,
        head[0] == (len % 256) as u8,
        head[1] == (len / 256 % 256) as u8,
        head[2] == (len / 65536 % 256) as u8,
        head[3] == (top + len / 16777216) as u8,
    ensures
        bytes::le_value(head) % 0x8000_0000 == len,
{
    bytes::lemma_le_value_4(head);
    assert(bytes::le_value(head) == len + 16777216 * top);
}

/// The length of an intermediate packet, however much follows it, and none while it is not whole.
proof fn lemma_intermediate_packet_len(proto: u32, payload: Seq<u8>, flag: bool, plain: Seq<u8>)
    requires
        proto == 0xEEEE_EEEE || proto == 0xDDDD_DDDD,
        0 < payload.len() < 0x8000_0000,
        plain.len() >= 4,
        plain.take(4) == packet_of(proto, payload, flag).take(4),
    ensures
        packet_len(proto, plain) == if plain.len() < 4 + payload.len() {
            None
        } else {
            Some((4 + payload.len()) as nat)
        },
{
    let packet = packet_of(proto, payload, flag);
    let head = plain.take(4);
    assert(head[0] == packet[0] && head[1] == packet[1] && head[2] == packet[2] && head[3]
        == packet[3]);
    let top: nat = if flag {
        128
    } else {
        0
    };
    lemma_flagged_len(payload.len(), top, head);
}

/// The length of a packet, however much follows it, and none while it is not whole.
proof fn lemma_packet_of_len(proto: u32, payload: Seq<u8>, flag: bool, plain: Seq<u8>)
    requires
        can_carry(proto, payload),
        ({
            let packet = packet_of(proto, payload, flag);
            let n = if plain.len() < packet.len() {
                plain.len() as int
            } else {
                packet.len() as int
            };
            plain.take(n) == packet.take(n)
        }),
    ensures
        packet_len(proto, plain) == if plain.len() < packet_of(proto, payload, flag).len() {
            None
        } else {
            Some(packet_of(proto, payload, flag).len())
        },
{
    let packet = packet_of(proto, payload, flag);
    let n = if plain.len() < packet.len() {
        plain.len() as int
    } else {
        packet.len() as int
    };
    let words: int = payload.len() as int / 4;
    if plain.len() > 0 {
        assert(plain.take(n)[0] == plain[0]);
        assert(plain.take(n)[0] == packet[0]);
    }
    if plain.len() >= 4 {
        assert forall|i: int| 0 <= i < 4 implies plain.take(4)[i] == packet.take(4)[i] by {
            assert(plain.take(n)[i] == packet.take(n)[i]);
        }
        assert(plain.take(4) =~= packet.take(4));
    }
    if proto == 0xEFEF_EFEF {
        if words >= 127 && plain.len() >= 4 {
            lemma_long_packet_len(payload, flag, plain);
        }
    } else if plain.len() >= 4 {
        lemma_intermediate_packet_len(proto, payload, flag, plain);
    }
}

/// A packet at the start of a stream is cut off whole, whatever follows it, and what follows is
/// cut as if it stood alone.
pub proof fn law_packet_is_cut_off(
    proto: u32,
    payload: Seq<u8>,
    flag: bool,
    rest: Seq<u8>,
    cipher: Seq<u8>,
)
    requires
        can_carry(proto, payload),
        cipher.len() == packet_of(proto, payload, flag).len() + rest.len(),
    ensures
        ({
            let n = packet_of(proto, payload, flag).len() as int;
            let all = cut(proto, cipher, packet_of(proto, payload, flag) + rest);
            let behind = cut(proto, cipher.skip(n), rest);
            &&& all.parts == seq![cipher.take(n)] + behind.parts
            &&& all.used == n + behind.used
            &&& all.opaque == behind.opaque
        }),
{
    let packet = packet_of(proto, payload, flag);
    let plain = packet + rest;
    assert(plain.take(packet.len() as int) =~= packet.take(packet.len() as int));
    lemma_packet_of_len(proto, payload, flag, plain);
    assert(plain.skip(packet.len() as int) =~= rest);
}

/// An abridged packet whose length takes three bytes is cut off whole, also where one byte would
/// do.
pub proof fn law_long_packet_is_cut_off(
    payload: Seq<u8>,
    flag: bool,
    rest: Seq<u8>,
    cipher: Seq<u8>,
)
    requires
        payload.len() > 0,
        payload.len() % 4 == 0,
        payload.len() / 4 < 0x100_0000,
        cipher.len() == 4 + payload.len() + rest.len(),
    ensures
        ({
            let n = 4 + payload.len() as int;
            let all = cut(0xEFEF_EFEF, cipher, long_packet_of(payload, flag) + rest);
            let behind = cut(0xEFEF_EFEF, cipher.skip(n), rest);
            &&& all.parts == seq![cipher.take(n)] + behind.parts
            &&& all.used == n + behind.used
            &&& all.opaque == behind.opaque
        }),
{
    let packet = long_packet_of(payload, flag);
    let plain = packet + rest;
    assert(plain.take(4) =~= packet.take(4));
    lemma_long_packet_len(payload, flag, plain);
    assert(plain.skip(packet.len() as int) =~= rest);
}

/// The packets of some payloads, with their flags.
pub open spec fn packets_of(proto: u32, payloads: Seq<Seq<u8>>, flags: Seq<bool>) -> Seq<Seq<u8>> {
    Seq::new(payloads.len(), |i: int| packet_of(proto, payloads[i], flags[i]))
}

/// A stream of packets, one behind the other, the last one perhaps not whole yet, is cut into
/// exactly these packets, and what there is of the last one is held back.
pub proof fn law_stream_is_cut_into_its_packets(
    proto: u32,
    payloads: Seq<Seq<u8>>,
    flags: Seq<bool>,
    next: Seq<u8>,
    next_flag: bool,
    n: int,
)
    requires
        flags.len() == payloads.len(),
        forall|i: int| 0 <= i < payloads.len() ==> can_carry(proto, #[trigger] payloads[i]),
        can_carry(proto, next),
        0 <= n < packet_of(proto, next, next_flag).len(),
    ensures
        ({
            let packets = packets_of(proto, payloads, flags);
            let plain = packets.flatten() + packet_of(proto, next, next_flag).take(n);
            let done = cut(proto, plain, plain);
            &&& done.parts == packets
            &&& done.used == packets.flatten().len()
            &&& !done.opaque
        }),
    decreases payloads.len(),
{
    let packets = packets_of(proto, payloads, flags);
    let tail = packet_of(proto, next, next_flag).take(n);
    let plain = packets.flatten() + tail;
    if payloads.len() == 0 {
        assert(plain =~= tail);
        assert(tail.take(n) =~= packet_of(proto, next, next_flag).take(n));
        lemma_packet_of_len(proto, next, next_flag, tail);
        assert(cut(proto, plain, plain).parts =~= packets);
    } else {
        let first = packet_of(proto, payloads[0], flags[0]);
        let others = payloads.drop_first();
        let other_flags = flags.drop_first();
        assert forall|i: int| 0 <= i < others.len() implies can_carry(
            proto,
            #[trigger] others[i],
        ) by {
            assert(others[i] == payloads[i + 1]);
        }
        assert(packets.drop_first() =~= packets_of(proto, others, other_flags));
        assert(packets.first() == first);
        law_stream_is_cut_into_its_packets(proto, others, other_flags, next, next_flag, n);
        let rest = packets.drop_first().flatten() + tail;
        assert(plain =~= first + rest);
        law_packet_is_cut_off(proto, payloads[0], flags[0], rest, plain);
        assert(plain.skip(first.len() as int) =~= rest);
        assert(plain.take(first.len() as int) =~= first);
        assert(seq![first] + packets.drop_first() =~= packets);
    }
}

/// A length of zero, and a transport that is none of the three, end the cutting: everything from
/// there on is one part.
pub proof fn law_cutting_ends(proto: u32, cipher: Seq<u8>, plain: Seq<u8>)
    requires
        cipher.len() == plain.len(),
        plain.len() > 0,
        ({
            ||| proto != 0xEFEF_EFEF && proto != 0xEEEE_EEEE && proto != 0xDDDD_DDDD
            ||| proto == 0xEFEF_EFEF && (plain[0] == 0 || plain[0] == 128)
            ||| proto == 0xEFEF_EFEF && plain.len() >= 4 && (plain[0] == 127 || plain[0] == 255)
                && plain[1] == 0 && plain[2] == 0 && plain[3] == 0
            ||| (proto == 0xEEEE_EEEE || proto == 0xDDDD_DDDD) && plain.len() >= 4 && plain[0] == 0
                && plain[1] == 0 && plain[2] == 0 && (plain[3] == 0 || plain[3] == 128)
        }),
    ensures
        cut(proto, cipher, plain).parts == seq![cipher],
        cut(proto, cipher, plain).used == cipher.len(),
        cut(proto, cipher, plain).opaque,
{
    if plain.len() >= 4 {
        bytes::lemma_le_value_3(plain.subrange(1, 4));
        bytes::lemma_le_value_4(plain.take(4));
    }
}

/// A splitter that starts behind the relay handshake and holds nothing back gives out, for an
/// encrypted stream of packets, the encrypted packets: as many, each as long, and with every byte.
pub proof fn law_splitter_gives_out_packets(
    state: SplitterState,
    payloads: Seq<Seq<u8>>,
    flags: Seq<bool>,
    next: Seq<u8>,
    next_flag: bool,
    n: int,
    chunk: Seq<u8>,
)
    requires
        state.wf(),
        state.cipher.len() == 0,
        !state.disabled,
        flags.len() == payloads.len(),
        forall|i: int| 0 <= i < payloads.len() ==> can_carry(state.proto, #[trigger] payloads[i]),
        can_carry(state.proto, next),
        0 <= n < packet_of(state.proto, next, next_flag).len(),
        ({
            let plain = packets_of(state.proto, payloads, flags).flatten() + packet_of(
                state.proto,
                next,
                next_flag,
            ).take(n);
            &&& chunk.len() == plain.len()
            &&& forall|i: int|
                0 <= i < plain.len() ==> #[trigger] chunk[i] == plain[i] ^ crypto::ctr_keystream(
                    state.dec.key@,
                    state.dec.iv@,
                    (state.dec.pos + i) as nat,
                )
        }),
    ensures
        ({
            let packets = packets_of(state.proto, payloads, flags);
            let parts = state.parts(chunk);
            &&& parts.len() == packets.len()
            &&& forall|i: int|
                0 <= i < packets.len() ==> #[trigger] parts[i].len() == packets[i].len()
            &&& parts.flatten() == chunk.take(packets.flatten().len() as int)
            &&& state.after(chunk).cipher == chunk.skip(packets.flatten().len() as int)
        }),
{
    let packets = packets_of(state.proto, payloads, flags);
    let plain = packets.flatten() + packet_of(state.proto, next, next_flag).take(n);
    let shown = state.dec.output(chunk);
    assert forall|i: int| 0 <= i < plain.len() implies shown[i] == plain[i] by {
        crypto::law_every_byte_encrypted(
            state.dec.key@,
            state.dec.iv@,
            state.dec.pos as nat,
            chunk,
            i,
        );
        crypto::lemma_xor_twice(
            plain[i],
            crypto::ctr_keystream(state.dec.key@, state.dec.iv@, (state.dec.pos + i) as nat),
        );
    }
    assert(shown =~= plain);
    assert(state.cipher + chunk =~= chunk);
    assert(state.plain + shown =~= plain);
    law_stream_is_cut_into_its_packets(state.proto, payloads, flags, next, next_flag, n);
    law_cut_follows_plain_text(state.proto, chunk, plain);
    law_split_loses_nothing(state, chunk);
    let done = cut(state.proto, chunk, plain);
    if chunk.len() == 0 {
        assert(packets.flatten().len() == 0);
        assert(done.used == 0);
        assert(cut(state.proto, plain, plain).parts =~= packets);
        assert(packets.len() == 0) by {
            if packets.len() > 0 {
                assert(can_carry(state.proto, payloads[0]));
                assert(packets.flatten() == packets.first() + packets.drop_first().flatten());
            }
        }
        assert(state.parts(chunk).flatten() =~= chunk.take(0));
        assert(state.after(chunk).cipher =~= chunk.skip(0));
    } else {
        let parts = state.parts(chunk);
        assert(state.after(chunk).cipher =~= chunk.skip(done.used as int));
        assert(parts.flatten() + chunk.skip(done.used as int) == chunk);
        assert(parts.flatten() =~= chunk.take(done.used as int));
    }
}

/// The views of parts: each part stays what it is and where it is.
pub proof fn law_part_views(parts: Seq<Vec<u8>>, i: int)
    requires
        0 <= i < parts.len(),
    ensures
        part_views(parts).len() == parts.len(),
        part_views(parts)[i] == parts[i]@,
{
}

} // verus!
