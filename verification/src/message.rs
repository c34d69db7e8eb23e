//! The discovery message codec: a tagged union of three message kinds,
//! serialized behind a fixed magic preamble. A datagram holds the preamble
//! once followed by any number of messages packed back to back.
//!
//! The wire layout of each message is a tag byte followed by its body:
//! - `Request1` (tag 1): 8 raw bytes of idempotency token, then an optional
//!   MAC field (`0` for absent, or `1` plus 6 raw bytes).
//! - `Response1` (tag 2): an optional MAC field as above.
//! - `Response2` (tag 3): a 4-byte little-endian body length, 8 raw bytes of
//!   idempotency token, then the nickname as a length-prefixed UTF-8 string.

use vstd::prelude::*;
use vstd::bytes::{lemma_auto_spec_u32_to_from_le_bytes, spec_u32_from_le_bytes, spec_u32_to_le_bytes};
use vstd::utf8::{decode_utf8, encode_utf8, encode_utf8_decode_utf8, encode_utf8_valid_utf8, valid_utf8};
use crate::text::string_from_utf8;
use crate::tlv::{bytes_eq, Reader, TlvError, Writer};

verus! {

/// Magic preamble that opens every discovery datagram.
pub const MAGIC_NUMBER: [u8; 4] = [0x9a, 0x4a, 0x43, 0x81];

/// Largest datagram the protocol uses.
pub const PACKET_SIZE: usize = 1024;

/// Cap on the encoded byte length of a nickname that the decoder accepts.
pub const MAX_NICKNAME_BYTES: usize = 64;

/// A discovery message.
#[derive(Debug)]
pub enum Message {
    /// A client's broadcast query. The MAC filter is reserved for targeted
    /// queries; current senders always leave it absent.
    Request1 { idem_id: [u8; 8], mac: Option<[u8; 6]> },
    /// A server's own MAC address, or absent if it could not be detected.
    Response1(Option<[u8; 6]>),
    /// A server's configured display name, correlated to the request.
    Response2(Response2),
}

/// Body of a `Message::Response2`.
#[derive(Debug)]
pub struct Response2 {
    pub idem_id: [u8; 8],
    pub nickname: String,
}

/// Errors of the message codec.
#[derive(Debug)]
pub enum MessageError {
    /// A framing-layer failure (truncation, magic mismatch, size caps).
    Tlv(TlvError),
    /// A message opened with a tag byte this codec does not know.
    UnknownTag,
    /// A nickname's bytes were not valid UTF-8.
    InvalidUtf8,
}

/// Ghost form of a message: fixed-width fields as byte sequences and the
/// nickname as its character sequence.
pub enum MessageView {
    Request1 { idem_id: Seq<u8>, mac: Option<Seq<u8>> },
    Response1(Option<Seq<u8>>),
    Response2 { idem_id: Seq<u8>, nickname: Seq<char> },
}

pub open spec fn mac_opt_view(mac: Option<[u8; 6]>) -> Option<Seq<u8>> {
    match mac {
        Some(m) => Some(m@),
        None => None,
    }
}

impl View for Message {
    type V = MessageView;

    open spec fn view(&self) -> MessageView {
        match self {
            Message::Request1 { idem_id, mac } => MessageView::Request1 {
                idem_id: idem_id@,
                mac: mac_opt_view(*mac),
            },
            Message::Response1(mac) => MessageView::Response1(mac_opt_view(*mac)),
            Message::Response2(r) => MessageView::Response2 {
                idem_id: r.idem_id@,
                nickname: r.nickname@,
            },
        }
    }
}

pub open spec fn views_of(ms: Seq<Message>) -> Seq<MessageView> {
    ms.map_values(|m: Message| m@)
}

pub open spec fn spec_magic() -> Seq<u8> {
    seq![0x9au8, 0x4au8, 0x43u8, 0x81u8]
}

/// Encoding of the optional-MAC field.
pub open spec fn spec_mac_opt_bytes(mac: Option<Seq<u8>>) -> Seq<u8> {
    match mac {
        None => seq![0u8],
        Some(m) => seq![1u8] + m,
    }
}

/// Encoding of a `Response2` body: token, then the nickname length-prefixed.
pub open spec fn spec_response2_bytes(idem_id: Seq<u8>, nickname: Seq<char>) -> Seq<u8> {
    idem_id + spec_u32_to_le_bytes(encode_utf8(nickname).len() as u32) + encode_utf8(nickname)
}

/// Encoding of one message: its tag byte followed by its body.
pub open spec fn spec_message_bytes(m: MessageView) -> Seq<u8> {
    match m {
        MessageView::Request1 { idem_id, mac } => seq![1u8] + idem_id + spec_mac_opt_bytes(mac),
        MessageView::Response1(mac) => seq![2u8] + spec_mac_opt_bytes(mac),
        MessageView::Response2 { idem_id, nickname } => seq![3u8] + spec_u32_to_le_bytes(
            spec_response2_bytes(idem_id, nickname).len() as u32,
        ) + spec_response2_bytes(idem_id, nickname),
    }
}

/// Encoding of a message sequence, packed back to back.
pub open spec fn spec_messages_bytes(ms: Seq<MessageView>) -> Seq<u8>
    decreases ms.len(),
{
    if ms.len() == 0 {
        Seq::empty()
    } else {
        spec_message_bytes(ms[0]) + spec_messages_bytes(ms.drop_first())
    }
}

/// Well-formed message: fields have their wire widths and the nickname is
/// within the decoder's cap.
pub open spec fn msg_wf(m: MessageView) -> bool {
    match m {
        MessageView::Request1 { idem_id, mac } => idem_id.len() == 8 && mac_len_ok(mac),
        MessageView::Response1(mac) => mac_len_ok(mac),
        MessageView::Response2 { idem_id, nickname } => idem_id.len() == 8 && encode_utf8(
            nickname,
        ).len() <= MAX_NICKNAME_BYTES,
    }
}

pub open spec fn mac_len_ok(mac: Option<Seq<u8>>) -> bool {
    mac matches Some(m) ==> m.len() == 6
}

/// The encoder accepts any message whose nickname is under the writer's
/// hard size cap; every view of an actual `Message` value satisfies the
/// width conditions by construction.
pub open spec fn msg_encodable(m: MessageView) -> bool {
    m matches MessageView::Response2 { nickname, .. } ==> encode_utf8(nickname).len()
        <= 2_000_000_000
}

impl Message {
    fn write_mac_opt(w: &mut Writer, mac: Option<[u8; 6]>)
        ensures
            final(w)@ == old(w)@ + spec_mac_opt_bytes(mac_opt_view(mac)),
    {
        match mac {
            Some(m) => {
                w.write_u8(1);
                w.write_bytes(m.as_slice());
                proof {
                    assert(w@ =~= old(w)@ + spec_mac_opt_bytes(mac_opt_view(mac)));
                }
            },
            None => {
                w.write_u8(0);
                proof {
                    assert(w@ =~= old(w)@ + spec_mac_opt_bytes(mac_opt_view(mac)));
                }
            },
        }
    }

    fn write_response_2(w: &mut Writer, params: &Response2) -> (r: Result<(), MessageError>)
        ensures
            match r {
                Ok(_) => encode_utf8(params.nickname@).len() <= 2_000_000_000 && final(w)@ == old(w)@ + spec_response2_bytes(params.idem_id@, params.nickname@),
                Err(e) => e == MessageError::Tlv(TlvError::BufferTooBig) && encode_utf8(
                    params.nickname@,
                ).len() > 2_000_000_000 && *final(w) == *old(w),
            },
    {
        let nb = params.nickname.as_str().as_bytes();
        if nb.len() > 2_000_000_000 {
            return Err(MessageError::Tlv(TlvError::BufferTooBig));
        }
        w.write_bytes(params.idem_id.as_slice());
        match w.lv_bytes(nb) {
            Err(e) => {
                // Unreachable: the cap was already checked above.
                proof {
                    assert(false);
                }
                Err(MessageError::Tlv(e))
            },
            Ok(_) => {
                proof {
                    assert(w@ =~= old(w)@ + spec_response2_bytes(
                        params.idem_id@,
                        params.nickname@,
                    ));
                }
                Ok(())
            },
        }
    }

    /// Serializes this message's tag and body into `w`. Fails, leaving `w`
    /// unchanged, only when a nickname is over the hard size cap.
    pub fn write(&self, w: &mut Writer) -> (r: Result<(), MessageError>)
        ensures
            match r {
                Ok(_) => msg_encodable(self@) && final(w)@ == old(w)@ + spec_message_bytes(self@),
                Err(e) => e == MessageError::Tlv(TlvError::BufferTooBig) && !msg_encodable(self@)
                    && *final(w) == *old(w),
            },
    {
        match self {
            Message::Request1 { idem_id, mac } => {
                w.write_u8(1);
                w.write_bytes(idem_id.as_slice());
                Self::write_mac_opt(w, *mac);
                proof {
                    assert(w@ =~= old(w)@ + spec_message_bytes(self@));
                }
                Ok(())
            },
            Message::Response1(mac) => {
                w.write_u8(2);
                Self::write_mac_opt(w, *mac);
                proof {
                    assert(w@ =~= old(w)@ + spec_message_bytes(self@));
                }
                Ok(())
            },
            Message::Response2(x) => {
                // Measure the body by serializing it into a throwaway sink,
                // so the length prefix is exact.
                let mut dummy = Writer::new();
                match Self::write_response_2(&mut dummy, x) {
                    Err(e) => {
                        return Err(e);
                    },
                    Ok(_) => {},
                }
                let body = dummy.into_inner();
                proof {
                    lemma_auto_spec_u32_to_from_le_bytes();
                }
                let len32 = body.len() as u32;
                w.write_u8(3);
                w.length(len32);
                w.write_bytes(body.as_slice());
                proof {
                    assert(w@ =~= old(w)@ + spec_message_bytes(self@));
                }
                Ok(())
            },
        }
    }

    /// Serializes the magic preamble followed by this one message.
    pub fn to_vec(&self) -> (r: Result<Vec<u8>, MessageError>)
        ensures
            match r {
                Ok(v) => msg_encodable(self@) && v@ == spec_magic() + spec_message_bytes(self@),
                Err(e) => e == MessageError::Tlv(TlvError::BufferTooBig) && !msg_encodable(self@),
            },
    {
        let mut w = Writer::new();
        w.write_bytes(MAGIC_NUMBER.as_slice());
        proof {
            assert(MAGIC_NUMBER@ =~= spec_magic());
        }
        match self.write(&mut w) {
            Err(e) => Err(e),
            Ok(_) => {
                proof {
                    assert(w@ =~= spec_magic() + spec_message_bytes(self@));
                }
                Ok(w.into_inner())
            },
        }
    }

    /// Serializes the magic preamble once, followed by each message's tag
    /// and body back to back, so one datagram can carry a whole reply.
    pub fn many_to_vec(msgs: &[Message]) -> (r: Result<Vec<u8>, MessageError>)
        ensures
            match r {
                Ok(v) => (forall|i: int|
                    0 <= i < msgs@.len() ==> msg_encodable(#[trigger] msgs@[i]@)) && v@
                    == spec_magic() + spec_messages_bytes(views_of(msgs@)),
                Err(e) => e == MessageError::Tlv(TlvError::BufferTooBig) && exists|i: int|
                    0 <= i < msgs@.len() && !msg_encodable(#[trigger] msgs@[i]@),
            },
    {
        let mut w = Writer::new();
        w.write_bytes(MAGIC_NUMBER.as_slice());
        proof {
            assert(MAGIC_NUMBER@ =~= spec_magic());
        }
        let n = msgs.len();
        let mut i: usize = 0;
        while i < n
            invariant
                i <= n,
                n == msgs@.len(),
                forall|j: int| 0 <= j < i ==> msg_encodable(#[trigger] msgs@[j]@),
                w@ == spec_magic() + spec_messages_bytes(views_of(msgs@.take(i as int))),
            decreases n - i,
        {
            match msgs[i].write(&mut w) {
                Err(e) => {
                    return Err(e);
                },
                Ok(_) => {},
            }
            proof {
                assert(views_of(msgs@.take(i + 1)) =~= views_of(msgs@.take(i as int)).push(
                    msgs@[i as int]@,
                ));
                lemma_messages_bytes_snoc(views_of(msgs@.take(i as int)), msgs@[i as int]@);
            }
            i = i + 1;
        }
        proof {
            assert(msgs@.take(n as int) =~= msgs@);
        }
        Ok(w.into_inner())
    }
}

/// Appending one message to a sequence appends its bytes to the encoding.
proof fn lemma_messages_bytes_snoc(ms: Seq<MessageView>, m: MessageView)
    ensures
        spec_messages_bytes(ms.push(m)) == spec_messages_bytes(ms) + spec_message_bytes(m),
    decreases ms.len(),
{
    if ms.len() == 0 {
        assert(ms.push(m)[0] == m);
        assert(ms.push(m).drop_first() =~= Seq::<MessageView>::empty());
        assert(spec_messages_bytes(Seq::<MessageView>::empty()) == Seq::<u8>::empty());
        assert(spec_messages_bytes(ms.push(m)) == spec_message_bytes(m) + Seq::<u8>::empty());
        assert(spec_message_bytes(m) + Seq::<u8>::empty() =~= Seq::<u8>::empty()
            + spec_message_bytes(m));
    } else {
        let h = ms[0];
        let t = ms.drop_first();
        assert(ms.push(m)[0] == h);
        assert(ms.push(m).drop_first() =~= t.push(m));
        lemma_messages_bytes_snoc(t, m);
        assert(spec_messages_bytes(ms.push(m)) == spec_message_bytes(h) + spec_messages_bytes(
            t.push(m),
        ));
        assert(spec_message_bytes(h) + (spec_messages_bytes(t) + spec_message_bytes(m)) =~= (
        spec_message_bytes(h) + spec_messages_bytes(t)) + spec_message_bytes(m));
    }
}

/// Spec-level decoding of the optional-MAC field: the value and the bytes
/// left over. Any lead byte other than 1 means "absent".
pub open spec fn spec_dec_mac_opt(b: Seq<u8>) -> Result<(Option<Seq<u8>>, Seq<u8>), MessageError> {
    if b.len() < 1 {
        Err(MessageError::Tlv(TlvError::TruncatedInput))
    } else if b[0] == 1 {
        if b.len() < 7 {
            Err(MessageError::Tlv(TlvError::TruncatedInput))
        } else {
            Ok((Some(b.subrange(1, 7)), b.skip(7)))
        }
    } else {
        Ok((None, b.skip(1)))
    }
}

/// Spec-level decoding of a `Response2` body (everything after tag 3).
/// The leading body length is read but not otherwise used.
pub open spec fn spec_dec_response2(b: Seq<u8>) -> Result<(MessageView, Seq<u8>), MessageError> {
    if b.len() < 4 {
        Err(MessageError::Tlv(TlvError::TruncatedInput))
    } else {
        let a = b.skip(4);
        if a.len() < 8 {
            Err(MessageError::Tlv(TlvError::TruncatedInput))
        } else {
            let idem = a.take(8);
            let c = a.skip(8);
            if c.len() < 4 {
                Err(MessageError::Tlv(TlvError::TruncatedInput))
            } else {
                let l = spec_u32_from_le_bytes(c.take(4)) as int;
                if l > MAX_NICKNAME_BYTES {
                    Err(MessageError::Tlv(TlvError::DataTooBig))
                } else if c.len() < 4 + l {
                    Err(MessageError::Tlv(TlvError::TruncatedInput))
                } else {
                    let nb = c.subrange(4, 4 + l);
                    if valid_utf8(nb) {
                        Ok(
                            (
                                MessageView::Response2 {
                                    idem_id: idem,
                                    nickname: decode_utf8(nb),
                                },
                                c.skip(4 + l),
                            ),
                        )
                    } else {
                        Err(MessageError::InvalidUtf8)
                    }
                }
            }
        }
    }
}

/// Spec-level decoding of one message (tag byte plus body) from the front
/// of `b`: the message and the bytes left over.
pub open spec fn spec_dec_message(b: Seq<u8>) -> Result<(MessageView, Seq<u8>), MessageError> {
    if b.len() < 1 {
        Err(MessageError::Tlv(TlvError::TruncatedInput))
    } else if b[0] == 1 {
        if b.len() < 9 {
            Err(MessageError::Tlv(TlvError::TruncatedInput))
        } else {
            match spec_dec_mac_opt(b.skip(9)) {
                Err(e) => Err(e),
                Ok((mac, rest)) => Ok(
                    (MessageView::Request1 { idem_id: b.subrange(1, 9), mac }, rest),
                ),
            }
        }
    } else if b[0] == 2 {
        match spec_dec_mac_opt(b.skip(1)) {
            Err(e) => Err(e),
            Ok((mac, rest)) => Ok((MessageView::Response1(mac), rest)),
        }
    } else if b[0] == 3 {
        spec_dec_response2(b.skip(1))
    } else {
        Err(MessageError::UnknownTag)
    }
}

/// Spec-level decoding of messages packed back to back until the buffer is
/// exhausted. The guard on `rest` only serves termination: a decoded
/// message always consumes at least its tag byte.
pub open spec fn spec_dec_messages(b: Seq<u8>) -> Result<Seq<MessageView>, MessageError>
    decreases b.len(),
{
    if b.len() == 0 {
        Ok(Seq::empty())
    } else {
        match spec_dec_message(b) {
            Err(e) => Err(e),
            Ok((m, rest)) => if rest.len() < b.len() {
                match spec_dec_messages(rest) {
                    Err(e) => Err(e),
                    Ok(ms) => Ok(seq![m] + ms),
                }
            } else {
                Err(MessageError::Tlv(TlvError::TruncatedInput))
            },
        }
    }
}

/// Spec-level decoding of a whole datagram: the magic preamble, then
/// messages until the end of the buffer.
pub open spec fn spec_decode_datagram(b: Seq<u8>) -> Result<Seq<MessageView>, MessageError> {
    if b.len() < 4 {
        Err(MessageError::Tlv(TlvError::TruncatedInput))
    } else if b.take(4) != spec_magic() {
        Err(MessageError::Tlv(TlvError::MagicMismatch))
    } else {
        spec_dec_messages(b.skip(4))
    }
}

/// Relies on `rand`'s thread-local generator for the 8 random bytes of a
/// fresh idempotency token; nothing is assumed of the value drawn.
#[verifier::external_body]
fn random_token() -> (r: [u8; 8]) {
    let mut b = [0u8; 8];
    rand::RngCore::fill_bytes(&mut rand::thread_rng(), &mut b);
    b
}

impl Message {
    /// Builds a broadcast query carrying a fresh random idempotency token
    /// and no MAC filter.
    pub fn new_request1() -> (r: Message)
        ensures
            r@ matches MessageView::Request1 { idem_id, mac } && idem_id.len() == 8
                && mac is None,
    {
        Message::Request1 { idem_id: random_token(), mac: None }
    }

    fn read_mac_opt(r: &mut Reader) -> (res: Result<Option<[u8; 6]>, MessageError>)
        requires
            old(r).wf(),
        ensures
            final(r).wf(),
            match res {
                Ok(mac) => spec_dec_mac_opt(old(r)@) matches Ok((mv, rest)) && mac_opt_view(mac)
                    == mv && final(r)@ == rest,
                Err(e) => spec_dec_mac_opt(old(r)@) matches Err(e2) && e == e2,
            },
    {
        let t = match r.u8() {
            Err(e) => {
                return Err(MessageError::Tlv(e));
            },
            Ok(t) => t,
        };
        if t == 1 {
            match r.read_bytes(6) {
                Err(e) => Err(MessageError::Tlv(e)),
                Ok(v) => {
                    let mac: [u8; 6] = [v[0], v[1], v[2], v[3], v[4], v[5]];
                    proof {
                        assert(mac@ =~= old(r)@.subrange(1, 7));
                        assert(r@ =~= old(r)@.skip(7));
                    }
                    Ok(Some(mac))
                },
            }
        } else {
            Ok(None)
        }
    }

    fn read2(r: &mut Reader) -> (res: Result<Message, MessageError>)
        requires
            old(r).wf(),
        ensures
            final(r).wf(),
            match res {
                Ok(m) => spec_dec_message(old(r)@) matches Ok((mv, rest)) && m@ == mv && final(r)@ == rest && final(r)@.len() < old(r)@.len(),
                Err(e) => spec_dec_message(old(r)@) matches Err(e2) && e == e2,
            },
    {
        let t = match r.u8() {
            Err(e) => {
                return Err(MessageError::Tlv(e));
            },
            Ok(t) => t,
        };
        if t == 1 {
            let idem_v = match r.read_bytes(8) {
                Err(e) => {
                    return Err(MessageError::Tlv(e));
                },
                Ok(v) => v,
            };
            let idem: [u8; 8] = [
                idem_v[0],
                idem_v[1],
                idem_v[2],
                idem_v[3],
                idem_v[4],
                idem_v[5],
                idem_v[6],
                idem_v[7],
            ];
            proof {
                assert(idem@ =~= old(r)@.subrange(1, 9));
                assert(r@ =~= old(r)@.skip(9));
            }
            match Self::read_mac_opt(r) {
                Err(e) => Err(e),
                Ok(mac) => Ok(Message::Request1 { idem_id: idem, mac }),
            }
        } else if t == 2 {
            proof {
                assert(r@ =~= old(r)@.skip(1));
            }
            match Self::read_mac_opt(r) {
                Err(e) => Err(e),
                Ok(mac) => Ok(Message::Response1(mac)),
            }
        } else if t == 3 {
            proof {
                assert(r@ =~= old(r)@.skip(1));
            }
            let ghost b = old(r)@.skip(1);
            match r.length() {
                Err(e) => {
                    return Err(MessageError::Tlv(e));
                },
                Ok(_) => {},
            }
            proof {
                assert(r@ =~= b.skip(4));
            }
            let ghost a = b.skip(4);
            let idem_v = match r.read_bytes(8) {
                Err(e) => {
                    return Err(MessageError::Tlv(e));
                },
                Ok(v) => v,
            };
            let idem: [u8; 8] = [
                idem_v[0],
                idem_v[1],
                idem_v[2],
                idem_v[3],
                idem_v[4],
                idem_v[5],
                idem_v[6],
                idem_v[7],
            ];
            proof {
                assert(idem@ =~= a.take(8));
                assert(r@ =~= a.skip(8));
            }
            let ghost c = a.skip(8);
            let nb = match r.lv_bytes_to_vec(MAX_NICKNAME_BYTES) {
                Err(e) => {
                    return Err(MessageError::Tlv(e));
                },
                Ok(v) => v,
            };
            proof {
                assert(nb@ =~= c.subrange(4, 4 + nb@.len() as int));
            }
            match string_from_utf8(nb) {
                None => Err(MessageError::InvalidUtf8),
                Some(nickname) => Ok(Message::Response2(Response2 { idem_id: idem, nickname })),
            }
        } else {
            Err(MessageError::UnknownTag)
        }
    }

    /// Decodes a whole datagram: checks the magic preamble, then decodes
    /// messages until the end of the buffer. A buffer whose first four
    /// bytes differ from the magic is always rejected as a magic mismatch.
    pub fn from_slice2(buf: &[u8]) -> (r: Result<Vec<Message>, MessageError>)
        ensures
            match r {
                Ok(ms) => spec_decode_datagram(buf@) matches Ok(dv) && views_of(ms@) == dv,
                Err(e) => spec_decode_datagram(buf@) matches Err(e2) && e == e2,
            },
            buf@.len() >= 4 && buf@.take(4) != spec_magic() ==> r matches Err(MessageError::Tlv(
                TlvError::MagicMismatch,
            )),
    {
        let mut rd = Reader::new(buf);
        proof {
            assert(MAGIC_NUMBER@ =~= spec_magic());
        }
        match rd.expect(MAGIC_NUMBER.as_slice()) {
            Err(e) => {
                return Err(MessageError::Tlv(e));
            },
            Ok(_) => {},
        }
        let ghost tail = buf@.skip(4);
        proof {
            assert(rd@ =~= tail);
        }
        let mut msgs: Vec<Message> = Vec::new();
        while rd.remaining() > 0
            invariant
                rd.wf(),
                buf@.len() >= 4,
                buf@.take(4) == spec_magic(),
                tail == buf@.skip(4),
                match spec_dec_messages(rd@) {
                    Ok(rest_views) => spec_dec_messages(tail) matches Ok(all) && all == views_of(
                        msgs@,
                    ) + rest_views,
                    Err(e) => spec_dec_messages(tail) matches Err(e2) && e2 == e,
                },
            decreases rd@.len(),
        {
            let ghost before = rd@;
            match Self::read2(&mut rd) {
                Err(e) => {
                    return Err(e);
                },
                Ok(m) => {
                    proof {
                        assert(views_of(msgs@.push(m)) =~= views_of(msgs@).push(m@));
                        assert(spec_dec_messages(before) matches Ok(rv) ==> {
                            &&& spec_dec_messages(rd@) matches Ok(rv2)
                            &&& rv == seq![m@] + rv2
                        });
                        assert forall|rv2: Seq<MessageView>|
                            spec_dec_messages(rd@) == Result::<
                                Seq<MessageView>,
                                MessageError,
                            >::Ok(rv2) implies views_of(msgs@) + (seq![m@] + rv2) =~= views_of(
                            msgs@.push(m),
                        ) + rv2 by {
                            assert(views_of(msgs@.push(m)) =~= views_of(msgs@).push(m@));
                        }
                    }
                    msgs.push(m);
                },
            }
        }
        proof {
            assert(rd@ =~= Seq::<u8>::empty());
            assert(spec_dec_messages(rd@) == Result::<Seq<MessageView>, MessageError>::Ok(
                Seq::<MessageView>::empty(),
            ));
            assert(spec_dec_messages(tail) matches Ok(all) ==> all =~= views_of(msgs@)
                + Seq::<MessageView>::empty() && views_of(msgs@) + Seq::<MessageView>::empty()
                =~= views_of(msgs@));
        }
        Ok(msgs)
    }
}

/// A message's encoding starts with its tag byte, so it is never empty.
proof fn lemma_message_bytes_len_pos(m: MessageView)
    ensures
        spec_message_bytes(m).len() >= 1,
        spec_message_bytes(m)[0] == match m {
            MessageView::Request1 { .. } => 1u8,
            MessageView::Response1(_) => 2u8,
            MessageView::Response2 { .. } => 3u8,
        },
{
}

/// Decoding an encoded optional-MAC field from the front of a buffer gives
/// the field back and leaves exactly the trailing bytes.
proof fn lemma_dec_mac_opt_round_trip(mac: Option<Seq<u8>>, rest: Seq<u8>)
    requires
        mac_len_ok(mac),
    ensures
        spec_dec_mac_opt(spec_mac_opt_bytes(mac) + rest) == Ok::<_, MessageError>((mac, rest)),
{
    let b = spec_mac_opt_bytes(mac) + rest;
    match mac {
        None => {
            assert(b[0] == 0);
            assert(b.skip(1) =~= rest);
        },
        Some(m) => {
            assert(b[0] == 1);
            assert(b.len() == 7 + rest.len());
            assert(b.subrange(1, 7) =~= m);
            assert(b.skip(7) =~= rest);
        },
    }
}

/// Decoding an encoded message from the front of a buffer gives the
/// message back and leaves exactly the trailing bytes.
proof fn lemma_dec_message_round_trip(m: MessageView, rest: Seq<u8>)
    requires
        msg_wf(m),
    ensures
        spec_dec_message(spec_message_bytes(m) + rest) == Ok::<_, MessageError>((m, rest)),
{
    let b = spec_message_bytes(m) + rest;
    lemma_auto_spec_u32_to_from_le_bytes();
    match m {
        MessageView::Request1 { idem_id, mac } => {
            assert(b[0] == 1);
            assert(b.len() >= 9 + rest.len());
            assert(b.subrange(1, 9) =~= idem_id);
            assert(b.skip(9) =~= spec_mac_opt_bytes(mac) + rest);
            lemma_dec_mac_opt_round_trip(mac, rest);
        },
        MessageView::Response1(mac) => {
            assert(b[0] == 2);
            assert(b.skip(1) =~= spec_mac_opt_bytes(mac) + rest);
            lemma_dec_mac_opt_round_trip(mac, rest);
        },
        MessageView::Response2 { idem_id, nickname } => {
            let nbytes = encode_utf8(nickname);
            let n = nbytes.len() as int;
            let body = spec_response2_bytes(idem_id, nickname);
            assert(body.len() == 12 + n);
            assert(b[0] == 3);
            let u = b.skip(1);
            assert(u =~= spec_u32_to_le_bytes(body.len() as u32) + body + rest);
            assert(u.len() >= 4);
            let a = u.skip(4);
            assert(a =~= body + rest);
            assert(a =~= idem_id + spec_u32_to_le_bytes(n as u32) + nbytes + rest);
            assert(a.len() >= 8);
            assert(a.take(8) =~= idem_id);
            let c = a.skip(8);
            assert(c =~= spec_u32_to_le_bytes(n as u32) + nbytes + rest);
            assert(c.len() >= 4);
            assert(c.take(4) =~= spec_u32_to_le_bytes(n as u32));
            assert(spec_u32_from_le_bytes(c.take(4)) == n as u32);
            assert(c.len() >= 4 + n);
            assert(c.subrange(4, 4 + n) =~= nbytes);
            encode_utf8_valid_utf8(nickname);
            encode_utf8_decode_utf8(nickname);
            assert(c.skip(4 + n) =~= rest);
            assert(spec_dec_response2(u) == Ok::<_, MessageError>((m, rest)));
        },
    }
}

/// Decoding the back-to-back encoding of a message sequence gives the
/// sequence back.
proof fn lemma_dec_messages_round_trip(ms: Seq<MessageView>)
    requires
        forall|i: int| 0 <= i < ms.len() ==> msg_wf(#[trigger] ms[i]),
    ensures
        spec_dec_messages(spec_messages_bytes(ms)) == Ok::<_, MessageError>(ms),
    decreases ms.len(),
{
    if ms.len() == 0 {
        assert(spec_messages_bytes(ms) =~= Seq::<u8>::empty());
        assert(ms =~= Seq::<MessageView>::empty());
    } else {
        let h = ms[0];
        let t = ms.drop_first();
        let rest = spec_messages_bytes(t);
        let b = spec_messages_bytes(ms);
        assert(b == spec_message_bytes(h) + rest);
        lemma_message_bytes_len_pos(h);
        assert(b.len() >= 1);
        lemma_dec_message_round_trip(h, rest);
        assert(rest.len() < b.len());
        assert(forall|i: int| 0 <= i < t.len() ==> msg_wf(#[trigger] t[i]));
        lemma_dec_messages_round_trip(t);
        assert(seq![h] + t =~= ms);
    }
}

/// Round trip: a datagram built from well-formed messages (fields at their
/// wire widths, nicknames within the decoder's byte cap) always decodes
/// back to exactly those messages.
pub proof fn lemma_round_trip(ms: Seq<MessageView>)
    requires
        forall|i: int| 0 <= i < ms.len() ==> msg_wf(#[trigger] ms[i]),
    ensures
        spec_decode_datagram(spec_magic() + spec_messages_bytes(ms)) == Ok::<_, MessageError>(ms),
{
    let b = spec_magic() + spec_messages_bytes(ms);
    assert(b.take(4) =~= spec_magic());
    assert(b.skip(4) =~= spec_messages_bytes(ms));
    lemma_dec_messages_round_trip(ms);
}

/// A well-formed message is always within the encoder's size cap.
pub proof fn lemma_wf_encodable(m: MessageView)
    requires
        msg_wf(m),
    ensures
        msg_encodable(m),
{
}

impl PartialEq for Response2 {
    fn eq(&self, other: &Self) -> (r: bool) {
        bytes_eq(self.idem_id.as_slice(), other.idem_id.as_slice()) && self.nickname
            == other.nickname
    }
}

impl vstd::std_specs::cmp::PartialEqSpecImpl for Response2 {
    open spec fn obeys_eq_spec() -> bool {
        true
    }

    open spec fn eq_spec(&self, other: &Self) -> bool {
        self.idem_id@ == other.idem_id@ && self.nickname@ == other.nickname@
    }
}

fn mac_opt_eq(a: &Option<[u8; 6]>, b: &Option<[u8; 6]>) -> (r: bool)
    ensures
        r == (mac_opt_view(*a) == mac_opt_view(*b)),
{
    match (a, b) {
        (Some(x), Some(y)) => bytes_eq(x.as_slice(), y.as_slice()),
        (None, None) => true,
        _ => false,
    }
}

impl PartialEq for Message {
    fn eq(&self, other: &Self) -> (r: bool) {
        match (self, other) {
            (
                Message::Request1 { idem_id: a, mac: am },
                Message::Request1 { idem_id: b, mac: bm },
            ) => bytes_eq(a.as_slice(), b.as_slice()) && mac_opt_eq(am, bm),
            (Message::Response1(am), Message::Response1(bm)) => mac_opt_eq(am, bm),
            (Message::Response2(x), Message::Response2(y)) => x.eq(y),
            _ => false,
        }
    }
}

impl vstd::std_specs::cmp::PartialEqSpecImpl for Message {
    open spec fn obeys_eq_spec() -> bool {
        true
    }

    open spec fn eq_spec(&self, other: &Self) -> bool {
        self@ == other@
    }
}

} // verus!
