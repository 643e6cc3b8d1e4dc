//! The fragment accumulator: successive 64-byte frames of one logical
//! message are checked for sequencing and their payloads joined as text.
use vstd::prelude::*;
use vstd::string::StringExecFns;
use vstd::slice::slice_subrange;
use vstd::utf8::{decode_utf8, valid_utf8};

use crate::text::utf8_str;

verus! {

/// Size of every frame on the wire.
pub const FRAME_LEN: usize = 64;

/// Value of the last byte of every well-formed frame.
pub const END_MARKER: u8 = 0xfd;

/// Offset of the first payload byte.
pub const PAYLOAD_START: usize = 7;

/// Room for payload bytes in one frame.
pub const PAYLOAD_SLOT: usize = 54;

/// Why a frame was not taken into the message.
#[derive(Debug, Clone, Copy, PartialEq, Eq, Structural)]
pub enum MessageError {
    /// The buffer is not exactly one frame long; the transport is broken.
    MalformedFrame,
    /// Type, fragment count, fragment index or end marker do not continue the message.
    SequenceError,
    /// The payload is not UTF-8 text.
    EncodingError,
    /// Every declared fragment had already arrived.
    AlreadyComplete,
}

/// The message type byte of a frame.
pub open spec fn frame_type(f: Seq<u8>) -> u8 {
    f[0]
}

/// The number of fragments a frame declares (high nibble of byte 5).
pub open spec fn frame_total(f: Seq<u8>) -> u8 {
    (f[5] / 16) as u8
}

/// The 1-based index of a frame within its message (low nibble of byte 5).
pub open spec fn frame_index(f: Seq<u8>) -> u8 {
    (f[5] % 16) as u8
}

/// The significant payload bytes of a frame.
pub open spec fn frame_payload(f: Seq<u8>) -> Seq<u8> {
    f.subrange(PAYLOAD_START as int, PAYLOAD_START + f[6])
}

/// The abstract state of a message being assembled.
pub struct MessageState {
    pub data: Seq<char>,
    pub typ: u8,
    pub length: u8,
    pub current: u8,
}

impl MessageState {
    /// The state of a fresh accumulator.
    pub open spec fn empty() -> MessageState {
        MessageState { data: Seq::empty(), typ: 0, length: 0, current: 0 }
    }

    /// All declared fragments of a message whose type is known have arrived.
    pub open spec fn is_complete(self) -> bool {
        self.typ != 0 && self.current == self.length
    }

    /// The state once type and fragment count are known: a fresh message
    /// takes them from the frame, a started one keeps its own.
    pub open spec fn adopt(self, f: Seq<u8>) -> MessageState {
        if self.typ == 0 {
            MessageState { typ: frame_type(f), length: frame_total(f), ..self }
        } else {
            self
        }
    }

    /// The frame is the next fragment of this (adopted) message.
    pub open spec fn continues(self, f: Seq<u8>) -> bool {
        &&& self.typ == frame_type(f)
        &&& self.length == frame_total(f)
        &&& self.current + 1 == frame_index(f)
        &&& f[FRAME_LEN - 1] == END_MARKER
    }

    /// Outcome and next state of offering frame `f`.
    pub open spec fn push(self, f: Seq<u8>) -> (Result<(), MessageError>, MessageState) {
        if f.len() != FRAME_LEN {
            (Err(MessageError::MalformedFrame), self)
        } else {
            let a = self.adopt(f);
            if a.current >= a.length {
                (Err(MessageError::AlreadyComplete), a)
            } else if !a.continues(f) {
                (Err(MessageError::SequenceError), a)
            } else if !valid_utf8(frame_payload(f)) {
                (Err(MessageError::EncodingError), a)
            } else {
                (
                    Ok(()),
                    MessageState {
                        data: a.data + decode_utf8(frame_payload(f)),
                        current: (a.current + 1) as u8,
                        ..a
                    },
                )
            }
        }
    }
}

/// Frame `f` is fragment `index` of `total` of a well-formed message of type `typ`.
pub open spec fn is_fragment(f: Seq<u8>, typ: u8, total: u8, index: u8) -> bool {
    &&& f.len() == FRAME_LEN
    &&& frame_type(f) == typ
    &&& frame_total(f) == total
    &&& frame_index(f) == index
    &&& f[6] <= PAYLOAD_SLOT
    &&& f[FRAME_LEN - 1] == END_MARKER
    &&& valid_utf8(frame_payload(f))
}

/// The state after offering `frames` one by one, starting from `m`.
pub open spec fn push_all(m: MessageState, frames: Seq<Seq<u8>>) -> MessageState
    decreases frames.len(),
{
    if frames.len() == 0 {
        m
    } else {
        push_all(m, frames.drop_last()).push(frames.last()).1
    }
}

/// The texts of the payloads of `frames`, joined in order.
pub open spec fn joined_payloads(frames: Seq<Seq<u8>>) -> Seq<char>
    decreases frames.len(),
{
    if frames.len() == 0 {
        Seq::empty()
    } else {
        joined_payloads(frames.drop_last()) + decode_utf8(frame_payload(frames.last()))
    }
}

/// The fragments of one `frames.len()`-fragment message of type `typ`, in order.
pub open spec fn is_fragment_run(frames: Seq<Seq<u8>>, typ: u8) -> bool {
    &&& typ != 0
    &&& 1 <= frames.len() <= 15
    &&& forall|i: int|
        0 <= i < frames.len() ==> is_fragment(
            #[trigger] frames[i],
            typ,
            frames.len() as u8,
            (i + 1) as u8,
        )
}

/// A one-fragment message pushed into a fresh accumulator is accepted,
/// completes it, and finishing yields its type and its payload text unchanged.
pub proof fn lemma_single_fragment(f: Seq<u8>)
    requires
        is_fragment(f, frame_type(f), 1, 1),
        frame_type(f) != 0,
    ensures
        MessageState::empty().push(f).0 is Ok,
        MessageState::empty().push(f).1.is_complete(),
        MessageState::empty().push(f).1.typ == frame_type(f),
        MessageState::empty().push(f).1.data == decode_utf8(frame_payload(f)),
{
    assert(Seq::<char>::empty() + decode_utf8(frame_payload(f)) =~= decode_utf8(frame_payload(f)));
}

proof fn lemma_fragment_prefix(frames: Seq<Seq<u8>>, typ: u8, k: int)
    requires
        is_fragment_run(frames, typ),
        0 <= k <= frames.len(),
    ensures
        push_all(MessageState::empty(), frames.take(k)) == (MessageState {
            data: joined_payloads(frames.take(k)),
            typ: if k == 0 { 0 } else { typ },
            length: if k == 0 { 0 } else { frames.len() as u8 },
            current: k as u8,
        }),
        k < frames.len() ==> push_all(MessageState::empty(), frames.take(k)).push(frames[k]).0 is Ok,
    decreases k,
{
    let n = frames.len();
    if k > 0 {
        lemma_fragment_prefix(frames, typ, k - 1);
        assert(frames.take(k).drop_last() =~= frames.take(k - 1));
        assert(frames.take(k).last() == frames[k - 1]);
        assert(is_fragment(frames[k - 1], typ, n as u8, k as u8));
        if k == 1 {
            assert(Seq::<char>::empty() + decode_utf8(frame_payload(frames[0])) =~= decode_utf8(
                frame_payload(frames[0]),
            ));
            assert(joined_payloads(frames.take(0)) == Seq::<char>::empty());
        }
    } else {
        assert(frames.take(0) =~= Seq::<Seq<u8>>::empty());
    }
    if k < n {
        assert(is_fragment(frames[k], typ, n as u8, (k + 1) as u8));
    }
}

/// Pushing the fragments of an `n`-fragment message in order accepts every
/// one, joins their payload texts in order, and completes the message after
/// the `n`-th push and not before.
pub proof fn lemma_fragment_run(frames: Seq<Seq<u8>>, typ: u8)
    requires
        is_fragment_run(frames, typ),
    ensures
        forall|k: int|
            0 <= k < frames.len() ==> (#[trigger] push_all(MessageState::empty(), frames.take(k))).push(
                frames[k],
            ).0 is Ok,
        forall|k: int|
            0 <= k <= frames.len() ==> (#[trigger] push_all(MessageState::empty(), frames.take(k))).is_complete()
                == (k == frames.len()),
        push_all(MessageState::empty(), frames).is_complete(),
        push_all(MessageState::empty(), frames).typ == typ,
        push_all(MessageState::empty(), frames).data == joined_payloads(frames),
{
    assert forall|k: int| 0 <= k <= frames.len() implies {
        &&& (k < frames.len() ==> (#[trigger] push_all(MessageState::empty(), frames.take(k))).push(frames[k]).0 is Ok)
        &&& push_all(MessageState::empty(), frames.take(k)).is_complete() == (k == frames.len())
    } by {
        lemma_fragment_prefix(frames, typ, k);
    }
    lemma_fragment_prefix(frames, typ, frames.len() as int);
    assert(frames.take(frames.len() as int) =~= frames);
}

/// A frame whose index is not the next expected one is never accepted and
/// leaves the text untouched; while the message is still filling, it is a
/// sequencing error.
pub proof fn lemma_out_of_order(m: MessageState, f: Seq<u8>)
    requires
        f.len() == FRAME_LEN,
        frame_index(f) != m.current + 1,
    ensures
        m.push(f).0 is Err,
        m.push(f).1.data == m.data,
        m.adopt(f).current < m.adopt(f).length ==> m.push(f).0 == Err::<(), MessageError>(
            MessageError::SequenceError,
        ),
{
}

/// Once the type of a message is known, a push keeps its type and declared
/// fragment count, counts an accepted fragment by exactly one, counts nothing
/// otherwise, and never counts past the declared number.
pub proof fn lemma_push_invariant(m: MessageState, f: Seq<u8>)
    requires
        m.typ != 0,
        m.current <= m.length,
    ensures
        m.push(f).1.typ == m.typ,
        m.push(f).1.length == m.length,
        m.push(f).1.current <= m.push(f).1.length,
        m.push(f).1.current == if m.push(f).0 is Ok {
            m.current + 1
        } else {
            m.current as int
        },
{
}

/// A message being assembled from its fragments.
pub struct Message {
    data: String,
    typ: u8,
    length: u8,
    current: u8,
}

impl View for Message {
    type V = MessageState;

    closed spec fn view(&self) -> MessageState {
        MessageState { data: self.data@, typ: self.typ, length: self.length, current: self.current }
    }
}

impl Default for Message {
    fn default() -> (m: Message)
        ensures
            m@ == MessageState::empty(),
    {
        Message::new()
    }
}

impl Message {
    /// An empty accumulator, waiting for the first fragment.
    pub fn new() -> (m: Message)
        ensures
            m@ == MessageState::empty(),
    {
        Message { data: String::new(), typ: 0, length: 0, current: 0 }
    }

    /// Whether every declared fragment has arrived.
    pub fn complete(&self) -> (r: bool)
        ensures
            r == self@.is_complete(),
    {
        self.typ != 0 && self.current == self.length
    }

    /// Hands out the message type and the assembled text.
    pub fn finish(self) -> (r: (u8, String))
        requires
            self@.is_complete(),
        ensures
            r.0 == self@.typ,
            r.1@ == self@.data,
    {
        (self.typ, self.data)
    }

    /// Offers one frame to the message.
    pub fn push(&mut self, buf: &[u8]) -> (r: Result<(), MessageError>)
        requires
            buf@.len() == FRAME_LEN ==> buf@[6] <= PAYLOAD_SLOT,
        ensures
            (r, final(self)@) == old(self)@.push(buf@),
            buf@.len() != FRAME_LEN ==> r == Err::<(), MessageError>(MessageError::MalformedFrame)
                && final(self)@ == old(self)@,
            r is Err ==> final(self)@.data == old(self)@.data,
    {
        if buf.len() != FRAME_LEN {
            return Err(MessageError::MalformedFrame);
        }
        let msg_type = buf[0];
        let msg_length = buf[5] / 16;
        let msg_index = buf[5] % 16;
        let payload_length = buf[6] as usize;
        let end = buf[FRAME_LEN - 1];
        if self.typ == 0 {
            self.typ = msg_type;
            self.length = msg_length;
        }
        if self.current >= self.length {
            Err(MessageError::AlreadyComplete)
        } else if self.typ != msg_type || self.length != msg_length || self.current + 1 != msg_index
            || end != END_MARKER {
            Err(MessageError::SequenceError)
        } else {
            let payload = slice_subrange(buf, PAYLOAD_START, PAYLOAD_START + payload_length);
            match utf8_str(payload) {
                None => Err(MessageError::EncodingError),
                Some(text) => {
                    self.data.append(text);
                    self.current = self.current + 1;
                    Ok(())
                },
            }
        }
    }
}

} // verus!
