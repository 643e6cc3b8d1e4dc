//! The decisions of the reading loop: what to do with each frame that the
//! device hands over. Reading the device and sending lines is left to the
//! caller, which performs the returned outcome.
use vstd::prelude::*;

use crate::codec::{idb, line, split_spaces, token_fields};
use crate::frame::{Message, MessageError, MessageState};

verus! {

/// Type byte of a human-readable message in SI units.
pub const READINGS_TYPE: u8 = 0xfe;

/// What the caller has to do after a frame.
#[derive(Debug)]
pub enum Outcome {
    /// The transport is broken: stop.
    Fatal,
    /// The frame did not fit the message; it was discarded and assembly
    /// starts over with the next frame.
    Resync(MessageError),
    /// The frame was taken; the message is not complete yet.
    Pending,
    /// A reading was completed: publish this telemetry line.
    Line(String),
    /// A reading was completed and dropped to keep the publishing rate.
    Throttled,
    /// A message of another type was completed; its text is handed back.
    Unknown(u8, String),
}

/// The abstract form of an outcome.
pub enum OutcomeView {
    Fatal,
    Resync(MessageError),
    Pending,
    Line(Seq<char>),
    Throttled,
    Unknown(u8, Seq<char>),
}

impl View for Outcome {
    type V = OutcomeView;

    open spec fn view(&self) -> OutcomeView {
        match self {
            Outcome::Fatal => OutcomeView::Fatal,
            Outcome::Resync(e) => OutcomeView::Resync(*e),
            Outcome::Pending => OutcomeView::Pending,
            Outcome::Line(s) => OutcomeView::Line(s@),
            Outcome::Throttled => OutcomeView::Throttled,
            Outcome::Unknown(t, s) => OutcomeView::Unknown(*t, s@),
        }
    }
}

/// The abstract state of the reading loop.
pub struct StationState {
    pub msg: MessageState,
    pub countdown: u64,
    pub every: u64,
    pub name: Seq<char>,
}

impl StationState {
    /// Outcome and next state after frame `f`: a malformed frame stops the
    /// loop, any other rejected frame restarts assembly, and a completed
    /// message is handed out and assembly restarts. Of the readings, one is
    /// published and the next `every` are dropped.
    pub open spec fn step(self, f: Seq<u8>) -> (OutcomeView, StationState) {
        let (res, m) = self.msg.push(f);
        match res {
            Err(MessageError::MalformedFrame) => (OutcomeView::Fatal, self),
            Err(e) => (OutcomeView::Resync(e), StationState { msg: MessageState::empty(), ..self }),
            Ok(()) => if !m.is_complete() {
                (OutcomeView::Pending, StationState { msg: m, ..self })
            } else if m.typ != READINGS_TYPE {
                (
                    OutcomeView::Unknown(m.typ, m.data),
                    StationState { msg: MessageState::empty(), ..self },
                )
            } else if self.countdown > 0 {
                (
                    OutcomeView::Throttled,
                    StationState {
                        msg: MessageState::empty(),
                        countdown: (self.countdown - 1) as u64,
                        ..self
                    },
                )
            } else {
                (
                    OutcomeView::Line(line(self.name, token_fields(split_spaces(m.data)))),
                    StationState { msg: MessageState::empty(), countdown: self.every, ..self },
                )
            },
        }
    }
}

/// The reading loop's state: the message being assembled and the
/// publishing rate.
pub struct Station {
    msg: Message,
    countdown: u64,
    every: u64,
    name: String,
}

impl View for Station {
    type V = StationState;

    closed spec fn view(&self) -> StationState {
        StationState {
            msg: self.msg@,
            countdown: self.countdown,
            every: self.every,
            name: self.name@,
        }
    }
}

impl Station {
    /// A loop for station `name` that publishes one reading, then drops
    /// the next `every`.
    pub fn new(name: &str, every: u64) -> (s: Station)
        ensures
            s@ == (StationState { msg: MessageState::empty(), countdown: 0, every, name: name@ }),
    {
        Station { msg: Message::new(), countdown: 0, every, name: name.to_owned() }
    }

    /// Decides what to do with frame `buf`.
    pub fn on_frame(&mut self, buf: &[u8]) -> (o: Outcome)
        requires
            buf@.len() == crate::frame::FRAME_LEN ==> buf@[6] <= crate::frame::PAYLOAD_SLOT,
        ensures
            (o@, final(self)@) == old(self)@.step(buf@),
    {
        match self.msg.push(buf) {
            Err(MessageError::MalformedFrame) => return Outcome::Fatal,
            Err(e) => {
                self.msg = Message::new();
                return Outcome::Resync(e);
            },
            Ok(()) => {},
        }
        if !self.msg.complete() {
            return Outcome::Pending;
        }
        let mut done = Message::new();
        std::mem::swap(&mut done, &mut self.msg);
        let (typ, body) = done.finish();
        if typ != READINGS_TYPE {
            Outcome::Unknown(typ, body)
        } else if self.countdown > 0 {
            self.countdown = self.countdown - 1;
            Outcome::Throttled
        } else {
            self.countdown = self.every;
            Outcome::Line(idb(body.as_str(), self.name.as_str()))
        }
    }
}

} // verus!
