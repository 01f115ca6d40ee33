//! The per-connection session state machine.
//!
//! A connection starts with no role. It may request heartbeats once, and
//! it takes a role with its first `IAmCamera` or `IAmDispatcher` message;
//! the role never changes afterwards. A camera may then submit `Plate`
//! observations; a dispatcher only receives. Any other message is a
//! protocol error, after which the connection is closed.
//!
//! The client works on plain buffers: bytes received from the peer are
//! fed in, and bytes owed to the peer accumulate in an output buffer.
//! Time is a millisecond count supplied by the caller.

use crate::codec;
use crate::codec::{dec_incoming, Decoded};
use crate::msg::{IAmCamera, IAmDispatcher, IncomingMessage, IncomingV, WantHeartbeat};
use core::marker::PhantomData;
use vstd::prelude::*;

verus! {

/// The role of a session that has not yet registered.
#[derive(Clone, Copy, Debug, PartialEq, Eq)]
pub struct Common;

/// The role of a session registered as a camera.
#[derive(Clone, Copy, Debug, PartialEq, Eq)]
pub struct Camera;

/// The role of a session registered as a ticket dispatcher.
#[derive(Clone, Copy, Debug, PartialEq, Eq)]
pub struct Dispatcher;

/// A protocol failure that ends a session.
#[derive(Clone, Copy, Debug, PartialEq, Eq)]
pub enum SessionError {
    /// The peer sent a message its role does not allow, or an unknown one.
    UnrecognizedMessage,
    /// The peer requested heartbeats a second time.
    HeartbeatAlreadyRequested,
    /// The peer sent bytes the codec rejects.
    Codec(codec::Error),
}

impl SessionError {
    /// A short ASCII description, fit for an `Error` message body.
    pub fn message(&self) -> (r: &'static str)
        ensures
            self is UnrecognizedMessage ==> r@ == "unrecognized message"@,
            self is HeartbeatAlreadyRequested ==> r@ == "heartbeat already requested"@,
    {
        match self {
            SessionError::UnrecognizedMessage => "unrecognized message",
            SessionError::HeartbeatAlreadyRequested => "heartbeat already requested",
            SessionError::Codec(e) => e.message(),
        }
    }
}

/// The mathematical state of a client: its input buffer and read cursor,
/// its pending output bytes, and its heartbeat request, if any, as an
/// interval in deciseconds with the next deadline in milliseconds.
pub struct ClientV {
    pub input: Seq<u8>,
    pub pos: int,
    pub output: Seq<u8>,
    pub heartbeat: Option<(u32, u64)>,
}

impl ClientV {
    /// The cursor never passes the end of the input.
    pub open spec fn wf(&self) -> bool {
        0 <= self.pos <= self.input.len()
    }

    /// The bytes not yet consumed.
    pub open spec fn remaining(&self) -> Seq<u8> {
        self.input.skip(self.pos)
    }
}

/// The deadline that follows `next`: the smallest value above `now` that
/// is `next` plus a whole number of periods.
pub open spec fn hb_next(next: int, period: int, now: int) -> int {
    next + period * ((now - next) / period + 1)
}

/// Heartbeat cadence: a due deadline advances to the first moment
/// after `now` that lies a whole number of periods from the original
/// deadline, so deadlines stay on the requested grid, at most one
/// period apart, and a lagging session never emits make-up beats.
pub proof fn lemma_heartbeat_cadence(next: int, period: int, now: int)
    requires
        0 < period,
        0 <= next <= now,
    ensures
        hb_next(next, period, now) > now,
        hb_next(next, period, now) <= now + period,
        (hb_next(next, period, now) - next) % period == 0,
{
    let k = (now - next) / period + 1;
    vstd::arithmetic::div_mod::lemma_fundamental_div_mod(now - next, period);
    vstd::arithmetic::div_mod::lemma_mod_bound(now - next, period);
    assert(period * ((now - next) / period) == (now - next) - (now - next) % period);
    assert(period * ((now - next) / period + 1) == period * ((now - next) / period) + period)
        by (nonlinear_arith);
    vstd::arithmetic::div_mod::lemma_mod_multiples_basic(k, period);
}

/// The heartbeat transition at time `now`: if a heartbeat is due, one
/// `Heartbeat` byte is appended and the deadline advances past `now` by
/// whole periods; otherwise nothing changes.
pub open spec fn spec_send_heartbeat(c: ClientV, now: u64) -> ClientV {
    match c.heartbeat {
        Option::None => c,
        Option::Some((interval, next)) => if interval > 0 && next <= now {
            ClientV {
                output: c.output + codec::enc_heartbeat(),
                heartbeat: Option::Some(
                    (interval, hb_next(next as int, 100 * interval as int, now as int) as u64),
                ),
                ..c
            }
        } else {
            c
        },
    }
}

/// Which identifier bytes a role accepts.
pub open spec fn common_tag(t: u8) -> bool {
    t == 0x40 || t == 0x80 || t == 0x81
}

/// Which identifier bytes a camera accepts.
pub open spec fn camera_tag(t: u8) -> bool {
    t == 0x20 || t == 0x40
}

/// Which identifier bytes a dispatcher accepts.
pub open spec fn dispatcher_tag(t: u8) -> bool {
    t == 0x40
}

/// The outcome of reading one message: nothing complete yet, a message
/// with the cursor advanced past it, or a protocol failure.
pub enum ReadV {
    Pending,
    Msg(IncomingV, int),
    Fail(SessionError),
}

/// Reading one message from the front of `rem` under an allowed-tag set:
/// an empty or incomplete buffer is pending, a disallowed or unknown
/// identifier fails, a malformed body fails, and otherwise the decoded
/// message is returned with its length.
pub open spec fn spec_next_message(rem: Seq<u8>, allowed: spec_fn(u8) -> bool) -> ReadV {
    if rem.len() == 0 {
        ReadV::Pending
    } else if !allowed(rem[0]) {
        ReadV::Fail(SessionError::UnrecognizedMessage)
    } else {
        match dec_incoming(rem) {
            Decoded::Found(v, n) => ReadV::Msg(v, n),
            Decoded::Truncated => ReadV::Pending,
            Decoded::Malformed => ReadV::Fail(
                SessionError::Codec(codec::Error::ExpectedAsciiCharacter),
            ),
        }
    }
}

/// A per-connection client in role `Kind`.
#[derive(Debug)]
pub struct Client<Kind> {
    kind: PhantomData<Kind>,
    input: Vec<u8>,
    pos: usize,
    output: Vec<u8>,
    heartbeat: Option<(u32, u64)>,
}

impl<Kind> View for Client<Kind> {
    type V = ClientV;

    closed spec fn view(&self) -> ClientV {
        ClientV {
            input: self.input@,
            pos: self.pos as int,
            output: self.output@,
            heartbeat: self.heartbeat,
        }
    }
}

impl<Kind> Client<Kind> {
    /// The cursor never passes the end of the input.
    pub open spec fn wf(&self) -> bool {
        self@.wf()
    }

    /// Append bytes received from the peer to the input buffer.
    pub fn feed(&mut self, bytes: &[u8])
        requires
            old(self).wf(),
        ensures
            final(self).wf(),
            final(self)@ == (ClientV { input: old(self)@.input + bytes@, ..old(self)@ }),
    {
        let mut i: usize = 0;
        while i < bytes.len()
            invariant
                i <= bytes@.len(),
                self.input@ == old(self).input@ + bytes@.take(i as int),
                self.pos == old(self).pos,
                self.output@ == old(self).output@,
                self.heartbeat == old(self).heartbeat,
                old(self).wf(),
            decreases bytes@.len() - i,
        {
            self.input.push(bytes[i]);
            proof {
                assert(self.input@ =~= old(self).input@ + bytes@.take(i + 1 as int));
            }
            i = i + 1;
        }
        proof {
            assert(bytes@.take(bytes@.len() as int) =~= bytes@);
        }
    }

    /// Whether consumed input is followed by unconsumed bytes; at end of
    /// stream such bytes mean a truncated message.
    pub fn has_pending_input(&self) -> (r: bool)
        requires
            self.wf(),
        ensures
            r <==> self@.remaining().len() > 0,
    {
        self.pos < self.input.len()
    }

    /// Take the bytes owed to the peer, leaving the output buffer empty.
    pub fn take_output(&mut self) -> (r: Vec<u8>)
        ensures
            r@ == old(self)@.output,
            final(self)@ == (ClientV { output: Seq::<u8>::empty(), ..old(self)@ }),
    {
        let mut out: Vec<u8> = Vec::new();
        core::mem::swap(&mut out, &mut self.output);
        out
    }

    /// Read and consume the identifier byte of the next message, or
    /// nothing when no byte is buffered yet.
    pub fn read_id(&mut self) -> (r: Option<u8>)
        requires
            old(self).wf(),
        ensures
            final(self).wf(),
            old(self)@.remaining().len() == 0 ==> r is None && final(self)@ == old(self)@,
            old(self)@.remaining().len() > 0 ==> r == Option::Some(old(self)@.remaining()[0])
                && final(self)@ == (ClientV { pos: old(self)@.pos + 1, ..old(self)@ }),
    {
        if self.pos < self.input.len() {
            let b = self.input[self.pos];
            self.pos = self.pos + 1;
            Some(b)
        } else {
            None
        }
    }

    /// Record a heartbeat request: at most one is allowed per session,
    /// and the first deadline is immediate.
    pub fn want_heartbeat(&mut self, heartbeat: WantHeartbeat, now: u64) -> (r: Result<
        (),
        SessionError,
    >)
        requires
            old(self).wf(),
        ensures
            final(self).wf(),
            old(self)@.heartbeat is Some ==> r == Result::<(), SessionError>::Err(
                SessionError::HeartbeatAlreadyRequested,
            ) && final(self)@ == old(self)@,
            old(self)@.heartbeat is None ==> r == Result::<(), SessionError>::Ok(()) && final(self)@ == (ClientV {
                heartbeat: Option::Some((heartbeat.interval.0, now)),
                ..old(self)@
            }),
    {
        if self.heartbeat.is_some() {
            return Err(SessionError::HeartbeatAlreadyRequested);
        }
        self.heartbeat = Some((heartbeat.interval.0, now));
        Ok(())
    }

    /// Emit a heartbeat if one is due at `now`, and advance the deadline
    /// past `now` by whole periods, so a lagging session never emits
    /// duplicates for missed intervals.
    pub fn send_heartbeat(&mut self, now: u64)
        requires
            old(self).wf(),
            old(self)@.heartbeat matches Option::Some((i, _)) ==> now + 100 * i <= u64::MAX,
        ensures
            final(self).wf(),
            final(self)@ == spec_send_heartbeat(old(self)@, now),
    {
        let (interval, next) = match self.heartbeat {
            None => {
                return ;
            },
            Some(p) => p,
        };
        if interval == 0 || next > now {
            return ;
        }
        self.output.push(0x41);
        let period: u64 = (interval as u64) * 100;
        let diff: u64 = now - next;
        let k: u64 = diff / period + 1;
        proof {
            vstd::arithmetic::div_mod::lemma_fundamental_div_mod(diff as int, period as int);
            vstd::arithmetic::div_mod::lemma_mod_bound(diff as int, period as int);
            assert((diff as int / period as int + 1) * period as int == period as int * (
            diff as int / period as int) + period as int) by (nonlinear_arith);
        }
        let step: u64 = k * period;
        let next2: u64 = next + step;
        self.heartbeat = Some((interval, next2));
        proof {
            assert(self@.output =~= old(self)@.output + codec::enc_heartbeat());
        }
    }
}

/// A client together with the registration that gave it its role.
pub enum CameraOrDispatcher {
    Camera(Client<Camera>, IAmCamera),
    Dispatcher(Client<Dispatcher>, IAmDispatcher),
}

/// The outcome of one step of an unregistered session: the same role,
/// or a newly specialized one.
pub enum SameOrSpecial {
    Same(Client<Common>),
    Special(CameraOrDispatcher),
}

impl Client<Common> {
    /// A fresh session over `input`, with no role, no heartbeat request,
    /// and nothing owed to the peer.
    pub fn new(input: Vec<u8>) -> (r: Client<Common>)
        ensures
            r.wf(),
            r@ == (ClientV {
                input: input@,
                pos: 0,
                output: Seq::<u8>::empty(),
                heartbeat: Option::None,
            }),
    {
        Client {
            kind: PhantomData,
            input,
            pos: 0,
            output: Vec::new(),
            heartbeat: None,
        }
    }

    /// Read the next message an unregistered session accepts:
    /// `WantHeartbeat`, `IAmCamera` or `IAmDispatcher`.
    pub fn next_message(&mut self) -> (r: Result<Option<IncomingMessage>, SessionError>)
        requires
            old(self).wf(),
        ensures
            final(self).wf(),
            match spec_next_message(old(self)@.remaining(), |t: u8| common_tag(t)) {
                ReadV::Pending => r == Result::<Option<IncomingMessage>, SessionError>::Ok(
                    Option::None,
                ) && final(self)@ == old(self)@,
                ReadV::Msg(v, n) => r matches Result::Ok(Option::Some(m)) && m@ == v
                    && codec::incoming_ok(v) && !(v is Plate) && final(self)@ == (ClientV {
                    pos: old(self)@.pos + n,
                    ..old(self)@
                }),
                ReadV::Fail(e) => r == Result::<Option<IncomingMessage>, SessionError>::Err(e)
                    && final(self)@ == old(self)@,
            },
    {
        if self.pos == self.input.len() {
            return Ok(None);
        }
        let tag = self.input[self.pos];
        if !(tag == 0x40 || tag == 0x80 || tag == 0x81) {
            return Err(SessionError::UnrecognizedMessage);
        }
        let slice = self.input.as_slice();
        let sub = &slice[self.pos..slice.len()];
        proof {
            assert(sub@ =~= old(self)@.remaining());
        }
        let mut de = codec::Deserializer::from_bytes(sub);
        proof {
            assert(de.remaining() =~= old(self)@.remaining());
        }
        match de.read_incoming() {
            Ok(m) => {
                let k = de.consumed();
                self.pos = self.pos + k;
                Ok(Some(m))
            },
            Err(codec::Error::Eof) => Ok(None),
            Err(e) => Err(SessionError::Codec(e)),
        }
    }

    /// Commit this session to the camera role.
    pub fn into_camera(self) -> (r: Client<Camera>)
        ensures
            r@ == self@,
    {
        Client {
            kind: PhantomData,
            input: self.input,
            pos: self.pos,
            output: self.output,
            heartbeat: self.heartbeat,
        }
    }

    /// Commit this session to the dispatcher role.
    pub fn into_dispatcher(self) -> (r: Client<Dispatcher>)
        ensures
            r@ == self@,
    {
        Client {
            kind: PhantomData,
            input: self.input,
            pos: self.pos,
            output: self.output,
            heartbeat: self.heartbeat,
        }
    }
}

/// The outcome of one `run_once` step, at the level of views.
pub enum StepV {
    Same(ClientV),
    Camera(ClientV, IAmCamera),
    Dispatcher(ClientV, Seq<u16>),
    Fail(SessionError),
}

/// One step of an unregistered session at time `now`: emit any due
/// heartbeat, then read one message and act on it. A second heartbeat
/// request and a disallowed or malformed message fail; a registration
/// ends the unregistered state.
pub open spec fn spec_run_once(c: ClientV, now: u64) -> StepV {
    let c1 = spec_send_heartbeat(c, now);
    match spec_next_message(c1.remaining(), |t: u8| common_tag(t)) {
        ReadV::Pending => StepV::Same(c1),
        ReadV::Msg(v, n) => {
            let c2 = ClientV { pos: c1.pos + n, ..c1 };
            match v {
                IncomingV::WantHeartbeat(interval) => if c1.heartbeat is Some {
                    StepV::Fail(SessionError::HeartbeatAlreadyRequested)
                } else {
                    StepV::Same(ClientV { heartbeat: Option::Some((interval, now)), ..c2 })
                },
                IncomingV::IAmCamera(cam) => StepV::Camera(c2, cam),
                IncomingV::IAmDispatcher(roads) => StepV::Dispatcher(c2, roads),
                IncomingV::Plate(_) => StepV::Fail(SessionError::UnrecognizedMessage),
            }
        },
        ReadV::Fail(e) => StepV::Fail(e),
    }
}

/// The outcome of running an unregistered session until it specializes:
/// still waiting for input, a registration, or a protocol failure.
pub enum RunV {
    Pending(ClientV),
    Camera(ClientV, IAmCamera),
    Dispatcher(ClientV, Seq<u16>),
    Fail(SessionError),
}

/// Run `spec_run_once` until the buffered input is exhausted, a
/// registration arrives, or the session fails.
pub open spec fn spec_run(c: ClientV, now: u64) -> RunV
    decreases c.input.len() - c.pos,
{
    if !c.wf() {
        RunV::Pending(c)
    } else {
        match spec_run_once(c, now) {
            StepV::Same(c2) => if c2.pos > c.pos && c2.wf() && c2.input == c.input {
                spec_run(c2, now)
            } else {
                RunV::Pending(c2)
            },
            StepV::Camera(cv, cam) => RunV::Camera(cv, cam),
            StepV::Dispatcher(cv, roads) => RunV::Dispatcher(cv, roads),
            StepV::Fail(e) => RunV::Fail(e),
        }
    }
}

impl<Kind> Client<Kind> {
    /// The read cursor's position in the input buffer.
    pub fn position(&self) -> (r: usize)
        ensures
            r == self@.pos,
    {
        self.pos
    }
}

impl Client<Common> {
    /// Perform one step: emit any due heartbeat, then read one message
    /// and act on it as `spec_run_once` describes.
    pub fn run_once(self, now: u64) -> (r: Result<SameOrSpecial, SessionError>)
        requires
            self.wf(),
            self@.heartbeat matches Option::Some((i, _)) ==> now + 100 * i <= u64::MAX,
        ensures
            match spec_run_once(self@, now) {
                StepV::Same(cv) => r matches Result::Ok(SameOrSpecial::Same(c)) && c@ == cv
                    && c.wf(),
                StepV::Camera(cv, cam) => r matches Result::Ok(
                    SameOrSpecial::Special(CameraOrDispatcher::Camera(c, m)),
                ) && c@ == cv && c.wf() && m == cam,
                StepV::Dispatcher(cv, roads) => r matches Result::Ok(
                    SameOrSpecial::Special(CameraOrDispatcher::Dispatcher(c, m)),
                ) && c@ == cv && c.wf() && m.roads@ == roads,
                StepV::Fail(e) => r == Result::<SameOrSpecial, SessionError>::Err(e),
            },
    {
        let mut this = self;
        this.send_heartbeat(now);
        let msg = match this.next_message() {
            Ok(m) => m,
            Err(e) => {
                return Err(e);
            },
        };
        match msg {
            None => Ok(SameOrSpecial::Same(this)),
            Some(IncomingMessage::WantHeartbeat(w)) => {
                match this.want_heartbeat(w, now) {
                    Ok(()) => Ok(SameOrSpecial::Same(this)),
                    Err(e) => Err(e),
                }
            },
            Some(IncomingMessage::IAmCamera(cam)) => Ok(
                SameOrSpecial::Special(CameraOrDispatcher::Camera(this.into_camera(), cam)),
            ),
            Some(IncomingMessage::IAmDispatcher(d)) => Ok(
                SameOrSpecial::Special(CameraOrDispatcher::Dispatcher(this.into_dispatcher(), d)),
            ),
            Some(IncomingMessage::Plate(_)) => {
                proof {
                    assert(false);
                }
                Err(SessionError::UnrecognizedMessage)
            },
        }
    }

    /// Run steps until the buffered input runs out or the session takes
    /// a role, as `spec_run` describes.
    pub fn run_until_specialized(self, now: u64) -> (r: Result<SameOrSpecial, SessionError>)
        requires
            self.wf(),
            now + 100 * (u32::MAX as int) <= u64::MAX,
        ensures
            match spec_run(self@, now) {
                RunV::Pending(cv) => r matches Result::Ok(SameOrSpecial::Same(c)) && c@ == cv
                    && c.wf(),
                RunV::Camera(cv, cam) => r matches Result::Ok(
                    SameOrSpecial::Special(CameraOrDispatcher::Camera(c, m)),
                ) && c@ == cv && c.wf() && m == cam,
                RunV::Dispatcher(cv, roads) => r matches Result::Ok(
                    SameOrSpecial::Special(CameraOrDispatcher::Dispatcher(c, m)),
                ) && c@ == cv && c.wf() && m.roads@ == roads,
                RunV::Fail(e) => r == Result::<SameOrSpecial, SessionError>::Err(e),
            },
    {
        let ghost orig = self@;
        let mut cur = self;
        loop
            invariant
                cur.wf(),
                now + 100 * (u32::MAX as int) <= u64::MAX,
                orig == self@,
                spec_run(cur@, now) == spec_run(orig, now),
            decreases cur@.input.len() - cur@.pos,
        {
            let p0 = cur.position();
            let ghost prev = cur@;
            match cur.run_once(now) {
                Err(e) => {
                    return Err(e);
                },
                Ok(SameOrSpecial::Special(s)) => {
                    return Ok(SameOrSpecial::Special(s));
                },
                Ok(SameOrSpecial::Same(c)) => {
                    let p1 = c.position();
                    if p1 > p0 {
                        proof {
                            assert(c@.input == prev.input);
                        }
                        cur = c;
                    } else {
                        return Ok(SameOrSpecial::Same(c));
                    }
                },
            }
        }
    }
}

impl Client<Camera> {
    /// Read the next message a camera accepts: `Plate` or `WantHeartbeat`.
    pub fn next_message(&mut self) -> (r: Result<Option<IncomingMessage>, SessionError>)
        requires
            old(self).wf(),
        ensures
            final(self).wf(),
            match spec_next_message(old(self)@.remaining(), |t: u8| camera_tag(t)) {
                ReadV::Pending => r == Result::<Option<IncomingMessage>, SessionError>::Ok(
                    Option::None,
                ) && final(self)@ == old(self)@,
                ReadV::Msg(v, n) => r matches Result::Ok(Option::Some(m)) && m@ == v
                    && codec::incoming_ok(v) && (v is Plate || v is WantHeartbeat) && final(self)@ == (ClientV { pos: old(self)@.pos + n, ..old(self)@ }),
                ReadV::Fail(e) => r == Result::<Option<IncomingMessage>, SessionError>::Err(e)
                    && final(self)@ == old(self)@,
            },
    {
        if self.pos == self.input.len() {
            return Ok(None);
        }
        let tag = self.input[self.pos];
        if !(tag == 0x20 || tag == 0x40) {
            return Err(SessionError::UnrecognizedMessage);
        }
        let slice = self.input.as_slice();
        let sub = &slice[self.pos..slice.len()];
        proof {
            assert(sub@ =~= old(self)@.remaining());
        }
        let mut de = codec::Deserializer::from_bytes(sub);
        proof {
            assert(de.remaining() =~= old(self)@.remaining());
        }
        match de.read_incoming() {
            Ok(m) => {
                let k = de.consumed();
                self.pos = self.pos + k;
                Ok(Some(m))
            },
            Err(codec::Error::Eof) => Ok(None),
            Err(e) => Err(SessionError::Codec(e)),
        }
    }
}

impl Client<Dispatcher> {
    /// Read the next message a dispatcher accepts: only `WantHeartbeat`.
    pub fn next_message(&mut self) -> (r: Result<Option<IncomingMessage>, SessionError>)
        requires
            old(self).wf(),
        ensures
            final(self).wf(),
            match spec_next_message(old(self)@.remaining(), |t: u8| dispatcher_tag(t)) {
                ReadV::Pending => r == Result::<Option<IncomingMessage>, SessionError>::Ok(
                    Option::None,
                ) && final(self)@ == old(self)@,
                ReadV::Msg(v, n) => r matches Result::Ok(Option::Some(m)) && m@ == v
                    && codec::incoming_ok(v) && v is WantHeartbeat && final(self)@ == (ClientV {
                    pos: old(self)@.pos + n,
                    ..old(self)@
                }),
                ReadV::Fail(e) => r == Result::<Option<IncomingMessage>, SessionError>::Err(e)
                    && final(self)@ == old(self)@,
            },
    {
        if self.pos == self.input.len() {
            return Ok(None);
        }
        let tag = self.input[self.pos];
        if !(tag == 0x40) {
            return Err(SessionError::UnrecognizedMessage);
        }
        let slice = self.input.as_slice();
        let sub = &slice[self.pos..slice.len()];
        proof {
            assert(sub@ =~= old(self)@.remaining());
        }
        let mut de = codec::Deserializer::from_bytes(sub);
        proof {
            assert(de.remaining() =~= old(self)@.remaining());
        }
        match de.read_incoming() {
            Ok(m) => {
                let k = de.consumed();
                self.pos = self.pos + k;
                Ok(Some(m))
            },
            Err(codec::Error::Eof) => Ok(None),
            Err(e) => Err(SessionError::Codec(e)),
        }
    }
}

} // verus!
