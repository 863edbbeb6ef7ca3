//! What happens from packet to packet.
use crate::layout;
use crate::layout::{LayoutDetector, LayoutStats};
use crate::mapping;
use crate::mapping::{
    parsed_to_dolphin, DolphinState, StickCalibration, CALIBRATION_WINDOW_NS,
};
use crate::packet;
use crate::packet::{
    parse_gip_input_packet, ParseError, ParsedInput, HEADER_LEN, INPUT_COMMAND, INPUT_LEN,
};
use crate::pipe;
use crate::pipe::{emit_state_delta, StateDelta};
use crate::text;
use vstd::prelude::*;
use vstd::slice::slice_subrange;
use vstd::string::*;

verus! {

/// How many packets that cannot be read are shown.
pub const RAW_DUMP_PACKETS: usize = 10;

/// The times at which a packet arrives, in nanoseconds since watching for the layout
/// began, since learning the stick centres began, and since the analog values were last
/// sent.
#[derive(Clone, Copy, Debug)]
pub struct Times {
    pub layout_ns: u128,
    pub calibration_ns: u128,
    pub analog_ns: u128,
}

/// What the session knows.
pub struct SessionState {
    /// Where the input block stands in the payload, once that is known.
    pub offset: Option<usize>,
    pub stats: Seq<LayoutStats>,
    pub calibration: StickCalibration,
    /// The pad's state that was last handed out.
    pub pad: DolphinState,
    /// How many packets that cannot be read are still shown.
    pub dumps_left: usize,
}

/// What a packet leads to.
#[derive(Debug)]
pub enum Reaction {
    /// Not an input packet.
    Ignored,
    /// The packet cannot be read; it is to be shown where `dump` says so.
    Rejected { error: ParseError, dump: bool },
    /// The input is not passed on while the layout is not known.
    Held,
    /// Commands to be written.
    Emit { delta: StateDelta },
}

/// The outcome of a packet.
#[derive(Debug)]
pub struct Outcome {
    /// The offset, where this packet settled it.
    pub locked: Option<usize>,
    pub reaction: Reaction,
}

/// The bytes after the header.
pub open spec fn payload(pkt: Seq<u8>) -> Seq<u8> {
    pkt.skip(HEADER_LEN as int)
}

impl SessionState {
    /// Nothing known yet.
    pub open spec fn initial() -> SessionState {
        SessionState {
            offset: None,
            stats: Seq::empty(),
            calibration: StickCalibration::initial(),
            pad: DolphinState::initial(),
            dumps_left: RAW_DUMP_PACKETS,
        }
    }

    /// Every offset leaves room for a block below the end of the address space.
    pub open spec fn valid(self) -> bool {
        &&& self.stats.len() + INPUT_LEN <= usize::MAX + 1
        &&& self.offset matches Some(o) ==> o + INPUT_LEN <= usize::MAX
    }

    /// Whether the packet can be taken in: while the layout is watched, an input packet
    /// has a full header and the counters have room for it.
    pub open spec fn accepts(self, pkt: Seq<u8>) -> bool {
        packet::is_input_packet(pkt) && self.offset is None ==> pkt.len() >= HEADER_LEN
            && layout::room_for(self.stats, payload(pkt))
    }

    /// What is known of the offsets after the packet: settled offsets are no longer
    /// watched.
    pub open spec fn stats_after(self, pkt: Seq<u8>) -> Seq<LayoutStats> {
        if packet::is_input_packet(pkt) && self.offset is None {
            layout::all_after(self.stats, payload(pkt))
        } else {
            self.stats
        }
    }

    /// The offset after the packet.
    pub open spec fn offset_after(self, pkt: Seq<u8>, times: Times) -> Option<usize> {
        if packet::is_input_packet(pkt) && self.offset is None {
            layout::decision(self.stats_after(pkt), times.layout_ns)
        } else {
            self.offset
        }
    }

    /// What the packet holds: at offset 0 while the layout is not known.
    pub open spec fn parsed(self, pkt: Seq<u8>, times: Times) -> Result<ParsedInput, ParseError> {
        packet::parse_result(
            pkt,
            match self.offset_after(pkt, times) {
                Some(o) => o as int,
                None => 0,
            },
        )
    }

    /// The stick centres after the packet: learned from every input within the window.
    pub open spec fn calibration_after(self, pkt: Seq<u8>, times: Times) -> StickCalibration {
        match self.parsed(pkt, times) {
            Ok(p) => if times.calibration_ns <= CALIBRATION_WINDOW_NS {
                self.calibration.learned(p)
            } else {
                self.calibration
            },
            Err(_) => self.calibration,
        }
    }

    /// Whether the packet leads to commands.
    pub open spec fn emits(self, pkt: Seq<u8>, times: Times) -> bool {
        &&& packet::is_input_packet(pkt)
        &&& self.parsed(pkt, times) is Ok
        &&& self.offset_after(pkt, times) is Some
    }

    /// The pad's state that the packet stands for.
    pub open spec fn pad_now(self, pkt: Seq<u8>, times: Times) -> DolphinState {
        mapping::dolphin_state(self.parsed(pkt, times)->Ok_0, self.calibration_after(pkt, times))
    }

    /// Whether the packet is an input packet that cannot be read.
    pub open spec fn rejects(self, pkt: Seq<u8>, times: Times) -> bool {
        packet::is_input_packet(pkt) && self.parsed(pkt, times) is Err
    }

    /// Whether the packet is shown.
    pub open spec fn dumps(self, pkt: Seq<u8>, times: Times) -> bool {
        self.rejects(pkt, times) && self.dumps_left > 0
    }

    /// What the session knows after the packet.
    pub open spec fn after(self, pkt: Seq<u8>, times: Times) -> SessionState {
        SessionState {
            offset: self.offset_after(pkt, times),
            stats: self.stats_after(pkt),
            calibration: if packet::is_input_packet(pkt) {
                self.calibration_after(pkt, times)
            } else {
                self.calibration
            },
            pad: if self.emits(pkt, times) {
                self.pad_now(pkt, times)
            } else {
                self.pad
            },
            dumps_left: if self.dumps(pkt, times) {
                (self.dumps_left - 1) as usize
            } else {
                self.dumps_left
            },
        }
    }

    /// The commands that the packet leads to.
    pub open spec fn lines(self, pkt: Seq<u8>, times: Times) -> Seq<Seq<char>> {
        if self.emits(pkt, times) {
            pipe::delta_lines(self.pad, self.pad_now(pkt, times), times.analog_ns)
        } else {
            seq![]
        }
    }

    /// Whether `r` is the reaction to the packet.
    pub open spec fn reacts(self, pkt: Seq<u8>, times: Times, r: Reaction) -> bool {
        if !packet::is_input_packet(pkt) {
            r is Ignored
        } else if self.rejects(pkt, times) {
            r == (Reaction::Rejected {
                error: self.parsed(pkt, times)->Err_0,
                dump: self.dumps(pkt, times),
            })
        } else if self.emits(pkt, times) {
            &&& r is Emit
            &&& pipe::texts(r->delta.lines@) == self.lines(pkt, times)
            &&& r->delta.analog == pipe::analog_sent(
                self.pad,
                self.pad_now(pkt, times),
                times.analog_ns,
            )
        } else {
            r is Held
        }
    }
}

/// A run of the controller, from its first packet on.
#[derive(Debug)]
pub struct Session {
    offset: Option<usize>,
    detector: LayoutDetector,
    calibration: StickCalibration,
    pad: DolphinState,
    dumps_left: usize,
}

impl View for Session {
    type V = SessionState;

    closed spec fn view(&self) -> SessionState {
        SessionState {
            offset: self.offset,
            stats: self.detector@,
            calibration: self.calibration,
            pad: self.pad,
            dumps_left: self.dumps_left,
        }
    }
}

impl Session {
    /// A session without packets.
    pub fn new() -> (r: Session)
        ensures
            r@ == SessionState::initial(),
            r@.valid(),
    {
        Session {
            offset: None,
            detector: LayoutDetector::new(),
            calibration: StickCalibration::default(),
            pad: DolphinState::default(),
            dumps_left: RAW_DUMP_PACKETS,
        }
    }

    /// Whether the packet can be taken in.
    pub fn can_accept(&self, pkt: &[u8]) -> (r: bool)
        ensures
            r == self@.accepts(pkt@),
    {
        if pkt.len() == 0 || pkt[0] != INPUT_COMMAND || self.offset.is_some() {
            return true;
        }
        if pkt.len() < HEADER_LEN {
            return false;
        }
        let body: &[u8] = slice_subrange(pkt, HEADER_LEN, pkt.len());
        assert(body@ =~= payload(pkt@));
        self.detector.has_room_for(body)
    }

    /// Takes a packet in.
    pub fn step(&mut self, pkt: &[u8], times: Times) -> (r: Outcome)
        requires
            old(self)@.valid(),
            old(self)@.accepts(pkt@),
        ensures
            final(self)@.valid(),
            final(self)@ == old(self)@.after(pkt@, times),
            r.locked == if old(self)@.offset is None {
                old(self)@.offset_after(pkt@, times)
            } else {
                None
            },
            old(self)@.reacts(pkt@, times, r.reaction),
    {
        if pkt.len() == 0 || pkt[0] != INPUT_COMMAND {
            return Outcome { locked: None, reaction: Reaction::Ignored };
        }
        let mut locked: Option<usize> = None;
        if self.offset.is_none() {
            let body: &[u8] = slice_subrange(pkt, HEADER_LEN, pkt.len());
            assert(body@ =~= payload(pkt@));
            self.detector.observe(body);
            locked = self.detector.decide(times.layout_ns);
            self.offset = locked;
        }
        let off: usize = match self.offset {
            Some(o) => o,
            None => 0,
        };
        match parse_gip_input_packet(pkt, off) {
            Ok(parsed) => {
                if times.calibration_ns <= CALIBRATION_WINDOW_NS {
                    self.calibration.learn(parsed);
                }
                if self.offset.is_none() {
                    return Outcome { locked, reaction: Reaction::Held };
                }
                let now: DolphinState = parsed_to_dolphin(parsed, self.calibration);
                let delta: StateDelta = emit_state_delta(self.pad, now, times.analog_ns);
                self.pad = now;
                Outcome { locked, reaction: Reaction::Emit { delta } }
            },
            Err(error) => {
                let dump: bool = self.dumps_left > 0;
                if dump {
                    self.dumps_left = self.dumps_left - 1;
                }
                Outcome { locked, reaction: Reaction::Rejected { error, dump } }
            },
        }
    }
}

/// The two lines that show a packet that cannot be read.
pub open spec fn dump_text(error: ParseError, pkt: Seq<u8>) -> (Seq<char>, Seq<char>) {
    (
        "Parse error: "@ + error.text(),
        "Raw packet ("@ + text::decimal_text(pkt.len()) + " bytes): "@ + text::hex_text(pkt),
    )
}

/// The two lines that show a packet that cannot be read.
pub fn dump_lines(error: &ParseError, pkt: &[u8]) -> (r: (String, String))
    requires
        2 * pkt@.len() <= isize::MAX,
    ensures
        (r.0@, r.1@) == dump_text(*error, pkt@),
{
    let mut first: String = String::from_str("Parse error: ");
    first.append(error.message().as_str());
    let mut second: String = String::from_str("Raw packet (");
    text::push_decimal(&mut second, pkt.len());
    second.append(" bytes): ");
    second.append(text::hex_encode(pkt).as_str());
    (first, second)
}

/// A packet and the times at which it arrives.
pub struct Arrival {
    pub pkt: Seq<u8>,
    pub times: Times,
}

impl SessionState {
    /// What the session knows after a sequence of packets.
    pub open spec fn after_all(self, arrivals: Seq<Arrival>) -> SessionState
        decreases arrivals.len(),
    {
        if arrivals.len() == 0 {
            self
        } else {
            let last = arrivals.last();
            self.after_all(arrivals.drop_last()).after(last.pkt, last.times)
        }
    }

    /// All commands that a sequence of packets leads to.
    pub open spec fn all_lines(self, arrivals: Seq<Arrival>) -> Seq<Seq<char>>
        decreases arrivals.len(),
    {
        if arrivals.len() == 0 {
            seq![]
        } else {
            let last = arrivals.last();
            let before = arrivals.drop_last();
            self.all_lines(before) + self.after_all(before).lines(last.pkt, last.times)
        }
    }

    /// How many of a sequence of packets are shown.
    pub open spec fn dump_count(self, arrivals: Seq<Arrival>) -> nat
        decreases arrivals.len(),
    {
        if arrivals.len() == 0 {
            0
        } else {
            let last = arrivals.last();
            let before = arrivals.drop_last();
            self.dump_count(before) + if self.after_all(before).dumps(last.pkt, last.times) {
                1nat
            } else {
                0nat
            }
        }
    }

    /// How many of a sequence of packets are input packets that cannot be read.
    pub open spec fn reject_count(self, arrivals: Seq<Arrival>) -> nat
        decreases arrivals.len(),
    {
        if arrivals.len() == 0 {
            0
        } else {
            let last = arrivals.last();
            let before = arrivals.drop_last();
            self.reject_count(before) + if self.after_all(before).rejects(last.pkt, last.times) {
                1nat
            } else {
                0nat
            }
        }
    }
}

/// Every input packet of the sequence has a full header.
pub open spec fn full_headers(arrivals: Seq<Arrival>) -> bool {
    forall|i: int|
        0 <= i < arrivals.len() && packet::is_input_packet(
            (#[trigger] arrivals[i]).pkt,
        ) ==> arrivals[i].pkt.len() >= HEADER_LEN
}

/// A packet with another command changes nothing and gives no commands.
pub proof fn law_other_packets_do_nothing(s: SessionState, pkt: Seq<u8>, times: Times)
    requires
        !packet::is_input_packet(pkt),
    ensures
        s.after(pkt, times) == s,
        s.lines(pkt, times) == Seq::<Seq<char>>::empty(),
        s.accepts(pkt),
{
}

/// Nothing is passed on while the layout is not known.
pub proof fn law_silent_until_layout_is_known(s: SessionState, arrivals: Seq<Arrival>)
    requires
        s.after_all(arrivals).offset is None,
    ensures
        s.all_lines(arrivals) == Seq::<Seq<char>>::empty(),
        s.after_all(arrivals).pad == s.pad,
    decreases arrivals.len(),
{
    if arrivals.len() > 0 {
        law_silent_until_layout_is_known(s, arrivals.drop_last());
        assert(s.all_lines(arrivals) =~= seq![]);
    }
}

/// A known layout stays as it is, and its offsets are no longer watched.
pub proof fn law_known_layout_stays(s: SessionState, arrivals: Seq<Arrival>)
    requires
        s.offset is Some,
    ensures
        s.after_all(arrivals).offset == s.offset,
        s.after_all(arrivals).stats == s.stats,
    decreases arrivals.len(),
{
    if arrivals.len() > 0 {
        law_known_layout_stays(s, arrivals.drop_last());
    }
}

/// Of the packets that cannot be read, the first `RAW_DUMP_PACKETS` are shown and no
/// others.
pub proof fn law_dump_limit(arrivals: Seq<Arrival>)
    ensures
        ({
            let start = SessionState::initial();
            let rejected = start.reject_count(arrivals);
            &&& start.dump_count(arrivals) == if rejected < RAW_DUMP_PACKETS {
                rejected
            } else {
                RAW_DUMP_PACKETS as nat
            }
            &&& start.dump_count(arrivals) + start.after_all(arrivals).dumps_left
                == RAW_DUMP_PACKETS
        }),
    decreases arrivals.len(),
{
    if arrivals.len() > 0 {
        law_dump_limit(arrivals.drop_last());
    }
}

/// The stick centres change only within the window, and only for packets that can be read
/// while both sticks are near zero.
pub proof fn law_centres_are_learned_in_window(s: SessionState, pkt: Seq<u8>, times: Times)
    requires
        times.calibration_ns > CALIBRATION_WINDOW_NS || s.parsed(pkt, times) is Err
            || !StickCalibration::near_center(s.parsed(pkt, times)->Ok_0),
    ensures
        s.after(pkt, times).calibration == s.calibration,
{
}

/// A reader who holds no button at first holds the buttons of the last pad's state after
/// all commands of a session.
pub proof fn law_reader_follows_pad(arrivals: Seq<Arrival>, b: pipe::Button)
    ensures
        pipe::held_after(SessionState::initial().all_lines(arrivals), b, false) == b.held(
            SessionState::initial().after_all(arrivals).pad,
        ),
    decreases arrivals.len(),
{
    let start = SessionState::initial();
    if arrivals.len() > 0 {
        let before = arrivals.drop_last();
        let last = arrivals.last();
        let s = start.after_all(before);
        law_reader_follows_pad(before, b);
        let lines = s.lines(last.pkt, last.times);
        pipe::lemma_held_after_joined(start.all_lines(before), lines, b, false);
        if s.emits(last.pkt, last.times) {
            pipe::law_commands_lead_to_state(
                s.pad,
                s.pad_now(last.pkt, last.times),
                last.times.analog_ns,
                b,
            );
        }
    }
}

/// Every analog value of the pad's state is from 0 to 1 at all times.
pub proof fn law_session_pad_range(arrivals: Seq<Arrival>)
    ensures
        ({
            let pad = SessionState::initial().after_all(arrivals).pad;
            &&& mapping::in_unit_range(pad.main_x) && mapping::in_unit_range(pad.main_y)
            &&& mapping::in_unit_range(pad.c_x) && mapping::in_unit_range(pad.c_y)
            &&& mapping::in_unit_range(pad.l) && mapping::in_unit_range(pad.r)
        }),
    decreases arrivals.len(),
{
    if arrivals.len() == 0 {
        let zero = crate::binary32::Binary32 { bits: 0 };
        mapping::law_clamps(zero);
        assert(mapping::clamp01_spec(zero) == zero) by {
            crate::precision::lemma_zero(zero);
            crate::precision::lemma_one();
        }
    } else {
        let before = arrivals.drop_last();
        let last = arrivals.last();
        let s = SessionState::initial().after_all(before);
        law_session_pad_range(before);
        if s.emits(last.pkt, last.times) {
            mapping::law_pad_range(
                s.parsed(last.pkt, last.times)->Ok_0,
                s.calibration_after(last.pkt, last.times),
            );
        }
    }
}

/// Every packet with a full header is accepted until 2^28 - 1 packets arrived, and
/// the counters are those of that many packets at most.
pub proof fn law_sessions_accept(arrivals: Seq<Arrival>, pkt: Seq<u8>)
    requires
        full_headers(arrivals),
        arrivals.len() < 0xFFF_FFFF,
        packet::is_input_packet(pkt) ==> pkt.len() >= HEADER_LEN,
    ensures
        SessionState::initial().after_all(arrivals).accepts(pkt),
        layout::watched(SessionState::initial().after_all(arrivals).stats, arrivals.len()),
    decreases arrivals.len(),
{
    let s = SessionState::initial().after_all(arrivals);
    if arrivals.len() > 0 {
        let before = arrivals.drop_last();
        let last = arrivals.last();
        assert(last == arrivals[arrivals.len() - 1]);
        assert forall|i: int|
            0 <= i < before.len() && packet::is_input_packet(
                (#[trigger] before[i]).pkt,
            ) implies before[i].pkt.len() >= HEADER_LEN by {
            assert(before[i] == arrivals[i]);
        }
        law_sessions_accept(before, last.pkt);
        let was = SessionState::initial().after_all(before);
        if packet::is_input_packet(last.pkt) && was.offset is None {
            layout::law_watching_stays_consistent(was.stats, payload(last.pkt), before.len());
        }
    }
    layout::law_room_for_many_packets(s.stats, arrivals.len(), payload(pkt));
}

/// The layout that is settled is one that was seen: an even offset at which some packet
/// held a whole input block.
pub proof fn law_layout_was_seen(arrivals: Seq<Arrival>, pkt: Seq<u8>, times: Times)
    requires
        full_headers(arrivals),
        arrivals.len() < 0xFFF_FFFF,
        packet::is_input_packet(pkt) ==> pkt.len() >= HEADER_LEN,
        pkt.len() <= usize::MAX,
        SessionState::initial().after_all(arrivals).offset is None,
        SessionState::initial().after_all(arrivals).stats.len() <= usize::MAX,
    ensures
        ({
            let s = SessionState::initial().after_all(arrivals);
            s.offset_after(pkt, times) matches Some(o) ==> o % 2 == 0 && o < s.stats_after(
                pkt,
            ).len() && s.stats_after(pkt)[o as int].samples > 0
        }),
{
    let s = SessionState::initial().after_all(arrivals);
    law_sessions_accept(arrivals, pkt);
    if packet::is_input_packet(pkt) {
        layout::law_watching_stays_consistent(s.stats, payload(pkt), arrivals.len());
        layout::law_decision_was_seen(s.stats_after(pkt), arrivals.len() + 1, times.layout_ns);
    }
}

} // verus!
