//! What packets and runs of packets lead to, in terms of their bytes and times.
use crate::controls;
use crate::layout;
use crate::layout::LayoutStats;
use crate::mapping;
use crate::mapping::StickCalibration;
use crate::packet;
use crate::packet::{ParseError, ParsedInput, RawInput};
use crate::pipe;
use crate::session;
use crate::session::{Arrival, Reaction, SessionState, Times};
use vstd::prelude::*;

verus! {

/// Whether the packet is an input packet, by its first byte.
pub open spec fn is_input(pkt: Seq<u8>) -> bool {
    pkt.len() > 0 && pkt[0] == 0x20
}

/// The offset at which packets are read: 0 while it is not known.
pub open spec fn reading_offset(s: SessionState) -> nat {
    match s.offset {
        Some(o) => o as nat,
        None => 0,
    }
}

/// Whether the packet is an input packet with a whole block at the offset.
pub open spec fn holds_block(pkt: Seq<u8>, offset: nat) -> bool {
    is_input(pkt) && pkt.len() >= 16 + offset
}

/// A session starts with no layout, no offset watched, nothing learned, nothing held, all
/// analog values zero and ten packets to be shown.
pub proof fn law_start()
    ensures
        ({
            let s = SessionState::initial();
            &&& s.offset is None
            &&& s.stats.len() == 0
            &&& s.calibration.n == 0
            &&& controls::centres_in_range(s.calibration)
            &&& s.dumps_left == 10
            &&& !s.pad.a && !s.pad.b && !s.pad.x && !s.pad.y && !s.pad.z && !s.pad.start
                && !s.pad.d_up && !s.pad.d_down && !s.pad.d_left && !s.pad.d_right
            &&& s.pad.main_x.bits == 0 && s.pad.main_y.bits == 0 && s.pad.c_x.bits == 0
                && s.pad.c_y.bits == 0 && s.pad.l.bits == 0 && s.pad.r.bits == 0
        }),
{
    mapping::lemma_marks();
}

/// While the layout is not known, every input packet is counted, all of it behind its two
/// header bytes, and then it is decided, by the time since watching began, whether an offset
/// is taken. A known layout stays and nothing is counted any more.
pub proof fn law_layout_is_watched(s: SessionState, pkt: Seq<u8>, times: Times)
    ensures
        ({
            let next = s.after(pkt, times);
            &&& s.offset is None && is_input(pkt) ==> next.stats == layout::all_after(
                s.stats,
                pkt.skip(2),
            ) && next.offset == layout::decision(next.stats, times.layout_ns)
            &&& s.offset is Some || !is_input(pkt) ==> next.stats == s.stats && next.offset
                == s.offset
        }),
{
}

/// Within the first 750 milliseconds the centres are learned from every input packet with a
/// whole block, and from nothing else; after that they stay.
pub proof fn law_session_learns(s: SessionState, pkt: Seq<u8>, times: Times)
    ensures
        ({
            let next = s.after(pkt, times);
            let o = reading_offset(next);
            let p = packet::parse_result(pkt, o as int)->Ok_0;
            &&& holds_block(pkt, o) && times.calibration_ns <= 750_000_000 ==> next.calibration
                == s.calibration.learned(p)
            &&& !holds_block(pkt, o) || times.calibration_ns > 750_000_000 ==> next.calibration
                == s.calibration
        }),
{
    packet::law_parse_success(pkt, reading_offset(s.after(pkt, times)));
}

/// What is learned from a packet within the window whose sticks are both at most a quarter
/// of the full way from zero: one position more is counted, and every centre is the mean with
/// the packet's position taken in. The first position is the centre itself.
pub proof fn law_rest_is_learned(s: SessionState, pkt: Seq<u8>, times: Times)
    requires
        controls::centres_in_range(s.calibration),
        s.calibration.n < u32::MAX,
        times.calibration_ns <= 750_000_000,
        holds_block(pkt, reading_offset(s.after(pkt, times))),
    ensures
        ({
            let next = s.after(pkt, times).calibration;
            let was = s.calibration;
            let p = packet::parse_result(
                pkt,
                reading_offset(s.after(pkt, times)) as int,
            )->Ok_0;
            let (lx, ly) = (mapping::norm_i16_to_f1(p.lx), mapping::norm_i16_to_f1(p.ly));
            let (rx, ry) = (mapping::norm_i16_to_f1(p.rx), mapping::norm_i16_to_f1(p.ry));
            let near = 4 * mapping::radius(lx, ly).units() <= vstd::arithmetic::power2::pow2(149)
                && 4 * mapping::radius(rx, ry).units() <= vstd::arithmetic::power2::pow2(149);
            let n = was.n as int + 1;
            &&& near ==> next.n == n
            &&& near ==> controls::is_mean(next.lx0, was.lx0, lx, n) && controls::is_mean(
                next.ly0,
                was.ly0,
                ly,
                n,
            ) && controls::is_mean(next.rx0, was.rx0, rx, n) && controls::is_mean(
                next.ry0,
                was.ry0,
                ry,
                n,
            )
            &&& near && was.n == 0 ==> next.lx0 == lx && next.ly0 == ly && next.rx0 == rx
                && next.ry0 == ry
            &&& !near ==> next == was
        }),
{
    let p = packet::parse_result(pkt, reading_offset(s.after(pkt, times)) as int)->Ok_0;
    law_session_learns(s, pkt, times);
    controls::law_learning(s.calibration, p);
}

/// The learned centres are from -1 to 1 at all times.
pub proof fn law_centres_stay_in_range(arrivals: Seq<Arrival>)
    ensures
        controls::centres_in_range(SessionState::initial().after_all(arrivals).calibration),
    decreases arrivals.len(),
{
    law_start();
    if arrivals.len() > 0 {
        let before = arrivals.drop_last();
        let last = arrivals.last();
        let s = SessionState::initial().after_all(before);
        law_centres_stay_in_range(before);
        law_session_learns(s, last.pkt, last.times);
        let o = reading_offset(s.after(last.pkt, last.times));
        let p = packet::parse_result(last.pkt, o as int)->Ok_0;
        controls::law_learning(s.calibration, p);
    }
}

/// Once the layout is known, every input packet with a whole block gives the pad's state that
/// its bytes stand for and the commands from the state before to it. No other packet gives
/// commands or changes the pad's state.
pub proof fn law_packets_become_commands(s: SessionState, pkt: Seq<u8>, times: Times)
    ensures
        ({
            let next = s.after(pkt, times);
            let o = reading_offset(next);
            let p = packet::parse_result(pkt, o as int)->Ok_0;
            &&& next.offset is Some && holds_block(pkt, o) ==> next.pad == mapping::dolphin_state(
                p,
                next.calibration,
            ) && s.lines(pkt, times) == pipe::delta_lines(s.pad, next.pad, times.analog_ns)
            &&& next.offset is None || !holds_block(pkt, o) ==> next.pad == s.pad && s.lines(
                pkt,
                times,
            ).len() == 0
        }),
{
    packet::law_parse_success(pkt, reading_offset(s.after(pkt, times)));
}

/// An input packet that ends before its block uses up one of the packets that are shown, if
/// any is left; nothing else does.
pub proof fn law_short_packets(s: SessionState, pkt: Seq<u8>, times: Times)
    ensures
        ({
            let next = s.after(pkt, times);
            let short = is_input(pkt) && !holds_block(pkt, reading_offset(next));
            &&& short && s.dumps_left > 0 ==> next.dumps_left == s.dumps_left - 1
            &&& !short || s.dumps_left == 0 ==> next.dumps_left == s.dumps_left
        }),
{
    packet::law_parse_success(pkt, reading_offset(s.after(pkt, times)));
}

/// The reaction to a packet, by its bytes and the layout after it: ignored if it is no input
/// packet, rejected if it is one that ends before its block, shown as long as packets are to
/// be shown, held back while the layout is not known, and else the commands.
pub proof fn law_reactions(s: SessionState, pkt: Seq<u8>, times: Times, r: Reaction)
    requires
        s.reacts(pkt, times, r),
    ensures
        ({
            let next = s.after(pkt, times);
            let o = reading_offset(next);
            &&& r is Ignored <==> !is_input(pkt)
            &&& r is Rejected <==> is_input(pkt) && pkt.len() < 16 + o
            &&& r is Held <==> holds_block(pkt, o) && next.offset is None
            &&& r is Emit <==> holds_block(pkt, o) && next.offset is Some
            &&& r is Rejected ==> Err::<ParsedInput, ParseError>(r->error)
                == packet::parse_result(pkt, o as int) && (r->dump <==> s.dumps_left > 0)
            &&& r is Emit ==> pipe::texts(r->delta.lines@) == pipe::delta_lines(
                s.pad,
                next.pad,
                times.analog_ns,
            ) && (r->delta.analog <==> pipe::analog_sent(s.pad, next.pad, times.analog_ns))
        }),
{
    packet::law_parse_success(pkt, reading_offset(s.after(pkt, times)));
}

/// Every packet can be taken in but an input packet that, while the layout is watched, has no
/// full header or finds a counter full.
pub proof fn law_acceptance(s: SessionState, pkt: Seq<u8>)
    ensures
        s.accepts(pkt) <==> (is_input(pkt) && s.offset is None ==> pkt.len() >= 2
            && layout::room_for(s.stats, pkt.skip(2))),
{
}

/// How many of the packets are input packets with a whole block right behind the header.
pub open spec fn whole_packets(arrivals: Seq<Arrival>) -> nat
    decreases arrivals.len(),
{
    if arrivals.len() == 0 {
        0
    } else {
        whole_packets(arrivals.drop_last()) + if holds_block(arrivals.last().pkt, 0) {
            1nat
        } else {
            0nat
        }
    }
}

/// While the layout is not known, the first offset has a sample for every whole packet.
proof fn lemma_first_offset(arrivals: Seq<Arrival>)
    requires
        session::full_headers(arrivals),
        arrivals.len() < 0xFFF_FFFF,
    ensures
        ({
            let s = SessionState::initial().after_all(arrivals);
            s.offset is None && whole_packets(arrivals) > 0 ==> s.stats.len() > 0
                && s.stats[0].samples == whole_packets(arrivals)
        }),
        ({
            let s = SessionState::initial().after_all(arrivals);
            s.offset is None && whole_packets(arrivals) == 0 && s.stats.len() > 0
                ==> s.stats[0].samples == 0
        }),
    decreases arrivals.len(),
{
    if arrivals.len() > 0 {
        let before = arrivals.drop_last();
        let last = arrivals.last();
        let s = SessionState::initial().after_all(before);
        assert(last == arrivals[arrivals.len() - 1]);
        assert forall|i: int|
            0 <= i < before.len() && packet::is_input_packet(
                (#[trigger] before[i]).pkt,
            ) implies before[i].pkt.len() >= packet::HEADER_LEN by {
            assert(before[i] == arrivals[i]);
        }
        lemma_first_offset(before);
        session::law_sessions_accept(before, last.pkt);
        law_layout_is_watched(s, last.pkt, last.times);
        law_acceptance(s, last.pkt);
        if s.offset is None && is_input(last.pkt) {
            let payload = last.pkt.skip(2);
            layout::law_payload_is_counted(s.stats, payload, 0);
            layout::law_room_for_a_payload(s.stats, payload);
            layout::law_fresh_offset();
            let was = if 0 < s.stats.len() {
                s.stats[0]
            } else {
                LayoutStats::fresh()
            };
            if holds_block(last.pkt, 0) {
                let block = payload.subrange(0, 14);
                assert(was.has_room(RawInput::of(block)));
                layout::law_sample_counts(was, RawInput::of(block));
            }
        }
    }
}

/// The layout does get known: with 119 whole packets before it, a whole packet that arrives
/// two seconds or more after watching began leaves a known layout, whatever else arrived.
pub proof fn law_layout_gets_known(arrivals: Seq<Arrival>, pkt: Seq<u8>, times: Times)
    requires
        session::full_headers(arrivals),
        arrivals.len() < 0xFFF_FFFF,
        whole_packets(arrivals) >= 119,
        holds_block(pkt, 0),
        times.layout_ns >= 2_000_000_000,
    ensures
        SessionState::initial().after_all(arrivals).after(pkt, times).offset is Some,
{
    let s = SessionState::initial().after_all(arrivals);
    lemma_first_offset(arrivals);
    session::law_sessions_accept(arrivals, pkt);
    law_layout_is_watched(s, pkt, times);
    law_acceptance(s, pkt);
    if s.offset is None {
        let payload = pkt.skip(2);
        let next = s.after(pkt, times);
        layout::law_payload_is_counted(s.stats, payload, 0);
        layout::law_room_for_a_payload(s.stats, payload);
        let block = payload.subrange(0, 14);
        assert(s.stats[0].has_room(RawInput::of(block)));
        layout::law_sample_counts(s.stats[0], RawInput::of(block));
        assert(next.stats[0].samples >= 120);
        layout::law_decision_is_due(next.stats, times.layout_ns, times.layout_ns);
    }
}

/// Whether both sticks are at most a quarter of the full way from zero.
pub open spec fn rests(p: ParsedInput) -> bool {
    let one = vstd::arithmetic::power2::pow2(149);
    4 * mapping::radius(mapping::norm_i16_to_f1(p.lx), mapping::norm_i16_to_f1(p.ly)).units() <= one
        && 4 * mapping::radius(
        mapping::norm_i16_to_f1(p.rx),
        mapping::norm_i16_to_f1(p.ry),
    ).units() <= one
}

/// Whether every packet of the run is `pkt` and arrives within the first 750 milliseconds.
pub open spec fn all_at_rest(arrivals: Seq<Arrival>, pkt: Seq<u8>) -> bool {
    forall|i: int|
        0 <= i < arrivals.len() ==> (#[trigger] arrivals[i]).pkt == pkt
            && arrivals[i].times.calibration_ns <= 750_000_000
}

/// Packets without extra bytes are read at the first offset, before and after the layout is
/// known.
proof fn lemma_short_payloads(s: SessionState, pkt: Seq<u8>, times: Times)
    requires
        pkt.len() == 16,
        is_input(pkt),
        s.stats.len() <= 1,
        s.offset matches Some(o) ==> o == 0,
    ensures
        s.after(pkt, times).stats.len() <= 1,
        s.after(pkt, times).offset matches Some(o) ==> o == 0,
{
    law_layout_is_watched(s, pkt, times);
    if s.offset is None {
        let next = s.after(pkt, times);
        layout::law_payload_is_counted(s.stats, pkt.skip(2), 0);
        layout::law_best_offset(next.stats, 0, times.layout_ns);
        if let Some(o) = next.offset {
            layout::law_best_offset(next.stats, o as int, times.layout_ns);
        }
    }
}

proof fn lemma_rest_run(arrivals: Seq<Arrival>, pkt: Seq<u8>)
    requires
        pkt.len() == 16,
        is_input(pkt),
        all_at_rest(arrivals, pkt),
        arrivals.len() < u32::MAX,
        rests(packet::parse_result(pkt, 0)->Ok_0),
    ensures
        ({
            let s = SessionState::initial().after_all(arrivals);
            let p = packet::parse_result(pkt, 0)->Ok_0;
            &&& s.stats.len() <= 1
            &&& s.offset matches Some(o) ==> o == 0
            &&& s.calibration.n == arrivals.len()
            &&& controls::centres_in_range(s.calibration)
            &&& arrivals.len() > 0 ==> s.calibration.lx0 == mapping::norm_i16_to_f1(p.lx)
                && s.calibration.ly0 == mapping::norm_i16_to_f1(p.ly) && s.calibration.rx0
                == mapping::norm_i16_to_f1(p.rx) && s.calibration.ry0 == mapping::norm_i16_to_f1(
                p.ry,
            )
        }),
    decreases arrivals.len(),
{
    law_start();
    if arrivals.len() > 0 {
        let before = arrivals.drop_last();
        let last = arrivals.last();
        let s = SessionState::initial().after_all(before);
        let p = packet::parse_result(pkt, 0)->Ok_0;
        assert(last == arrivals[arrivals.len() - 1]);
        assert(all_at_rest(before, pkt)) by {
            assert forall|i: int| 0 <= i < before.len() implies (#[trigger] before[i]).pkt == pkt
                && before[i].times.calibration_ns <= 750_000_000 by {
                assert(before[i] == arrivals[i]);
            }
        }
        lemma_rest_run(before, pkt);
        lemma_short_payloads(s, pkt, last.times);
        law_session_learns(s, pkt, last.times);
        controls::law_learning(s.calibration, p);
        if before.len() > 0 {
            lemma_near(p);
            mapping::law_resting_sticks_are_centred(p, s.calibration);
        }
    }
}

proof fn lemma_near(p: ParsedInput)
    requires
        rests(p),
    ensures
        StickCalibration::near_center(p),
{
    mapping::law_stick_constants();
    mapping::law_axis_range_and_symmetry(p.lx);
    mapping::law_axis_range_and_symmetry(p.ly);
    mapping::law_axis_range_and_symmetry(p.rx);
    mapping::law_axis_range_and_symmetry(p.ry);
    crate::accuracy::law_radius_is_close(
        mapping::norm_i16_to_f1(p.lx),
        mapping::norm_i16_to_f1(p.ly),
    );
    crate::accuracy::law_radius_is_close(
        mapping::norm_i16_to_f1(p.rx),
        mapping::norm_i16_to_f1(p.ry),
    );
}

/// Sticks that rest near zero through the window are learned where they rest: however many
/// packets arrive within it, the centres are that position and every packet is counted. From
/// then on, at any time, the same position is exactly the middle of the pad's sticks once the
/// layout is known.
pub proof fn law_rest_position_is_centre(arrivals: Seq<Arrival>, pkt: Seq<u8>, times: Times)
    requires
        pkt.len() == 16,
        is_input(pkt),
        rests(packet::parse_result(pkt, 0)->Ok_0),
        all_at_rest(arrivals, pkt),
        0 < arrivals.len() < u32::MAX,
    ensures
        ({
            let s = SessionState::initial().after_all(arrivals);
            let p = packet::parse_result(pkt, 0)->Ok_0;
            let next = s.after(pkt, times);
            &&& s.calibration.n == arrivals.len()
            &&& s.calibration.lx0 == mapping::norm_i16_to_f1(p.lx)
            &&& s.calibration.ly0 == mapping::norm_i16_to_f1(p.ly)
            &&& s.calibration.rx0 == mapping::norm_i16_to_f1(p.rx)
            &&& s.calibration.ry0 == mapping::norm_i16_to_f1(p.ry)
            &&& next.offset is Some ==> next.pad.main_x.bits == 0x3F00_0000 && next.pad.main_y.bits
                == 0x3F00_0000 && next.pad.c_x.bits == 0x3F00_0000 && next.pad.c_y.bits
                == 0x3F00_0000
        }),
{
    let s = SessionState::initial().after_all(arrivals);
    let p = packet::parse_result(pkt, 0)->Ok_0;
    let next = s.after(pkt, times);
    lemma_rest_run(arrivals, pkt);
    lemma_short_payloads(s, pkt, times);
    law_session_learns(s, pkt, times);
    law_packets_become_commands(s, pkt, times);
    lemma_near(p);
    mapping::law_resting_sticks_are_centred(p, s.calibration);
    controls::law_pad_parts(p, next.calibration, p, s.calibration.learned(p));
}

/// The two lines that show a packet: the error's text behind its label, and behind theirs the
/// number of bytes and the bytes.
pub proof fn law_shown_packets(error: ParseError, pkt: Seq<u8>)
    ensures
        session::dump_text(error, pkt).0 == "Parse error: "@ + error.text(),
        session::dump_text(error, pkt).1 == "Raw packet ("@ + crate::text::decimal_text(pkt.len())
            + " bytes): "@ + crate::text::hex_text(pkt),
{
}

} // verus!
