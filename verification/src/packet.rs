//! GIP input packets.
use crate::text;
use vstd::prelude::*;
use vstd::slice::slice_subrange;
use vstd::string::*;

verus! {

/// The command byte of a packet that carries the input state. Other command bytes
/// belong to the GIP session and say nothing of the controls.
pub const INPUT_COMMAND: u8 = 0x20;

/// The bytes before a packet's payload.
pub const HEADER_LEN: usize = 2;

/// The bytes of the input block: buttons, two triggers, four axes.
pub const INPUT_LEN: usize = 14;

/// The packet that tells the controller to start sending input.
pub const GIP_INIT_PACKET: [u8; 5] = [0x05, 0x20, 0x00, 0x01, 0x00];

/// The state of the controls as a packet carries it.
#[derive(Clone, Copy, Debug, PartialEq, Eq, Structural)]
pub struct ParsedInput {
    pub buttons: u16,
    /// The left trigger, ten bits.
    pub lt10: u16,
    /// The right trigger, ten bits.
    pub rt10: u16,
    pub lx: i16,
    pub ly: i16,
    pub rx: i16,
    pub ry: i16,
}

impl Default for ParsedInput {
    fn default() -> (r: ParsedInput)
        ensures
            r == (ParsedInput { buttons: 0, lt10: 0, rt10: 0, lx: 0, ly: 0, rx: 0, ry: 0 }),
    {
        ParsedInput { buttons: 0, lt10: 0, rt10: 0, lx: 0, ly: 0, rx: 0, ry: 0 }
    }
}

/// Why a packet holds no input state.
#[derive(Clone, Copy, Debug, PartialEq, Eq, Structural)]
pub enum ParseError {
    /// The packet has no full header.
    PacketTooShort,
    /// The packet is not an input packet.
    UnexpectedCommand { command: u8 },
    /// The payload ends before the input block does.
    PayloadTooShort { len: usize, needed: usize },
}

impl ParseError {
    /// The text of the error.
    pub open spec fn text(self) -> Seq<char> {
        match self {
            ParseError::PacketTooShort => "packet too short"@,
            ParseError::UnexpectedCommand { command } => "unexpected command byte 0x"@
                + text::hex_byte_text(command),
            ParseError::PayloadTooShort { len, needed } => "payload too short: "@
                + text::decimal_text(len as nat) + " bytes (need at least "@ + text::decimal_text(
                needed as nat,
            ) + ")"@,
        }
    }

    /// The text of the error.
    pub fn message(&self) -> (r: String)
        ensures
            r@ == self.text(),
    {
        match *self {
            ParseError::PacketTooShort => String::from_str("packet too short"),
            ParseError::UnexpectedCommand { command } => {
                let mut out: String = String::from_str("unexpected command byte 0x");
                text::push_hex_byte(&mut out, command);
                out
            },
            ParseError::PayloadTooShort { len, needed } => {
                let mut out: String = String::from_str("payload too short: ");
                text::push_decimal(&mut out, len);
                out.append(" bytes (need at least ");
                text::push_decimal(&mut out, needed);
                out.append(")");
                out
            },
        }
    }
}

/// The unsigned number in the first two bytes, the low byte first.
pub open spec fn unsigned_word(b: Seq<u8>) -> int {
    b[0] + 256 * b[1]
}

/// The two's complement number in the first two bytes, the low byte first.
pub open spec fn signed_word(b: Seq<u8>) -> int {
    if unsigned_word(b) < 0x8000 {
        unsigned_word(b)
    } else {
        unsigned_word(b) - 0x1_0000
    }
}

/// The little-endian unsigned number in the first two bytes.
pub fn le_u16(b: &[u8]) -> (r: u16)
    requires
        b@.len() >= 2,
    ensures
        r == unsigned_word(b@),
{
    b[0] as u16 + 256 * (b[1] as u16)
}

/// The little-endian two's complement number in the first two bytes.
pub fn le_i16(b: &[u8]) -> (r: i16)
    requires
        b@.len() >= 2,
    ensures
        r == signed_word(b@),
{
    let w: i32 = le_u16(b) as i32;
    if w < 0x8000 {
        w as i16
    } else {
        (w - 0x1_0000) as i16
    }
}

/// The two bytes of a block from `i` on.
pub open spec fn word_at(block: Seq<u8>, i: int) -> Seq<u8> {
    block.subrange(i, i + 2)
}

/// The words of an input block as they stand, with all bits of the triggers.
pub struct RawInput {
    pub buttons: u16,
    pub lt: u16,
    pub rt: u16,
    pub lx: i16,
    pub ly: i16,
    pub rx: i16,
    pub ry: i16,
}

impl RawInput {
    /// The words of the block: buttons, triggers, left stick, right stick.
    pub open spec fn of(block: Seq<u8>) -> RawInput {
        RawInput {
            buttons: unsigned_word(word_at(block, 0)) as u16,
            lt: unsigned_word(word_at(block, 2)) as u16,
            rt: unsigned_word(word_at(block, 4)) as u16,
            lx: signed_word(word_at(block, 6)) as i16,
            ly: signed_word(word_at(block, 8)) as i16,
            rx: signed_word(word_at(block, 10)) as i16,
            ry: signed_word(word_at(block, 12)) as i16,
        }
    }

    /// The input with the triggers cut to their ten bits.
    pub open spec fn input(self) -> ParsedInput {
        ParsedInput {
            buttons: self.buttons,
            lt10: (self.lt % 1024) as u16,
            rt10: (self.rt % 1024) as u16,
            lx: self.lx,
            ly: self.ly,
            rx: self.rx,
            ry: self.ry,
        }
    }

    /// Reads the words of the block that starts at `at`.
    pub(crate) fn read(bytes: &[u8], at: usize) -> (r: RawInput)
        requires
            at + INPUT_LEN <= bytes@.len(),
        ensures
            r == RawInput::of(bytes@.subrange(at as int, at + INPUT_LEN)),
    {
        assert(bytes@.len() == bytes.len());
        let p: &[u8] = slice_subrange(bytes, at, at + INPUT_LEN);
        RawInput {
            buttons: le_u16(slice_subrange(p, 0, 2)),
            lt: le_u16(slice_subrange(p, 2, 4)),
            rt: le_u16(slice_subrange(p, 4, 6)),
            lx: le_i16(slice_subrange(p, 6, 8)),
            ly: le_i16(slice_subrange(p, 8, 10)),
            rx: le_i16(slice_subrange(p, 10, 12)),
            ry: le_i16(slice_subrange(p, 12, 14)),
        }
    }
}

/// What a packet holds if its input block starts at `offset` in the payload.
pub open spec fn parse_result(pkt: Seq<u8>, offset: int) -> Result<ParsedInput, ParseError> {
    let start = HEADER_LEN + offset;
    if pkt.len() < HEADER_LEN {
        Err(ParseError::PacketTooShort)
    } else if pkt[0] != INPUT_COMMAND {
        Err(ParseError::UnexpectedCommand { command: pkt[0] })
    } else if pkt.len() < start + INPUT_LEN {
        Err(
            ParseError::PayloadTooShort {
                len: (pkt.len() - HEADER_LEN) as usize,
                needed: (offset + INPUT_LEN) as usize,
            },
        )
    } else {
        Ok(RawInput::of(pkt.subrange(start, start + INPUT_LEN)).input())
    }
}

/// Whether the packet starts as an input packet.
pub open spec fn is_input_packet(pkt: Seq<u8>) -> bool {
    pkt.len() > 0 && pkt[0] == INPUT_COMMAND
}

/// Reads the input state from a packet whose input block starts at `payload_offset`
/// in the payload.
pub fn parse_gip_input_packet(pkt: &[u8], payload_offset: usize) -> (r: Result<
    ParsedInput,
    ParseError,
>)
    requires
        pkt@.len() >= HEADER_LEN && is_input_packet(pkt@) ==> payload_offset + INPUT_LEN
            <= usize::MAX,
    ensures
        r == parse_result(pkt@, payload_offset as int),
{
    if pkt.len() < HEADER_LEN {
        return Err(ParseError::PacketTooShort);
    }
    if pkt[0] != INPUT_COMMAND {
        return Err(ParseError::UnexpectedCommand { command: pkt[0] });
    }
    let len: usize = pkt.len() - HEADER_LEN;
    if len < payload_offset + INPUT_LEN {
        return Err(ParseError::PayloadTooShort { len, needed: payload_offset + INPUT_LEN });
    }
    let raw = RawInput::read(pkt, HEADER_LEN + payload_offset);
    Ok(
        ParsedInput {
            buttons: raw.buttons,
            lt10: raw.lt % 1024,
            rt10: raw.rt % 1024,
            lx: raw.lx,
            ly: raw.ly,
            rx: raw.rx,
            ry: raw.ry,
        },
    )
}

/// The two bytes of an unsigned number, the low byte first.
pub open spec fn word_bytes(w: int) -> Seq<u8> {
    seq![(w % 256) as u8, (w / 256 % 256) as u8]
}

/// The input block that carries `p`.
pub open spec fn input_block(p: ParsedInput) -> Seq<u8> {
    word_bytes(p.buttons as int) + word_bytes(p.lt10 as int) + word_bytes(p.rt10 as int)
        + word_bytes(p.lx as int) + word_bytes(p.ly as int) + word_bytes(p.rx as int) + word_bytes(
        p.ry as int,
    )
}

proof fn lemma_word_bytes(b: Seq<u8>, w: int)
    requires
        b == word_bytes(w),
    ensures
        0 <= w < 0x1_0000 ==> unsigned_word(b) == w,
        -0x8000 <= w < 0x8000 ==> signed_word(b) == w,
{
}

/// An input packet gives back the input that was written into it, wherever in the
/// payload the block stands and whatever surrounds it.
pub proof fn law_parse_gives_back_input(
    head: Seq<u8>,
    before: Seq<u8>,
    p: ParsedInput,
    after: Seq<u8>,
)
    requires
        head.len() == HEADER_LEN,
        head[0] == INPUT_COMMAND,
        p.lt10 < 1024,
        p.rt10 < 1024,
    ensures
        parse_result(head + before + input_block(p) + after, before.len() as int) == Ok::<
            ParsedInput,
            ParseError,
        >(p),
{
    let pkt = head + before + input_block(p) + after;
    let start = HEADER_LEN + before.len();
    let block = pkt.subrange(start as int, start + INPUT_LEN);
    assert(block =~= input_block(p));
    assert(word_at(block, 0) =~= word_bytes(p.buttons as int));
    assert(word_at(block, 2) =~= word_bytes(p.lt10 as int));
    assert(word_at(block, 4) =~= word_bytes(p.rt10 as int));
    assert(word_at(block, 6) =~= word_bytes(p.lx as int));
    assert(word_at(block, 8) =~= word_bytes(p.ly as int));
    assert(word_at(block, 10) =~= word_bytes(p.rx as int));
    assert(word_at(block, 12) =~= word_bytes(p.ry as int));
    lemma_word_bytes(word_at(block, 0), p.buttons as int);
    lemma_word_bytes(word_at(block, 2), p.lt10 as int);
    lemma_word_bytes(word_at(block, 4), p.rt10 as int);
    lemma_word_bytes(word_at(block, 6), p.lx as int);
    lemma_word_bytes(word_at(block, 8), p.ly as int);
    lemma_word_bytes(word_at(block, 10), p.rx as int);
    lemma_word_bytes(word_at(block, 12), p.ry as int);
}

/// A parsed trigger has ten bits, and a packet parses if and only if it is an input
/// packet that is long enough.
pub proof fn law_parse_success(pkt: Seq<u8>, offset: nat)
    ensures
        parse_result(pkt, offset as int) is Ok <==> is_input_packet(pkt) && pkt.len() >= HEADER_LEN
            + offset + INPUT_LEN,
        parse_result(pkt, offset as int) matches Ok(p) ==> p.lt10 < 1024 && p.rt10 < 1024,
{
}

/// The two numbers in a pair of bytes: the low byte counts ones and the high byte 256s, and
/// the second one has its highest bit count negatively.
pub proof fn law_words(b: Seq<u8>)
    ensures
        unsigned_word(b) == b[0] + 256 * b[1],
        b[1] < 128 ==> signed_word(b) == b[0] + 256 * b[1],
        b[1] >= 128 ==> signed_word(b) == b[0] + 256 * b[1] - 65536,
        -32768 <= signed_word(b) <= 32767,
{
}

/// The words of a block, from its fourteen bytes: buttons, two triggers, four axes.
pub proof fn law_block_words(block: Seq<u8>)
    requires
        block.len() == 14,
    ensures
        ({
            let raw = RawInput::of(block);
            &&& raw.buttons == block[0] + 256 * block[1]
            &&& raw.lt == block[2] + 256 * block[3]
            &&& raw.rt == block[4] + 256 * block[5]
            &&& raw.lx == block[6] + 256 * block[7] - sign_weight(block[7])
            &&& raw.ly == block[8] + 256 * block[9] - sign_weight(block[9])
            &&& raw.rx == block[10] + 256 * block[11] - sign_weight(block[11])
            &&& raw.ry == block[12] + 256 * block[13] - sign_weight(block[13])
        }),
{
    assert forall|i: int| 0 <= i <= 12 implies #[trigger] word_at(block, i)[0] == block[i]
        && word_at(block, i)[1] == block[i + 1] by {}
    assert(word_at(block, 0)[0] == block[0]);
    assert(word_at(block, 2)[0] == block[2]);
    assert(word_at(block, 4)[0] == block[4]);
    assert(word_at(block, 6)[0] == block[6]);
    assert(word_at(block, 8)[0] == block[8]);
    assert(word_at(block, 10)[0] == block[10]);
    assert(word_at(block, 12)[0] == block[12]);
}

/// What a set sign bit in the high byte takes off a two's complement number.
pub open spec fn sign_weight(high: u8) -> int {
    if high >= 128 {
        65536
    } else {
        0
    }
}

/// An input packet with a whole block at `offset` is read byte by byte: each field from its
/// own two bytes, the triggers without their upper six bits. No other byte counts.
pub proof fn law_parse_reads_bytes(pkt: Seq<u8>, offset: nat)
    requires
        pkt.len() >= 16 + offset,
        pkt[0] == 0x20,
    ensures
        parse_result(pkt, offset as int) is Ok,
        ({
            let p = parse_result(pkt, offset as int)->Ok_0;
            let s = offset as int + 2;
            &&& p.buttons == pkt[s] + 256 * pkt[s + 1]
            &&& p.lt10 == (pkt[s + 2] + 256 * pkt[s + 3]) % 1024
            &&& p.rt10 == (pkt[s + 4] + 256 * pkt[s + 5]) % 1024
            &&& p.lx == pkt[s + 6] + 256 * pkt[s + 7] - sign_weight(pkt[s + 7])
            &&& p.ly == pkt[s + 8] + 256 * pkt[s + 9] - sign_weight(pkt[s + 9])
            &&& p.rx == pkt[s + 10] + 256 * pkt[s + 11] - sign_weight(pkt[s + 11])
            &&& p.ry == pkt[s + 12] + 256 * pkt[s + 13] - sign_weight(pkt[s + 13])
        }),
{
    let start = HEADER_LEN + offset;
    let block = pkt.subrange(start as int, start + INPUT_LEN);
    law_block_words(block);
    assert forall|i: int| 0 <= i < 14 implies #[trigger] block[i] == pkt[start + i] by {}
}

/// What a packet is refused for, each error on its inputs and on no others: first that it
/// has no full header, then its command, then that its payload ends before the block.
pub proof fn law_parse_refusals(pkt: Seq<u8>, offset: nat)
    requires
        pkt.len() <= usize::MAX,
        offset + 14 <= usize::MAX,
    ensures
        ({
            let r = parse_result(pkt, offset as int);
            &&& pkt.len() < 2 <==> r == Err::<ParsedInput, ParseError>(ParseError::PacketTooShort)
            &&& pkt.len() >= 2 && pkt[0] != 0x20 <==> r == Err::<ParsedInput, ParseError>(
                ParseError::UnexpectedCommand { command: pkt[0] },
            )
            &&& pkt.len() >= 2 && pkt[0] == 0x20 && pkt.len() < 16 + offset <==> r is Err
                && r->Err_0 is PayloadTooShort
            &&& r is Err && r->Err_0 is PayloadTooShort ==> r->Err_0->len == pkt.len() - 2
                && r->Err_0->needed == offset + 14
        }),
{
}

/// A packet is an input packet if and only if its first byte is the command of one.
pub proof fn law_input_packets(pkt: Seq<u8>)
    ensures
        is_input_packet(pkt) <==> pkt.len() > 0 && pkt[0] == 0x20,
{
}

/// The texts of the errors name the command in base sixteen and the lengths in base ten.
pub proof fn law_error_texts(command: u8, len: usize, needed: usize)
    ensures
        ParseError::PacketTooShort.text() == "packet too short"@,
        (ParseError::UnexpectedCommand { command }).text() == "unexpected command byte 0x"@
            + text::hex_byte_text(command),
        (ParseError::PayloadTooShort { len, needed }).text() == "payload too short: "@
            + text::decimal_text(len as nat) + " bytes (need at least "@ + text::decimal_text(
            needed as nat,
        ) + ")"@,
{
}

} // verus!
