//! What is written to Dolphin's pipe, and where the pipe is.
use crate::binary32;
use crate::binary32::{Binary32, ONE_BITS};
use crate::mapping;
use crate::mapping::{clamp01, DolphinState};
use crate::precision;
use crate::rounding;
use crate::text;
use vstd::arithmetic::mul::*;
use vstd::arithmetic::power2::*;
use vstd::prelude::*;
use vstd::string::*;

verus! {

/// The change of an analog value that is worth a command: the number nearest to 0.0025.
pub const ANALOG_EPS_BITS: u32 = 0x3B23_D70A;

/// The shortest time between two analog updates, in nanoseconds: 1/120 s as a binary32
/// number, to the nearest nanosecond.
pub const ANALOG_PERIOD_NS: u128 = 8_333_334;

/// How long to wait for a reader before the pipe is opened again, in milliseconds.
pub const OPEN_RETRY_MS: u64 = 250;

/// The buttons of the pipe protocol.
#[derive(Clone, Copy, Debug, PartialEq, Eq, Structural)]
pub enum Button {
    A,
    B,
    X,
    Y,
    Z,
    Start,
    DUp,
    DDown,
    DLeft,
    DRight,
}

impl Button {
    /// The button's name in commands.
    pub open spec fn name(self) -> Seq<char> {
        match self {
            Button::A => "A"@,
            Button::B => "B"@,
            Button::X => "X"@,
            Button::Y => "Y"@,
            Button::Z => "Z"@,
            Button::Start => "START"@,
            Button::DUp => "D_UP"@,
            Button::DDown => "D_DOWN"@,
            Button::DLeft => "D_LEFT"@,
            Button::DRight => "D_RIGHT"@,
        }
    }

    /// Whether the button is held.
    pub open spec fn held(self, s: DolphinState) -> bool {
        match self {
            Button::A => s.a,
            Button::B => s.b,
            Button::X => s.x,
            Button::Y => s.y,
            Button::Z => s.z,
            Button::Start => s.start,
            Button::DUp => s.d_up,
            Button::DDown => s.d_down,
            Button::DLeft => s.d_left,
            Button::DRight => s.d_right,
        }
    }

    /// The button's name in commands.
    pub fn label(self) -> (r: &'static str)
        ensures
            r@ == self.name(),
    {
        match self {
            Button::A => "A",
            Button::B => "B",
            Button::X => "X",
            Button::Y => "Y",
            Button::Z => "Z",
            Button::Start => "START",
            Button::DUp => "D_UP",
            Button::DDown => "D_DOWN",
            Button::DLeft => "D_LEFT",
            Button::DRight => "D_RIGHT",
        }
    }

    /// Whether the button is held.
    pub fn is_held(self, s: &DolphinState) -> (r: bool)
        ensures
            r == self.held(*s),
    {
        match self {
            Button::A => s.a,
            Button::B => s.b,
            Button::X => s.x,
            Button::Y => s.y,
            Button::Z => s.z,
            Button::Start => s.start,
            Button::DUp => s.d_up,
            Button::DDown => s.d_down,
            Button::DLeft => s.d_left,
            Button::DRight => s.d_right,
        }
    }

    /// All buttons, in the order of their commands.
    pub open spec fn all() -> Seq<Button> {
        seq![
            Button::A,
            Button::B,
            Button::X,
            Button::Y,
            Button::Z,
            Button::Start,
            Button::DUp,
            Button::DDown,
            Button::DLeft,
            Button::DRight,
        ]
    }
}

/// The texts of lines.
pub open spec fn texts(lines: Seq<String>) -> Seq<Seq<char>> {
    lines.map_values(|s: String| s@)
}

/// The command for a button's change; none where it did not change.
pub open spec fn button_line(name: Seq<char>, prev: bool, now: bool) -> Seq<Seq<char>> {
    if prev == now {
        seq![]
    } else if now {
        seq!["PRESS "@ + name]
    } else {
        seq!["RELEASE "@ + name]
    }
}

/// The commands for the changes of some buttons.
pub open spec fn button_lines(
    buttons: Seq<Button>,
    prev: DolphinState,
    now: DolphinState,
) -> Seq<Seq<char>>
    decreases buttons.len(),
{
    if buttons.len() == 0 {
        seq![]
    } else {
        let b = buttons.last();
        button_lines(buttons.drop_last(), prev, now) + button_line(
            b.name(),
            b.held(prev),
            b.held(now),
        )
    }
}

/// An analog value moved by more than is let pass.
pub open spec fn moved_spec(prev: Binary32, now: Binary32) -> bool {
    (Binary32 { bits: ANALOG_EPS_BITS }).less(prev.minus(now).absolute())
}

#[verifier::when_used_as_spec(moved_spec)]
fn moved(prev: Binary32, now: Binary32) -> (r: bool)
    ensures
        r == moved_spec(prev, now),
{
    Binary32::from_bits(ANALOG_EPS_BITS).less(prev.minus(now).absolute())
}

/// Some analog value moved by more than is let pass.
pub open spec fn analog_changed(prev: DolphinState, now: DolphinState) -> bool {
    moved_spec(prev.main_x, now.main_x) || moved_spec(prev.main_y, now.main_y) || moved_spec(
        prev.c_x,
        now.c_x,
    ) || moved_spec(prev.c_y, now.c_y) || moved_spec(prev.l, now.l) || moved_spec(prev.r, now.r)
}

/// Whether the analog values are sent, `elapsed_ns` after they were last sent.
pub open spec fn analog_sent(prev: DolphinState, now: DolphinState, elapsed_ns: u128) -> bool {
    analog_changed(prev, now) && elapsed_ns >= ANALOG_PERIOD_NS
}

/// The text of an analog value.
pub open spec fn analog_text(v: Binary32) -> Seq<char> {
    text::fixed_text(mapping::clamp01_spec(v))
}

/// The commands that set all analog values.
pub open spec fn analog_lines(now: DolphinState) -> Seq<Seq<char>> {
    seq![
        "SET MAIN "@ + analog_text(now.main_x) + " "@ + analog_text(now.main_y),
        "SET C "@ + analog_text(now.c_x) + " "@ + analog_text(now.c_y),
        "SET L "@ + analog_text(now.l),
        "SET R "@ + analog_text(now.r),
    ]
}

/// The commands that take the pad from one state to another.
pub open spec fn delta_lines(prev: DolphinState, now: DolphinState, elapsed_ns: u128) -> Seq<
    Seq<char>,
> {
    button_lines(Button::all(), prev, now) + if analog_sent(prev, now, elapsed_ns) {
        analog_lines(now)
    } else {
        seq![]
    }
}

/// Commands to be written, one per line.
#[derive(Debug)]
pub struct StateDelta {
    pub lines: Vec<String>,
    /// Whether the analog values are among them.
    pub analog: bool,
}

proof fn lemma_push_text(lines: Seq<String>, line: String)
    ensures
        texts(lines.push(line)) == texts(lines).push(line@),
{
    assert(texts(lines.push(line)) =~= texts(lines).push(line@));
}

/// Appends the command for a button's change, if it changed.
pub fn emit_button_delta(lines: &mut Vec<String>, name: &str, prev: bool, now: bool)
    ensures
        texts(final(lines)@) == texts(old(lines)@) + button_line(name@, prev, now),
{
    if prev == now {
        assert(texts(lines@) =~= texts(old(lines)@) + button_line(name@, prev, now));
        return;
    }
    let mut line: String = if now {
        String::from_str("PRESS ")
    } else {
        String::from_str("RELEASE ")
    };
    line.append(name);
    proof {
        lemma_push_text(lines@, line);
    }
    lines.push(line);
    assert(texts(lines@) =~= texts(old(lines)@) + button_line(name@, prev, now));
}

/// A clamped value is on the range whose text has one digit before the point.
proof fn lemma_clamped(v: Binary32)
    ensures
        mapping::clamp01_spec(v).key() <= ONE_BITS,
{
    let one = Binary32 { bits: ONE_BITS };
    let zero = Binary32 { bits: 0 };
    let c = mapping::clamp01_spec(v);
    assert(one.key() == ONE_BITS);
    assert(zero.key() == 0);
    if c == v {
        binary32::lemma_magnitude_order(one, c);
        binary32::lemma_magnitude_order(zero, c);
        assert(zero.magnitude() == 0) by (nonlinear_arith)
            requires
                zero.magnitude() == zero.significand() * vstd::arithmetic::power2::pow2(
                    zero.step(),
                ),
                zero.significand() == 0,
        ;
    }
}

/// Appends the text of an analog value.
fn push_analog(out: &mut String, v: Binary32)
    ensures
        final(out)@ == old(out)@ + analog_text(v),
{
    proof {
        lemma_clamped(v);
    }
    text::push_fixed(out, clamp01(v));
}

/// Appends the command that sets one or two analog values.
fn emit_analog(lines: &mut Vec<String>, command: &str, first: Binary32, second: Option<Binary32>)
    ensures
        texts(final(lines)@) == texts(old(lines)@).push(
            match second {
                Some(v) => command@ + analog_text(first) + " "@ + analog_text(v),
                None => command@ + analog_text(first),
            },
        ),
{
    let mut line: String = String::from_str(command);
    push_analog(&mut line, first);
    if let Some(v) = second {
        line.append(" ");
        push_analog(&mut line, v);
    }
    proof {
        lemma_push_text(lines@, line);
    }
    lines.push(line);
}

/// Appends the commands for the changes of all buttons.
fn emit_buttons(lines: &mut Vec<String>, prev: DolphinState, now: DolphinState)
    ensures
        texts(final(lines)@) == texts(old(lines)@) + button_lines(Button::all(), prev, now),
{
    let all: [Button; 10] = [
        Button::A,
        Button::B,
        Button::X,
        Button::Y,
        Button::Z,
        Button::Start,
        Button::DUp,
        Button::DDown,
        Button::DLeft,
        Button::DRight,
    ];
    let ghost before = texts(lines@);
    proof {
        assert(all@ =~= Button::all());
        assert(before + button_lines(all@.take(0), prev, now) =~= before);
    }
    let mut i: usize = 0;
    while i < 10
        invariant
            i <= 10,
            all@ == Button::all(),
            texts(lines@) == before + button_lines(all@.take(i as int), prev, now),
        decreases 10 - i,
    {
        let b: Button = all[i];
        proof {
            let more = all@.take(i + 1);
            assert(more.drop_last() =~= all@.take(i as int));
            assert(more.last() == b);
            let done = button_lines(all@.take(i as int), prev, now);
            let line = button_line(b.name(), b.held(prev), b.held(now));
            assert((before + done) + line =~= before + (done + line));
        }
        emit_button_delta(lines, b.label(), b.is_held(&prev), b.is_held(&now));
        i = i + 1;
    }
    assert(all@.take(10) =~= all@);
}

/// The commands that take the pad from one state to another: for each button that
/// changed, and for the analog values if one moved noticeably and they were not sent
/// within the last period.
pub fn emit_state_delta(prev: DolphinState, now: DolphinState, elapsed_ns: u128) -> (r: StateDelta)
    ensures
        texts(r.lines@) == delta_lines(prev, now, elapsed_ns),
        r.analog == analog_sent(prev, now, elapsed_ns),
{
    let mut lines: Vec<String> = Vec::new();
    emit_buttons(&mut lines, prev, now);
    let ghost buttons = button_lines(Button::all(), prev, now);
    assert(texts(lines@) =~= buttons);
    let changed: bool = moved(prev.main_x, now.main_x) || moved(prev.main_y, now.main_y) || moved(
        prev.c_x,
        now.c_x,
    ) || moved(prev.c_y, now.c_y) || moved(prev.l, now.l) || moved(prev.r, now.r);
    let analog: bool = changed && elapsed_ns >= ANALOG_PERIOD_NS;
    if analog {
        emit_analog(&mut lines, "SET MAIN ", now.main_x, Some(now.main_y));
        emit_analog(&mut lines, "SET C ", now.c_x, Some(now.c_y));
        emit_analog(&mut lines, "SET L ", now.l, None);
        emit_analog(&mut lines, "SET R ", now.r, None);
        assert(texts(lines@) =~= buttons + analog_lines(now));
    } else {
        assert(texts(lines@) =~= buttons + seq![]);
    }
    StateDelta { lines, analog }
}

/// The pipe's path in the home directory `home`.
pub open spec fn pipe_path(home: Seq<char>) -> Seq<char> {
    home + (if home.len() > 0 && home.last() != '/' {
        seq!['/']
    } else {
        seq![]
    }) + "Library/Application Support/Dolphin/Pipes/powera"@
}

/// The pipe's path in the home directory `home`.
pub fn default_pipe_path(home: &str) -> (r: String)
    ensures
        r@ == pipe_path(home@),
{
    let mut path: String = String::from_str(home);
    let len: usize = home.unicode_len();
    if len > 0 && home.get_char(len - 1) != '/' {
        proof {
            reveal_strlit("/");
            assert("/"@ =~= seq!['/']);
        }
        path.append("/");
    } else {
        assert(home@ + seq![] =~= home@);
    }
    path.append("Library/Application Support/Dolphin/Pipes/powera");
    path
}

/// What to do after the pipe could not be opened.
#[derive(Clone, Copy, Debug, PartialEq, Eq, Structural)]
pub enum AfterOpenFailure {
    /// No reader has the pipe open yet: wait and open it again.
    Retry { delay_ms: u64 },
    /// Give up with the error.
    Fail,
}

/// What to do after an open failed with the system's error `code`.
pub open spec fn open_failure_spec(code: Option<i32>, no_reader: i32) -> AfterOpenFailure {
    if code == Some(no_reader) {
        AfterOpenFailure::Retry { delay_ms: OPEN_RETRY_MS }
    } else {
        AfterOpenFailure::Fail
    }
}

/// Decides what to do after an open failed with the system's error `code`, where
/// `no_reader` is the code for a pipe that nobody reads.
#[verifier::when_used_as_spec(open_failure_spec)]
pub fn after_open_failure(code: Option<i32>, no_reader: i32) -> (r: AfterOpenFailure)
    ensures
        r == open_failure_spec(code, no_reader),
        r == if code == Some(no_reader) {
            AfterOpenFailure::Retry { delay_ms: OPEN_RETRY_MS }
        } else {
            AfterOpenFailure::Fail
        },
{
    match code {
        Some(c) => if c == no_reader {
            AfterOpenFailure::Retry { delay_ms: OPEN_RETRY_MS }
        } else {
            AfterOpenFailure::Fail
        },
        None => AfterOpenFailure::Fail,
    }
}

/// What to do after the pipe could not be written.
#[derive(Clone, Copy, Debug, PartialEq, Eq, Structural)]
pub enum AfterWriteFailure {
    /// The reader closed the pipe: wait for it to open the pipe again.
    Reconnect,
    /// Give up with the error.
    Fail,
}

/// What to do after a write failed with the system's error `code`.
pub open spec fn write_failure_spec(code: Option<i32>, broken_pipe: i32) -> AfterWriteFailure {
    if code == Some(broken_pipe) {
        AfterWriteFailure::Reconnect
    } else {
        AfterWriteFailure::Fail
    }
}

/// Decides what to do after a write failed with the system's error `code`, where
/// `broken_pipe` is the code for a pipe whose reader is gone.
#[verifier::when_used_as_spec(write_failure_spec)]
pub fn after_write_failure(code: Option<i32>, broken_pipe: i32) -> (r: AfterWriteFailure)
    ensures
        r == write_failure_spec(code, broken_pipe),
        r == if code == Some(broken_pipe) {
            AfterWriteFailure::Reconnect
        } else {
            AfterWriteFailure::Fail
        },
{
    match code {
        Some(c) => if c == broken_pipe {
            AfterWriteFailure::Reconnect
        } else {
            AfterWriteFailure::Fail
        },
        None => AfterWriteFailure::Fail,
    }
}

/// Whether a reader of the lines, who held the button as `was` says, holds it after them.
pub open spec fn held_after(lines: Seq<Seq<char>>, button: Button, was: bool) -> bool
    decreases lines.len(),
{
    if lines.len() == 0 {
        was
    } else if lines.last() == "PRESS "@ + button.name() {
        true
    } else if lines.last() == "RELEASE "@ + button.name() {
        false
    } else {
        held_after(lines.drop_last(), button, was)
    }
}

pub(crate) proof fn lemma_held_after_joined(
    first: Seq<Seq<char>>,
    second: Seq<Seq<char>>,
    button: Button,
    was: bool,
)
    ensures
        held_after(first + second, button, was) == held_after(
            second,
            button,
            held_after(first, button, was),
        ),
    decreases second.len(),
{
    if second.len() == 0 {
        assert(first + second =~= first);
    } else {
        assert((first + second).drop_last() =~= first + second.drop_last());
        assert((first + second).last() == second.last());
        lemma_held_after_joined(first, second.drop_last(), button, was);
    }
}

proof fn lemma_names()
    ensures
        forall|a: Button, b: Button| #[trigger] a.name() == #[trigger] b.name() ==> a == b,
{
    reveal_strlit("A");
    reveal_strlit("B");
    reveal_strlit("X");
    reveal_strlit("Y");
    reveal_strlit("Z");
    reveal_strlit("START");
    reveal_strlit("D_UP");
    reveal_strlit("D_DOWN");
    reveal_strlit("D_LEFT");
    reveal_strlit("D_RIGHT");
    assert forall|a: Button, b: Button| #[trigger] a.name() == #[trigger] b.name() implies a
        == b by {
        let n = a.name();
        let m = b.name();
        assert(n.len() == m.len());
        assert(n[0] == m[0]);
        if n.len() > 1 {
            assert(n[2] == m[2]);
        }
    }
}

/// A command names one button, and its first letter tells its kind.
proof fn lemma_commands(a: Button, b: Button)
    ensures
        "PRESS "@ + a.name() == "PRESS "@ + b.name() ==> a == b,
        "RELEASE "@ + a.name() == "RELEASE "@ + b.name() ==> a == b,
        "PRESS "@ + a.name() != "RELEASE "@ + b.name(),
        ("PRESS "@ + a.name())[0] == 'P',
        ("RELEASE "@ + a.name())[0] == 'R',
{
    reveal_strlit("PRESS ");
    reveal_strlit("RELEASE ");
    lemma_names();
    let (p, q) = ("PRESS "@ + a.name(), "PRESS "@ + b.name());
    assert(p.skip(6) =~= a.name());
    assert(q.skip(6) =~= b.name());
    let (r, t) = ("RELEASE "@ + a.name(), "RELEASE "@ + b.name());
    assert(r.skip(8) =~= a.name());
    assert(t.skip(8) =~= b.name());
    assert(p[0] == 'P');
    assert(t[0] == 'R');
}

/// The commands for some buttons leave the others as they are.
proof fn lemma_button_lines(
    buttons: Seq<Button>,
    prev: DolphinState,
    now: DolphinState,
    b: Button,
)
    requires
        buttons.no_duplicates(),
    ensures
        held_after(button_lines(buttons, prev, now), b, b.held(prev)) == if buttons.contains(b) {
            b.held(now)
        } else {
            b.held(prev)
        },
    decreases buttons.len(),
{
    if buttons.len() > 0 {
        let rest = buttons.drop_last();
        let last = buttons.last();
        lemma_button_lines(rest, prev, now, b);
        let line = button_line(last.name(), last.held(prev), last.held(now));
        let before = button_lines(rest, prev, now);
        lemma_held_after_joined(before, line, b, b.held(prev));
        lemma_commands(last, b);
        lemma_commands(b, last);
        if rest.contains(b) {
            let k = choose|k: int| 0 <= k < rest.len() && rest[k] == b;
            assert(buttons[k] == b);
        }
        assert(buttons.contains(b) <==> rest.contains(b) || last == b) by {
            if buttons.contains(b) {
                let k = choose|k: int| 0 <= k < buttons.len() && buttons[k] == b;
                if k < rest.len() {
                    assert(rest[k] == b);
                }
            }
            assert(buttons[buttons.len() - 1] == last);
        }
        let w = held_after(before, b, b.held(prev));
        if last.held(prev) == last.held(now) {
            assert(held_after(line, b, w) == w);
        } else {
            assert(line.drop_last().len() == 0);
            assert(held_after(line.drop_last(), b, w) == w);
            if last == b {
                assert(held_after(line, b, w) == b.held(now));
            } else {
                assert(line.last() != "PRESS "@ + b.name());
                assert(line.last() != "RELEASE "@ + b.name());
                assert(held_after(line, b, w) == w);
            }
        }
        if last == b {
            assert(!rest.contains(b));
        }
    }
}

/// The analog commands press and release no button.
proof fn lemma_analog_lines(now: DolphinState, b: Button, was: bool)
    ensures
        held_after(analog_lines(now), b, was) == was,
{
    reveal_strlit("SET MAIN ");
    reveal_strlit("SET C ");
    reveal_strlit("SET L ");
    reveal_strlit("SET R ");
    lemma_commands(b, b);
    let lines = analog_lines(now);
    assert(lines[0][0] == 'S');
    assert(lines[1][0] == 'S');
    assert(lines[2][0] == 'S');
    assert(lines[3][0] == 'S');
    let l3 = lines.drop_last();
    let l2 = l3.drop_last();
    let l1 = l2.drop_last();
    assert(l3.last() == lines[2]);
    assert(l2.last() == lines[1]);
    assert(l1.last() == lines[0]);
    assert(l1.drop_last().len() == 0);
    reveal_with_fuel(held_after, 5);
}

/// A reader who held the buttons of the one state holds those of the other after the
/// commands, whatever the analog values do.
pub proof fn law_commands_lead_to_state(
    prev: DolphinState,
    now: DolphinState,
    elapsed_ns: u128,
    b: Button,
)
    ensures
        held_after(delta_lines(prev, now, elapsed_ns), b, b.held(prev)) == b.held(now),
{
    let all = Button::all();
    assert(all.contains(b)) by {
        assert(all[0] == Button::A && all[1] == Button::B && all[2] == Button::X && all[3]
            == Button::Y && all[4] == Button::Z && all[5] == Button::Start && all[6] == Button::DUp
            && all[7] == Button::DDown && all[8] == Button::DLeft && all[9] == Button::DRight);
    }
    lemma_button_lines(all, prev, now, b);
    let buttons = button_lines(all, prev, now);
    if analog_sent(prev, now, elapsed_ns) {
        lemma_held_after_joined(buttons, analog_lines(now), b, b.held(prev));
        lemma_analog_lines(now, b, b.held(now));
    } else {
        assert(delta_lines(prev, now, elapsed_ns) =~= buttons);
    }
}

/// Within a period after the analog values were last sent, only buttons give commands.
pub proof fn law_rate_limit(prev: DolphinState, now: DolphinState, elapsed_ns: u128)
    requires
        elapsed_ns < ANALOG_PERIOD_NS,
    ensures
        delta_lines(prev, now, elapsed_ns) == button_lines(Button::all(), prev, now),
{
    assert(delta_lines(prev, now, elapsed_ns) =~= button_lines(Button::all(), prev, now));
}

proof fn lemma_not_moved(v: Binary32)
    ensures
        !moved_spec(v, v),
{
    reveal(Binary32::plus_spec);
    let diff = v.minus(v);
    let zero = Binary32 { bits: 0 };
    let eps = Binary32 { bits: ANALOG_EPS_BITS };
    binary32::lemma_parts(v);
    binary32::lemma_with_sign(!v.sign(), v.key());
    precision::lemma_zero(eps);
    if v.is_finite() {
        precision::lemma_minus_self(v);
        assert(diff.absolute() == zero);
    } else {
        assert(diff.is_nan());
        assert(diff.absolute().is_nan());
    }
}

/// The least change that is sent is the number nearest to 0.0025, and the period is the
/// nearest whole number of nanoseconds in the number nearest to 1/120 s.
pub proof fn law_analog_constants()
    ensures
        Binary32::rounded(false, 25 * pow2(149), 10000) == (Binary32 { bits: ANALOG_EPS_BITS }),
        rounding::nearest_even(
            (Binary32 { bits: ONE_BITS }).over(Binary32::of_int(120)).magnitude() * 1_000_000_000,
            pow2(149),
        ) == ANALOG_PERIOD_NS,
{
    reveal(Binary32::over_spec);
    lemma2_to64();
    precision::lemma_nearest_pattern(25, 10000, 117, 10737418, 2400);
    let one = pow2(149);
    precision::lemma_one();
    precision::lemma_of_int(120);
    lemma_pow2_pos(149);
    let x = Binary32 { bits: ONE_BITS };
    let y = Binary32::of_int(120);
    let q = x.over(y);
    precision::lemma_zero(y);
    assert(one * one * 120 == one * (120 * one)) by (nonlinear_arith);
    rounding::lemma_rank_same(one * one, 120 * one, one, 120);
    precision::lemma_nearest_pattern(1, 120, 119, 8947848, 64);
    assert(1 * one == one);
    precision::lemma_key_magnitude(false, 119, 8947849);
    let p = pow2(119);
    lemma_pow2_adds(30, 119);
    lemma_pow2_pos(119);
    assert((8947849 * p) * 1_000_000_000 == p * (8947849 * 1_000_000_000)) by (nonlinear_arith);
    lemma_mul_is_commutative(p as int, pow2(30) as int);
    rounding::lemma_nearest_even_scale(8947849 * 1_000_000_000, pow2(30), p);
    rounding::lemma_nearest_even_from(
        8947849 * 1_000_000_000,
        pow2(30),
        8333333,
        (8947849 * 1_000_000_000 - 8333333 * 0x4000_0000) as nat,
    );
}

proof fn lemma_no_button_lines(buttons: Seq<Button>, state: DolphinState)
    ensures
        button_lines(buttons, state, state) == Seq::<Seq<char>>::empty(),
    decreases buttons.len(),
{
    if buttons.len() > 0 {
        lemma_no_button_lines(buttons.drop_last(), state);
        assert(button_lines(buttons, state, state) =~= seq![]);
    }
}

/// A state that stays the same gives no commands, however long it stays.
pub proof fn law_same_state_is_silent(state: DolphinState, elapsed_ns: u128)
    ensures
        delta_lines(state, state, elapsed_ns) == Seq::<Seq<char>>::empty(),
{
    lemma_no_button_lines(Button::all(), state);
    lemma_not_moved(state.main_x);
    lemma_not_moved(state.main_y);
    lemma_not_moved(state.c_x);
    lemma_not_moved(state.c_y);
    lemma_not_moved(state.l);
    lemma_not_moved(state.r);
    assert(delta_lines(state, state, elapsed_ns) =~= seq![]);
}

/// How far apart two numbers are, in units of `2^-149`.
pub open spec fn gap(a: Binary32, b: Binary32) -> int {
    if a.units() < b.units() {
        b.units() - a.units()
    } else {
        a.units() - b.units()
    }
}

/// Two numbers count as apart if the exact distance between them is at least the number
/// after the threshold, and do not if it is at most the threshold. Between the two the
/// rounding of the distance decides.
pub proof fn law_moved(prev: Binary32, now: Binary32)
    requires
        prev.is_finite(),
        now.is_finite(),
    ensures
        gap(prev, now) >= (Binary32 { bits: 0x3B23_D70B }).magnitude() ==> moved_spec(prev, now),
        gap(prev, now) <= (Binary32 { bits: 0x3B23_D70A }).magnitude() ==> !moved_spec(prev, now),
{
    reveal(Binary32::plus_spec);
    let eps = Binary32 { bits: ANALOG_EPS_BITS };
    let next = Binary32 { bits: 0x3B23_D70B };
    let n = now.negated();
    let d = prev.minus(now);
    let g = gap(prev, now) as nat;
    let a = d.absolute();
    binary32::lemma_parts(now);
    binary32::lemma_with_sign(!now.sign(), now.key());
    binary32::lemma_magnitude_order(now, n);
    assert(n.units() == -now.units());
    assert(n.is_finite());
    precision::lemma_sum(prev, n);
    binary32::lemma_parts(d);
    binary32::lemma_with_sign(false, d.key());
    assert(eps.key() == ANALOG_EPS_BITS && next.key() == 0x3B23_D70B);
    assert(!eps.sign() && !a.sign());
    precision::lemma_exact(eps, 1);
    precision::lemma_exact(next, 1);
    precision::lemma_zero(eps);
    assert(g > 0 ==> d.key() == rounding::round_magnitude(g, 1));
    if g >= next.magnitude() {
        precision::lemma_zero(next);
        precision::law_rounding_keeps_order(next.magnitude() * 1, 1, g, 1);
        binary32::lemma_magnitude_order(eps, a);
    }
    if g <= eps.magnitude() {
        if g > 0 {
            precision::law_rounding_keeps_order(g, 1, eps.magnitude() * 1, 1);
        }
        binary32::lemma_magnitude_order(a, eps);
    }
}

/// Whether some one of the six analog values is at least `limit` apart in the two states.
pub open spec fn some_gap_from(prev: DolphinState, now: DolphinState, limit: int) -> bool {
    gap(prev.main_x, now.main_x) >= limit || gap(prev.main_y, now.main_y) >= limit || gap(
        prev.c_x,
        now.c_x,
    ) >= limit || gap(prev.c_y, now.c_y) >= limit || gap(prev.l, now.l) >= limit || gap(
        prev.r,
        now.r,
    ) >= limit
}

/// Every analog value is finite.
pub open spec fn all_finite(s: DolphinState) -> bool {
    s.main_x.is_finite() && s.main_y.is_finite() && s.c_x.is_finite() && s.c_y.is_finite()
        && s.l.is_finite() && s.r.is_finite()
}

/// Once the period has passed, one value that moved by more than the threshold is enough,
/// whatever the other five do: the commands end with the four that set the new state's
/// values. Before that, or where no value moved by more than the threshold, there are none.
pub proof fn law_analog_is_sent(prev: DolphinState, now: DolphinState, elapsed_ns: u128)
    requires
        all_finite(prev),
        all_finite(now),
    ensures
        ({
            let lines = delta_lines(prev, now, elapsed_ns);
            let tail = seq![
                "SET MAIN "@ + analog_text(now.main_x) + " "@ + analog_text(now.main_y),
                "SET C "@ + analog_text(now.c_x) + " "@ + analog_text(now.c_y),
                "SET L "@ + analog_text(now.l),
                "SET R "@ + analog_text(now.r),
            ];
            let least = (Binary32 { bits: 0x3B23_D70B }).magnitude() as int;
            let most = (Binary32 { bits: 0x3B23_D70A }).magnitude() as int;
            &&& elapsed_ns >= 8_333_334 && some_gap_from(prev, now, least) ==> analog_sent(
                prev,
                now,
                elapsed_ns,
            ) && lines == button_lines(Button::all(), prev, now) + tail
            &&& elapsed_ns < 8_333_334 || !some_gap_from(prev, now, most + 1) ==> !analog_sent(
                prev,
                now,
                elapsed_ns,
            ) && lines == button_lines(Button::all(), prev, now)
        }),
{
    law_moved(prev.main_x, now.main_x);
    law_moved(prev.main_y, now.main_y);
    law_moved(prev.c_x, now.c_x);
    law_moved(prev.c_y, now.c_y);
    law_moved(prev.l, now.l);
    law_moved(prev.r, now.r);
    let buttons = button_lines(Button::all(), prev, now);
    assert(buttons + Seq::<Seq<char>>::empty() =~= buttons);
}

/// The text of an analog value from 0 to 1 is that of the value; one above is that of 1, and
/// one below, or none at all, that of 0.
pub proof fn law_analog_text(v: Binary32)
    ensures
        !v.is_nan() && 0 <= v.units() <= pow2(149) ==> analog_text(v) == text::fixed_text(v)
            && v.key() <= ONE_BITS,
        !v.is_nan() && v.units() > pow2(149) ==> analog_text(v) == text::fixed_text(
            Binary32 { bits: 0x3F80_0000 },
        ),
        v.is_nan() || v.units() < 0 ==> analog_text(v) == text::fixed_text(Binary32 { bits: 0 }),
{
    let zero = Binary32 { bits: 0 };
    lemma_clamped(v);
    precision::lemma_one();
    precision::lemma_zero(zero);
    assert(!(Binary32 { bits: ONE_BITS }).sign());
}

/// The command for a button that was held or not and is held or not.
pub open spec fn command(name: Seq<char>, held: bool, now: bool) -> Seq<Seq<char>> {
    if held && !now {
        seq!["RELEASE "@ + name]
    } else if !held && now {
        seq!["PRESS "@ + name]
    } else {
        seq![]
    }
}

/// The command for a button: none where it stays, else one, PRESS where it is held now.
pub proof fn law_button_line(name: Seq<char>, held: bool, now: bool)
    ensures
        button_line(name, held, now) == command(name, held, now),
{
}

/// The commands for the buttons, one after the other: A, B, X, Y, Z, START and the
/// directions up, down, left and right, each by its own change alone.
pub proof fn law_button_commands(prev: DolphinState, now: DolphinState)
    ensures
        button_lines(Button::all(), prev, now) == command("A"@, prev.a, now.a) + command(
            "B"@,
            prev.b,
            now.b,
        ) + command("X"@, prev.x, now.x) + command("Y"@, prev.y, now.y) + command(
            "Z"@,
            prev.z,
            now.z,
        ) + command("START"@, prev.start, now.start) + command("D_UP"@, prev.d_up, now.d_up)
            + command("D_DOWN"@, prev.d_down, now.d_down) + command(
            "D_LEFT"@,
            prev.d_left,
            now.d_left,
        ) + command("D_RIGHT"@, prev.d_right, now.d_right),
{
    let all = Button::all();
    let none = Seq::<Seq<char>>::empty();
    lemma_next_button(all, prev, now, 0);
    lemma_next_button(all, prev, now, 1);
    lemma_next_button(all, prev, now, 2);
    lemma_next_button(all, prev, now, 3);
    lemma_next_button(all, prev, now, 4);
    lemma_next_button(all, prev, now, 5);
    lemma_next_button(all, prev, now, 6);
    lemma_next_button(all, prev, now, 7);
    lemma_next_button(all, prev, now, 8);
    lemma_next_button(all, prev, now, 9);
    assert(all.take(10) =~= all);
    assert(button_lines(all.take(0), prev, now) == none);
    let first = command("A"@, prev.a, now.a);
    assert(none + first =~= first);
}

proof fn lemma_next_button(all: Seq<Button>, prev: DolphinState, now: DolphinState, i: int)
    requires
        0 <= i < all.len(),
    ensures
        button_lines(all.take(i + 1), prev, now) == button_lines(all.take(i), prev, now)
            + button_line(all[i].name(), all[i].held(prev), all[i].held(now)),
{
    let more = all.take(i + 1);
    assert(more.drop_last() =~= all.take(i));
    assert(more.last() == all[i]);
}

/// The names of the buttons, and what each of them is in a state.
pub proof fn law_buttons(s: DolphinState)
    ensures
        Button::A.name() == "A"@ && Button::A.held(s) == s.a,
        Button::B.name() == "B"@ && Button::B.held(s) == s.b,
        Button::X.name() == "X"@ && Button::X.held(s) == s.x,
        Button::Y.name() == "Y"@ && Button::Y.held(s) == s.y,
        Button::Z.name() == "Z"@ && Button::Z.held(s) == s.z,
        Button::Start.name() == "START"@ && Button::Start.held(s) == s.start,
        Button::DUp.name() == "D_UP"@ && Button::DUp.held(s) == s.d_up,
        Button::DDown.name() == "D_DOWN"@ && Button::DDown.held(s) == s.d_down,
        Button::DLeft.name() == "D_LEFT"@ && Button::DLeft.held(s) == s.d_left,
        Button::DRight.name() == "D_RIGHT"@ && Button::DRight.held(s) == s.d_right,
{
}

/// The pipe's path is below the home directory: it starts with the home directory, ends with
/// the path from there, and has a slash between the two of its own only where the home
/// directory is not empty and does not end with one.
pub proof fn law_pipe_path(home: Seq<char>)
    ensures
        ({
            let tail = "Library/Application Support/Dolphin/Pipes/powera"@;
            let path = pipe_path(home);
            let n = home.len() as int;
            &&& n == 0 || home[n - 1] == '/' ==> path == home + tail
            &&& n > 0 && home[n - 1] != '/' ==> path == home + seq!['/'] + tail
        }),
{
    assert(home + Seq::<char>::empty() =~= home);
}

/// The pipe is opened again, after a quarter of a second, if and only if it failed for want
/// of a reader.
pub proof fn law_open_failures(code: Option<i32>, no_reader: i32)
    ensures
        code == Some(no_reader) <==> after_open_failure(code, no_reader) is Retry,
        after_open_failure(code, no_reader) is Retry ==> after_open_failure(
            code,
            no_reader,
        )->delay_ms == 250,
{
}

/// The pipe is waited for again if and only if writing failed because its reader was gone.
pub proof fn law_write_failures(code: Option<i32>, broken_pipe: i32)
    ensures
        code == Some(broken_pipe) <==> after_write_failure(code, broken_pipe) is Reconnect,
{
}

/// Where a number is missing on either side nothing counts as moved; an infinity and a finite
/// number are always apart.
pub proof fn law_moved_not_finite(prev: Binary32, now: Binary32)
    ensures
        prev.is_nan() || now.is_nan() ==> !moved_spec(prev, now),
        prev.is_infinite() && now.is_finite() ==> moved_spec(prev, now),
        prev.is_finite() && now.is_infinite() ==> moved_spec(prev, now),
{
    reveal(Binary32::plus_spec);
    let eps = Binary32 { bits: ANALOG_EPS_BITS };
    let d = prev.minus(now);
    let a = d.absolute();
    binary32::lemma_parts(now);
    binary32::lemma_parts(prev);
    binary32::lemma_with_sign(!now.sign(), now.key());
    binary32::lemma_parts(d);
    binary32::lemma_with_sign(false, d.key());
    binary32::lemma_magnitude_order(eps, a);
    assert(eps.key() == ANALOG_EPS_BITS);
    assert(Binary32::nan().is_nan());
}

/// The commands are those for the buttons and then, if the period has passed and one or more
/// of the six analog values moved, the four that set them all; nothing else.
pub proof fn law_commands(prev: DolphinState, now: DolphinState, elapsed_ns: u128)
    ensures
        ({
            let due = elapsed_ns >= 8_333_334 && (moved_spec(prev.main_x, now.main_x) || moved_spec(
                prev.main_y,
                now.main_y,
            ) || moved_spec(prev.c_x, now.c_x) || moved_spec(prev.c_y, now.c_y) || moved_spec(
                prev.l,
                now.l,
            ) || moved_spec(prev.r, now.r));
            let buttons = button_lines(Button::all(), prev, now);
            let tail = seq![
                "SET MAIN "@ + analog_text(now.main_x) + " "@ + analog_text(now.main_y),
                "SET C "@ + analog_text(now.c_x) + " "@ + analog_text(now.c_y),
                "SET L "@ + analog_text(now.l),
                "SET R "@ + analog_text(now.r),
            ];
            &&& analog_sent(prev, now, elapsed_ns) == due
            &&& due ==> delta_lines(prev, now, elapsed_ns) == buttons + tail
            &&& !due ==> delta_lines(prev, now, elapsed_ns) == buttons
        }),
{
    let buttons = button_lines(Button::all(), prev, now);
    assert(buttons + Seq::<Seq<char>>::empty() =~= buttons);
}

/// The texts of lines are the lines' own, one for one.
pub proof fn law_texts(lines: Seq<String>, i: int)
    ensures
        texts(lines).len() == lines.len(),
        0 <= i < lines.len() ==> texts(lines)[i] == lines[i]@,
{
}

/// Whether a value moved is decided by its rounded distance: it moved if that is more than
/// the threshold.
pub proof fn law_moved_steps(prev: Binary32, now: Binary32)
    ensures
        moved_spec(prev, now) <==> (Binary32 { bits: 0x3B23_D70A }).less(
            prev.minus(now).absolute(),
        ),
{
}

} // verus!
