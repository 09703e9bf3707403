//! Programs for the controller and the machine that runs them.
//!
//! The controller is driven over I2C with two-byte writes: a control byte
//! (`SSD1315_COMMAND` or `SSD1315_DATA`) and a payload. A program is a list
//! of steps; `Transfer` runs one, telling its caller which write to make next
//! and learning whether it worked. A failed command write stops the program;
//! a failed data write is counted out and the program goes on.

use vstd::prelude::*;
use crate::pixels::{blank, SSD1315_WIDTH};
use crate::ssd1315::{law_buffer_len, SSD1315};

verus! {

/// Control byte of a command write.
pub const SSD1315_COMMAND: u8 = 0x00;
/// Control byte of a display-data write.
pub const SSD1315_DATA: u8 = 0x40;

pub const SSD1315_DISPLAY_OFF: u8 = 0xae;
pub const SSD1315_DISPLAY_ON: u8 = 0xaf;
pub const SSD1315_SET_CONTRAST: u8 = 0x81;
pub const SSD1315_NORMAL_DISPLAY: u8 = 0xa6;
pub const SSD1315_INVERT_DISPLAY: u8 = 0xa7;
pub const SSD1315_DEACTIVEATE_SCROLL: u8 = 0x2e;
pub const SSD1315_ACTIVATE_SCROLL: u8 = 0x2f;
pub const SSD1315_SET_MEMORY_ADDR_MODE: u8 = 0x20;
pub const SSD1315_SET_COLUMN_ADDR: u8 = 0x21;
pub const SSD1315_SET_PAGE_ADDR: u8 = 0x22;
pub const SSD1315_SET_START_LINE: u8 = 0x40;
pub const SSD1315_SET_DISPLAY_OFFSET: u8 = 0xd3;
pub const SSD1315_SET_SEGMENT_REMAP: u8 = 0xa0;
pub const SSD1315_SET_COM_SCAN_DIR: u8 = 0xc0;
pub const SSD1315_SET_COM_PINS: u8 = 0xda;
pub const SSD1315_SET_MULTIPLEX_RATIO: u8 = 0xa8;
pub const SSD1315_SET_DISPLAY_CLOCK: u8 = 0xd5;
pub const SSD1315_SET_PRECHARGE: u8 = 0xd9;
pub const SSD1315_SET_VCOM_DETECT: u8 = 0xd8;
pub const SSD1315_CHARGE_PUMP: u8 = 0x8d;
pub const SSD1315_SOFT_RESET: u8 = 0xe3;

/// One step of a program.
#[derive(Clone, Copy, PartialEq, Eq, Debug)]
pub enum Step {
    /// Write one command byte; if the write fails the program fails.
    Command(u8),
    /// Darken the frame buffer.
    Clear,
    /// Write every byte of the frame buffer, in order, as display data.
    SendBuffer,
}

/// What the caller of `Transfer::poll` is to do next.
#[derive(Clone, Copy, PartialEq, Eq, Debug)]
pub enum Action {
    /// Write these two bytes (control byte, payload) and report the outcome.
    Write(u8, u8),
    /// The program has run to its end; the number of data bytes written.
    Done(usize),
    /// A command write failed and the program stopped there.
    Failed,
}

/// Where a program stands.
pub ghost struct TransferState {
    pub steps: Seq<Step>,
    /// The current step.
    pub pc: int,
    /// Within a `SendBuffer` step, the next buffer byte.
    pub offset: int,
    /// Data bytes written so far.
    pub delivered: int,
    /// A write has been handed out and its outcome not yet reported.
    pub pending: bool,
    pub failed: bool,
}

/// A program being run.
pub struct Transfer {
    steps: Vec<Step>,
    pc: usize,
    offset: usize,
    delivered: usize,
    pending: bool,
    failed: bool,
}

impl View for Transfer {
    type V = TransferState;

    closed spec fn view(&self) -> TransferState {
        TransferState {
            steps: self.steps@,
            pc: self.pc as int,
            offset: self.offset as int,
            delivered: self.delivered as int,
            pending: self.pending,
            failed: self.failed,
        }
    }
}

/// The state a program starts in.
pub open spec fn start_state(steps: Seq<Step>) -> TransferState {
    TransferState { steps, pc: 0, offset: 0, delivered: 0, pending: false, failed: false }
}

/// The states a program can be in: a write is outstanding only at a step
/// that writes, and a program that failed has none.
pub open spec fn valid_state(st: TransferState) -> bool {
    &&& st.steps.len() <= 64
    &&& 0 <= st.pc <= st.steps.len()
    &&& 0 <= st.offset <= 1024
    &&& 0 <= st.delivered <= 1024 * st.pc + st.offset
    &&& (st.pc < st.steps.len() && st.steps[st.pc] != Step::SendBuffer) ==> st.offset == 0
    &&& st.pending ==> {
        &&& !st.failed
        &&& st.pc < st.steps.len()
        &&& st.steps[st.pc] != Step::Clear
        &&& st.steps[st.pc] == Step::SendBuffer ==> st.offset < 1024
    }
}

/// What `poll` does from state `st` with frame buffer `buf`: the new state,
/// the new buffer and the action. `Clear` steps are carried out on the way
/// and so is the end of a `SendBuffer` step; a step that writes hands its
/// write out (again, if it is still outstanding).
pub open spec fn poll_spec(st: TransferState, buf: Seq<u8>) -> (TransferState, Seq<u8>, Action)
    decreases st.steps.len() - st.pc, 1024 - st.offset,
{
    if st.failed {
        (st, buf, Action::Failed)
    } else if st.pc >= st.steps.len() || st.pc < 0 {
        (st, buf, Action::Done(st.delivered as usize))
    } else {
        match st.steps[st.pc] {
            Step::Command(c) => (TransferState { pending: true, ..st }, buf, Action::Write(0x00, c)),
            Step::Clear => poll_spec(TransferState { pc: st.pc + 1, offset: 0, ..st }, blank()),
            Step::SendBuffer => if 0 <= st.offset < buf.len() {
                (TransferState { pending: true, ..st }, buf, Action::Write(0x40, buf[st.offset]))
            } else {
                poll_spec(TransferState { pc: st.pc + 1, offset: 0, ..st }, buf)
            },
        }
    }
}

/// What `report` does to state `st` given the outcome of the outstanding
/// write: a failed command write fails the program; a data write moves on
/// whatever its outcome, counting it when it worked.
pub open spec fn report_spec(st: TransferState, ok: bool) -> TransferState {
    if !st.pending || st.pc < 0 || st.pc >= st.steps.len() {
        st
    } else {
        match st.steps[st.pc] {
            Step::Command(_) => if ok {
                TransferState { pc: st.pc + 1, pending: false, ..st }
            } else {
                TransferState { failed: true, pending: false, ..st }
            },
            Step::SendBuffer => TransferState {
                offset: st.offset + 1,
                delivered: st.delivered + (if ok { 1int } else { 0int }),
                pending: false,
                ..st
            },
            Step::Clear => st,
        }
    }
}

impl Transfer {
    pub closed spec fn wf(&self) -> bool {
        valid_state(self@)
    }

    /// A transfer at the start of `steps`.
    pub fn start(steps: Vec<Step>) -> (t: Transfer)
        requires
            steps@.len() <= 64,
        ensures
            t@ == start_state(steps@),
            t.wf(),
    {
        Transfer { steps, pc: 0, offset: 0, delivered: 0, pending: false, failed: false }
    }

    /// Position of the current step in the program.
    pub fn step_index(&self) -> (r: usize)
        ensures
            r == self@.pc,
    {
        self.pc
    }

    /// The next thing to do; `Clear` steps are carried out on `display`.
    pub fn poll(&mut self, display: &mut SSD1315) -> (a: Action)
        requires
            old(self).wf(),
        ensures
            final(self).wf(),
            final(display)@.len() == 1024,
            final(self)@ == poll_spec(old(self)@, old(display)@).0,
            final(display)@ == poll_spec(old(self)@, old(display)@).1,
            a == poll_spec(old(self)@, old(display)@).2,
    {
        proof {
            law_buffer_len(display);
        }
        loop
            invariant
                self.wf(),
                display@.len() == 1024,
                poll_spec(old(self)@, old(display)@) == poll_spec(self@, display@),
            decreases self.steps@.len() - self.pc, 1024 - self.offset,
        {
            if self.failed {
                return Action::Failed;
            }
            if self.pc >= self.steps.len() {
                return Action::Done(self.delivered);
            }
            match self.steps[self.pc] {
                Step::Command(c) => {
                    self.pending = true;
                    return Action::Write(SSD1315_COMMAND, c);
                },
                Step::Clear => {
                    display.clear();
                    self.pc = self.pc + 1;
                    self.offset = 0;
                },
                Step::SendBuffer => {
                    if self.offset < 1024 {
                        self.pending = true;
                        return Action::Write(SSD1315_DATA, display.byte(self.offset));
                    }
                    self.pc = self.pc + 1;
                    self.offset = 0;
                },
            }
        }
    }

    /// Reports the outcome of the outstanding write; without one, nothing
    /// changes.
    pub fn report(&mut self, ok: bool)
        requires
            old(self).wf(),
        ensures
            final(self).wf(),
            final(self)@ == report_spec(old(self)@, ok),
    {
        if !self.pending || self.pc >= self.steps.len() {
            return;
        }
        match self.steps[self.pc] {
            Step::Command(_) => {
                if ok {
                    self.pc = self.pc + 1;
                } else {
                    self.failed = true;
                }
                self.pending = false;
            },
            Step::SendBuffer => {
                self.offset = self.offset + 1;
                if ok {
                    self.delivered = self.delivered + 1;
                }
                self.pending = false;
            },
            Step::Clear => {},
        }
    }
}


/// The writes of display data that send `buf`, in order.
pub open spec fn data_writes(buf: Seq<u8>) -> Seq<(u8, u8)> {
    Seq::new(buf.len(), |i: int| (0x40u8, buf[i]))
}

/// The writes a program makes when every write works, starting with frame
/// buffer `buf`.
pub open spec fn writes_from(steps: Seq<Step>, buf: Seq<u8>) -> Seq<(u8, u8)>
    decreases steps.len(),
{
    if steps.len() == 0 {
        Seq::empty()
    } else {
        match steps[0] {
            Step::Command(c) => seq![(0x00u8, c)] + writes_from(steps.drop_first(), buf),
            Step::Clear => writes_from(steps.drop_first(), blank()),
            Step::SendBuffer => data_writes(buf) + writes_from(steps.drop_first(), buf),
        }
    }
}

/// How many of `ws` are data writes.
pub open spec fn data_count(ws: Seq<(u8, u8)>) -> int
    decreases ws.len(),
{
    if ws.len() == 0 {
        0
    } else {
        (if ws[0].0 == 0x40u8 {
            1int
        } else {
            0int
        }) + data_count(ws.drop_first())
    }
}

/// The writes that remain to be made from state `st` with buffer `buf` when
/// every write works.
pub open spec fn remaining_writes(st: TransferState, buf: Seq<u8>) -> Seq<(u8, u8)> {
    if st.pc < 0 || st.pc >= st.steps.len() {
        Seq::empty()
    } else if st.steps[st.pc] == Step::SendBuffer {
        data_writes(buf).skip(st.offset) + writes_from(st.steps.skip(st.pc + 1), buf)
    } else {
        writes_from(st.steps.skip(st.pc), buf)
    }
}

/// One round: `poll`, then, if it handed out a write, `report(ok)`. The new
/// state and buffer and the action that `poll` gave.
pub open spec fn round(st: TransferState, buf: Seq<u8>, ok: bool) -> (TransferState, Seq<u8>, Action) {
    let p = poll_spec(st, buf);
    match p.2 {
        Action::Write(_, _) => (report_spec(p.0, ok), p.1, p.2),
        _ => p,
    }
}

/// The writes handed out in `n` rounds in which every write works.
pub open spec fn run_ok(st: TransferState, buf: Seq<u8>, n: nat) -> Seq<(u8, u8)>
    decreases n,
{
    if n == 0 {
        Seq::empty()
    } else {
        let r = round(st, buf, true);
        match r.2 {
            Action::Write(c, d) => seq![(c, d)] + run_ok(r.0, r.1, (n - 1) as nat),
            _ => Seq::empty(),
        }
    }
}

/// The state and buffer after `n` rounds in which every write works.
pub open spec fn after_ok(st: TransferState, buf: Seq<u8>, n: nat) -> (TransferState, Seq<u8>)
    decreases n,
{
    if n == 0 {
        (st, buf)
    } else {
        let r = round(st, buf, true);
        after_ok(r.0, r.1, (n - 1) as nat)
    }
}

proof fn lemma_remaining_at_step_start(st: TransferState, buf: Seq<u8>)
    requires
        0 <= st.pc < st.steps.len(),
        st.offset == 0,
    ensures
        remaining_writes(st, buf) == writes_from(st.steps.skip(st.pc), buf),
{
    let rest = st.steps.skip(st.pc);
    assert(rest.drop_first() =~= st.steps.skip(st.pc + 1));
    assert(rest[0] == st.steps[st.pc]);
    if st.steps[st.pc] == Step::SendBuffer {
        assert(data_writes(buf).skip(0) =~= data_writes(buf));
    }
}

proof fn lemma_remaining_at_end(st: TransferState, buf: Seq<u8>)
    requires
        st.pc == st.steps.len(),
    ensures
        remaining_writes(st, buf) == writes_from(st.steps.skip(st.pc), buf),
{
    assert(st.steps.skip(st.pc) =~= Seq::<Step>::empty());
}

/// One round in which the write works hands out the first remaining write
/// and leaves the rest; with none remaining, `poll` reports the end.
proof fn lemma_round_ok(st: TransferState, buf: Seq<u8>)
    requires
        valid_state(st),
        !st.failed,
        !st.pending,
        buf.len() == 1024,
    ensures
        ({
            let r = round(st, buf, true);
            let rem = remaining_writes(st, buf);
            &&& rem.len() == 0 ==> r.2 == Action::Done(st.delivered as usize)
            &&& rem.len() > 0 ==> {
                &&& r.2 == Action::Write(rem[0].0, rem[0].1)
                &&& valid_state(r.0)
                &&& !r.0.failed
                &&& !r.0.pending
                &&& r.1.len() == 1024
                &&& r.0.steps == st.steps
                &&& remaining_writes(r.0, r.1) == rem.drop_first()
                &&& r.0.delivered == st.delivered + (if rem[0].0 == 0x40u8 { 1int } else { 0int })
            }
        }),
    decreases st.steps.len() - st.pc, 1024 - st.offset,
{
    if st.pc >= st.steps.len() {
    } else {
        match st.steps[st.pc] {
            Step::Command(c) => {
                lemma_remaining_at_step_start(st, buf);
                let rest = st.steps.skip(st.pc);
                assert(rest.drop_first() =~= st.steps.skip(st.pc + 1));
                assert(rest[0] == st.steps[st.pc]);
                let st2 = TransferState { pc: st.pc + 1, pending: false, ..st };
                if st2.pc < st2.steps.len() {
                    lemma_remaining_at_step_start(st2, buf);
                } else {
                    lemma_remaining_at_end(st2, buf);
                }
            },
            Step::Clear => {
                lemma_remaining_at_step_start(st, buf);
                let rest = st.steps.skip(st.pc);
                assert(rest.drop_first() =~= st.steps.skip(st.pc + 1));
                assert(rest[0] == st.steps[st.pc]);
                let st2 = TransferState { pc: st.pc + 1, offset: 0, ..st };
                if st2.pc < st2.steps.len() {
                    lemma_remaining_at_step_start(st2, blank());
                } else {
                    lemma_remaining_at_end(st2, blank());
                }
                lemma_round_ok(st2, blank());
            },
            Step::SendBuffer => {
                let rem = remaining_writes(st, buf);
                if st.offset < 1024 {
                    let st2 = TransferState {
                        offset: st.offset + 1,
                        delivered: st.delivered + 1,
                        pending: false,
                        ..st
                    };
                    assert(rem[0] == (0x40u8, buf[st.offset]));
                    assert(data_writes(buf).skip(st.offset + 1) =~= data_writes(buf).skip(
                        st.offset,
                    ).drop_first());
                    assert(remaining_writes(st2, buf) =~= rem.drop_first());
                } else {
                    assert(data_writes(buf).skip(st.offset) =~= Seq::<(u8, u8)>::empty());
                    assert(rem =~= writes_from(st.steps.skip(st.pc + 1), buf));
                    let st2 = TransferState { pc: st.pc + 1, offset: 0, ..st };
                    if st2.pc < st2.steps.len() {
                        lemma_remaining_at_step_start(st2, buf);
                    } else {
                        lemma_remaining_at_end(st2, buf);
                    }
                    lemma_round_ok(st2, buf);
                }
            },
        }
    }
}

proof fn lemma_run_ok(st: TransferState, buf: Seq<u8>)
    requires
        valid_state(st),
        !st.failed,
        !st.pending,
        buf.len() == 1024,
    ensures
        ({
            let rem = remaining_writes(st, buf);
            let end = after_ok(st, buf, rem.len());
            &&& run_ok(st, buf, rem.len()) == rem
            &&& poll_spec(end.0, end.1).2 == Action::Done((st.delivered + data_count(rem)) as usize)
        }),
    decreases remaining_writes(st, buf).len(),
{
    let rem = remaining_writes(st, buf);
    lemma_round_ok(st, buf);
    if rem.len() == 0 {
    } else {
        let r = round(st, buf, true);
        lemma_run_ok(r.0, r.1);
        assert(run_ok(st, buf, rem.len()) =~= seq![rem[0]] + rem.drop_first());
    }
}

/// When every write works, a program hands out exactly the writes of
/// `writes_from`, in order, and then ends, reporting as many data bytes
/// written as there were data writes.
pub proof fn law_program_when_writes_work(steps: Seq<Step>, buf: Seq<u8>)
    requires
        steps.len() <= 64,
        buf.len() == 1024,
    ensures
        ({
            let ws = writes_from(steps, buf);
            let end = after_ok(start_state(steps), buf, ws.len());
            &&& run_ok(start_state(steps), buf, ws.len()) == ws
            &&& poll_spec(end.0, end.1).2 == Action::Done(data_count(ws) as usize)
        }),
{
    let st = start_state(steps);
    if steps.len() > 0 {
        lemma_remaining_at_step_start(st, buf);
    } else {
        lemma_remaining_at_end(st, buf);
    }
    assert(steps.skip(0) =~= steps);
    lemma_run_ok(st, buf);
}


/// A program of command writes.
pub open spec fn commands(cs: Seq<u8>) -> Seq<Step> {
    Seq::new(cs.len(), |i: int| Step::Command(cs[i]))
}

/// The command writes that send `cs`, in order.
pub open spec fn command_writes(cs: Seq<u8>) -> Seq<(u8, u8)> {
    Seq::new(cs.len(), |i: int| (0x00u8, cs[i]))
}

/// The configuration sent after a reset: display off, clock, multiplex
/// ratio, display offset, start line, charge pump on, horizontal addressing,
/// segment remap, COM scan direction, COM pins, contrast, pre-charge, VCOMH
/// level, scrolling off, normal (not inverted) display.
pub open spec fn config_commands() -> Seq<u8> {
    seq![
        0xaeu8, 0xd5u8, 0x80u8, 0xa8u8, 0x3fu8, 0xd3u8, 0x00u8, 0x40u8, 0x8du8, 0x14u8, 0x20u8,
        0x00u8, 0xa1u8, 0xc8u8, 0xdau8, 0x12u8, 0x81u8, 0xcfu8, 0xd9u8, 0xf1u8, 0xd8u8, 0x40u8,
        0x2eu8, 0xa6u8,
    ]
}

/// Display on, then the whole panel as the address window: columns 0 to
/// 127, pages 0 to 7.
pub open spec fn display_commands() -> Seq<u8> {
    seq![0xafu8, 0x21u8, 0x00u8, 0x7fu8, 0x22u8, 0x00u8, 0x07u8]
}

/// Sends the frame buffer to the panel, switching the panel on.
pub open spec fn display_program() -> Seq<Step> {
    commands(display_commands()).push(Step::SendBuffer)
}

/// Soft reset.
pub open spec fn reset_program() -> Seq<Step> {
    commands(seq![0xe3u8])
}

/// Reset, configuration, then a dark buffer sent to the panel.
pub open spec fn init_program() -> Seq<Step> {
    reset_program() + commands(config_commands()) + seq![Step::Clear] + display_program()
}

/// Sets the contrast to `level`.
pub open spec fn contrast_program(level: u8) -> Seq<Step> {
    commands(seq![0x81u8, level])
}

/// Display off and charge pump off.
pub open spec fn sleep_program() -> Seq<Step> {
    commands(seq![0xaeu8, 0x8du8, 0x10u8])
}

/// Charge pump on, display on, then the frame buffer sent to the panel.
pub open spec fn wake_program() -> Seq<Step> {
    commands(seq![0x8du8, 0x14u8, 0xafu8]) + display_program()
}

proof fn lemma_writes_of_commands(cs: Seq<u8>, rest: Seq<Step>, buf: Seq<u8>)
    ensures
        writes_from(commands(cs) + rest, buf) == command_writes(cs) + writes_from(rest, buf),
    decreases cs.len(),
{
    if cs.len() == 0 {
        assert(commands(cs) + rest =~= rest);
        assert(command_writes(cs) + writes_from(rest, buf) =~= writes_from(rest, buf));
    } else {
        let steps = commands(cs) + rest;
        assert(steps[0] == Step::Command(cs[0]));
        assert(steps.drop_first() =~= commands(cs.drop_first()) + rest);
        lemma_writes_of_commands(cs.drop_first(), rest, buf);
        assert(command_writes(cs) =~= seq![(0x00u8, cs[0])] + command_writes(cs.drop_first()));
    }
}

proof fn lemma_writes_send_buffer(buf: Seq<u8>)
    ensures
        writes_from(seq![Step::SendBuffer], buf) == data_writes(buf),
{
    let steps = seq![Step::SendBuffer];
    assert(steps.drop_first() =~= Seq::<Step>::empty());
    assert(steps[0] == Step::SendBuffer);
    assert(writes_from(Seq::<Step>::empty(), buf) == Seq::<(u8, u8)>::empty());
    assert(writes_from(steps, buf) == data_writes(buf) + writes_from(steps.drop_first(), buf));
    assert(data_writes(buf) + Seq::<(u8, u8)>::empty() =~= data_writes(buf));
}

/// `display` sends the display commands and then every byte of the frame
/// buffer, in order, as display data.
pub proof fn law_display_sends_buffer(buf: Seq<u8>)
    ensures
        writes_from(display_program(), buf) == command_writes(display_commands()) + data_writes(
            buf,
        ),
{
    assert(display_program() =~= commands(display_commands()) + seq![Step::SendBuffer]);
    lemma_writes_of_commands(display_commands(), seq![Step::SendBuffer], buf);
    lemma_writes_send_buffer(buf);
}

/// `init` resets and configures the panel and then sends a dark buffer,
/// whatever the buffer held.
pub proof fn law_init_sends_dark_buffer(buf: Seq<u8>)
    ensures
        writes_from(init_program(), buf) == command_writes(seq![0xe3u8] + config_commands())
            + command_writes(display_commands()) + data_writes(blank()),
{
    let tail = seq![Step::Clear] + display_program();
    assert(init_program() =~= commands(seq![0xe3u8] + config_commands()) + tail);
    lemma_writes_of_commands(seq![0xe3u8] + config_commands(), tail, buf);
    assert(tail[0] == Step::Clear);
    assert(tail.drop_first() =~= display_program());
    law_display_sends_buffer(blank());
}

/// `wake` switches the panel on and then sends the frame buffer.
pub proof fn law_wake_sends_buffer(buf: Seq<u8>)
    ensures
        writes_from(wake_program(), buf) == command_writes(seq![0x8du8, 0x14u8, 0xafu8])
            + command_writes(display_commands()) + data_writes(buf),
{
    lemma_writes_of_commands(seq![0x8du8, 0x14u8, 0xafu8], display_program(), buf);
    law_display_sends_buffer(buf);
}

/// A program without a `Clear` step leaves the frame buffer as it is: the
/// panel's memory is only read.
pub proof fn law_no_clear_keeps_buffer(st: TransferState, buf: Seq<u8>)
    requires
        forall|i: int| 0 <= i < st.steps.len() ==> st.steps[i] != Step::Clear,
    ensures
        poll_spec(st, buf).1 == buf,
        poll_spec(st, buf).0.steps == st.steps,
    decreases st.steps.len() - st.pc, 1024 - st.offset,
{
    if !st.failed && 0 <= st.pc < st.steps.len() {
        match st.steps[st.pc] {
            Step::SendBuffer => {
                if !(0 <= st.offset < buf.len()) {
                    law_no_clear_keeps_buffer(TransferState { pc: st.pc + 1, offset: 0, ..st }, buf);
                }
            },
            _ => {},
        }
    }
}

/// The state and buffer after one round per entry of `oks`, the entry being
/// the outcome of that round's write.
pub open spec fn after_rounds(st: TransferState, buf: Seq<u8>, oks: Seq<bool>) -> (TransferState, Seq<u8>)
    decreases oks.len(),
{
    if oks.len() == 0 {
        (st, buf)
    } else {
        let r = round(st, buf, oks[0]);
        after_rounds(r.0, r.1, oks.drop_first())
    }
}

/// However its writes turn out, a program without a `Clear` step leaves the
/// frame buffer as it is through its whole run.
pub proof fn law_no_clear_keeps_buffer_over_run(st: TransferState, buf: Seq<u8>, oks: Seq<bool>)
    requires
        forall|i: int| 0 <= i < st.steps.len() ==> st.steps[i] != Step::Clear,
    ensures
        after_rounds(st, buf, oks).1 == buf,
        after_rounds(st, buf, oks).0.steps == st.steps,
    decreases oks.len(),
{
    if oks.len() > 0 {
        law_no_clear_keeps_buffer(st, buf);
        let r = round(st, buf, oks[0]);
        assert(r.1 == buf);
        assert(r.0.steps == st.steps);
        law_no_clear_keeps_buffer_over_run(r.0, r.1, oks.drop_first());
    }
}

proof fn lemma_after_ok_is_after_rounds(st: TransferState, buf: Seq<u8>, n: nat)
    ensures
        after_ok(st, buf, n) == after_rounds(st, buf, Seq::new(n, |i: int| true)),
    decreases n,
{
    if n > 0 {
        let oks = Seq::new(n, |i: int| true);
        assert(oks.drop_first() =~= Seq::new((n - 1) as nat, |i: int| true));
        let r = round(st, buf, true);
        lemma_after_ok_is_after_rounds(r.0, r.1, (n - 1) as nat);
    }
}

/// The contrast program sends the contrast command and then the requested
/// level, unchanged, for every level; when its writes work it makes exactly
/// these two writes and ends, leaving the frame buffer as it is.
pub proof fn law_contrast_sends_level(level: u8, buf: Seq<u8>)
    requires
        buf.len() == 1024,
    ensures
        writes_from(contrast_program(level), buf) == seq![(0x00u8, 0x81u8), (0x00u8, level)],
        run_ok(start_state(contrast_program(level)), buf, 2) == seq![(0x00u8, 0x81u8), (0x00u8, level)],
        after_ok(start_state(contrast_program(level)), buf, 2).1 == buf,
        poll_spec(
            after_ok(start_state(contrast_program(level)), buf, 2).0,
            after_ok(start_state(contrast_program(level)), buf, 2).1,
        ).2 is Done,
{
    let p = contrast_program(level);
    lemma_writes_of_commands(seq![0x81u8, level], Seq::empty(), buf);
    assert(p + Seq::<Step>::empty() =~= p);
    assert(writes_from(Seq::<Step>::empty(), buf) == Seq::<(u8, u8)>::empty());
    assert(command_writes(seq![0x81u8, level]) + Seq::<(u8, u8)>::empty() =~= seq![(0x00u8, 0x81u8), (0x00u8, level)]);
    law_program_when_writes_work(p, buf);
    lemma_after_ok_is_after_rounds(start_state(p), buf, 2);
    law_no_clear_keeps_buffer_over_run(start_state(p), buf, Seq::new(2, |i: int| true));
}

/// `set_dim` sends the contrast command with level `0x0f`.
pub proof fn law_dim_sends_low_contrast(buf: Seq<u8>)
    requires
        buf.len() == 1024,
    ensures
        writes_from(contrast_program(0x0f), buf) == seq![(0x00u8, 0x81u8), (0x00u8, 0x0fu8)],
{
    law_contrast_sends_level(0x0f, buf);
}

/// `sleep` keeps the frame buffer through its whole run, whatever its writes
/// do: the panel's memory survives sleep.
pub proof fn law_sleep_keeps_buffer(buf: Seq<u8>, oks: Seq<bool>)
    ensures
        after_rounds(start_state(sleep_program()), buf, oks).1 == buf,
{
    law_no_clear_keeps_buffer_over_run(start_state(sleep_program()), buf, oks);
}

/// When every write works, `sleep` then `wake` both run to their end; the
/// frame buffer is the same afterwards; `wake` turns the charge pump back on
/// (`0x8d, 0x14`) and the panel on (`0xaf`), undoing `sleep`'s display off
/// and charge pump off (`0xae, 0x8d, 0x10`), and then sends the whole buffer.
pub proof fn law_wake_undoes_sleep(buf: Seq<u8>)
    requires
        buf.len() == 1024,
    ensures
        ({
            let s0 = start_state(sleep_program());
            let ws = writes_from(sleep_program(), buf);
            let s_end = after_ok(s0, buf, ws.len());
            let w0 = start_state(wake_program());
            let ww = writes_from(wake_program(), s_end.1);
            let w_end = after_ok(w0, s_end.1, ww.len());
            &&& run_ok(s0, buf, ws.len()) == command_writes(seq![0xaeu8, 0x8du8, 0x10u8])
            &&& poll_spec(s_end.0, s_end.1).2 is Done
            &&& s_end.1 == buf
            &&& run_ok(w0, s_end.1, ww.len()) == command_writes(seq![0x8du8, 0x14u8, 0xafu8])
                + command_writes(display_commands()) + data_writes(buf)
            &&& poll_spec(w_end.0, w_end.1).2 is Done
            &&& w_end.1 == buf
        }),
{
    let s0 = start_state(sleep_program());
    let ws = writes_from(sleep_program(), buf);
    law_program_when_writes_work(sleep_program(), buf);
    lemma_writes_of_commands(seq![0xaeu8, 0x8du8, 0x10u8], Seq::empty(), buf);
    assert(sleep_program() + Seq::<Step>::empty() =~= sleep_program());
    assert(writes_from(Seq::<Step>::empty(), buf) == Seq::<(u8, u8)>::empty());
    assert(command_writes(seq![0xaeu8, 0x8du8, 0x10u8]) + Seq::<(u8, u8)>::empty() =~= command_writes(seq![0xaeu8, 0x8du8, 0x10u8]));
    lemma_after_ok_is_after_rounds(s0, buf, ws.len());
    law_no_clear_keeps_buffer_over_run(s0, buf, Seq::new(ws.len(), |i: int| true));
    let w0 = start_state(wake_program());
    let ww = writes_from(wake_program(), buf);
    law_program_when_writes_work(wake_program(), buf);
    law_wake_sends_buffer(buf);
    lemma_after_ok_is_after_rounds(w0, buf, ww.len());
    assert forall|i: int| 0 <= i < wake_program().len() implies wake_program()[i] != Step::Clear by {
        if i < 3 {
        } else {
            assert(wake_program()[i] == display_program()[i - 3]);
        }
    }
    law_no_clear_keeps_buffer_over_run(w0, buf, Seq::new(ww.len(), |i: int| true));
}

/// A failed command write fails the program, and a failed program stays
/// failed: `poll` answers `Failed` and changes nothing, and `report` changes
/// nothing.
pub proof fn law_command_failure_is_final(st: TransferState, buf: Seq<u8>, ok: bool)
    requires
        valid_state(st),
        st.pending,
        st.steps[st.pc] is Command,
    ensures
        report_spec(st, false).failed,
        poll_spec(report_spec(st, false), buf) == (report_spec(st, false), buf, Action::Failed),
        report_spec(report_spec(st, false), ok) == report_spec(st, false),
{
}

/// A failed data write is skipped: the program goes on with the next byte
/// and does not count it.
pub proof fn law_data_failure_is_skipped(st: TransferState)
    requires
        valid_state(st),
        st.pending,
        st.steps[st.pc] == Step::SendBuffer,
    ensures
        !report_spec(st, false).failed,
        report_spec(st, false).offset == st.offset + 1,
        report_spec(st, false).delivered == st.delivered,
        report_spec(st, true).delivered == st.delivered + 1,
{
}


/// The command steps of `cs`, as a vector.
fn command_steps(cs: &[u8]) -> (v: Vec<Step>)
    ensures
        v@ == commands(cs@),
{
    let mut v: Vec<Step> = Vec::new();
    let mut i: usize = 0;
    while i < cs.len()
        invariant
            0 <= i <= cs@.len(),
            v@ == commands(cs@.take(i as int)),
        decreases cs@.len() - i,
    {
        v.push(Step::Command(cs[i]));
        i += 1;
        assert(v@ =~= commands(cs@.take(i as int)));
    }
    assert(cs@.take(i as int) =~= cs@);
    v
}

/// The display steps: display commands, then the buffer.
fn display_steps() -> (v: Vec<Step>)
    ensures
        v@ == display_program(),
{
    let cs: [u8; 7] = [SSD1315_DISPLAY_ON, SSD1315_SET_COLUMN_ADDR, 0, SSD1315_WIDTH - 1, SSD1315_SET_PAGE_ADDR, 0, 7];
    let mut v = command_steps(cs.as_slice());
    assert(cs@ =~= display_commands());
    v.push(Step::SendBuffer);
    v
}

impl SSD1315 {
    /// The program that resets the controller.
    pub fn reset(&self) -> (t: Transfer)
        ensures
            t@ == start_state(reset_program()),
            t.wf(),
    {
        let cs: [u8; 1] = [SSD1315_SOFT_RESET];
        let v = command_steps(cs.as_slice());
        assert(cs@ =~= seq![0xe3u8]);
        Transfer::start(v)
    }

    /// The program that brings the panel up: reset, configuration, then a
    /// dark buffer sent to the panel.
    pub fn init(&self) -> (t: Transfer)
        ensures
            t@ == start_state(init_program()),
            t.wf(),
    {
        let cs: [u8; 25] = [
            SSD1315_SOFT_RESET,
            SSD1315_DISPLAY_OFF,
            SSD1315_SET_DISPLAY_CLOCK,
            0x80,
            SSD1315_SET_MULTIPLEX_RATIO,
            0x3f,
            SSD1315_SET_DISPLAY_OFFSET,
            0x00,
            SSD1315_SET_START_LINE | 0x00,
            SSD1315_CHARGE_PUMP,
            0x14,
            SSD1315_SET_MEMORY_ADDR_MODE,
            0x00,
            SSD1315_SET_SEGMENT_REMAP | 0x01,
            SSD1315_SET_COM_SCAN_DIR | 0x08,
            SSD1315_SET_COM_PINS,
            0x12,
            SSD1315_SET_CONTRAST,
            0xcf,
            SSD1315_SET_PRECHARGE,
            0xf1,
            SSD1315_SET_VCOM_DETECT,
            0x40,
            SSD1315_DEACTIVEATE_SCROLL,
            SSD1315_NORMAL_DISPLAY,
        ];
        assert(0x40u8 | 0x00u8 == 0x40u8) by (bit_vector);
        assert(0xa0u8 | 0x01u8 == 0xa1u8) by (bit_vector);
        assert(0xc0u8 | 0x08u8 == 0xc8u8) by (bit_vector);
        let mut v = command_steps(cs.as_slice());
        assert(cs@ =~= seq![0xe3u8] + config_commands());
        v.push(Step::Clear);
        let mut d = display_steps();
        v.append(&mut d);
        assert(v@ =~= init_program());
        Transfer::start(v)
    }

    /// The program that sets the contrast to `level` (0 dimmest, 255
    /// brightest).
    pub fn set_contrast(&self, level: u8) -> (t: Transfer)
        ensures
            t@ == start_state(contrast_program(level)),
            t.wf(),
    {
        let cs: [u8; 2] = [SSD1315_SET_CONTRAST, level];
        let v = command_steps(cs.as_slice());
        assert(cs@ =~= seq![0x81u8, level]);
        Transfer::start(v)
    }

    /// The program that dims the panel: a very low contrast.
    pub fn set_dim(&self) -> (t: Transfer)
        ensures
            t@ == start_state(contrast_program(0x0f)),
            t.wf(),
    {
        self.set_contrast(0x0F)
    }

    /// The program that puts the panel to sleep: display off, charge pump
    /// off. The panel's memory is kept.
    pub fn sleep(&self) -> (t: Transfer)
        ensures
            t@ == start_state(sleep_program()),
            t.wf(),
    {
        let cs: [u8; 3] = [SSD1315_DISPLAY_OFF, SSD1315_CHARGE_PUMP, 0x10];
        let v = command_steps(cs.as_slice());
        assert(cs@ =~= seq![0xaeu8, 0x8du8, 0x10u8]);
        Transfer::start(v)
    }

    /// The program that wakes the panel: charge pump on, display on, then
    /// the frame buffer sent to it.
    pub fn wake(&self) -> (t: Transfer)
        ensures
            t@ == start_state(wake_program()),
            t.wf(),
    {
        let cs: [u8; 3] = [SSD1315_CHARGE_PUMP, 0x14, SSD1315_DISPLAY_ON];
        let mut v = command_steps(cs.as_slice());
        assert(cs@ =~= seq![0x8du8, 0x14u8, 0xafu8]);
        let mut d = display_steps();
        v.append(&mut d);
        Transfer::start(v)
    }

    /// The program that sends the frame buffer to the panel, switching the
    /// panel on if it is off.
    pub fn display(&self) -> (t: Transfer)
        ensures
            t@ == start_state(display_program()),
            t.wf(),
    {
        Transfer::start(display_steps())
    }
}

} // verus!
