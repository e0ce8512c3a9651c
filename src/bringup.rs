//! The UART bring-up sequence.
use vstd::prelude::*;
use crate::bus::{
    Action, BusOp, apply_writes, touches, clear_poll, is_read_of, is_write_to, lemma_apply_concat,
    lemma_apply_no_writes, lemma_writes_concat, lemma_writes_none, op_value, writes_of, polled_while_set, wait_run,
};
use crate::mailbox::{
    MailboxBuffer, clock_request, clock_request_words, exchange_run, fill_ops, lemma_exchange, lemma_exchange_ops, lemma_prompt_exchange, lemma_reply_finish,
    lemma_slot_finish, prompt_exchange, reply_finish, reply_partial, spec_channel_word,
};
use crate::regs::{
    BAUD_FRACTION, BAUD_INTEGER, BoardProfile, CR_ENABLE, GPPUD, GPPUDCLK0, ICR_ALL, IMSC_ALL,
    LCRH_8N1_FIFO, MBOX_EMPTY, MBOX_FULL, MBOX_READ, MBOX_STATUS, MBOX_WRITE, SETTLE_CYCLES,
    UART0_CR, UART0_DR, UART0_FBRD, UART0_IBRD, UART0_ICR, UART0_IMSC, UART0_LCRH, UART_PINS,
};

verus! {

/// The operations before the clock negotiation: disable the UART, release
/// the pull-up/down of the two UART pins with the clocked handshake, and
/// clear every pending interrupt.
pub open spec fn prologue() -> Seq<BusOp> {
    seq![
        BusOp::Write { reg: UART0_CR, value: 0 },
        BusOp::Write { reg: GPPUD, value: 0 },
        BusOp::Delay { cycles: SETTLE_CYCLES },
        BusOp::Write { reg: GPPUDCLK0, value: UART_PINS },
        BusOp::Delay { cycles: SETTLE_CYCLES },
        BusOp::Write { reg: GPPUDCLK0, value: 0 },
        BusOp::Write { reg: UART0_ICR, value: ICR_ALL },
    ]
}

/// The operations after it: baud divisors, 8N1 framing with FIFOs, every
/// interrupt masked, and the UART enabled for transmit and receive.
pub open spec fn epilogue() -> Seq<BusOp> {
    seq![
        BusOp::Write { reg: UART0_IBRD, value: BAUD_INTEGER },
        BusOp::Write { reg: UART0_FBRD, value: BAUD_FRACTION },
        BusOp::Write { reg: UART0_LCRH, value: LCRH_8N1_FIFO },
        BusOp::Write { reg: UART0_IMSC, value: IMSC_ALL },
        BusOp::Write { reg: UART0_CR, value: CR_ENABLE },
    ]
}

/// A whole bring-up on board `p` whose mailbox exchange sends `chan`: the
/// prologue, the exchange where the board negotiates its clock, the
/// epilogue.
pub open spec fn init_run(p: BoardProfile, chan: u32, t: Seq<BusOp>) -> bool {
    if p.spec_requires_clock_negotiation() {
        exists|m: Seq<BusOp>| #[trigger] exchange_run(chan, m) && t == prologue() + m + epilogue()
    } else {
        t == prologue() + epilogue()
    }
}

/// `t` is the start of a whole bring-up.
pub open spec fn init_prefix(p: BoardProfile, chan: u32, t: Seq<BusOp>) -> bool {
    exists|u: Seq<BusOp>| #[trigger] init_run(p, chan, u) && t.is_prefix_of(u)
}

fn prologue_action(k: usize) -> (a: Action)
    requires
        k < 7,
    ensures
        a == prologue()[k as int].action(),
        !touches(a, UART0_DR),
{
    match k {
        0 => Action::Write { reg: UART0_CR, value: 0 },
        1 => Action::Write { reg: GPPUD, value: 0 },
        2 => Action::Delay { cycles: SETTLE_CYCLES },
        3 => Action::Write { reg: GPPUDCLK0, value: UART_PINS },
        4 => Action::Delay { cycles: SETTLE_CYCLES },
        5 => Action::Write { reg: GPPUDCLK0, value: 0 },
        _ => Action::Write { reg: UART0_ICR, value: ICR_ALL },
    }
}

fn epilogue_action(k: usize) -> (a: Action)
    requires
        k < 5,
    ensures
        a == epilogue()[k as int].action(),
        !touches(a, UART0_DR),
{
    match k {
        0 => Action::Write { reg: UART0_IBRD, value: BAUD_INTEGER },
        1 => Action::Write { reg: UART0_FBRD, value: BAUD_FRACTION },
        2 => Action::Write { reg: UART0_LCRH, value: LCRH_8N1_FIFO },
        3 => Action::Write { reg: UART0_IMSC, value: IMSC_ALL },
        _ => Action::Write { reg: UART0_CR, value: CR_ENABLE },
    }
}

enum Stage {
    Prologue(usize),
    Fill(usize),
    SlotWait,
    Send,
    ReplyStatus,
    ReplyRead,
    Epilogue(usize),
    Finished,
}

/// The bring-up sequence for one board.
pub struct UartInit {
    profile: BoardProfile,
    chan: u32,
    request: Vec<u32>,
    stage: Stage,
    trace: Ghost<Seq<BusOp>>,
    slot: Ghost<Seq<BusOp>>,
    reply: Ghost<Seq<BusOp>>,
    exchange: Ghost<Seq<BusOp>>,
}

impl UartInit {
    pub closed spec fn profile(&self) -> BoardProfile {
        self.profile
    }

    /// The channel word the mailbox exchange sends.
    pub closed spec fn channel(&self) -> u32 {
        self.chan
    }

    /// The operations performed so far.
    pub closed spec fn trace(&self) -> Seq<BusOp> {
        self.trace@
    }

    /// The operation asked for next.
    pub closed spec fn pending(&self) -> Action {
        match self.stage {
            Stage::Prologue(k) => if k < 7 { prologue()[k as int].action() } else { Action::Done },
            Stage::Fill(k) => if k < 9 { fill_ops()[k as int].action() } else { Action::Done },
            Stage::SlotWait => Action::Read { reg: MBOX_STATUS },
            Stage::Send => Action::Write { reg: MBOX_WRITE, value: self.chan },
            Stage::ReplyStatus => Action::Read { reg: MBOX_STATUS },
            Stage::ReplyRead => Action::Read { reg: MBOX_READ },
            Stage::Epilogue(k) => if k < 5 { epilogue()[k as int].action() } else { Action::Done },
            Stage::Finished => Action::Done,
        }
    }

    closed spec fn negotiates(&self) -> bool {
        self.profile.spec_requires_clock_negotiation()
    }

    closed spec fn write_chan(&self) -> Seq<BusOp> {
        seq![BusOp::Write { reg: MBOX_WRITE, value: self.chan }]
    }

    /// What the exchange amounts to once done, or nothing on a board that
    /// does not negotiate.
    closed spec fn middle(&self) -> Seq<BusOp> {
        if self.negotiates() { self.exchange@ } else { Seq::empty() }
    }

    pub closed spec fn wf(&self) -> bool {
        &&& self.request@ == clock_request_words()
        &&& match self.stage {
            Stage::Prologue(k) => k < 7 && self.trace@ == prologue().take(k as int),
            Stage::Fill(k) => self.negotiates() && k < 9 && self.trace@ == prologue() + fill_ops().take(
                k as int,
            ),
            Stage::SlotWait => self.negotiates() && polled_while_set(self.slot@, MBOX_STATUS, MBOX_FULL)
                && self.trace@ == prologue() + fill_ops() + self.slot@,
            Stage::Send => self.negotiates() && wait_run(self.slot@, MBOX_STATUS, MBOX_FULL)
                && self.trace@ == prologue() + fill_ops() + self.slot@,
            Stage::ReplyStatus => self.negotiates() && wait_run(self.slot@, MBOX_STATUS, MBOX_FULL)
                && reply_partial(self.chan, self.reply@)
                && !(self.reply@.len() >= 1 && clear_poll(self.reply@.last(), MBOX_STATUS, MBOX_EMPTY))
                && self.trace@ == prologue() + fill_ops() + self.slot@ + self.write_chan() + self.reply@,
            Stage::ReplyRead => self.negotiates() && wait_run(self.slot@, MBOX_STATUS, MBOX_FULL)
                && reply_partial(self.chan, self.reply@)
                && self.reply@.len() >= 1 && clear_poll(self.reply@.last(), MBOX_STATUS, MBOX_EMPTY)
                && self.trace@ == prologue() + fill_ops() + self.slot@ + self.write_chan() + self.reply@,
            Stage::Epilogue(k) => k < 5 && (self.negotiates() ==> exchange_run(self.chan, self.exchange@))
                && self.trace@ == prologue() + self.middle() + epilogue().take(k as int),
            Stage::Finished => init_run(self.profile, self.chan, self.trace@),
        }
    }
}

/// The prologue, `m` and the epilogue make a whole bring-up when `m` is an
/// exchange on a board that negotiates, and nothing on one that does not.
proof fn lemma_run_of(p: BoardProfile, chan: u32, m: Seq<BusOp>)
    requires
        p.spec_requires_clock_negotiation() ==> exchange_run(chan, m),
        !p.spec_requires_clock_negotiation() ==> m == Seq::<BusOp>::empty(),
    ensures
        init_run(p, chan, prologue() + m + epilogue()),
{
    if !p.spec_requires_clock_negotiation() {
        assert(prologue() + m =~= prologue());
    }
}

impl UartInit {
    /// Every state of the machine is the start of a whole bring-up.
    proof fn lemma_prefix(&self)
        requires
            self.wf(),
        ensures
            init_prefix(self.profile, self.chan, self.trace@),
    {
        let p = self.profile;
        let chan = self.chan;
        let t = self.trace@;
        let w = self.write_chan();
        let e = Seq::<BusOp>::empty();
        match self.stage {
            Stage::Prologue(_) | Stage::Fill(_) => {
                let m = if self.negotiates() { prompt_exchange(chan) } else { e };
                lemma_prompt_exchange(chan);
                lemma_run_of(p, chan, m);
                let u = prologue() + m + epilogue();
                assert(t =~= u.subrange(0, t.len() as int));
            },
            Stage::SlotWait => {
                let s = self.slot@.push(BusOp::Read { reg: MBOX_STATUS, value: 0 });
                lemma_slot_finish(self.slot@);
                lemma_reply_finish(chan, e);
                lemma_exchange(chan, s, e + reply_finish(chan, e));
                let m = fill_ops() + s + w + (e + reply_finish(chan, e));
                lemma_run_of(p, chan, m);
                let u = prologue() + m + epilogue();
                assert(t =~= u.subrange(0, t.len() as int));
            },
            Stage::Send => {
                lemma_reply_finish(chan, e);
                lemma_exchange(chan, self.slot@, e + reply_finish(chan, e));
                let m = fill_ops() + self.slot@ + w + (e + reply_finish(chan, e));
                lemma_run_of(p, chan, m);
                let u = prologue() + m + epilogue();
                assert(t =~= u.subrange(0, t.len() as int));
            },
            Stage::ReplyStatus | Stage::ReplyRead => {
                let b = self.reply@ + reply_finish(chan, self.reply@);
                lemma_reply_finish(chan, self.reply@);
                lemma_exchange(chan, self.slot@, b);
                let m = fill_ops() + self.slot@ + w + b;
                lemma_run_of(p, chan, m);
                let u = prologue() + m + epilogue();
                assert(t =~= u.subrange(0, t.len() as int));
            },
            Stage::Epilogue(k) => {
                lemma_run_of(p, chan, self.middle());
                let u = prologue() + self.middle() + epilogue();
                assert(t =~= u.subrange(0, t.len() as int));
            },
            Stage::Finished => {
                assert(t =~= t.subrange(0, t.len() as int));
            },
        }
    }

    /// A bring-up for board `profile`, whose clock request sits in `mailbox`.
    pub fn new(profile: BoardProfile, mailbox: MailboxBuffer) -> (r: UartInit)
        ensures
            r.wf(),
            r.profile() == profile,
            r.channel() == spec_channel_word(mailbox.spec_address()),
            r.trace() == Seq::<BusOp>::empty(),
            r.pending() == (Action::Write { reg: UART0_CR, value: 0 }),
            init_prefix(profile, spec_channel_word(mailbox.spec_address()), r.trace()),
    {
        let r = UartInit {
            profile,
            chan: mailbox.channel_word(),
            request: clock_request(),
            stage: Stage::Prologue(0),
            trace: Ghost(Seq::empty()),
            slot: Ghost(Seq::empty()),
            reply: Ghost(Seq::empty()),
            exchange: Ghost(Seq::empty()),
        };
        assert(r.trace@ =~= prologue().take(0));
        proof {
            r.lemma_prefix();
        }
        r
    }

    /// The next operation; `Done` once the bring-up is whole.
    pub fn action(&self) -> (a: Action)
        requires
            self.wf(),
        ensures
            a == self.pending(),
            a == Action::Done ==> init_run(self.profile(), self.channel(), self.trace()),
            !touches(a, UART0_DR),
    {
        match self.stage {
            Stage::Prologue(k) => prologue_action(k),
            Stage::Fill(k) => {
                let value = self.request[k];
                Action::Store { index: k as u32, value }
            },
            Stage::SlotWait => Action::Read { reg: MBOX_STATUS },
            Stage::Send => Action::Write { reg: MBOX_WRITE, value: self.chan },
            Stage::ReplyStatus => Action::Read { reg: MBOX_STATUS },
            Stage::ReplyRead => Action::Read { reg: MBOX_READ },
            Stage::Epilogue(k) => epilogue_action(k),
            Stage::Finished => Action::Done,
        }
    }

    /// Records that the pending operation was performed; `input` is the
    /// value read, if it was a read.
    pub fn resume(&mut self, input: u32)
        requires
            old(self).wf(),
            old(self).pending() != Action::Done,
        ensures
            final(self).wf(),
            final(self).profile() == old(self).profile(),
            final(self).channel() == old(self).channel(),
            final(self).trace() == old(self).trace().push(old(self).pending().performed(input)),
            init_prefix(final(self).profile(), final(self).channel(), final(self).trace()),
    {
        let a = self.action();
        let ghost t0 = self.trace@;
        let ghost op = a.performed(input);
        self.trace = Ghost(t0.push(op));
        match self.stage {
            Stage::Prologue(k) => {
                assert(self.trace@ =~= prologue().take(k + 1));
                if k + 1 < 7 {
                    self.stage = Stage::Prologue(k + 1);
                } else if self.profile.requires_clock_negotiation() {
                    assert(self.trace@ =~= prologue() + fill_ops().take(0));
                    self.stage = Stage::Fill(0);
                } else {
                    assert(self.trace@ =~= prologue() + self.middle() + epilogue().take(0));
                    self.stage = Stage::Epilogue(0);
                }
            },
            Stage::Fill(k) => {
                assert(self.trace@ =~= prologue() + fill_ops().take(k + 1));
                if k + 1 < 9 {
                    self.stage = Stage::Fill(k + 1);
                } else {
                    self.slot = Ghost(Seq::empty());
                    assert(fill_ops().take(9) =~= fill_ops());
                    assert(self.trace@ =~= prologue() + fill_ops() + self.slot@);
                    self.stage = Stage::SlotWait;
                }
            },
            Stage::SlotWait => {
                let ghost s0 = self.slot@;
                self.slot = Ghost(s0.push(op));
                assert(self.trace@ =~= prologue() + fill_ops() + self.slot@);
                assert(self.slot@.drop_last() =~= s0);
                if input & MBOX_FULL != 0 {
                    assert forall|i: int| 0 <= i < self.slot@.len() implies
                        #[trigger] is_read_of(self.slot@[i], MBOX_STATUS)
                        && crate::bus::op_value(self.slot@[i]) & MBOX_FULL != 0 by {
                        if i < s0.len() {
                            assert(self.slot@[i] == s0[i]);
                        }
                    }
                } else {
                    self.stage = Stage::Send;
                }
            },
            Stage::Send => {
                self.reply = Ghost(Seq::empty());
                assert(self.trace@ =~= prologue() + fill_ops() + self.slot@ + self.write_chan() + self.reply@);
                self.stage = Stage::ReplyStatus;
            },
            Stage::ReplyStatus => {
                let ghost b0 = self.reply@;
                let ghost b = b0.push(op);
                self.reply = Ghost(b);
                assert(self.trace@ =~= prologue() + fill_ops() + self.slot@ + self.write_chan() + self.reply@);
                assert forall|i: int| 0 <= i < b.len() implies is_read_of(#[trigger] b[i], MBOX_STATUS)
                    || is_read_of(b[i], MBOX_READ) by {
                    if i < b0.len() {
                        assert(b[i] == b0[i]);
                    }
                }
                assert forall|i: int| 0 <= i < b.len() && is_read_of(#[trigger] b[i], MBOX_READ)
                    implies 0 < i && clear_poll(b[i - 1], MBOX_STATUS, MBOX_EMPTY)
                    && crate::bus::op_value(b[i]) != self.chan by {
                    assert(b[i] == b0[i]);
                    assert(b[i - 1] == b0[i - 1]);
                }
                assert forall|i: int| 0 <= i < b.len() - 1 && clear_poll(#[trigger] b[i], MBOX_STATUS, MBOX_EMPTY)
                    implies is_read_of(b[i + 1], MBOX_READ) by {
                    assert(b[i] == b0[i]);
                    assert(b[i + 1] == b0[i + 1]);
                }
                if input & MBOX_EMPTY == 0 {
                    self.stage = Stage::ReplyRead;
                }
            },
            Stage::ReplyRead => {
                let ghost b0 = self.reply@;
                let ghost b = b0.push(op);
                if input == self.chan {
                    assert(b.drop_last() =~= b0);
                    proof {
                        lemma_exchange(self.chan, self.slot@, b);
                    }
                    self.exchange = Ghost(fill_ops() + self.slot@ + self.write_chan() + b);
                    assert(self.trace@ =~= prologue() + self.middle() + epilogue().take(0));
                    self.stage = Stage::Epilogue(0);
                } else {
                    self.reply = Ghost(b);
                    assert(self.trace@ =~= prologue() + fill_ops() + self.slot@ + self.write_chan() + self.reply@);
                    assert forall|i: int| 0 <= i < b.len() implies is_read_of(#[trigger] b[i], MBOX_STATUS)
                        || is_read_of(b[i], MBOX_READ) by {
                        if i < b0.len() {
                            assert(b[i] == b0[i]);
                        }
                    }
                    assert forall|i: int| 0 <= i < b.len() && is_read_of(#[trigger] b[i], MBOX_READ)
                        implies 0 < i && clear_poll(b[i - 1], MBOX_STATUS, MBOX_EMPTY)
                        && crate::bus::op_value(b[i]) != self.chan by {
                        assert(b[i - 1] == b0[i - 1]);
                        if i < b0.len() {
                            assert(b[i] == b0[i]);
                        }
                    }
                    assert forall|i: int| 0 <= i < b.len() - 1 && clear_poll(#[trigger] b[i], MBOX_STATUS, MBOX_EMPTY)
                        implies is_read_of(b[i + 1], MBOX_READ) by {
                        assert(b[i] == b0[i]);
                        if i + 1 < b0.len() {
                            assert(b[i + 1] == b0[i + 1]);
                        }
                    }
                    self.stage = Stage::ReplyStatus;
                }
            },
            Stage::Epilogue(k) => {
                assert(self.trace@ =~= prologue() + self.middle() + epilogue().take(k + 1));
                if k + 1 < 5 {
                    self.stage = Stage::Epilogue(k + 1);
                } else {
                    assert(epilogue().take(5) =~= epilogue());
                    proof {
                        lemma_run_of(self.profile, self.chan, self.middle());
                    }
                    self.stage = Stage::Finished;
                }
            },
            Stage::Finished => {},
        }
        proof {
            self.lemma_prefix();
        }
    }
}

/// The exchange inside a whole bring-up: nothing on a board that does not
/// negotiate its clock.
proof fn run_middle(p: BoardProfile, chan: u32, t: Seq<BusOp>) -> (m: Seq<BusOp>)
    requires
        init_run(p, chan, t),
    ensures
        t == prologue() + m + epilogue(),
        p.spec_requires_clock_negotiation() ==> exchange_run(chan, m),
        !p.spec_requires_clock_negotiation() ==> m == Seq::<BusOp>::empty(),
{
    if p.spec_requires_clock_negotiation() {
        choose|m: Seq<BusOp>| #[trigger] exchange_run(chan, m) && t == prologue() + m + epilogue()
    } else {
        assert(t =~= prologue() + Seq::<BusOp>::empty() + epilogue());
        Seq::<BusOp>::empty()
    }
}

/// Whether `op` reconfigures the UART: a baud divisor, the line control, or
/// a non-zero value in the control register.
pub open spec fn is_reconfiguration(op: BusOp) -> bool {
    ||| is_write_to(op, UART0_IBRD)
    ||| is_write_to(op, UART0_FBRD)
    ||| is_write_to(op, UART0_LCRH)
    ||| (is_write_to(op, UART0_CR) && op_value(op) != 0)
}

/// On every board, a bring-up disables the UART before it writes any baud
/// divisor, line control or enable value, and ends by enabling it.
pub proof fn lemma_disable_before_reconfigure(p: BoardProfile, chan: u32, t: Seq<BusOp>)
    requires
        init_run(p, chan, t),
    ensures
        t.len() > 0,
        t[0] == (BusOp::Write { reg: UART0_CR, value: 0 }),
        forall|i: int| 0 <= i < t.len() && is_reconfiguration(#[trigger] t[i]) ==> 0 < i,
        t.last() == (BusOp::Write { reg: UART0_CR, value: CR_ENABLE }),
{
    let m = run_middle(p, chan, t);
    assert(t[0] == prologue()[0]);
    assert(t.last() == epilogue()[4]);
}

/// The pull-up/down handshake writes `GPPUD`, then the UART pins to
/// `GPPUDCLK0`, then zero to `GPPUDCLK0`, and no other write of a bring-up
/// touches those two registers.
pub proof fn lemma_pull_handshake(p: BoardProfile, chan: u32, t: Seq<BusOp>)
    requires
        init_run(p, chan, t),
    ensures
        t.len() > 5,
        t[1] == (BusOp::Write { reg: GPPUD, value: 0 }),
        t[3] == (BusOp::Write { reg: GPPUDCLK0, value: UART_PINS }),
        t[5] == (BusOp::Write { reg: GPPUDCLK0, value: 0 }),
        forall|i: int|
            0 <= i < t.len() && (is_write_to(#[trigger] t[i], GPPUD) || is_write_to(t[i], GPPUDCLK0))
                ==> i == 1 || i == 3 || i == 5,
{
    let m = run_middle(p, chan, t);
    if p.spec_requires_clock_negotiation() {
        lemma_exchange_ops(chan, m);
    }
    assert forall|i: int|
        0 <= i < t.len() && (is_write_to(#[trigger] t[i], GPPUD) || is_write_to(t[i], GPPUDCLK0))
            implies i == 1 || i == 3 || i == 5 by {
        if i < 7 {
            assert(t[i] == prologue()[i]);
        } else if i < 7 + m.len() {
            assert(t[i] == m[i - 7]);
        } else {
            assert(t[i] == epilogue()[i - 7 - m.len()]);
        }
    }
}

/// On a board that does not negotiate its clock, a bring-up neither reads
/// nor writes any mailbox register.
pub proof fn lemma_no_mailbox_without_negotiation(p: BoardProfile, chan: u32, t: Seq<BusOp>)
    requires
        init_run(p, chan, t),
        !p.spec_requires_clock_negotiation(),
    ensures
        forall|i: int|
            0 <= i < t.len() ==> !is_read_of(#[trigger] t[i], MBOX_READ) && !is_read_of(t[i], MBOX_STATUS)
                && !is_write_to(t[i], MBOX_WRITE),
{
    assert forall|i: int| 0 <= i < t.len() implies !is_read_of(#[trigger] t[i], MBOX_READ) && !is_read_of(
        t[i],
        MBOX_STATUS,
    ) && !is_write_to(t[i], MBOX_WRITE) by {
        if i < 7 {
            assert(t[i] == prologue()[i]);
        } else {
            assert(t[i] == epilogue()[i - 7]);
        }
    }
}

/// The register contents a bring-up leaves behind, from `regs` before it.
pub open spec fn configured(p: BoardProfile, chan: u32, regs: Map<u32, u32>) -> Map<u32, u32> {
    let before = regs.insert(UART0_CR, 0).insert(GPPUD, 0).insert(GPPUDCLK0, UART_PINS).insert(
        GPPUDCLK0,
        0,
    ).insert(UART0_ICR, ICR_ALL);
    let negotiated = if p.spec_requires_clock_negotiation() {
        before.insert(MBOX_WRITE, chan)
    } else {
        before
    };
    negotiated.insert(UART0_IBRD, BAUD_INTEGER).insert(UART0_FBRD, BAUD_FRACTION).insert(
        UART0_LCRH,
        LCRH_8N1_FIFO,
    ).insert(UART0_IMSC, IMSC_ALL).insert(UART0_CR, CR_ENABLE)
}

/// Whatever the polls returned, a bring-up leaves the same register
/// contents.
pub proof fn lemma_run_registers(p: BoardProfile, chan: u32, t: Seq<BusOp>, regs: Map<u32, u32>)
    requires
        init_run(p, chan, t),
    ensures
        apply_writes(regs, t) == configured(p, chan, regs),
{
    let m = run_middle(p, chan, t);
    lemma_apply_concat(regs, prologue() + m, epilogue());
    lemma_apply_concat(regs, prologue(), m);
    let r1 = apply_writes(regs, prologue());
    assert(r1 == regs.insert(UART0_CR, 0).insert(GPPUD, 0).insert(GPPUDCLK0, UART_PINS).insert(
        GPPUDCLK0,
        0,
    ).insert(UART0_ICR, ICR_ALL)) by {
        reveal_with_fuel(apply_writes, 8);
    }
    let r2 = apply_writes(r1, m);
    if p.spec_requires_clock_negotiation() {
        lemma_exchange_ops(chan, m);
        let k = choose|k: int|
            0 <= k < m.len() && m.take(k) + seq![BusOp::Write { reg: MBOX_WRITE, value: chan }] + m.skip(
                k + 1,
            ) == m && (forall|i: int| 0 <= i < k ==> !(#[trigger] m[i] is Write)) && (forall|i: int|
                k < i < m.len() ==> !(#[trigger] m[i] is Write));
        let w = seq![BusOp::Write { reg: MBOX_WRITE, value: chan }];
        assert forall|i: int| 0 <= i < m.take(k).len() implies !(#[trigger] m.take(k)[i] is Write) by {
            assert(m.take(k)[i] == m[i]);
        }
        assert forall|i: int| 0 <= i < m.skip(k + 1).len() implies !(#[trigger] m.skip(k + 1)[i] is Write) by {
            assert(m.skip(k + 1)[i] == m[i + k + 1]);
        }
        lemma_apply_concat(r1, m.take(k) + w, m.skip(k + 1));
        lemma_apply_concat(r1, m.take(k), w);
        lemma_apply_no_writes(r1, m.take(k));
        let r3 = apply_writes(r1, m.take(k) + w);
        assert(r3 == r1.insert(MBOX_WRITE, chan)) by {
            reveal_with_fuel(apply_writes, 2);
        }
        lemma_apply_no_writes(r3, m.skip(k + 1));
    }
    assert(apply_writes(r2, epilogue()) == configured(p, chan, regs)) by {
        reveal_with_fuel(apply_writes, 6);
    }
}

/// The writes of a bring-up on board `p` whose exchange sends `chan`.
pub open spec fn init_writes(p: BoardProfile, chan: u32) -> Seq<BusOp> {
    writes_of(prologue()) + (if p.spec_requires_clock_negotiation() {
        seq![BusOp::Write { reg: MBOX_WRITE, value: chan }]
    } else {
        Seq::empty()
    }) + writes_of(epilogue())
}

/// Whatever the polls returned, a bring-up performs the same writes in the
/// same order.
pub proof fn lemma_run_writes(p: BoardProfile, chan: u32, t: Seq<BusOp>)
    requires
        init_run(p, chan, t),
    ensures
        writes_of(t) == init_writes(p, chan),
{
    let m = run_middle(p, chan, t);
    lemma_writes_concat(prologue() + m, epilogue());
    lemma_writes_concat(prologue(), m);
    if p.spec_requires_clock_negotiation() {
        lemma_exchange_ops(chan, m);
        let k = choose|k: int|
            0 <= k < m.len() && m.take(k) + seq![BusOp::Write { reg: MBOX_WRITE, value: chan }] + m.skip(
                k + 1,
            ) == m && (forall|i: int| 0 <= i < k ==> !(#[trigger] m[i] is Write)) && (forall|i: int|
                k < i < m.len() ==> !(#[trigger] m[i] is Write));
        let w = seq![BusOp::Write { reg: MBOX_WRITE, value: chan }];
        assert forall|i: int| 0 <= i < m.take(k).len() implies !(#[trigger] m.take(k)[i] is Write) by {
            assert(m.take(k)[i] == m[i]);
        }
        assert forall|i: int| 0 <= i < m.skip(k + 1).len() implies !(#[trigger] m.skip(k + 1)[i] is Write) by {
            assert(m.skip(k + 1)[i] == m[i + k + 1]);
        }
        lemma_writes_concat(m.take(k) + w, m.skip(k + 1));
        lemma_writes_concat(m.take(k), w);
        lemma_writes_none(m.take(k));
        lemma_writes_none(m.skip(k + 1));
        assert(writes_of(w) == w) by {
            reveal_with_fuel(writes_of, 2);
            assert(w.drop_last() =~= Seq::<BusOp>::empty());
        }
        assert(writes_of(m) =~= w);
    } else {
        assert(writes_of(m) == Seq::<BusOp>::empty());
    }
    assert(writes_of(t) =~= init_writes(p, chan));
}

/// Running the bring-up a second time, with no reset between, leaves the
/// registers as one run left them: no step is unsafe to repeat.
pub proof fn lemma_init_idempotent(
    p: BoardProfile,
    chan: u32,
    first: Seq<BusOp>,
    second: Seq<BusOp>,
    regs: Map<u32, u32>,
)
    requires
        init_run(p, chan, first),
        init_run(p, chan, second),
    ensures
        writes_of(second) == writes_of(first),
        apply_writes(apply_writes(regs, first), second) == apply_writes(regs, first),
{
    lemma_run_writes(p, chan, first);
    lemma_run_writes(p, chan, second);
    lemma_run_registers(p, chan, first, regs);
    lemma_run_registers(p, chan, second, apply_writes(regs, first));
    assert(configured(p, chan, configured(p, chan, regs)) =~= configured(p, chan, regs));
}

} // verus!
