//! The UART driver: byte transmit, byte receive, and the bring-up sequence.
use vstd::prelude::*;
use vstd::string::StringSliceAdditionalSpecFns;
use crate::bus::{Action, BusOp, clear_poll, is_read_of, is_write_to, op_value, polled_while_set};
use crate::regs::{UART0_FR, UART0_DR, FR_TXFF, FR_RXFE};

verus! {

/// A whole transmission of `c`: polls of the flag register while the
/// transmit FIFO is full, one poll that finds room, then the write of `c`.
pub open spec fn put_run(c: u8, t: Seq<BusOp>) -> bool {
    &&& t.len() >= 2
    &&& polled_while_set(t.take(t.len() - 2), UART0_FR, FR_TXFF)
    &&& clear_poll(t[t.len() - 2], UART0_FR, FR_TXFF)
    &&& t.last() == (BusOp::Write { reg: UART0_DR, value: c as u32 })
}

/// A transmission of `c` under way: every trace a transmission passes through.
pub open spec fn put_partial(c: u8, t: Seq<BusOp>) -> bool {
    ||| polled_while_set(t, UART0_FR, FR_TXFF)
    ||| (t.len() >= 1 && polled_while_set(t.drop_last(), UART0_FR, FR_TXFF)
        && clear_poll(t.last(), UART0_FR, FR_TXFF))
    ||| put_run(c, t)
}

/// What a transmission of `c` does next after `t`: write once the last poll
/// found room, stop once written, poll otherwise.
pub open spec fn put_next(c: u8, t: Seq<BusOp>) -> Action {
    if put_run(c, t) {
        Action::Done
    } else if t.len() >= 1 && clear_poll(t.last(), UART0_FR, FR_TXFF) {
        Action::Write { reg: UART0_DR, value: c as u32 }
    } else {
        Action::Read { reg: UART0_FR }
    }
}

/// A whole reception: polls of the flag register while the receive FIFO is
/// empty, one poll that finds a byte, then the read of the data register.
pub open spec fn get_run(t: Seq<BusOp>) -> bool {
    &&& t.len() >= 2
    &&& polled_while_set(t.take(t.len() - 2), UART0_FR, FR_RXFE)
    &&& clear_poll(t[t.len() - 2], UART0_FR, FR_RXFE)
    &&& is_read_of(t.last(), UART0_DR)
}

/// A reception under way.
pub open spec fn get_partial(t: Seq<BusOp>) -> bool {
    ||| polled_while_set(t, UART0_FR, FR_RXFE)
    ||| (t.len() >= 1 && polled_while_set(t.drop_last(), UART0_FR, FR_RXFE)
        && clear_poll(t.last(), UART0_FR, FR_RXFE))
    ||| get_run(t)
}

/// What a reception does next after `t`.
pub open spec fn get_next(t: Seq<BusOp>) -> Action {
    if get_run(t) {
        Action::Done
    } else if t.len() >= 1 && clear_poll(t.last(), UART0_FR, FR_RXFE) {
        Action::Read { reg: UART0_DR }
    } else {
        Action::Read { reg: UART0_FR }
    }
}

/// The byte a data-register read delivers: its low eight bits.
pub open spec fn received_byte(op: BusOp) -> u8 {
    match op {
        BusOp::Read { value, .. } => value as u8,
        _ => 0,
    }
}

/// The bytes written to the data register in `t`, in order.
pub open spec fn sent_bytes(t: Seq<BusOp>) -> Seq<u8>
    decreases t.len(),
{
    if t.len() == 0 {
        Seq::empty()
    } else if is_write_to(t.last(), UART0_DR) {
        sent_bytes(t.drop_last()).push(op_value(t.last()) as u8)
    } else {
        sent_bytes(t.drop_last())
    }
}

/// The bytes read from the data register in `t`, in order.
pub open spec fn received_bytes(t: Seq<BusOp>) -> Seq<u8>
    decreases t.len(),
{
    if t.len() == 0 {
        Seq::empty()
    } else if is_read_of(t.last(), UART0_DR) {
        received_bytes(t.drop_last()).push(op_value(t.last()) as u8)
    } else {
        received_bytes(t.drop_last())
    }
}

/// Every write to the data register in `t` comes right after a poll that
/// found room in the transmit FIFO.
pub open spec fn writes_only_with_room(t: Seq<BusOp>) -> bool {
    forall|i: int|
        0 <= i < t.len() && is_write_to(#[trigger] t[i], UART0_DR) ==> 0 < i && clear_poll(
            t[i - 1],
            UART0_FR,
            FR_TXFF,
        )
}

/// Every read of the data register in `t` comes right after a poll that
/// found a byte in the receive FIFO.
pub open spec fn reads_only_with_data(t: Seq<BusOp>) -> bool {
    forall|i: int|
        0 <= i < t.len() && is_read_of(#[trigger] t[i], UART0_DR) ==> 0 < i && clear_poll(
            t[i - 1],
            UART0_FR,
            FR_RXFE,
        )
}

/// A transmission never writes the data register while the transmit FIFO
/// is full, and writes it at most once, as its last operation.
pub proof fn lemma_put_waits_for_room(c: u8, t: Seq<BusOp>)
    requires
        put_partial(c, t),
    ensures
        writes_only_with_room(t),
        reads_only_with_data(t),
        forall|i: int| 0 <= i < t.len() && is_write_to(#[trigger] t[i], UART0_DR) ==> i == t.len() - 1,
{
    assert forall|i: int| 0 <= i < t.len() && (is_write_to(#[trigger] t[i], UART0_DR) || is_read_of(t[i], UART0_DR))
        implies i == t.len() - 1 && 0 < i && clear_poll(t[i - 1], UART0_FR, FR_TXFF)
        && !is_read_of(t[i], UART0_DR) by {
        let n = t.len();
        if polled_while_set(t, UART0_FR, FR_TXFF) {
            assert(is_read_of(t[i], UART0_FR));
        } else if put_run(c, t) {
            if i < n - 2 {
                assert(t[i] == t.take(n - 2)[i]);
                assert(is_read_of(t[i], UART0_FR));
            } else if i == n - 2 {
                assert(is_read_of(t[i], UART0_FR));
            }
        } else {
            if i < n - 1 {
                assert(t[i] == t.drop_last()[i]);
                assert(is_read_of(t[i], UART0_FR));
            } else {
                assert(is_read_of(t[i], UART0_FR));
            }
        }
    }
}

/// A reception never reads the data register while the receive FIFO is
/// empty, never writes it, and reads it at most once, as its last
/// operation.
pub proof fn lemma_get_waits_for_data(t: Seq<BusOp>)
    requires
        get_partial(t),
    ensures
        reads_only_with_data(t),
        forall|i: int| 0 <= i < t.len() ==> !is_write_to(#[trigger] t[i], UART0_DR),
        forall|i: int| 0 <= i < t.len() && is_read_of(#[trigger] t[i], UART0_DR) ==> i == t.len() - 1,
{
    assert forall|i: int| 0 <= i < t.len() implies (is_read_of(#[trigger] t[i], UART0_DR) ==> i == t.len() - 1
        && 0 < i && clear_poll(t[i - 1], UART0_FR, FR_RXFE)) && !is_write_to(t[i], UART0_DR) by {
        let n = t.len();
        if polled_while_set(t, UART0_FR, FR_RXFE) {
            assert(is_read_of(t[i], UART0_FR));
        } else if get_run(t) {
            if i < n - 2 {
                assert(t[i] == t.take(n - 2)[i]);
                assert(is_read_of(t[i], UART0_FR));
            } else if i == n - 2 {
                assert(is_read_of(t[i], UART0_FR));
            }
        } else {
            if i < n - 1 {
                assert(t[i] == t.drop_last()[i]);
                assert(is_read_of(t[i], UART0_FR));
            } else {
                assert(is_read_of(t[i], UART0_FR));
            }
        }
    }
}

enum Stage {
    Polling,
    Ready,
    Finished,
}

/// Transmission of one byte (`putc`).
pub struct PutByte {
    byte: u8,
    stage: Stage,
    trace: Ghost<Seq<BusOp>>,
}

impl PutByte {
    /// The byte being sent.
    pub closed spec fn byte(&self) -> u8 {
        self.byte
    }

    /// The operations performed so far.
    pub closed spec fn trace(&self) -> Seq<BusOp> {
        self.trace@
    }

    pub closed spec fn wf(&self) -> bool {
        &&& put_partial(self.byte, self.trace@)
        &&& match self.stage {
            Stage::Polling => polled_while_set(self.trace@, UART0_FR, FR_TXFF),
            Stage::Ready => self.trace@.len() >= 1
                && polled_while_set(self.trace@.drop_last(), UART0_FR, FR_TXFF)
                && clear_poll(self.trace@.last(), UART0_FR, FR_TXFF),
            Stage::Finished => put_run(self.byte, self.trace@),
        }
    }

    pub fn new(c: u8) -> (r: PutByte)
        ensures
            r.wf(),
            r.byte() == c,
            r.trace() == Seq::<BusOp>::empty(),
    {
        PutByte { byte: c, stage: Stage::Polling, trace: Ghost(Seq::empty()) }
    }

    /// The next operation.
    pub fn action(&self) -> (a: Action)
        requires
            self.wf(),
        ensures
            a == put_next(self.byte(), self.trace()),
            put_partial(self.byte(), self.trace()),
    {
        match self.stage {
            Stage::Polling => Action::Read { reg: UART0_FR },
            Stage::Ready => Action::Write { reg: UART0_DR, value: self.byte as u32 },
            Stage::Finished => Action::Done,
        }
    }

    /// Records that the next operation was performed; `input` is the value
    /// read, if it was a read.
    pub fn resume(&mut self, input: u32)
        requires
            old(self).wf(),
            put_next(old(self).byte(), old(self).trace()) != Action::Done,
        ensures
            final(self).wf(),
            final(self).byte() == old(self).byte(),
            final(self).trace() == old(self).trace().push(
                put_next(old(self).byte(), old(self).trace()).performed(input),
            ),
            put_partial(final(self).byte(), final(self).trace()),
            put_run(final(self).byte(), final(self).trace()) <==> put_next(
                old(self).byte(),
                old(self).trace(),
            ) is Write,
    {
        let a = self.action();
        let ghost t0 = self.trace@;
        let ghost op = a.performed(input);
        self.trace = Ghost(t0.push(op));
        assert(self.trace@.drop_last() =~= t0);
        match self.stage {
            Stage::Polling => {
                if input & FR_TXFF == 0 {
                    self.stage = Stage::Ready;
                } else {
                    assert(polled_while_set(self.trace@, UART0_FR, FR_TXFF)) by {
                        assert forall|i: int| 0 <= i < self.trace@.len() implies
                            #[trigger] is_read_of(self.trace@[i], UART0_FR)
                            && crate::bus::op_value(self.trace@[i]) & FR_TXFF != 0 by {
                            if i < t0.len() {
                                assert(self.trace@[i] == t0[i]);
                            }
                        }
                    }
                }
            },
            Stage::Ready => {
                assert(self.trace@.take(self.trace@.len() - 2) =~= t0.drop_last());
                self.stage = Stage::Finished;
            },
            Stage::Finished => {},
        }
    }
}

/// Reception of one byte (`getc`).
pub struct GetByte {
    stage: Stage,
    last: u32,
    trace: Ghost<Seq<BusOp>>,
}

impl GetByte {
    /// The operations performed so far.
    pub closed spec fn trace(&self) -> Seq<BusOp> {
        self.trace@
    }

    pub closed spec fn wf(&self) -> bool {
        &&& get_partial(self.trace@)
        &&& match self.stage {
            Stage::Polling => polled_while_set(self.trace@, UART0_FR, FR_RXFE),
            Stage::Ready => self.trace@.len() >= 1
                && polled_while_set(self.trace@.drop_last(), UART0_FR, FR_RXFE)
                && clear_poll(self.trace@.last(), UART0_FR, FR_RXFE),
            Stage::Finished => get_run(self.trace@)
                && self.trace@.last() == (BusOp::Read { reg: UART0_DR, value: self.last }),
        }
    }

    pub fn new() -> (r: GetByte)
        ensures
            r.wf(),
            r.trace() == Seq::<BusOp>::empty(),
    {
        GetByte { stage: Stage::Polling, last: 0, trace: Ghost(Seq::empty()) }
    }

    /// The next operation.
    pub fn action(&self) -> (a: Action)
        requires
            self.wf(),
        ensures
            a == get_next(self.trace()),
            get_partial(self.trace()),
    {
        match self.stage {
            Stage::Polling => Action::Read { reg: UART0_FR },
            Stage::Ready => Action::Read { reg: UART0_DR },
            Stage::Finished => Action::Done,
        }
    }

    /// Records that the next operation was performed; `input` is the value
    /// read.
    pub fn resume(&mut self, input: u32)
        requires
            old(self).wf(),
            get_next(old(self).trace()) != Action::Done,
        ensures
            final(self).wf(),
            final(self).trace() == old(self).trace().push(
                get_next(old(self).trace()).performed(input),
            ),
            get_partial(final(self).trace()),
            get_run(final(self).trace()) <==> get_next(old(self).trace()) == (Action::Read {
                reg: UART0_DR,
            }),
    {
        let a = self.action();
        let ghost t0 = self.trace@;
        let ghost op = a.performed(input);
        self.trace = Ghost(t0.push(op));
        assert(self.trace@.drop_last() =~= t0);
        match self.stage {
            Stage::Polling => {
                if input & FR_RXFE == 0 {
                    self.stage = Stage::Ready;
                } else {
                    assert(polled_while_set(self.trace@, UART0_FR, FR_RXFE)) by {
                        assert forall|i: int| 0 <= i < self.trace@.len() implies
                            #[trigger] is_read_of(self.trace@[i], UART0_FR)
                            && crate::bus::op_value(self.trace@[i]) & FR_RXFE != 0 by {
                            if i < t0.len() {
                                assert(self.trace@[i] == t0[i]);
                            }
                        }
                    }
                }
            },
            Stage::Ready => {
                assert(self.trace@.take(self.trace@.len() - 2) =~= t0.drop_last());
                self.last = input;
                self.stage = Stage::Finished;
            },
            Stage::Finished => {},
        }
    }

    /// The byte received, once the reception has finished.
    pub fn byte(&self) -> (r: u8)
        requires
            self.wf(),
            get_run(self.trace()),
        ensures
            r == received_byte(self.trace().last()),
    {
        proof {
            // Only a finished reception ends with a read of the data register.
            let t = self.trace@;
            if !(self.stage is Finished) {
                assert(is_read_of(t[t.len() - 1], UART0_FR));
            }
        }
        self.last as u8
    }
}

/// Whether `op` reads or writes the data register.
pub open spec fn is_data_access(op: BusOp) -> bool {
    is_write_to(op, UART0_DR) || is_read_of(op, UART0_DR)
}

/// The position just after the last access to the data register in `t`,
/// or zero where there is none: the operations from there on belong to the
/// byte transfer under way.
pub open spec fn since_data_access(t: Seq<BusOp>) -> int
    decreases t.len(),
{
    if t.len() == 0 {
        0
    } else if is_data_access(t.last()) {
        t.len() as int
    } else {
        since_data_access(t.drop_last())
    }
}

pub proof fn lemma_since_data_access(t: Seq<BusOp>, op: BusOp)
    ensures
        0 <= since_data_access(t) <= t.len(),
        since_data_access(t.push(op)) == if is_data_access(op) {
            t.len() + 1 as int
        } else {
            since_data_access(t)
        },
    decreases t.len(),
{
    assert(t.push(op).drop_last() =~= t);
    if t.len() > 0 {
        lemma_since_data_access(t.drop_last(), t.last());
    }
}

/// What sending `bytes` does next after `t`: stop once every byte is
/// written, else go on with the transmission of the next byte owed, over
/// the operations since the last write.
pub open spec fn puts_next(bytes: Seq<u8>, t: Seq<BusOp>) -> Action {
    if sent_bytes(t).len() >= bytes.len() {
        Action::Done
    } else {
        put_next(bytes[sent_bytes(t).len() as int], t.skip(since_data_access(t)))
    }
}

/// Appending `op` to `t` adds to the bytes sent or received only what `op`
/// moved through the data register.
pub proof fn lemma_push_bytes(t: Seq<BusOp>, op: BusOp)
    ensures
        sent_bytes(t.push(op)) == if is_write_to(op, UART0_DR) {
            sent_bytes(t).push(op_value(op) as u8)
        } else {
            sent_bytes(t)
        },
        received_bytes(t.push(op)) == if is_read_of(op, UART0_DR) {
            received_bytes(t).push(op_value(op) as u8)
        } else {
            received_bytes(t)
        },
{
    assert(t.push(op).drop_last() =~= t);
}

/// Appending `op` to `t` keeps the data register guarded, and adds to the
/// bytes sent or received only what `op` moved through it.
pub proof fn lemma_push_op(t: Seq<BusOp>, op: BusOp)
    requires
        writes_only_with_room(t),
        reads_only_with_data(t),
        is_write_to(op, UART0_DR) ==> t.len() > 0 && clear_poll(t.last(), UART0_FR, FR_TXFF),
        is_read_of(op, UART0_DR) ==> t.len() > 0 && clear_poll(t.last(), UART0_FR, FR_RXFE),
    ensures
        writes_only_with_room(t.push(op)),
        reads_only_with_data(t.push(op)),
        sent_bytes(t.push(op)) == if is_write_to(op, UART0_DR) {
            sent_bytes(t).push(op_value(op) as u8)
        } else {
            sent_bytes(t)
        },
        received_bytes(t.push(op)) == if is_read_of(op, UART0_DR) {
            received_bytes(t).push(op_value(op) as u8)
        } else {
            received_bytes(t)
        },
{
    let u = t.push(op);
    assert(u.drop_last() =~= t);
    assert forall|i: int| 0 <= i < u.len() && is_write_to(#[trigger] u[i], UART0_DR) implies 0 < i
        && clear_poll(u[i - 1], UART0_FR, FR_TXFF) by {
        if i < t.len() {
            assert(u[i] == t[i]);
            assert(u[i - 1] == t[i - 1]);
        } else {
            assert(u[i - 1] == t.last());
        }
    }
    assert forall|i: int| 0 <= i < u.len() && is_read_of(#[trigger] u[i], UART0_DR) implies 0 < i
        && clear_poll(u[i - 1], UART0_FR, FR_RXFE) by {
        if i < t.len() {
            assert(u[i] == t[i]);
            assert(u[i - 1] == t[i - 1]);
        } else {
            assert(u[i - 1] == t.last());
        }
    }
}

/// Transmission of a string, byte by byte (`puts`).
pub struct PutStr {
    bytes: Vec<u8>,
    index: usize,
    put: PutByte,
    trace: Ghost<Seq<BusOp>>,
    base: Ghost<Seq<BusOp>>,
}

impl PutStr {
    /// The bytes to send.
    pub closed spec fn bytes(&self) -> Seq<u8> {
        self.bytes@
    }

    /// The operations performed so far.
    pub closed spec fn trace(&self) -> Seq<BusOp> {
        self.trace@
    }

    pub closed spec fn wf(&self) -> bool {
        &&& self.index <= self.bytes@.len()
        &&& self.put.wf()
        &&& self.trace@ == self.base@ + self.put.trace()
        &&& self.put.trace() == self.trace@.skip(since_data_access(self.trace@))
        &&& writes_only_with_room(self.trace@)
        &&& reads_only_with_data(self.trace@)
        &&& received_bytes(self.trace@) == Seq::<u8>::empty()
        &&& sent_bytes(self.trace@) == self.bytes@.take(self.index as int)
        &&& self.index < self.bytes@.len() ==> self.put.byte() == self.bytes@[self.index as int]
            && !put_run(self.put.byte(), self.put.trace())
    }

    /// What holds after every step: the data register is written only when
    /// the transmit FIFO has room and never read, and what was written is
    /// the start of the string.
    pub open spec fn progress_ok(bytes: Seq<u8>, t: Seq<BusOp>) -> bool {
        &&& writes_only_with_room(t)
        &&& reads_only_with_data(t)
        &&& received_bytes(t) == Seq::<u8>::empty()
        &&& sent_bytes(t).is_prefix_of(bytes)
    }

    /// Every well-formed state has made progress that is the start of the
    /// string, and is done exactly when all of it is written.
    pub proof fn lemma_progress(&self)
        requires
            self.wf(),
        ensures
            PutStr::progress_ok(self.bytes(), self.trace()),
            puts_next(self.bytes(), self.trace()) == Action::Done <==> sent_bytes(self.trace())
                == self.bytes(),
    {
        assert(sent_bytes(self.trace@) =~= self.bytes@.subrange(0, sent_bytes(self.trace@).len() as int));
        if self.index >= self.bytes@.len() {
            assert(self.bytes@.take(self.index as int) =~= self.bytes@);
        } else {
            assert(sent_bytes(self.trace@).len() < self.bytes@.len());
        }
    }

    /// Transmission of the bytes of `s`.
    pub fn new(s: &str) -> (r: PutStr)
        ensures
            r.wf(),
            r.bytes() == s.spec_bytes(),
            r.trace() == Seq::<BusOp>::empty(),
    {
        let b = s.as_bytes();
        let mut bytes: Vec<u8> = Vec::new();
        let mut i: usize = 0;
        while i < b.len()
            invariant
                i <= b@.len(),
                bytes@ == b@.take(i as int),
            decreases b@.len() - i,
        {
            bytes.push(b[i]);
            i = i + 1;
            assert(bytes@ =~= b@.take(i as int));
        }
        assert(b@.take(b@.len() as int) =~= b@);
        let first = if 0 < bytes.len() { bytes[0] } else { 0 };
        let r = PutStr {
            bytes,
            index: 0,
            put: PutByte::new(first),
            trace: Ghost(Seq::empty()),
            base: Ghost(Seq::empty()),
        };
        assert(r.trace@ =~= r.base@ + r.put.trace());
        assert(r.trace@.skip(0) =~= r.put.trace());
        assert(r.bytes@.take(0) =~= Seq::<u8>::empty());
        r
    }

    /// The next operation; `Done` once every byte is written.
    pub fn action(&self) -> (a: Action)
        requires
            self.wf(),
        ensures
            a == puts_next(self.bytes(), self.trace()),
            a == Action::Done <==> sent_bytes(self.trace()) == self.bytes(),
            PutStr::progress_ok(self.bytes(), self.trace()),
    {
        proof {
            self.lemma_progress();
        }
        if self.index < self.bytes.len() {
            assert(sent_bytes(self.trace@).len() < self.bytes@.len());
            self.put.action()
        } else {
            assert(self.bytes@.take(self.index as int) =~= self.bytes@);
            Action::Done
        }
    }

    /// Records that the pending operation was performed; `input` is the
    /// value read, if it was a read.
    pub fn resume(&mut self, input: u32)
        requires
            old(self).wf(),
            puts_next(old(self).bytes(), old(self).trace()) != Action::Done,
        ensures
            final(self).wf(),
            final(self).bytes() == old(self).bytes(),
            final(self).trace() == old(self).trace().push(
                puts_next(old(self).bytes(), old(self).trace()).performed(input),
            ),
            PutStr::progress_ok(final(self).bytes(), final(self).trace()),
    {
        let n = self.bytes.len();
        let ghost t0 = self.trace@;
        let ghost pt0 = self.put.trace();
        let a = self.put.action();
        let ghost op = a.performed(input);
        self.put.resume(input);
        self.trace = Ghost(t0.push(op));
        proof {
            lemma_put_waits_for_room(self.put.byte(), pt0);
            if a is Write {
                assert(t0.last() == pt0.last());
            }
            lemma_push_op(t0, op);
            lemma_since_data_access(t0, op);
        }
        assert(self.trace@ =~= self.base@ + self.put.trace());
        if self.put.action() == Action::Done {
            assert(self.bytes@.take(self.index as int).push(self.bytes@[self.index as int])
                =~= self.bytes@.take(self.index + 1));
            assert(self.index < n);
            self.index = self.index + 1;
            self.base = Ghost(self.trace@);
            let next = if self.index < self.bytes.len() { self.bytes[self.index] } else { 0 };
            self.put = PutByte::new(next);
            assert(self.trace@ =~= self.base@ + self.put.trace());
            assert(self.trace@.skip(self.trace@.len() as int) =~= self.put.trace());
        } else {
            assert(self.trace@.skip(since_data_access(self.trace@)) =~= pt0.push(op));
        }
        assert(sent_bytes(self.trace@) =~= self.bytes@.subrange(0, sent_bytes(self.trace@).len() as int));
    }
}

} // verus!
