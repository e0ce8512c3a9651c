//! The echo console: bring the UART up, print the greeting, then echo each
//! received byte followed by a newline, forever.
use vstd::prelude::*;
use vstd::string::StringSliceAdditionalSpecFns;
use crate::bringup::{UartInit, init_prefix, init_run};
use crate::bus::{Action, BusOp, is_write_to};
use crate::mailbox::{MailboxBuffer, spec_channel_word};
use crate::regs::{BoardProfile, UART0_CR, UART0_DR, UART0_FR};
use crate::uart::{
    GetByte, PutByte, PutStr, get_next, get_run, lemma_get_waits_for_data, lemma_push_op,
    lemma_push_bytes, is_data_access, lemma_put_waits_for_room, lemma_since_data_access, put_next, put_run,
    puts_next, reads_only_with_data, received_bytes, sent_bytes, since_data_access,
    writes_only_with_room,
};

verus! {

/// The line printed once the UART is up.
pub const GREETING: &'static str = "Hello, kernel World!\n";

/// The byte sent after each echoed byte.
pub const NEWLINE: u8 = 0x0A;

pub open spec fn greeting_bytes() -> Seq<u8> {
    GREETING.spec_bytes()
}

/// Each byte of `r` followed by a newline.
pub open spec fn echo_of(r: Seq<u8>) -> Seq<u8>
    decreases r.len(),
{
    if r.len() == 0 {
        Seq::empty()
    } else {
        echo_of(r.drop_last()).push(r.last()).push(NEWLINE)
    }
}

/// What the console owes to the line once it has received `r`.
pub open spec fn transcript(r: Seq<u8>) -> Seq<u8> {
    greeting_bytes() + echo_of(r)
}

/// What the console does once the bring-up is over, after the operations
/// `u` since then: while it owes bytes of the greeting or of an echo, it
/// goes on transmitting the next byte owed; otherwise it goes on receiving.
/// Either way over the operations since the last data-register access.
pub open spec fn echo_next(u: Seq<BusOp>) -> Action {
    let sent = sent_bytes(u);
    let owed = transcript(received_bytes(u));
    let current = u.skip(since_data_access(u));
    if sent.len() < owed.len() {
        put_next(owed[sent.len() as int], current)
    } else {
        get_next(current)
    }
}

/// Once the bring-up is over the console only polls the flag register and
/// moves bytes through the data register: it never stops, and never
/// touches the control register or the mailbox again.
pub proof fn lemma_echo_uart_only(u: Seq<BusOp>)
    ensures
        echo_next(u) == (Action::Read { reg: UART0_FR }) || echo_next(u) == (Action::Read {
            reg: UART0_DR,
        }) || (echo_next(u) matches Action::Write { reg, .. } && reg == UART0_DR),
{
    let current = u.skip(since_data_access(u));
    lemma_since_data_access(u, BusOp::Delay { cycles: 0 });
    if current.len() > 0 {
        assert(since_data_access(u) < u.len());
        assert(current.last() == u.last());
        assert(!is_data_access(u.last()));
    }
}

/// What holds of the console's traffic at every moment: the data register
/// is only written when the transmit FIFO has room and only read when the
/// receive FIFO has a byte; what was sent is the greeting and the echo of
/// what was received, and falls at most one echo behind it.
pub open spec fn echo_ok(t: Seq<BusOp>) -> bool {
    &&& writes_only_with_room(t)
    &&& reads_only_with_data(t)
    &&& sent_bytes(t).is_prefix_of(transcript(received_bytes(t)))
    &&& received_bytes(t).len() > 0 ==> transcript(received_bytes(t)).len() <= sent_bytes(t).len() + 2
}

enum Stage {
    Init,
    Greet,
    Receive,
    Echo(u8),
    Newline,
}

/// The console program (`kernel_main`) as a machine that never finishes.
pub struct Console {
    init: UartInit,
    greet: PutStr,
    put: PutByte,
    get: GetByte,
    stage: Stage,
    trace: Ghost<Seq<BusOp>>,
    base: Ghost<Seq<BusOp>>,
    init_len: Ghost<int>,
}

impl Console {
    pub closed spec fn profile(&self) -> BoardProfile {
        self.init.profile()
    }

    /// The channel word of the clock negotiation.
    pub closed spec fn channel(&self) -> u32 {
        self.init.channel()
    }

    /// The operations performed so far.
    pub closed spec fn trace(&self) -> Seq<BusOp> {
        self.trace@
    }

    /// Whether the bring-up is over.
    pub closed spec fn initialized(&self) -> bool {
        !(self.stage is Init)
    }

    /// How many operations the bring-up took, once it is over.
    pub closed spec fn init_len(&self) -> int {
        self.init_len@
    }

    /// The operation asked for next.
    pub closed spec fn pending(&self) -> Action {
        match self.stage {
            Stage::Init => self.init.pending(),
            Stage::Greet => puts_next(self.greet.bytes(), self.greet.trace()),
            Stage::Receive => get_next(self.get.trace()),
            _ => put_next(self.put.byte(), self.put.trace()),
        }
    }

    pub closed spec fn wf(&self) -> bool {
        &&& self.init.wf()
        &&& self.put.wf()
        &&& self.get.wf()
        &&& writes_only_with_room(self.trace@)
        &&& reads_only_with_data(self.trace@)
        &&& match self.stage {
            Stage::Init => self.trace@ == self.init.trace() && self.init.pending() != Action::Done
                && sent_bytes(self.trace@) == Seq::<u8>::empty() && received_bytes(self.trace@)
                == Seq::<u8>::empty() && init_prefix(self.profile(), self.channel(), self.trace@),
            _ => 0 <= self.init_len@ <= self.base@.len() && init_run(
                self.profile(),
                self.channel(),
                self.trace@.take(self.init_len@),
            ) && self.trace@.take(self.init_len@) == self.base@.take(self.init_len@) && sent_bytes(
                self.trace@.skip(self.init_len@),
            ) == sent_bytes(self.trace@) && received_bytes(self.trace@.skip(self.init_len@))
                == received_bytes(self.trace@),
        }
        &&& match self.stage {
            Stage::Init => true,
            Stage::Greet => self.greet.trace() == self.trace@.skip(self.init_len@),
            Stage::Receive => self.get.trace() == self.trace@.skip(self.init_len@).skip(
                since_data_access(self.trace@.skip(self.init_len@)),
            ),
            _ => self.put.trace() == self.trace@.skip(self.init_len@).skip(
                since_data_access(self.trace@.skip(self.init_len@)),
            ),
        }
        &&& match self.stage {
            Stage::Init => true,
            Stage::Greet => self.greet.wf() && self.trace@ == self.base@ + self.greet.trace()
                && puts_next(self.greet.bytes(), self.greet.trace()) != Action::Done && sent_bytes(self.trace@) == sent_bytes(
                self.greet.trace(),
            ) && received_bytes(self.trace@) == Seq::<u8>::empty() && self.greet.bytes()
                == greeting_bytes(),
            Stage::Receive => self.trace@ == self.base@ + self.get.trace() && !get_run(self.get.trace())
                && sent_bytes(self.trace@) == sent_bytes(self.base@) && received_bytes(self.trace@)
                == received_bytes(self.base@),
            _ => self.trace@ == self.base@ + self.put.trace() && !put_run(self.put.byte(), self.put.trace())
                && sent_bytes(self.trace@) == sent_bytes(self.base@) && received_bytes(self.trace@)
                == received_bytes(self.base@),
        }
        &&& match self.stage {
            Stage::Init => true,
            Stage::Greet => true,
            Stage::Receive => sent_bytes(self.base@) == transcript(received_bytes(self.base@)),
            Stage::Echo(c) => received_bytes(self.base@).len() > 0 && received_bytes(self.base@).last() == c
                && self.put.byte() == c && sent_bytes(self.base@) == transcript(
                received_bytes(self.base@).drop_last(),
            ),
            Stage::Newline => received_bytes(self.base@).len() > 0 && self.put.byte() == NEWLINE
                && sent_bytes(self.base@) == transcript(received_bytes(self.base@).drop_last()).push(
                received_bytes(self.base@).last(),
            ),
        }
    }
}

impl Console {
    proof fn lemma_echo_ok(&self)
        requires
            self.wf(),
        ensures
            echo_ok(self.trace@),
    {
        let r = received_bytes(self.trace@);
        let sent = sent_bytes(self.trace@);
        assert(echo_of(Seq::<u8>::empty()) == Seq::<u8>::empty());
        assert(transcript(Seq::<u8>::empty()) =~= greeting_bytes());
        match self.stage {
            Stage::Init => {
                assert(sent =~= transcript(r).subrange(0, 0));
            },
            Stage::Greet => {
                self.greet.lemma_progress();
                assert(sent =~= transcript(r).subrange(0, sent.len() as int));
            },
            Stage::Receive => {
                assert(sent =~= transcript(r).subrange(0, sent.len() as int));
            },
            Stage::Echo(c) => {
                assert(transcript(r) =~= transcript(r.drop_last()).push(r.last()).push(NEWLINE));
                assert(sent =~= transcript(r).subrange(0, sent.len() as int));
            },
            Stage::Newline => {
                assert(transcript(r) =~= transcript(r.drop_last()).push(r.last()).push(NEWLINE));
                assert(sent =~= transcript(r).subrange(0, sent.len() as int));
            },
        }
    }

    proof fn lemma_pending(&self)
        requires
            self.wf(),
        ensures
            self.initialized() ==> self.pending() == echo_next(self.trace@.skip(self.init_len@)),
    {
        let u = self.trace@.skip(self.init_len@);
        let r = received_bytes(self.trace@);
        let sent = sent_bytes(self.trace@);
        assert(echo_of(Seq::<u8>::empty()) == Seq::<u8>::empty());
        match self.stage {
            Stage::Init => {},
            Stage::Greet => {
                self.greet.lemma_progress();
                assert(transcript(r) =~= greeting_bytes());
                assert(sent.len() < greeting_bytes().len()) by {
                    if sent.len() >= greeting_bytes().len() {
                        assert(sent =~= greeting_bytes());
                    }
                }
            },
            Stage::Receive => {},
            Stage::Echo(c) => {
                assert(transcript(r) =~= transcript(r.drop_last()).push(r.last()).push(NEWLINE));
                assert(transcript(r)[sent.len() as int] == c);
            },
            Stage::Newline => {
                assert(transcript(r) =~= transcript(r.drop_last()).push(r.last()).push(NEWLINE));
                assert(transcript(r)[sent.len() as int] == NEWLINE);
            },
        }
    }

    /// The console for board `profile`, whose clock request sits in `mailbox`.
    pub fn new(profile: BoardProfile, mailbox: MailboxBuffer) -> (r: Console)
        ensures
            r.wf(),
            r.profile() == profile,
            r.channel() == spec_channel_word(mailbox.spec_address()),
            r.trace() == Seq::<BusOp>::empty(),
            !r.initialized(),
            r.pending() == (Action::Write { reg: UART0_CR, value: 0 }),
            echo_ok(r.trace()),
    {
        let init = UartInit::new(profile, mailbox);
        let r = Console {
            init,
            greet: PutStr::new(GREETING),
            put: PutByte::new(0),
            get: GetByte::new(),
            stage: Stage::Init,
            trace: Ghost(Seq::empty()),
            base: Ghost(Seq::empty()),
            init_len: Ghost(0),
        };
        assert(r.trace@ == r.init.trace());
        proof {
            r.lemma_echo_ok();
        }
        r
    }

    /// The next operation. The console never finishes.
    pub fn action(&self) -> (a: Action)
        requires
            self.wf(),
        ensures
            a == self.pending(),
            a != Action::Done,
            self.initialized() ==> a == echo_next(self.trace().skip(self.init_len())),
    {
        proof {
            self.lemma_pending();
        }
        match self.stage {
            Stage::Init => self.init.action(),
            Stage::Greet => self.greet.action(),
            Stage::Receive => self.get.action(),
            _ => self.put.action(),
        }
    }

    /// Starts the greeting, or the echo when the greeting is empty.
    fn begin_greeting(&mut self)
        requires
            old(self).stage is Init,
            old(self).get.wf(),
        ensures
            final(self).init == old(self).init,
            final(self).put == old(self).put,
            final(self).trace == old(self).trace,
            final(self).base == old(self).base,
            final(self).init_len == old(self).init_len,
            final(self).get.wf(),
            final(self).greet.wf(),
            final(self).greet.bytes() == greeting_bytes(),
            final(self).greet.trace() == Seq::<BusOp>::empty(),
            match final(self).stage {
                Stage::Greet => puts_next(final(self).greet.bytes(), final(self).greet.trace()) != Action::Done,
                Stage::Receive => greeting_bytes().len() == 0 && final(self).get.trace()
                    == Seq::<BusOp>::empty(),
                _ => false,
            },
    {
        self.greet = PutStr::new(GREETING);
        if self.greet.action() == Action::Done {
            assert(sent_bytes(Seq::<BusOp>::empty()) == Seq::<u8>::empty());
            self.get = GetByte::new();
            self.stage = Stage::Receive;
        } else {
            self.stage = Stage::Greet;
        }
    }

    /// Records that the pending operation was performed; `input` is the
    /// value read, if it was a read.
    #[verifier::rlimit(100)]
    pub fn resume(&mut self, input: u32)
        requires
            old(self).wf(),
        ensures
            final(self).wf(),
            final(self).profile() == old(self).profile(),
            final(self).channel() == old(self).channel(),
            final(self).trace() == old(self).trace().push(old(self).pending().performed(input)),
            old(self).initialized() ==> final(self).trace() == old(self).trace().push(
                echo_next(old(self).trace().skip(old(self).init_len())).performed(input),
            ),
            echo_ok(final(self).trace()),
            !final(self).initialized() ==> init_prefix(
                final(self).profile(),
                final(self).channel(),
                final(self).trace(),
            ) && sent_bytes(final(self).trace()).len() == 0,
            final(self).initialized() ==> 0 <= final(self).init_len() <= final(self).trace().len()
                && init_run(
                final(self).profile(),
                final(self).channel(),
                final(self).trace().take(final(self).init_len()),
            ),
            old(self).initialized() ==> final(self).initialized() && final(self).init_len()
                == old(self).init_len(),
    {
        let ghost t0 = self.trace@;
        let ghost op = self.pending().performed(input);
        let ghost u0 = t0.skip(self.init_len@);
        proof {
            self.lemma_pending();
            lemma_push_bytes(u0, op);
            lemma_since_data_access(u0, op);
            if !(self.stage is Init) {
                assert(t0.push(op).skip(self.init_len@) =~= u0.push(op));
            }
        }
        match self.stage {
            Stage::Init => {
                let a = self.init.action();
                self.init.resume(input);
                self.trace = Ghost(t0.push(op));
                proof {
                    lemma_push_op(t0, op);
                }
                if self.init.action() == Action::Done {
                    self.init_len = Ghost(self.trace@.len() as int);
                    self.base = Ghost(self.trace@);
                    assert(self.trace@.take(self.init_len@) =~= self.trace@);
                    assert(self.trace@.skip(self.init_len@) =~= Seq::<BusOp>::empty());
                    assert(since_data_access(self.trace@.skip(self.init_len@)) == 0);
                    assert(self.trace@.skip(self.init_len@).skip(0) =~= Seq::<BusOp>::empty());
                    self.begin_greeting();
                    if let Stage::Greet = self.stage {
                        assert(self.trace@ =~= self.base@ + self.greet.trace());
                    } else {
                        assert(self.trace@ =~= self.base@ + self.get.trace());
                    }
                    assert(transcript(Seq::<u8>::empty()) =~= greeting_bytes());
                }
            },
            Stage::Receive => {
                let ghost gt0 = self.get.trace();
                let a = self.get.action();
                self.get.resume(input);
                self.trace = Ghost(t0.push(op));
                assert(t0.take(self.init_len@) =~= self.trace@.take(self.init_len@));
                proof {
                    lemma_get_waits_for_data(gt0);
                    if a == (Action::Read { reg: UART0_DR }) {
                        assert(t0.last() == gt0.last());
                    }
                    lemma_push_op(t0, op);
                }
                assert(self.trace@ =~= self.base@ + self.get.trace());
                if self.get.action() == Action::Done {
                    assert(self.trace@.skip(self.init_len@).skip(self.trace@.len() - self.init_len@) =~= Seq::<BusOp>::empty());
                    let c = self.get.byte();
                    assert(received_bytes(self.trace@).drop_last() =~= received_bytes(self.base@));
                    self.base = Ghost(self.trace@);
                    self.put = PutByte::new(c);
                    self.stage = Stage::Echo(c);
                    assert(self.trace@ =~= self.base@ + self.put.trace());
                    assert(self.trace@.take(self.init_len@) =~= t0.take(self.init_len@));
                } else {
                    assert(self.trace@.skip(self.init_len@).skip(since_data_access(u0)) =~= gt0.push(op));
                }
            },
            Stage::Greet => {
                let ghost gt0 = self.greet.trace();
                proof {
                    self.greet.lemma_progress();
                }
                let _ = self.greet.action();
                self.greet.resume(input);
                proof {
                    lemma_push_bytes(gt0, op);
                }
                self.trace = Ghost(t0.push(op));
                assert(t0.take(self.init_len@) =~= self.trace@.take(self.init_len@));
                proof {
                    let gt = self.greet.trace();
                    assert(gt.drop_last() =~= gt0);
                    if is_write_to(op, UART0_DR) {
                        assert(gt[gt.len() - 1] == op);
                        assert(t0.last() == gt0.last());
                    }
                    lemma_push_op(t0, op);
                    lemma_push_op(gt0, op);
                }
                assert(self.trace@ =~= self.base@ + self.greet.trace());
                if self.greet.action() == Action::Done {
                    assert(is_write_to(op, UART0_DR));
                    assert(self.trace@.skip(self.init_len@).skip(self.trace@.len() - self.init_len@) =~= Seq::<BusOp>::empty());
                    self.base = Ghost(self.trace@);
                    self.get = GetByte::new();
                    self.stage = Stage::Receive;
                    assert(self.trace@ =~= self.base@ + self.get.trace());
                    assert(transcript(Seq::<u8>::empty()) =~= greeting_bytes());
                    assert(self.trace@.take(self.init_len@) =~= t0.take(self.init_len@));
                }
            },
            Stage::Echo(c) => {
                let ghost pt0 = self.put.trace();
                let a = self.put.action();
                self.put.resume(input);
                self.trace = Ghost(t0.push(op));
                assert(t0.take(self.init_len@) =~= self.trace@.take(self.init_len@));
                proof {
                    lemma_put_waits_for_room(self.put.byte(), pt0);
                    if a is Write {
                        assert(t0.last() == pt0.last());
                    }
                    lemma_push_op(t0, op);
                }
                assert(self.trace@ =~= self.base@ + self.put.trace());
                if self.put.action() == Action::Done {
                    assert(self.trace@.skip(self.init_len@).skip(self.trace@.len() - self.init_len@) =~= Seq::<BusOp>::empty());
                    self.base = Ghost(self.trace@);
                    self.put = PutByte::new(NEWLINE);
                    self.stage = Stage::Newline;
                    assert(self.trace@ =~= self.base@ + self.put.trace());
                    assert(self.trace@.take(self.init_len@) =~= t0.take(self.init_len@));
                } else {
                    assert(self.trace@.skip(self.init_len@).skip(since_data_access(u0)) =~= pt0.push(op));
                }
            },
            Stage::Newline => {
                let ghost pt0 = self.put.trace();
                let a = self.put.action();
                self.put.resume(input);
                self.trace = Ghost(t0.push(op));
                assert(t0.take(self.init_len@) =~= self.trace@.take(self.init_len@));
                proof {
                    lemma_put_waits_for_room(self.put.byte(), pt0);
                    if a is Write {
                        assert(t0.last() == pt0.last());
                    }
                    lemma_push_op(t0, op);
                }
                assert(self.trace@ =~= self.base@ + self.put.trace());
                if self.put.action() == Action::Done {
                    assert(self.trace@.skip(self.init_len@).skip(self.trace@.len() - self.init_len@) =~= Seq::<BusOp>::empty());
                    let ghost r = received_bytes(self.trace@);
                    assert(transcript(r) =~= transcript(r.drop_last()).push(r.last()).push(NEWLINE));
                    self.base = Ghost(self.trace@);
                    self.get = GetByte::new();
                    self.stage = Stage::Receive;
                    assert(self.trace@ =~= self.base@ + self.get.trace());
                    assert(self.trace@.take(self.init_len@) =~= t0.take(self.init_len@));
                } else {
                    assert(self.trace@.skip(self.init_len@).skip(since_data_access(u0)) =~= pt0.push(op));
                }
            },
        }
        proof {
            self.lemma_echo_ok();
        }
    }
}

} // verus!
