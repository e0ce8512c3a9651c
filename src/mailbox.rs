//! The mailbox channel to the firmware: the request buffer, the channel word
//! and the handshake that exchanges one request.
use vstd::prelude::*;
use crate::bus::{BusOp, clear_poll, is_read_of, op_value, polled_while_set, wait_run};
use crate::regs::{MBOX_EMPTY, MBOX_FULL, MBOX_READ, MBOX_STATUS, MBOX_WRITE};

verus! {

/// The property-tags channel.
pub const CHANNEL_PROPERTY: u32 = 8;
/// Request code: process request.
pub const REQUEST_CODE: u32 = 0;
/// Tag: set clock rate.
pub const TAG_SET_CLOCK_RATE: u32 = 0x38002;
/// Clock id of the UART reference clock.
pub const CLOCK_ID_UART: u32 = 2;
/// Requested UART reference clock, in Hz.
pub const UART_CLOCK_HZ: u32 = 3_000_000;
/// Number of 32-bit words in the request buffer.
pub const MBOX_WORDS: usize = 9;

/// The words of the clock-rate request, in buffer order: total length in
/// bytes, request code, tag id, tag value size, tag request size, clock id,
/// rate, an unused value word, and the end tag.
pub open spec fn clock_request_words() -> Seq<u32> {
    seq![
        (MBOX_WORDS * 4) as u32,
        REQUEST_CODE,
        TAG_SET_CLOCK_RATE,
        12,
        8,
        CLOCK_ID_UART,
        UART_CLOCK_HZ,
        0,
        0,
    ]
}

/// The contents to place in the request buffer before the exchange.
pub fn clock_request() -> (r: Vec<u32>)
    ensures
        r@ == clock_request_words(),
{
    let r = vec![
        (MBOX_WORDS * 4) as u32,
        REQUEST_CODE,
        TAG_SET_CLOCK_RATE,
        12,
        8,
        CLOCK_ID_UART,
        UART_CLOCK_HZ,
        0,
        0,
    ];
    assert(r@ =~= clock_request_words());
    r
}

/// Placing the clock-rate request in the buffer, word by word.
pub open spec fn fill_ops() -> Seq<BusOp> {
    Seq::new(MBOX_WORDS as nat, |i: int| BusOp::Store { index: i as u32, value: clock_request_words()[i] })
}

/// The word sent for a buffer at `address`: the address with its low four
/// bits replaced by the channel number.
pub open spec fn spec_channel_word(address: u32) -> u32 {
    (address & !0xFu32) | CHANNEL_PROPERTY
}

/// The word sent for a buffer at `address`.
pub fn channel_word(address: u32) -> (r: u32)
    ensures
        r == spec_channel_word(address),
{
    (address & !0xFu32) | CHANNEL_PROPERTY
}

/// For a 16-byte aligned buffer the channel word carries the whole address
/// in its upper bits and the channel number in its low four bits.
pub proof fn lemma_channel_word_fields(address: u32)
    requires
        address & 0xF == 0,
    ensures
        spec_channel_word(address) & !0xFu32 == address,
        spec_channel_word(address) & 0xF == CHANNEL_PROPERTY,
{
    assert(((address & !0xFu32) | 8u32) & !0xFu32 == address) by (bit_vector)
        requires address & 0xF == 0;
    assert(((address & !0xFu32) | 8u32) & 0xF == 8) by (bit_vector);
}

/// The request buffer, by its physical address. Only a 16-byte aligned
/// address can be held, since the channel number takes the low four bits.
#[derive(Clone, Copy, Debug, PartialEq, Eq, Structural)]
pub struct MailboxBuffer {
    address: u32,
}

impl MailboxBuffer {
    pub closed spec fn spec_address(&self) -> u32 {
        self.address
    }

    pub closed spec fn wf(&self) -> bool {
        self.address & 0xF == 0
    }

    /// Takes the buffer at `address`; `None` when it is not 16-byte aligned.
    pub fn new(address: u32) -> (r: Option<MailboxBuffer>)
        ensures
            r is Some <==> address & 0xF == 0,
            r matches Some(b) ==> b.wf() && b.spec_address() == address,
    {
        if address & 0xF == 0 {
            Some(MailboxBuffer { address })
        } else {
            None
        }
    }

    pub fn address(&self) -> (r: u32)
        ensures
            r == self.spec_address(),
    {
        self.address
    }

    /// The word that announces this buffer on the property channel.
    pub fn channel_word(&self) -> (r: u32)
        ensures
            r == spec_channel_word(self.spec_address()),
    {
        channel_word(self.address)
    }
}

/// Polls of a wait for the response that has not ended yet: status polls,
/// each one that finds a response waiting followed by a read of the read
/// register, and every value read there differing from `chan`.
pub open spec fn reply_partial(chan: u32, b: Seq<BusOp>) -> bool {
    &&& forall|i: int|
        0 <= i < b.len() ==> is_read_of(#[trigger] b[i], MBOX_STATUS) || is_read_of(b[i], MBOX_READ)
    &&& forall|i: int|
        0 <= i < b.len() && is_read_of(#[trigger] b[i], MBOX_READ) ==> 0 < i && clear_poll(
            b[i - 1],
            MBOX_STATUS,
            MBOX_EMPTY,
        ) && op_value(b[i]) != chan
    &&& forall|i: int|
        0 <= i < b.len() - 1 && clear_poll(#[trigger] b[i], MBOX_STATUS, MBOX_EMPTY) ==> is_read_of(
            b[i + 1],
            MBOX_READ,
        )
}

/// A whole wait for the response to `chan`: it ends with the first read of
/// the read register that returns `chan`.
pub open spec fn reply_run(chan: u32, b: Seq<BusOp>) -> bool {
    &&& b.len() >= 2
    &&& reply_partial(chan, b.drop_last())
    &&& clear_poll(b[b.len() - 2], MBOX_STATUS, MBOX_EMPTY)
    &&& b.last() == (BusOp::Read { reg: MBOX_READ, value: chan })
}

/// A whole exchange that sends `chan`: place the request in the buffer,
/// wait until the mailbox has room, write `chan`, wait for the response to
/// it.
pub open spec fn exchange_run(chan: u32, m: Seq<BusOp>) -> bool {
    exists|k: int|
        9 < k < m.len() && m.take(9) == fill_ops() && wait_run(m.subrange(9, k), MBOX_STATUS, MBOX_FULL)
            && m[k] == (BusOp::Write { reg: MBOX_WRITE, value: chan }) && reply_run(
            chan,
            #[trigger] m.skip(k + 1),
        )
}

/// The shortest end of a response wait that has got as far as `b`: the
/// read of the read register if the last poll found a response waiting,
/// else one more status poll first.
pub open spec fn reply_finish(chan: u32, b: Seq<BusOp>) -> Seq<BusOp> {
    if b.len() >= 1 && clear_poll(b.last(), MBOX_STATUS, MBOX_EMPTY) {
        seq![BusOp::Read { reg: MBOX_READ, value: chan }]
    } else {
        seq![BusOp::Read { reg: MBOX_STATUS, value: 0 }, BusOp::Read { reg: MBOX_READ, value: chan }]
    }
}

/// Every response wait under way can still end.
pub proof fn lemma_reply_finish(chan: u32, b: Seq<BusOp>)
    requires
        reply_partial(chan, b),
    ensures
        reply_run(chan, b + reply_finish(chan, b)),
{
    let u = b + reply_finish(chan, b);
    assert(0u32 & MBOX_EMPTY == 0) by (bit_vector);
    if b.len() >= 1 && clear_poll(b.last(), MBOX_STATUS, MBOX_EMPTY) {
        assert(u.drop_last() =~= b);
    } else {
        let w = b.push(BusOp::Read { reg: MBOX_STATUS, value: 0 });
        assert(u.drop_last() =~= w);
        assert forall|i: int| 0 <= i < w.len() && is_read_of(#[trigger] w[i], MBOX_READ) implies 0 < i
            && clear_poll(w[i - 1], MBOX_STATUS, MBOX_EMPTY) && op_value(w[i]) != chan by {
            assert(w[i] == b[i]);
            assert(w[i - 1] == b[i - 1]);
        }
        assert forall|i: int| 0 <= i < w.len() - 1 && clear_poll(#[trigger] w[i], MBOX_STATUS, MBOX_EMPTY)
            implies is_read_of(w[i + 1], MBOX_READ) by {
            assert(w[i] == b[i]);
            if i == b.len() - 1 {
                assert(clear_poll(b.last(), MBOX_STATUS, MBOX_EMPTY));
            } else {
                assert(w[i + 1] == b[i + 1]);
            }
        }
        assert forall|i: int| 0 <= i < w.len() implies is_read_of(#[trigger] w[i], MBOX_STATUS)
            || is_read_of(w[i], MBOX_READ) by {
            if i < b.len() {
                assert(w[i] == b[i]);
            }
        }
    }
}

/// A wait for room that has not ended yet ends with one more poll that
/// finds room.
pub proof fn lemma_slot_finish(s: Seq<BusOp>)
    requires
        polled_while_set(s, MBOX_STATUS, MBOX_FULL),
    ensures
        wait_run(s.push(BusOp::Read { reg: MBOX_STATUS, value: 0 }), MBOX_STATUS, MBOX_FULL),
{
    assert(0u32 & MBOX_FULL == 0) by (bit_vector);
    assert(s.push(BusOp::Read { reg: MBOX_STATUS, value: 0 }).drop_last() =~= s);
}

/// A wait for room, the write of `chan` and a wait for its response make an
/// exchange.
pub proof fn lemma_exchange(chan: u32, s: Seq<BusOp>, b: Seq<BusOp>)
    requires
        wait_run(s, MBOX_STATUS, MBOX_FULL),
        reply_run(chan, b),
    ensures
        exchange_run(chan, fill_ops() + s + seq![BusOp::Write { reg: MBOX_WRITE, value: chan }] + b),
{
    let m = fill_ops() + s + seq![BusOp::Write { reg: MBOX_WRITE, value: chan }] + b;
    let k = 9 + s.len() as int;
    assert(m.take(9) =~= fill_ops());
    assert(m.subrange(9, k) =~= s);
    assert(m.skip(k + 1) =~= b);
}

/// The exchange in which the mailbox has room at once and the response
/// comes at once.
pub open spec fn prompt_exchange(chan: u32) -> Seq<BusOp> {
    fill_ops() + seq![
        BusOp::Read { reg: MBOX_STATUS, value: 0 },
        BusOp::Write { reg: MBOX_WRITE, value: chan },
        BusOp::Read { reg: MBOX_STATUS, value: 0 },
        BusOp::Read { reg: MBOX_READ, value: chan },
    ]
}

pub proof fn lemma_prompt_exchange(chan: u32)
    ensures
        exchange_run(chan, prompt_exchange(chan)),
{
    let e = Seq::<BusOp>::empty();
    lemma_slot_finish(e);
    lemma_reply_finish(chan, e);
    lemma_exchange(chan, e.push(BusOp::Read { reg: MBOX_STATUS, value: 0 }), e + reply_finish(chan, e));
    assert(fill_ops() + e.push(BusOp::Read { reg: MBOX_STATUS, value: 0 }) + seq![
        BusOp::Write { reg: MBOX_WRITE, value: chan },
    ] + (e + reply_finish(chan, e)) =~= prompt_exchange(chan));
}

/// The wait for the response ends exactly at the first read of the read
/// register that returns the word sent: every earlier read returned
/// something else.
pub proof fn lemma_reply_ends_at_match(chan: u32, b: Seq<BusOp>)
    requires
        reply_run(chan, b),
    ensures
        b.last() == (BusOp::Read { reg: MBOX_READ, value: chan }),
        forall|i: int|
            0 <= i < b.len() && is_read_of(#[trigger] b[i], MBOX_READ) ==> (op_value(b[i]) == chan
                <==> i == b.len() - 1),
{
    let d = b.drop_last();
    assert forall|i: int| 0 <= i < b.len() && is_read_of(#[trigger] b[i], MBOX_READ) implies (op_value(b[i])
        == chan <==> i == b.len() - 1) by {
        if i < b.len() - 1 {
            assert(b[i] == d[i]);
        }
    }
}

/// An exchange stores the request words, reads the two mailbox registers
/// and writes `chan` to the write register once; it touches nothing else.
pub proof fn lemma_exchange_ops(chan: u32, m: Seq<BusOp>)
    requires
        exchange_run(chan, m),
    ensures
        m.take(9) == fill_ops(),
        forall|i: int|
            9 <= i < m.len() ==> is_read_of(#[trigger] m[i], MBOX_STATUS) || is_read_of(m[i], MBOX_READ)
                || m[i] == (BusOp::Write { reg: MBOX_WRITE, value: chan }),
        exists|k: int|
            0 <= k < m.len() && m.take(k) + seq![BusOp::Write { reg: MBOX_WRITE, value: chan }] + m.skip(k
                + 1) == m && (forall|i: int| 0 <= i < k ==> !(#[trigger] m[i] is Write)) && (forall|i: int|
                k < i < m.len() ==> !(#[trigger] m[i] is Write)),
{
    let k = choose|k: int|
        9 < k < m.len() && m.take(9) == fill_ops() && wait_run(m.subrange(9, k), MBOX_STATUS, MBOX_FULL)
            && m[k] == (BusOp::Write { reg: MBOX_WRITE, value: chan }) && reply_run(
            chan,
            #[trigger] m.skip(k + 1),
        );
    let s = m.subrange(9, k);
    let b = m.skip(k + 1);
    let d = b.drop_last();
    assert forall|i: int| 9 <= i < m.len() implies is_read_of(#[trigger] m[i], MBOX_STATUS) || is_read_of(
        m[i],
        MBOX_READ,
    ) || m[i] == (BusOp::Write { reg: MBOX_WRITE, value: chan }) by {
        if i < k - 1 {
            assert(m[i] == s.drop_last()[i - 9]);
        } else if i == k - 1 {
            assert(m[i] == s.last());
        } else if i > k {
            assert(m[i] == b[i - k - 1]);
            if i - k - 1 < d.len() {
                assert(b[i - k - 1] == d[i - k - 1]);
            }
        }
    }
    assert(m.take(k) + seq![BusOp::Write { reg: MBOX_WRITE, value: chan }] + m.skip(k + 1) =~= m);
    assert forall|i: int| 0 <= i < k implies !(#[trigger] m[i] is Write) by {
        if i < 9 {
            assert(m[i] == m.take(9)[i]);
        } else if i < k - 1 {
            assert(m[i] == s.drop_last()[i - 9]);
        } else {
            assert(m[i] == s.last());
        }
    }
    assert forall|i: int| k < i < m.len() implies !(#[trigger] m[i] is Write) by {
        assert(m[i] == b[i - k - 1]);
        if i - k - 1 < d.len() {
            assert(b[i - k - 1] == d[i - k - 1]);
        }
    }
}

} // verus!
