use std::collections::HashMap;

use pi_uart::bringup::UartInit;
use pi_uart::bus::Action;
use pi_uart::console::{Console, GREETING, NEWLINE};
use pi_uart::mailbox::{channel_word, clock_request, MailboxBuffer};
use pi_uart::regs::{
    BoardProfile, CR_ENABLE, FR_RXFE, FR_TXFF, GPPUD, GPPUDCLK0, ICR_ALL, IMSC_ALL, LCRH_8N1_FIFO,
    MBOX_BASE, MBOX_EMPTY, MBOX_FULL, MBOX_READ, MBOX_STATUS, MBOX_WRITE, SETTLE_CYCLES,
    UART0_CR, UART0_DR, UART0_FBRD, UART0_FR, UART0_IBRD, UART0_ICR, UART0_IMSC, UART0_LCRH,
    UART_PINS,
};
use pi_uart::uart::{GetByte, PutByte, PutStr};

#[derive(Clone, Copy, Debug, PartialEq, Eq)]
enum Op {
    W(u32, u32),
    R(u32, u32),
    D(u32),
    S(u32, u32),
}

const ALL_BOARDS: [BoardProfile; 6] = [
    BoardProfile::RaspberryPi0,
    BoardProfile::RaspberryPi1,
    BoardProfile::RaspberryPi2,
    BoardProfile::RaspberryPi3,
    BoardProfile::RaspberryPi4,
    BoardProfile::RaspberryPi5,
];

/// Performs `action` against a read source, logs it and returns the value
/// to hand back to the machine.
fn perform(action: Action, log: &mut Vec<Op>, read: &mut dyn FnMut(u32) -> u32) -> u32 {
    match action {
        Action::Write { reg, value } => {
            log.push(Op::W(reg, value));
            0
        }
        Action::Read { reg } => {
            let v = read(reg);
            log.push(Op::R(reg, v));
            v
        }
        Action::Delay { cycles } => {
            log.push(Op::D(cycles));
            0
        }
        Action::Store { index, value } => {
            log.push(Op::S(index, value));
            0
        }
        Action::Done => panic!("nothing to perform"),
    }
}

fn run_init(m: &mut UartInit, read: &mut dyn FnMut(u32) -> u32) -> Vec<Op> {
    let mut log = Vec::new();
    for _ in 0..10_000 {
        let a = m.action();
        if a == Action::Done {
            return log;
        }
        let v = perform(a, &mut log, read);
        m.resume(v);
    }
    panic!("bring-up did not finish");
}

fn run_put(m: &mut PutByte, read: &mut dyn FnMut(u32) -> u32) -> Vec<Op> {
    let mut log = Vec::new();
    for _ in 0..10_000 {
        let a = m.action();
        if a == Action::Done {
            return log;
        }
        let v = perform(a, &mut log, read);
        m.resume(v);
    }
    panic!("transmission did not finish");
}

fn run_puts(m: &mut PutStr, read: &mut dyn FnMut(u32) -> u32) -> Vec<Op> {
    let mut log = Vec::new();
    for _ in 0..10_000 {
        let a = m.action();
        if a == Action::Done {
            return log;
        }
        let v = perform(a, &mut log, read);
        m.resume(v);
    }
    panic!("string transmission did not finish");
}

fn run_get(m: &mut GetByte, read: &mut dyn FnMut(u32) -> u32) -> Vec<Op> {
    let mut log = Vec::new();
    for _ in 0..10_000 {
        let a = m.action();
        if a == Action::Done {
            return log;
        }
        let v = perform(a, &mut log, read);
        m.resume(v);
    }
    panic!("reception did not finish");
}

/// Hardware that is always ready and answers the mailbox at once.
fn ready_hardware(chan: u32) -> impl FnMut(u32) -> u32 {
    move |reg| if reg == MBOX_READ { chan } else { 0 }
}

fn buffer(address: u32) -> MailboxBuffer {
    MailboxBuffer::new(address).expect("aligned")
}

fn apply(regs: &mut HashMap<u32, u32>, log: &[Op]) {
    for op in log {
        if let Op::W(r, v) = op {
            regs.insert(*r, *v);
        }
    }
}

fn is_mailbox(reg: u32) -> bool {
    reg >= MBOX_BASE && reg <= MBOX_WRITE
}

#[test]
fn register_offsets_match_the_map() {
    assert_eq!(GPPUD, 0x20_0094);
    assert_eq!(GPPUDCLK0, 0x20_0098);
    assert_eq!(UART0_DR, 0x20_1000);
    assert_eq!(UART0_FR, 0x20_1018);
    assert_eq!(UART0_IBRD, 0x20_1024);
    assert_eq!(UART0_FBRD, 0x20_1028);
    assert_eq!(UART0_LCRH, 0x20_102C);
    assert_eq!(UART0_CR, 0x20_1030);
    assert_eq!(UART0_IMSC, 0x20_1038);
    assert_eq!(UART0_ICR, 0x20_1044);
    assert_eq!(MBOX_READ, 0xB880);
    assert_eq!(MBOX_STATUS, 0xB898);
    assert_eq!(MBOX_WRITE, 0xB8A0);
}

#[test]
fn board_profiles() {
    let expect = [
        (0x2000_0000u32, false),
        (0x2000_0000, false),
        (0x3F00_0000, false),
        (0x3F00_0000, true),
        (0xFE00_0000, true),
        (0x7C00_0000, true),
    ];
    for (b, (base, neg)) in ALL_BOARDS.iter().zip(expect.iter()) {
        assert_eq!(b.base_address(), *base);
        assert_eq!(b.requires_clock_negotiation(), *neg);
    }
    assert_eq!(BoardProfile::RaspberryPi4.register_address(UART0_DR), 0xFE20_1000);
    assert_eq!(BoardProfile::RaspberryPi1.register_address(MBOX_WRITE), 0x2000_B8A0);
}

#[test]
fn clock_request_layout() {
    assert_eq!(clock_request(), vec![36, 0, 0x38002, 12, 8, 2, 3_000_000, 0, 0]);
}

#[test]
fn init_sequence_without_negotiation() {
    let mut m = UartInit::new(BoardProfile::RaspberryPi2, buffer(0x1000));
    let log = run_init(&mut m, &mut ready_hardware(0x1008));
    let expect = vec![
        Op::W(UART0_CR, 0),
        Op::W(GPPUD, 0),
        Op::D(SETTLE_CYCLES),
        Op::W(GPPUDCLK0, UART_PINS),
        Op::D(SETTLE_CYCLES),
        Op::W(GPPUDCLK0, 0),
        Op::W(UART0_ICR, ICR_ALL),
        Op::W(UART0_IBRD, 1),
        Op::W(UART0_FBRD, 40),
        Op::W(UART0_LCRH, LCRH_8N1_FIFO),
        Op::W(UART0_IMSC, IMSC_ALL),
        Op::W(UART0_CR, CR_ENABLE),
    ];
    assert_eq!(log, expect);
    assert_eq!(SETTLE_CYCLES, 150);
    assert_eq!(UART_PINS, (1 << 14) | (1 << 15));
    assert_eq!(LCRH_8N1_FIFO, (1 << 4) | (1 << 5) | (1 << 6));
    assert_eq!(CR_ENABLE, (1 << 0) | (1 << 8) | (1 << 9));
    assert_eq!(IMSC_ALL, (1 << 1) | (1 << 4) | (1 << 5) | (1 << 6) | (1 << 7) | (1 << 8) | (1 << 9) | (1 << 10));
}

#[test]
fn disable_comes_before_reconfiguration_on_every_board() {
    for b in ALL_BOARDS {
        let mut m = UartInit::new(b, buffer(0x2000));
        let log = run_init(&mut m, &mut ready_hardware(0x2008));
        let disable = log.iter().position(|o| *o == Op::W(UART0_CR, 0)).unwrap();
        for (i, o) in log.iter().enumerate() {
            let reconf = match o {
                Op::W(r, v) => {
                    *r == UART0_IBRD || *r == UART0_FBRD || *r == UART0_LCRH || (*r == UART0_CR && *v != 0)
                }
                _ => false,
            };
            if reconf {
                assert!(disable < i);
            }
        }
        assert_eq!(*log.last().unwrap(), Op::W(UART0_CR, CR_ENABLE));
    }
}

#[test]
fn pull_handshake_in_order_on_every_board() {
    for b in ALL_BOARDS {
        let mut m = UartInit::new(b, buffer(0x2000));
        let log = run_init(&mut m, &mut ready_hardware(0x2008));
        let gpio: Vec<Op> = log
            .iter()
            .copied()
            .filter(|o| matches!(o, Op::W(r, _) if *r == GPPUD || *r == GPPUDCLK0))
            .collect();
        assert_eq!(gpio, vec![Op::W(GPPUD, 0), Op::W(GPPUDCLK0, UART_PINS), Op::W(GPPUDCLK0, 0)]);
    }
}

#[test]
fn channel_word_carries_address_and_channel() {
    assert_eq!(channel_word(0x1000), 0x1008);
    assert_eq!(channel_word(0x0), 0x8);
    assert_eq!(channel_word(0xFFFF_FFF0), 0xFFFF_FFF8);
    assert_eq!(channel_word(0x1234_5670), 0x1234_5678);
    for a in [0x10u32, 0x8000_0000, 0x3B40_0000] {
        let b = buffer(a);
        assert_eq!(b.address(), a);
        assert_eq!(b.channel_word(), a | 8);
    }
}

#[test]
fn misaligned_buffer_is_rejected() {
    assert!(MailboxBuffer::new(0x1004).is_none());
    assert!(MailboxBuffer::new(0x1001).is_none());
    assert!(MailboxBuffer::new(0x100F).is_none());
    assert!(MailboxBuffer::new(0x1010).is_some());
}

#[test]
fn negotiation_sends_0x1008_for_buffer_at_0x1000() {
    let mut m = UartInit::new(BoardProfile::RaspberryPi3, buffer(0x1000));
    let log = run_init(&mut m, &mut ready_hardware(0x1008));
    let writes: Vec<Op> = log.iter().copied().filter(|o| matches!(o, Op::W(r, _) if *r == MBOX_WRITE)).collect();
    assert_eq!(writes, vec![Op::W(MBOX_WRITE, 0x1008)]);
}

#[test]
fn mailbox_polls_until_the_reply_matches() {
    let mut status = vec![MBOX_FULL, 0, MBOX_EMPTY, 0, 0].into_iter();
    let mut replies = vec![0x1234u32, 0x1008].into_iter();
    let mut read = |reg: u32| {
        if reg == MBOX_STATUS {
            status.next().expect("status polled too often")
        } else if reg == MBOX_READ {
            replies.next().expect("read register polled too often")
        } else {
            0
        }
    };
    let mut m = UartInit::new(BoardProfile::RaspberryPi4, buffer(0x1000));
    let log = run_init(&mut m, &mut read);
    let mbox: Vec<Op> = log.iter().copied().filter(|o| match o {
        Op::W(r, _) | Op::R(r, _) => is_mailbox(*r),
        _ => false,
    }).collect();
    assert_eq!(
        mbox,
        vec![
            Op::R(MBOX_STATUS, MBOX_FULL),
            Op::R(MBOX_STATUS, 0),
            Op::W(MBOX_WRITE, 0x1008),
            Op::R(MBOX_STATUS, MBOX_EMPTY),
            Op::R(MBOX_STATUS, 0),
            Op::R(MBOX_READ, 0x1234),
            Op::R(MBOX_STATUS, 0),
            Op::R(MBOX_READ, 0x1008),
        ]
    );
    assert_eq!(*log.last().unwrap(), Op::W(UART0_CR, CR_ENABLE));
}

#[test]
fn putc_waits_while_transmit_fifo_full() {
    let mut flags = vec![FR_TXFF, FR_TXFF | FR_RXFE, FR_RXFE].into_iter();
    let mut read = |reg: u32| {
        assert_eq!(reg, UART0_FR);
        flags.next().unwrap()
    };
    let mut m = PutByte::new(b'x');
    let log = run_put(&mut m, &mut read);
    assert_eq!(
        log,
        vec![
            Op::R(UART0_FR, FR_TXFF),
            Op::R(UART0_FR, FR_TXFF | FR_RXFE),
            Op::R(UART0_FR, FR_RXFE),
            Op::W(UART0_DR, b'x' as u32),
        ]
    );
}

#[test]
fn getc_waits_while_receive_fifo_empty() {
    let mut flags = vec![FR_RXFE, FR_RXFE | FR_TXFF, FR_TXFF].into_iter();
    let mut read = |reg: u32| {
        if reg == UART0_FR {
            flags.next().unwrap()
        } else {
            assert_eq!(reg, UART0_DR);
            0x0F41
        }
    };
    let mut m = GetByte::new();
    let log = run_get(&mut m, &mut read);
    assert_eq!(
        log,
        vec![
            Op::R(UART0_FR, FR_RXFE),
            Op::R(UART0_FR, FR_RXFE | FR_TXFF),
            Op::R(UART0_FR, FR_TXFF),
            Op::R(UART0_DR, 0x0F41),
        ]
    );
    assert_eq!(m.byte(), 0x41);
}

/// Runs the console for `steps` operations against a simulated board whose
/// host sends `input`, one byte at a time; returns the log.
fn run_console(profile: BoardProfile, input: &[u8], steps: usize) -> Vec<Op> {
    let mut c = Console::new(profile, buffer(0x1000));
    let mut log = Vec::new();
    let mut pending: std::collections::VecDeque<u8> = input.iter().copied().collect();
    for _ in 0..steps {
        let a = c.action();
        let v = match a {
            Action::Read { reg } if reg == UART0_FR => {
                if pending.is_empty() { FR_RXFE } else { 0 }
            }
            Action::Read { reg } if reg == UART0_DR => pending.pop_front().unwrap() as u32,
            Action::Read { reg } if reg == MBOX_READ => 0x1008,
            _ => 0,
        };
        let v = perform(a, &mut log, &mut |_| v);
        c.resume(v);
    }
    log
}

fn data_writes(log: &[Op]) -> Vec<u8> {
    log.iter()
        .filter_map(|o| match o {
            Op::W(r, v) if *r == UART0_DR => Some(*v as u8),
            _ => None,
        })
        .collect()
}

#[test]
fn echo_of_a_single_byte() {
    let log = run_console(BoardProfile::RaspberryPi2, &[0x41], 400);
    let mut expect = GREETING.as_bytes().to_vec();
    expect.push(0x41);
    expect.push(0x0A);
    assert_eq!(data_writes(&log), expect);
    assert_eq!(NEWLINE, 0x0A);
    assert!(!log.iter().any(|o| matches!(o, Op::R(r, _) if is_mailbox(*r))));
    assert!(!log.iter().any(|o| matches!(o, Op::W(r, _) if is_mailbox(*r))));
}

#[test]
fn greeting_text() {
    assert_eq!(GREETING, "Hello, kernel World!\n");
    let log = run_console(BoardProfile::RaspberryPi5, &[], 300);
    assert_eq!(data_writes(&log), GREETING.as_bytes().to_vec());
}

#[test]
fn echo_of_several_bytes_after_negotiation() {
    let log = run_console(BoardProfile::RaspberryPi3, b"hi!", 600);
    let mut expect = GREETING.as_bytes().to_vec();
    expect.extend_from_slice(b"h\ni\n!\n");
    assert_eq!(data_writes(&log), expect);
    assert!(log.contains(&Op::W(MBOX_WRITE, 0x1008)));
}

#[test]
fn console_starts_with_disable() {
    let c = Console::new(BoardProfile::RaspberryPi0, buffer(0x40));
    assert_eq!(c.action(), Action::Write { reg: UART0_CR, value: 0 });
}

#[test]
fn second_bring_up_leaves_same_registers() {
    for b in ALL_BOARDS {
        let mut regs: HashMap<u32, u32> = HashMap::new();
        regs.insert(UART0_CR, 0x301);
        regs.insert(UART0_LCRH, 0x12);
        let mut m1 = UartInit::new(b, buffer(0x1000));
        apply(&mut regs, &run_init(&mut m1, &mut ready_hardware(0x1008)));
        let once = regs.clone();
        let mut status = vec![MBOX_FULL, 0, MBOX_EMPTY, 0].into_iter();
        let mut read = |reg: u32| match reg {
            r if r == MBOX_STATUS => status.next().unwrap_or(0),
            r if r == MBOX_READ => 0x1008,
            _ => 0,
        };
        let mut m2 = UartInit::new(b, buffer(0x1000));
        apply(&mut regs, &run_init(&mut m2, &mut read));
        assert_eq!(regs, once);
        assert_eq!(regs[&UART0_CR], CR_ENABLE);
        assert_eq!(regs[&UART0_LCRH], LCRH_8N1_FIFO);
    }
}

#[test]
fn puts_sends_each_byte_in_order() {
    let mut busy = true;
    let mut read = |reg: u32| {
        assert_eq!(reg, UART0_FR);
        busy = !busy;
        if busy { FR_TXFF } else { 0 }
    };
    let mut m = PutStr::new("ok\n");
    let log = run_puts(&mut m, &mut read);
    assert_eq!(data_writes(&log), b"ok\n".to_vec());
    for (i, o) in log.iter().enumerate() {
        if let Op::W(r, _) = o {
            assert_eq!(*r, UART0_DR);
            assert_eq!(log[i - 1], Op::R(UART0_FR, 0));
        }
    }
}

#[test]
fn puts_of_empty_string_does_nothing() {
    let mut m = PutStr::new("");
    assert_eq!(m.action(), Action::Done);
    let log = run_puts(&mut m, &mut |_| 0);
    assert!(log.is_empty());
}

#[test]
fn request_is_placed_before_the_channel_word() {
    let mut m = UartInit::new(BoardProfile::RaspberryPi3, buffer(0x1000));
    let log = run_init(&mut m, &mut ready_hardware(0x1008));
    let stores: Vec<Op> = log.iter().copied().filter(|o| matches!(o, Op::S(..))).collect();
    let expect: Vec<Op> = clock_request().iter().enumerate().map(|(i, w)| Op::S(i as u32, *w)).collect();
    assert_eq!(stores, expect);
    let first_store = log.iter().position(|o| matches!(o, Op::S(..))).unwrap();
    assert_eq!(first_store, 7);
    let send = log.iter().position(|o| *o == Op::W(MBOX_WRITE, 0x1008)).unwrap();
    assert!(first_store + 9 <= send);
}

#[test]
fn no_request_without_negotiation() {
    let mut m = UartInit::new(BoardProfile::RaspberryPi1, buffer(0x1000));
    let log = run_init(&mut m, &mut ready_hardware(0x1008));
    assert!(!log.iter().any(|o| matches!(o, Op::S(..))));
}

#[test]
fn puts_hi_with_ready_fifo() {
    let mut m = PutStr::new("Hi\n");
    let log = run_puts(&mut m, &mut |_| 0);
    assert_eq!(
        log,
        vec![
            Op::R(UART0_FR, 0),
            Op::W(UART0_DR, 0x48),
            Op::R(UART0_FR, 0),
            Op::W(UART0_DR, 0x69),
            Op::R(UART0_FR, 0),
            Op::W(UART0_DR, 0x0A),
        ]
    );
}

#[test]
fn puts_of_concatenation_is_both_in_turn() {
    let flags = |n: &mut u32| {
        *n += 1;
        if *n % 3 == 0 { 0 } else { FR_TXFF }
    };
    let mut n1 = 0u32;
    let mut whole = PutStr::new("abcd");
    let log = run_puts(&mut whole, &mut |_| flags(&mut n1));
    let mut n2 = 0u32;
    let mut first = PutStr::new("ab");
    let mut second = PutStr::new("cd");
    let mut parts = run_puts(&mut first, &mut |_| flags(&mut n2));
    parts.extend(run_puts(&mut second, &mut |_| flags(&mut n2)));
    assert_eq!(log, parts);
}

#[test]
fn console_after_bring_up_touches_only_the_uart_data_path() {
    for b in ALL_BOARDS {
        let log = run_console(b, b"xyz", 800);
        let enable = log.iter().position(|o| *o == Op::W(UART0_CR, CR_ENABLE)).unwrap();
        assert_eq!(log.iter().filter(|o| matches!(o, Op::W(r, _) if *r == UART0_CR)).count(), 2);
        for o in &log[enable + 1..] {
            match o {
                Op::R(r, _) => assert!(*r == UART0_FR || *r == UART0_DR),
                Op::W(r, _) => assert_eq!(*r, UART0_DR),
                _ => panic!("unexpected operation after bring-up: {o:?}"),
            }
        }
        for o in &log[..enable] {
            if let Op::W(r, _) | Op::R(r, _) = o {
                assert!(*r != UART0_DR && *r != UART0_FR);
            }
        }
    }
}
