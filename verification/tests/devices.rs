use mimicros::gic::{GicCpuInterface, GicDistributor, GicdRegister, GiccRegister, RegWrite, TriggerMode, MAX_IRQS, SPI_RANGE};
use mimicros::lazy_init::LazyInit;
use mimicros::timer::{dispatch_irq_common, init_generic_timer, TimerRatios};
use mimicros::timer_list::{CallableEvent, TimerList};
use mimicros::run_queue::init;
use mimicros::irq::{dispatch_irq_common as next_tick, PERIODIC_INTERVAL_NANOS};
use mimicros::logger::{color_of, console_bytes, LogLevel};

struct Ev(u32);

impl CallableEvent for Ev {
    fn callback(self, _now: u64) {}
}

#[test]
fn timer_list_order() {
    let mut l: TimerList<Ev> = TimerList::new();
    assert!(l.is_empty());
    l.add(300, Ev(3));
    l.add(100, Ev(1));
    l.add(200, Ev(2));
    assert!(l.expire_event(50).is_none());
    let (d, e) = l.expire_event(250).unwrap();
    assert_eq!((d, e.0), (100, 1));
    let (d, e) = l.expire_event(250).unwrap();
    assert_eq!((d, e.0), (200, 2));
    assert!(l.expire_event(250).is_none());
    assert!(!l.is_empty());
    let (d, e) = l.expire_event(300).unwrap();
    assert_eq!((d, e.0), (300, 3));
    e.callback(300);
    assert!(l.is_empty());
}

#[test]
fn timer_list_cancel() {
    let mut l: TimerList<Ev> = TimerList::new();
    for k in 0..6u32 {
        l.add(k as u64 * 10, Ev(k));
    }
    l.cancel(|e: &Ev| e.0 % 2 == 1);
    let mut seen = Vec::new();
    while let Some((_, e)) = l.expire_event(1000) {
        seen.push(e.0);
    }
    assert_eq!(seen, vec![0, 2, 4]);
}

#[test]
fn lazy_cell() {
    let mut c: LazyInit<u32> = LazyInit::new();
    assert!(!c.is_initialized());
    c.init_by(5);
    assert!(c.is_initialized());
    c.check_init();
    assert_eq!(*c.get(), 5);
    *c.get_mut() = 6;
    assert_eq!(*c.get(), 6);
}

#[test]
fn distributor_type_register() {
    assert_eq!(GicDistributor::cpu_nums(0x0000_00e7), 8);
    assert_eq!(GicDistributor::cpu_nums(0), 1);
    assert_eq!(GicDistributor::max_irqs(0x1f), 1024);
    assert_eq!(GicDistributor::max_irqs(2), 96);
    assert_eq!(SPI_RANGE.start, 32);
    assert_eq!(MAX_IRQS, 1024);
}

#[test]
fn interrupt_configuration() {
    let d = GicDistributor::new();
    assert_eq!(d.config_index(30), None);
    assert_eq!(d.config_index(33), Some(2));
    assert_eq!(d.config_interrupt(30, TriggerMode::Edge, 0), None);
    assert_eq!(d.config_interrupt(1024, TriggerMode::Edge, 0), None);
    assert_eq!(
        d.config_interrupt(33, TriggerMode::Edge, 0),
        Some(RegWrite { reg: GicdRegister::Icfgr(2), value: 1 << 3 })
    );
    assert_eq!(
        d.config_interrupt(33, TriggerMode::Level, 0xffff_ffff),
        Some(RegWrite { reg: GicdRegister::Icfgr(2), value: 0xffff_fff7 })
    );
    assert_eq!(d.set_enable(30, true), Some(RegWrite { reg: GicdRegister::Isenabler(0), value: 1 << 30 }));
    assert_eq!(d.set_enable(70, false), Some(RegWrite { reg: GicdRegister::Icenabler(2), value: 1 << 6 }));
    assert_eq!(d.set_enable(1024, true), None);
}

#[test]
fn distributor_init_plan() {
    let d = GicDistributor::new();
    let icfgr = vec![0u32; 64];
    let plan = d.init(&icfgr);
    assert_eq!(plan.len(), 64 + 248 + 992 + 1);
    assert_eq!(plan[0], RegWrite { reg: GicdRegister::Icenabler(0), value: u32::MAX });
    assert_eq!(plan[1], RegWrite { reg: GicdRegister::Icpendr(0), value: u32::MAX });
    assert_eq!(plan[64], RegWrite { reg: GicdRegister::Itargetsr(8), value: 0x0101_0101 });
    assert_eq!(plan[64 + 248], RegWrite { reg: GicdRegister::Icfgr(2), value: 0b10 });
    assert_eq!(plan[64 + 248 + 15], RegWrite { reg: GicdRegister::Icfgr(2), value: 0xaaaa_aaaa });
    assert_eq!(plan[plan.len() - 1], RegWrite { reg: GicdRegister::Ctlr, value: 1 });
}

#[test]
fn cpu_interface() {
    let c = GicCpuInterface::new();
    let mut seen = Vec::new();
    assert_eq!(c.handle_irq(30, |v| seen.push(v)), (GiccRegister::Eoir, 30));
    assert_eq!(c.handle_irq(0x1c00 | 27, |v| seen.push(v)), (GiccRegister::Eoir, 0x1c00 | 27));
    assert_eq!(seen, vec![30, 27]);
    assert_eq!(c.eoi(30), (GiccRegister::Eoir, 30));
    assert_eq!(c.init(), vec![(GiccRegister::Ctlr, 1), (GiccRegister::Pmr, 0xff)]);
}

#[test]
fn timer_conversions() {
    init_generic_timer();
    let r = TimerRatios::init_early(62_500_000);
    assert_eq!(r.ticks_to_nanos(62_500_000), 1_000_000_000);
    assert_eq!(r.nanos_to_ticks(1_000_000_000), 62_500_000);
    assert_eq!(r.current_time_nanos(625), 10_000);
    assert_eq!(r.set_timer(100, 16_000), 900);
    assert_eq!(r.set_timer(2000, 16_000), 0);
}

#[test]
fn timer_interrupt() {
    let mut c = 1u64;
    let mut rq = init(&mut c);
    assert_eq!(dispatch_irq_common(&mut rq, 5), 1_000_000_005);
    assert_eq!(rq.current().time_slice(), 4);
}

#[test]
fn periodic_deadlines() {
    let mut next = 0u64;
    assert_eq!(next_tick(&mut next, 1_000), 1_000 + PERIODIC_INTERVAL_NANOS);
    assert_eq!(next, 1_000 + 2 * PERIODIC_INTERVAL_NANOS);
    // taken early: the planned deadline stands
    assert_eq!(next_tick(&mut next, 150_000_000), 200_001_000);
    assert_eq!(next, 300_001_000);
}

#[test]
fn console_output() {
    assert_eq!(console_bytes("ab\nc"), vec![b'a', b'b', b'\r', b'\n', b'c']);
    assert_eq!(console_bytes(""), Vec::<u8>::new());
    assert_eq!(console_bytes("é"), vec![0xe9]);
    // any character whose low byte is a line feed ends a line
    assert_eq!(console_bytes("\u{10a}"), vec![b'\r', b'\n']);
    assert_eq!(color_of(LogLevel::Error), 31);
    assert_eq!(color_of(LogLevel::Trace), 90);
    assert_eq!(color_of(LogLevel::Info), 32);
}

#[test]
fn configuring_one_interrupt_keeps_the_others() {
    let d = GicDistributor::new();
    let v1 = d.config_interrupt(33, TriggerMode::Edge, 0).unwrap().value;
    let v2 = d.config_interrupt(34, TriggerMode::Level, v1).unwrap().value;
    assert_eq!(v2 & (1 << 3), 1 << 3);
    let v3 = d.config_interrupt(35, TriggerMode::Edge, v2).unwrap().value;
    assert_eq!(v3, (1 << 3) | (1 << 7));
}
