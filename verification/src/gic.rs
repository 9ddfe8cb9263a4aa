//! The GICv2 interrupt controller: what its distributor and CPU interface
//! registers are to be set to.
//!
//! The functions here decide the register writes; performing them (and the
//! reads they start from) is left to the caller that owns the registers.
use vstd::prelude::*;

verus! {

/// Software-generated interrupts.
pub const SGI_RANGE: std::ops::Range<usize> = 0..16;

/// Private peripheral interrupts.
pub const PPI_RANGE: std::ops::Range<usize> = 16..32;

/// Shared peripheral interrupts.
pub const SPI_RANGE: std::ops::Range<usize> = 32..1020;

/// The number of interrupt numbers of the controller.
pub const MAX_IRQS: usize = 1024;

/// How an interrupt is signalled.
#[derive(Copy, Clone, Debug, PartialEq, Eq, Structural)]
pub enum TriggerMode {
    Edge,
    Level,
}

/// The kinds of interrupts.
#[derive(Copy, Clone, Debug, PartialEq, Eq, Structural)]
pub enum InterruptType {
    /// Software-generated interrupt.
    SGI,
    /// Private peripheral interrupt.
    PPI,
    /// Shared peripheral interrupt.
    SPI,
}

/// A distributor register: the index is that of the register in its bank.
#[derive(Copy, Clone, Debug, PartialEq, Eq, Structural)]
pub enum GicdRegister {
    /// Distributor control.
    Ctlr,
    /// Interrupt set-enable.
    Isenabler(usize),
    /// Interrupt clear-enable.
    Icenabler(usize),
    /// Interrupt clear-pending.
    Icpendr(usize),
    /// Interrupt processor targets.
    Itargetsr(usize),
    /// Interrupt configuration.
    Icfgr(usize),
}

/// A value to be written to a distributor register.
#[derive(Copy, Clone, Debug, PartialEq, Eq, Structural)]
pub struct RegWrite {
    pub reg: GicdRegister,
    pub value: u32,
}

/// The bit of an interrupt's configuration register that is set for edge
/// triggering.
pub open spec fn config_bit(vector: usize) -> u32 {
    1u32 << ((((vector & 15) << 1) + 1) as u32)
}

/// The configuration register of `vector` after it has been set to `tm`,
/// from the value `value`.
pub open spec fn configured(value: u32, vector: usize, tm: TriggerMode) -> u32 {
    match tm {
        TriggerMode::Edge => value | config_bit(vector),
        TriggerMode::Level => value & !config_bit(vector),
    }
}

/// Configuring one interrupt changes its own bit of the configuration
/// register and no other interrupt's: for two interrupts of the same
/// register, the bit of the other one keeps its value.
pub proof fn lemma_config_independent(value: u32, vector: usize, other: usize, tm: TriggerMode)
    requires
        vector >> 4usize == other >> 4usize,
        vector != other,
    ensures
        configured(value, vector, tm) & config_bit(other) == value & config_bit(other),
        tm == TriggerMode::Edge ==> configured(value, vector, tm) & config_bit(vector) != 0,
        tm == TriggerMode::Level ==> configured(value, vector, tm) & config_bit(vector) == 0,
{
    assert(vector & 15usize != other & 15usize) by (bit_vector)
        requires vector >> 4usize == other >> 4usize, vector != other;
    assert(((vector & 15usize) << 1usize) <= 30 && ((other & 15usize) << 1usize) <= 30
        && ((vector & 15usize) << 1usize) != ((other & 15usize) << 1usize)) by (bit_vector)
        requires vector & 15usize != other & 15usize;
    let sa = (((vector & 15usize) << 1usize) + 1) as u32;
    let sb = (((other & 15usize) << 1usize) + 1) as u32;
    assert(config_bit(vector) == 1u32 << sa);
    assert(config_bit(other) == 1u32 << sb);
    assert((value | (1u32 << sa)) & (1u32 << sb) == value & (1u32 << sb)) by (bit_vector)
        requires sa <= 31, sb <= 31, sa != sb;
    assert((value & !(1u32 << sa)) & (1u32 << sb) == value & (1u32 << sb)) by (bit_vector)
        requires sa <= 31, sb <= 31, sa != sb;
    assert((value | (1u32 << sa)) & (1u32 << sa) != 0) by (bit_vector)
        requires sa <= 31;
    assert((value & !(1u32 << sa)) & (1u32 << sa) == 0) by (bit_vector)
        requires sa <= 31;
}

/// The configuration register that holds `v` once every interrupt from the
/// first of that register up to `v` has been set to edge triggering, from
/// the register values `icfgr`.
pub open spec fn edge_value(icfgr: Seq<u32>, v: usize) -> u32
    decreases v,
{
    if v & 15 == 0 || v == 0 {
        configured(icfgr[(v >> 4) as int], v, TriggerMode::Edge)
    } else {
        configured(edge_value(icfgr, (v - 1) as usize), v, TriggerMode::Edge)
    }
}

/// The writes that disable every interrupt and clear every pending one.
pub open spec fn clear_part() -> Seq<RegWrite> {
    Seq::new(64, |j: int| if j % 2 == 0 {
        RegWrite { reg: GicdRegister::Icenabler((j / 2) as usize), value: u32::MAX }
    } else {
        RegWrite { reg: GicdRegister::Icpendr((j / 2) as usize), value: u32::MAX }
    })
}

/// The writes that send every shared interrupt to CPU 0.
pub open spec fn targets_part() -> Seq<RegWrite> {
    Seq::new(248, |j: int| RegWrite { reg: GicdRegister::Itargetsr((j + 8) as usize), value: 0x01_01_01_01 })
}

/// The writes that set the shared interrupts to edge triggering, one after
/// the other, from the configuration register values `icfgr`.
pub open spec fn config_part(icfgr: Seq<u32>) -> Seq<RegWrite> {
    Seq::new(992, |j: int| RegWrite {
        reg: GicdRegister::Icfgr(((j + 32) as usize >> 4usize) as usize),
        value: edge_value(icfgr, (j + 32) as usize),
    })
}

/// The register writes that initialise the distributor of 1024 interrupts,
/// from the configuration register values `icfgr`: every interrupt disabled
/// and not pending, every shared interrupt sent to CPU 0 and set to edge
/// triggering one after the other, then the distributor enabled.
pub open spec fn init_plan(icfgr: Seq<u32>) -> Seq<RegWrite> {
    clear_part() + targets_part() + config_part(icfgr) + seq![RegWrite { reg: GicdRegister::Ctlr, value: 1 }]
}

/// The value of configuration register `i` once the shared interrupts below
/// `v` have been set to edge triggering, from the values `icfgr`.
pub open spec fn config_reg_at(icfgr: Seq<u32>, i: int, v: int) -> u32 {
    if i < 2 || i * 16 >= v {
        icfgr[i]
    } else if i * 16 + 15 < v {
        edge_value(icfgr, (i * 16 + 15) as usize)
    } else {
        edge_value(icfgr, (v - 1) as usize)
    }
}

/// The distributor, which routes interrupts to the CPU interfaces.
pub struct GicDistributor {
    max_irqs: usize,
}

impl GicDistributor {
    /// A distributor always handles `MAX_IRQS` interrupts.
    #[verifier::type_invariant]
    spec fn max_is_fixed(self) -> bool {
        self.max_irqs == MAX_IRQS
    }

    /// The number of interrupts handled.
    pub closed spec fn irqs(&self) -> usize {
        self.max_irqs
    }

    /// A distributor of `MAX_IRQS` interrupts.
    pub fn new() -> (r: Self)
        ensures
            r.irqs() == MAX_IRQS,
    {
        GicDistributor { max_irqs: MAX_IRQS }
    }

    /// The number of CPU interfaces, from the type register `typer`.
    pub fn cpu_nums(typer: u32) -> (r: usize)
        ensures
            r == ((typer >> 5u32) & 7u32) + 1,
    {
        let t = typer;
        assert((t >> 5u32) & 7u32 <= 7) by (bit_vector);
        ((t >> 5) & 7) as usize + 1
    }

    /// The number of interrupt lines, from the type register `typer`.
    pub fn max_irqs(typer: u32) -> (r: usize)
        ensures
            r == ((typer & 31u32) + 1) * 32,
    {
        let t = typer;
        assert(t & 31u32 <= 31) by (bit_vector);
        ((t & 31) as usize + 1) * 32
    }

    /// The configuration register of `vector`, when it is a shared interrupt
    /// of this distributor; only those can be configured.
    pub fn config_index(&self, vector: usize) -> (r: Option<usize>)
        ensures
            r == (if vector < SPI_RANGE.start || vector >= self.irqs() { None } else { Some(vector >> 4usize) }),
    {
        if vector < SPI_RANGE.start || vector >= self.max_irqs {
            None
        } else {
            Some(vector >> 4)
        }
    }

    /// Sets how `vector` is triggered, from the current value `value` of its
    /// configuration register: nothing is written unless it is a shared
    /// interrupt of this distributor.
    pub fn config_interrupt(&self, vector: usize, tm: TriggerMode, value: u32) -> (r: Option<RegWrite>)
        ensures
            vector < SPI_RANGE.start || vector >= self.irqs() ==> r is None,
            !(vector < SPI_RANGE.start || vector >= self.irqs()) ==> r == Some(RegWrite {
                reg: GicdRegister::Icfgr(vector >> 4usize),
                value: configured(value, vector, tm),
            }),
    {
        if vector < SPI_RANGE.start || vector >= self.max_irqs {
            return None;
        }
        let idx = vector >> 4;
        proof {
            assert(((vector & 15usize) << 1usize) <= 30) by (bit_vector);
        }
        let shift = (((vector & 0b1111) << 1) + 1) as u32;
        let mut value = value;
        match tm {
            TriggerMode::Edge => value = value | (1u32 << shift),
            TriggerMode::Level => value = value & !(1u32 << shift),
        }
        Some(RegWrite { reg: GicdRegister::Icfgr(idx), value })
    }

    /// Enables or disables `vector`: a write of its bit to its set-enable or
    /// clear-enable register, unless it is not an interrupt of this
    /// distributor.
    pub fn set_enable(&self, vector: usize, enable: bool) -> (r: Option<RegWrite>)
        ensures
            vector >= self.irqs() ==> r is None,
            vector < self.irqs() && enable ==> r == Some(RegWrite {
                reg: GicdRegister::Isenabler(vector / 32),
                value: 1u32 << ((vector % 32) as u32),
            }),
            vector < self.irqs() && !enable ==> r == Some(RegWrite {
                reg: GicdRegister::Icenabler(vector / 32),
                value: 1u32 << ((vector % 32) as u32),
            }),
    {
        if vector >= self.max_irqs {
            return None;
        }
        let idx = vector / 32;
        let mask: u32 = 1u32 << ((vector % 32) as u32);
        if enable {
            Some(RegWrite { reg: GicdRegister::Isenabler(idx), value: mask })
        } else {
            Some(RegWrite { reg: GicdRegister::Icenabler(idx), value: mask })
        }
    }

    /// The register writes that initialise the distributor, from the values
    /// `icfgr` of its 64 configuration registers: every interrupt disabled
    /// and not pending, every shared interrupt sent to CPU 0 and set to edge
    /// triggering, then the distributor enabled.
    pub fn init(&self, icfgr: &Vec<u32>) -> (r: Vec<RegWrite>)
        requires
            icfgr.len() == 64,
        ensures
            r@ == init_plan(icfgr@),
    {
        proof {
            use_type_invariant(self);
        }
        let max = self.max_irqs;
        let mut plan: Vec<RegWrite> = Vec::new();
        let mut idx: usize = 0;
        while idx < max
            invariant
                max == 1024,
                idx % 32 == 0,
                idx <= 1024,
                plan@ == clear_part().take((idx / 16) as int),
            decreases 1024 - idx,
        {
            plan.push(RegWrite { reg: GicdRegister::Icenabler(idx / 32), value: u32::MAX });
            plan.push(RegWrite { reg: GicdRegister::Icpendr(idx / 32), value: u32::MAX });
            proof {
                let k = (idx / 16) as int;
                assert(clear_part()[k] == RegWrite { reg: GicdRegister::Icenabler(idx / 32), value: u32::MAX });
                assert(clear_part()[k + 1] == RegWrite { reg: GicdRegister::Icpendr(idx / 32), value: u32::MAX });
                assert(plan@ =~= clear_part().take(k + 2));
            }
            idx = idx + 32;
        }
        proof {
            assert(clear_part().take(64) =~= clear_part());
        }
        let mut idx: usize = SPI_RANGE.start;
        while idx < max
            invariant
                max == 1024,
                idx % 4 == 0,
                32 <= idx <= 1024,
                plan@ == clear_part() + targets_part().take((idx / 4 - 8) as int),
            decreases 1024 - idx,
        {
            plan.push(RegWrite { reg: GicdRegister::Itargetsr(idx / 4), value: 0x01_01_01_01 });
            proof {
                let k = (idx / 4 - 8) as int;
                assert(targets_part()[k] == RegWrite { reg: GicdRegister::Itargetsr(idx / 4), value: 0x01_01_01_01 });
                assert(plan@ =~= clear_part() + targets_part().take(k + 1));
            }
            idx = idx + 4;
        }
        proof {
            assert(targets_part().take(248) =~= targets_part());
        }
        let mut cur: Vec<u32> = icfgr.clone();
        let mut v: usize = SPI_RANGE.start;
        while v < max
            invariant
                max == 1024,
                32 <= v <= 1024,
                icfgr@.len() == 64,
                cur@.len() == 64,
                forall|i: int| 0 <= i < 64 ==> #[trigger] cur@[i] == config_reg_at(icfgr@, i, v as int),
                plan@ == clear_part() + targets_part() + config_part(icfgr@).take(v - 32),
                self.irqs() == MAX_IRQS,
            decreases 1024 - v,
        {
            let i = v >> 4;
            proof {
                assert(v >> 4usize < 64 && (v >> 4usize) * 16 <= v < (v >> 4usize) * 16 + 16
                    && (v & 15usize == 0 <==> (v >> 4usize) * 16 == v)) by (bit_vector)
                    requires v < 1024usize;
                assert(i >= 2);
            }
            let w = self.config_interrupt(v, TriggerMode::Edge, cur[i]).unwrap();
            proof {
                assert(w.value == edge_value(icfgr@, v)) by {
                    if v & 15 == 0 {
                        assert(cur@[i as int] == icfgr@[i as int]);
                    } else {
                        assert(cur@[i as int] == edge_value(icfgr@, (v - 1) as usize));
                    }
                }
            }
            cur.set(i, w.value);
            plan.push(w);
            proof {
                let k = (v - 32) as int;
                assert(config_part(icfgr@)[k] == w);
                assert(plan@ =~= clear_part() + targets_part() + config_part(icfgr@).take(k + 1));
                assert forall|j: int| 0 <= j < 64 implies #[trigger] cur@[j] == config_reg_at(icfgr@, j, v + 1) by {
                    if j == i {
                        if j * 16 + 15 < v + 1 {
                            assert(j * 16 + 15 == v);
                        }
                    }
                }
            }
            v = v + 1;
        }
        plan.push(RegWrite { reg: GicdRegister::Ctlr, value: 1 });
        proof {
            assert(config_part(icfgr@).take(992) =~= config_part(icfgr@));
            assert(plan@ =~= init_plan(icfgr@));
        }
        plan
    }
}

/// A CPU interface register.
#[derive(Copy, Clone, Debug, PartialEq, Eq, Structural)]
pub enum GiccRegister {
    /// CPU interface control.
    Ctlr,
    /// Interrupt priority mask.
    Pmr,
    /// End of interrupt.
    Eoir,
}

/// The CPU interface, through which a processor takes interrupts.
pub struct GicCpuInterface;

impl GicCpuInterface {
    /// The CPU interface of this processor.
    pub fn new() -> (r: Self) {
        GicCpuInterface
    }

    /// Handles the interrupt acknowledged as `iar`: `handler` runs once with
    /// its number, the low ten bits of `iar`, and then the end-of-interrupt write
    /// for `iar` is returned, to be performed. A spurious interrupt (a number
    /// of 1020 and above) is an error that callers must rule out.
    pub fn handle_irq<F: FnOnce(u32)>(&self, iar: u32, handler: F) -> (r: (GiccRegister, u32))
        requires
            iar & 0x3FFu32 < 1020,
            handler.requires((iar & 0x3FFu32,)),
        ensures
            call_ensures(handler, (iar & 0x3FFu32,), ()),
            r == (GiccRegister::Eoir, iar),
    {
        let vector = iar & 0x3FF;
        handler(vector);
        self.eoi(iar)
    }

    /// The end-of-interrupt write for the interrupt acknowledged as `iar`.
    pub fn eoi(&self, iar: u32) -> (r: (GiccRegister, u32))
        ensures
            r == (GiccRegister::Eoir, iar),
    {
        (GiccRegister::Eoir, iar)
    }

    /// The register writes that enable the interface and let every priority
    /// through.
    pub fn init(&self) -> (r: Vec<(GiccRegister, u32)>)
        ensures
            r@ == seq![(GiccRegister::Ctlr, 1u32), (GiccRegister::Pmr, 0xFFu32)],
    {
        let mut w: Vec<(GiccRegister, u32)> = Vec::new();
        w.push((GiccRegister::Ctlr, 1));
        w.push((GiccRegister::Pmr, 0xFF));
        proof {
            assert(w@ =~= seq![(GiccRegister::Ctlr, 1u32), (GiccRegister::Pmr, 0xFFu32)]);
        }
        w
    }
}

} // verus!
