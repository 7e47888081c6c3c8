//! RISC-V `virt` machine for OpenSBI and current Linux kernels: the state of
//! the machine around its hart, and the decisions between two stretches of
//! guest execution.
//!
//! Boot: the hart resets in M-mode at RAM_BASE (OpenSBI fw_dynamic) with
//! a0=hartid, a1=dtb; OpenSBI sets up the SBI and drops to the S-mode kernel.

use vstd::prelude::*;
use crate::board::RTC_FREQ;
use crate::boot::{
    attach_devices, boot_fits, boot_ram, fresh_device, layout_of, load_images, machine_tree,
    BootState, VirtImages, KERNEL_OFFSET,
};
use crate::bus::{devices, polled, BusView, VirtBus, IRQ_SEIP, IRQ_SSIP, IRQ_STIP};
use crate::plic::PlicView;
use crate::ram::RAM_BASE;
use crate::uart::UartView;
use crate::virtio::{
    answerable, answered, frames, pending_view, released, BackendView, DeviceView,
    PendingBlockRequest, PendingView, VirtioDev, NET_MAX_FRAME, NET_QUEUE_LIMIT,
};

verus! {

/// Result of one interpreter slice.
///
/// `idle` means that the hart stopped in WFI and the machine could not advance
/// a deterministic timer. The embedder must wait for time or external input.
#[derive(Debug, Clone, Copy, PartialEq, Eq, Structural)]
pub struct RunSliceOutcome {
    pub retired: u64,
    pub idle: bool,
}

/// Longest interpreter stretch between two device synchronizations when the
/// embedding can preempt it.
pub const INTERPRETER_SYNC_INTERVAL: u64 = 64;

/// Privilege mode of the hart.
#[derive(Debug, Clone, Copy, PartialEq, Eq, Structural)]
pub enum Mode {
    User,
    Supervisor,
    Machine,
}

/// The system registers that the machine reads and writes.
#[derive(Debug, Clone, Copy, PartialEq, Eq, Structural)]
pub struct SystemState {
    pub mode: Mode,
    pub medeleg: u64,
    pub mideleg: u64,
    pub mcounteren: u64,
    pub satp: u64,
    pub mip: u64,
    /// Value of TIME while `time_scale` is zero.
    pub mtime: u64,
    /// Instructions per tick of TIME, or zero if TIME stands still.
    pub time_scale: u64,
    pub time_offset: u64,
}

/// The hart, as far as the machine reads and writes it.
#[derive(Clone, Copy)]
pub struct HartState {
    pub pc: u64,
    pub x: [u64; 32],
    pub insn_count: u64,
    /// Generation of the instruction cache.
    pub icache_gen: u64,
    /// Whether environment calls stop the hart for the host to serve.
    pub host_sbi: bool,
    pub sys: Option<SystemState>,
}

/// The state of a [`HartState`].
#[verifier::ext_equal]
pub struct HartView {
    pub pc: u64,
    pub x: Seq<u64>,
    pub insn_count: u64,
    pub icache_gen: u64,
    pub host_sbi: bool,
    pub sys: Option<SystemState>,
}

impl View for HartState {
    type V = HartView;

    open spec fn view(&self) -> HartView {
        HartView {
            pc: self.pc,
            x: self.x@,
            insn_count: self.insn_count,
            icache_gen: self.icache_gen,
            host_sbi: self.host_sbi,
            sys: self.sys,
        }
    }
}

/// The machine.
pub struct VirtMachine {
    pub cpu: HartState,
    pub bus: VirtBus,
    pub insns_per_tick: u64,
    /// Guest timer ticks accrued while the hart was halted in WFI. Kept
    /// separate from `insn_count` so idle time advances the guest clock
    /// without inflating the (real) retired-instruction count.
    pub idle_ticks: u64,
    /// Host-monotonic timer ticks elapsed since boot. When present, browser
    /// execution follows wall time instead of fast-forwarding every WFI.
    pub realtime_ticks: Option<u64>,
    pub power_off: bool,
    pub dtb: Vec<u8>,
    pub unsupported_sbi: Option<(u64, u64)>,
    /// Diagnostic call counts: total, BASE, TIME, IPI, RFENCE, HSM, SRST,
    /// and legacy/other. These do not participate in guest behavior.
    pub sbi_calls: [u64; 8],
}

/// The state of a [`VirtMachine`].
#[verifier::ext_equal]
pub struct MachineView {
    pub cpu: HartView,
    pub bus: BusView,
    pub insns_per_tick: u64,
    pub idle_ticks: u64,
    pub realtime_ticks: Option<u64>,
    pub power_off: bool,
    pub dtb: Seq<u8>,
    pub unsupported_sbi: Option<(u64, u64)>,
    pub sbi_calls: Seq<u64>,
}

impl View for VirtMachine {
    type V = MachineView;

    open spec fn view(&self) -> MachineView {
        MachineView {
            cpu: self.cpu@,
            bus: self.bus@,
            insns_per_tick: self.insns_per_tick,
            idle_ticks: self.idle_ticks,
            realtime_ticks: self.realtime_ticks,
            power_off: self.power_off,
            dtb: self.dtb@,
            unsupported_sbi: self.unsupported_sbi,
            sbi_calls: self.sbi_calls@,
        }
    }
}

/// The larger of two times.
pub open spec fn later(a: u64, b: u64) -> u64 {
    if a >= b {
        a
    } else {
        b
    }
}

/// `mip` with the supervisor timer interrupt at level `up`.
pub open spec fn timer_level(mip: u64, up: bool) -> u64 {
    if up {
        mip | IRQ_STIP
    } else {
        mip & !IRQ_STIP
    }
}

// SBI extensions and error codes.
pub const SBI_BASE: u64 = 0x10;

pub const SBI_TIME: u64 = 0x5449_4d45;

pub const SBI_IPI: u64 = 0x0073_5049;

pub const SBI_RFENCE: u64 = 0x5246_4e43;

pub const SBI_HSM: u64 = 0x48_53_4d;

pub const SBI_SRST: u64 = 0x5352_5354;

/// -2: the call is not supported.
pub const SBI_NOT_SUPPORTED: u64 = 0xffff_ffff_ffff_fffe;

/// -3: a parameter is invalid.
pub const SBI_INVALID_PARAM: u64 = 0xffff_ffff_ffff_fffd;

/// -7: the hart runs already.
pub const SBI_ALREADY_STARTED: u64 = 0xffff_ffff_ffff_fff9;

/// What an SBI call does besides answering.
#[derive(Debug, Clone, Copy, PartialEq, Eq, Structural)]
pub enum SbiEffect {
    Nothing,
    SetTimer,
    FenceI,
    PowerOff,
    PutChar,
    Unsupported,
}

/// The counter of an extension.
pub open spec fn sbi_bucket(ext: u64) -> int {
    if ext == SBI_BASE {
        1
    } else if ext == SBI_TIME {
        2
    } else if ext == SBI_IPI {
        3
    } else if ext == SBI_RFENCE {
        4
    } else if ext == SBI_HSM {
        5
    } else if ext == SBI_SRST {
        6
    } else {
        7
    }
}

/// The answer to an SBI call: its error, its value, and its effect. Extensions
/// 0 to 8 are those of SBI 0.1, useful for older kernels.
pub open spec fn sbi_answer(ext: u64, function: u64, arg0: u64, arg1: u64) -> (
    u64,
    u64,
    SbiEffect,
) {
    if ext == SBI_BASE && function <= 6 {
        (
            0,
            if function == 0 {
                0x200_0000
            } else if function == 1 {
                0x5256_3634
            } else if function == 2 {
                1
            } else if function == 3 {
                if sbi_bucket(arg0) < 7 {
                    1
                } else {
                    0
                }
            } else if function == 6 {
                1
            } else {
                0
            },
            SbiEffect::Nothing,
        )
    } else if (ext == SBI_TIME && function == 0) || ext == 0 {
        (0, 0, SbiEffect::SetTimer)
    } else if ext == SBI_IPI && function == 0 {
        (
            if arg1 != 0 && arg1 != u64::MAX {
                SBI_INVALID_PARAM
            } else {
                0
            },
            0,
            SbiEffect::Nothing,
        )
    } else if (ext == SBI_RFENCE && function == 0) || ext == 5 {
        (0, 0, SbiEffect::FenceI)
    } else if ext == SBI_RFENCE && function <= 6 {
        (0, 0, SbiEffect::Nothing)
    } else if ext == SBI_HSM && function <= 3 {
        (
            if function == 0 {
                SBI_ALREADY_STARTED
            } else if function == 1 || (function == 2 && arg0 != 0) {
                SBI_INVALID_PARAM
            } else if function == 3 {
                SBI_NOT_SUPPORTED
            } else {
                0
            },
            0,
            SbiEffect::Nothing,
        )
    } else if ext == SBI_SRST && function == 0 {
        if arg0 <= 2 {
            (0, 0, SbiEffect::PowerOff)
        } else {
            (SBI_INVALID_PARAM, 0, SbiEffect::Nothing)
        }
    } else if ext == 1 {
        (0, 0, SbiEffect::PutChar)
    } else if ext == 2 {
        (0, u64::MAX, SbiEffect::Nothing)
    } else if ext == 8 {
        (0, 0, SbiEffect::PowerOff)
    } else if ext == 3 || ext == 4 || ext == 6 || ext == 7 {
        (0, 0, SbiEffect::Nothing)
    } else {
        (SBI_NOT_SUPPORTED, 0, SbiEffect::Unsupported)
    }
}

impl MachineView {
    /// The devices are valid and the clock has a rate.
    pub open spec fn wf(self) -> bool {
        &&& self.bus.wf()
        &&& self.cpu.x.len() == 32
        &&& self.sbi_calls.len() == 8
        &&& self.insns_per_tick > 0
    }

    /// What the guest reads from TIME now.
    pub open spec fn rdtime(self) -> u64 {
        match self.cpu.sys {
            Some(sys) => if sys.time_scale == 0 {
                sys.mtime
            } else {
                vstd::wrapping::u64_specs::wrapping_add(
                    (self.cpu.insn_count / sys.time_scale) as u64,
                    sys.time_offset,
                )
            },
            None => self.bus.mtime,
        }
    }

    /// The machine's time after a synchronization. With a wall clock it is the
    /// latest of the time so far, wall time and what the guest can have read;
    /// without one it is what the retired instructions and the idle time make.
    pub open spec fn synced_time(self) -> u64 {
        match self.realtime_ticks {
            Some(wall) => later(later(self.bus.mtime, wall), self.rdtime()),
            None => vstd::wrapping::u64_specs::wrapping_add(
                (self.cpu.insn_count / self.insns_per_tick) as u64,
                self.idle_ticks,
            ),
        }
    }

    /// The machine after its clocks and timer line are synchronized. TIME
    /// advances with instructions from there, except while the guest's clock is
    /// ahead of the wall clock.
    pub open spec fn synced(self) -> MachineView {
        let mtime = self.synced_time();
        let ticks = (self.cpu.insn_count / self.insns_per_tick) as u64;
        let caught_up = match self.realtime_ticks {
            Some(wall) => mtime <= wall,
            None => true,
        };
        MachineView {
            bus: BusView { mtime, ..self.bus },
            cpu: HartView {
                sys: match self.cpu.sys {
                    Some(sys) => Some(
                        SystemState {
                            mtime,
                            mip: if self.bus.direct_sbi {
                                timer_level(sys.mip, mtime >= self.bus.deadline)
                            } else {
                                sys.mip
                            },
                            time_scale: if caught_up && ticks <= mtime {
                                self.insns_per_tick
                            } else {
                                0
                            },
                            time_offset: if caught_up && ticks <= mtime {
                                (mtime - ticks) as u64
                            } else {
                                0
                            },
                            ..sys
                        },
                    ),
                    None => None,
                },
                ..self.cpu
            },
            ..self
        }
    }

    /// The machine after its virtqueues are polled.
    pub open spec fn polled(self) -> MachineView {
        let (virtio, mem) = polled(
            self.bus.virtio,
            self.bus.mem,
            self.bus.virtio.len() as int,
        );
        MachineView { bus: BusView { virtio, mem, ..self.bus }, ..self }
    }

    /// The machine after `power_off` takes up the bus's.
    pub open spec fn power_sampled(self) -> MachineView {
        MachineView { power_off: self.power_off || self.bus.power_off, ..self }
    }

    /// The machine after the host serves the environment call in its registers.
    pub open spec fn sbi_served(self) -> MachineView {
        let ext = self.cpu.x[17];
        let function = self.cpu.x[16];
        let arg0 = self.cpu.x[10];
        let (error, value, effect) = sbi_answer(ext, function, arg0, self.cpu.x[11]);
        let bucket = sbi_bucket(ext);
        let total = self.sbi_calls.update(
            0,
            vstd::wrapping::u64_specs::wrapping_add(self.sbi_calls[0], 1),
        );
        let answered = MachineView {
            cpu: HartView { x: self.cpu.x.update(10, error).update(11, value), ..self.cpu },
            sbi_calls: total.update(
                bucket,
                vstd::wrapping::u64_specs::wrapping_add(total[bucket], 1),
            ),
            ..self
        };
        match effect {
            SbiEffect::Nothing => answered,
            SbiEffect::SetTimer => MachineView {
                bus: BusView { deadline: arg0, ..self.bus },
                cpu: HartView {
                    sys: match self.cpu.sys {
                        Some(sys) => Some(
                            SystemState {
                                mip: timer_level(sys.mip, self.bus.mtime >= arg0),
                                ..sys
                            },
                        ),
                        None => None,
                    },
                    ..answered.cpu
                },
                ..answered
            },
            SbiEffect::FenceI => MachineView {
                cpu: HartView {
                    icache_gen: vstd::wrapping::u64_specs::wrapping_add(self.cpu.icache_gen, 1),
                    ..answered.cpu
                },
                ..answered
            },
            SbiEffect::PowerOff => MachineView {
                bus: BusView { power_off: true, ..self.bus },
                power_off: true,
                ..answered
            },
            SbiEffect::PutChar => MachineView {
                bus: BusView {
                    uart: self.bus.uart.written(0, (arg0 % 0x100) as u8),
                    ..self.bus
                },
                ..answered
            },
            SbiEffect::Unsupported => MachineView {
                unsupported_sbi: Some((ext, function)),
                ..answered
            },
        }
    }

    /// The first device that waits for the host.
    pub open spec fn waiting_device(self) -> Option<int> {
        first_waiting(self.bus.virtio, self.bus.virtio.len() as int)
    }

    /// The host request that waits.
    pub open spec fn pending(self) -> Option<PendingView> {
        match self.waiting_device() {
            Some(i) => self.bus.virtio[i].backend->ExternalBlock_pending,
            None => None,
        }
    }

    /// The first network device.
    pub open spec fn network_device(self) -> Option<int> {
        first_network(self.bus.virtio, self.bus.virtio.len() as int)
    }

    /// Whether a disk is kept by the host.
    pub open spec fn has_external_disk(self) -> bool {
        exists|i: int|
            0 <= i < self.bus.virtio.len() && (#[trigger] self.bus.virtio[i]).backend
                is ExternalBlock
    }

    /// The machine with device `i` in another state.
    pub open spec fn with_device(self, i: int, dev: DeviceView) -> MachineView {
        MachineView { bus: BusView { virtio: self.bus.virtio.update(i, dev), ..self.bus }, ..self }
    }
}

/// The first of the devices `..n` that waits for the host.
pub open spec fn first_waiting(virtio: Seq<DeviceView>, n: int) -> Option<int>
    decreases n,
{
    if n <= 0 {
        None
    } else {
        match first_waiting(virtio, n - 1) {
            Some(i) => Some(i),
            None => if virtio[n - 1].backend.awaits_host() {
                Some(n - 1)
            } else {
                None
            },
        }
    }
}

/// The first network device among the devices `..n`.
pub open spec fn first_network(virtio: Seq<DeviceView>, n: int) -> Option<int>
    decreases n,
{
    if n <= 0 {
        None
    } else {
        match first_network(virtio, n - 1) {
            Some(i) => Some(i),
            None => if virtio[n - 1].id() == 1 {
                Some(n - 1)
            } else {
                None
            },
        }
    }
}

proof fn lemma_first_waiting(virtio: Seq<DeviceView>, n: int)
    requires
        0 <= n <= virtio.len(),
    ensures
        first_waiting(virtio, n) matches Some(i) ==> 0 <= i < n && virtio[i].backend.awaits_host(),
    decreases n,
{
    if n > 0 {
        lemma_first_waiting(virtio, n - 1);
    }
}

proof fn lemma_first_found(virtio: Seq<DeviceView>, m: int, n: int)
    requires
        0 <= m <= n <= virtio.len(),
    ensures
        first_waiting(virtio, m) is Some ==> first_waiting(virtio, n) == first_waiting(virtio, m),
        first_network(virtio, m) is Some ==> first_network(virtio, n) == first_network(virtio, m),
    decreases n,
{
    if m < n {
        lemma_first_found(virtio, m, n - 1);
    }
}

/// Under a wall clock the guest never sees time move backward: a
/// synchronization keeps or advances both the machine's clock and what TIME
/// reads.
pub proof fn law_time_never_moves_backward(m: MachineView)
    requires
        m.wf(),
        m.realtime_ticks is Some,
    ensures
        m.synced().bus.mtime >= m.bus.mtime,
        m.synced().rdtime() >= m.rdtime(),
{
}

/// After a synchronization TIME reads the machine's clock.
pub proof fn law_time_reads_the_clock(m: MachineView)
    requires
        m.wf(),
    ensures
        m.synced().rdtime() == m.synced().bus.mtime,
{
}

/// A guest clock that ran ahead of the wall clock stands still until the wall
/// clock catches up: retiring instructions alone does not move it.
pub proof fn law_speculative_time_does_not_accumulate(m: MachineView, retired: u64)
    requires
        m.wf(),
        m.realtime_ticks is Some,
        m.cpu.sys is Some,
        m.synced().bus.mtime > m.realtime_ticks->0,
    ensures
        ({
            let later = MachineView {
                cpu: HartView { insn_count: retired, ..m.synced().cpu },
                ..m.synced()
            };
            later.synced().bus.mtime == m.synced().bus.mtime
        }),
{
}

/// Synchronizing twice in a row is synchronizing once.
pub proof fn law_sync_is_idempotent(m: MachineView)
    requires
        m.wf(),
    ensures
        m.synced().synced() == m.synced(),
{
    if let Some(sys) = m.cpu.sys {
        let mip = sys.mip;
        assert((mip | 0x20u64) | 0x20u64 == mip | 0x20u64) by (bit_vector);
        assert((mip & !0x20u64) & !0x20u64 == mip & !0x20u64) by (bit_vector);
    }
}

impl VirtMachine {
    /// See [`MachineView::wf`].
    pub open spec fn wf(&self) -> bool {
        &&& self.bus.wf()
        &&& self@.wf()
    }

    /// A machine that enters OpenSBI.
    pub fn new(ram_bytes: u64, images: VirtImages) -> (machine: VirtMachine)
        requires
            ram_bytes <= usize::MAX,
            boot_fits(ram_bytes as int, &images),
        ensures
            machine.wf(),
            booted(machine@, ram_bytes as int, &images, false),
    {
        Self::new_inner(ram_bytes, images, false)
    }

    /// A machine that enters the kernel directly in S-mode; the host serves its
    /// SBI calls.
    pub fn new_direct(ram_bytes: u64, images: VirtImages) -> (machine: VirtMachine)
        requires
            ram_bytes <= usize::MAX,
            boot_fits(ram_bytes as int, &images),
        ensures
            machine.wf(),
            booted(machine@, ram_bytes as int, &images, true),
    {
        Self::new_inner(ram_bytes, images, true)
    }

    /// A machine from images that may not fit in its RAM.
    pub fn try_new(ram_bytes: u64, images: VirtImages, direct_sbi: bool) -> (machine: Option<
        VirtMachine,
    >)
        ensures
            machine is Some <==> ram_bytes <= usize::MAX && boot_fits(ram_bytes as int, &images),
            machine matches Some(m) ==> m.wf() && booted(
                m@,
                ram_bytes as int,
                &images,
                direct_sbi,
            ),
    {
        match load_images(ram_bytes, &images) {
            Some(_) => Some(Self::new_inner(ram_bytes, images, direct_sbi)),
            None => None,
        }
    }

    fn new_inner(ram_bytes: u64, images: VirtImages, direct_sbi: bool) -> (machine: VirtMachine)
        requires
            ram_bytes <= usize::MAX,
            boot_fits(ram_bytes as int, &images),
        ensures
            machine.wf(),
            booted(machine@, ram_bytes as int, &images, direct_sbi),
    {
        let state: BootState = load_images(ram_bytes, &images).unwrap();
        let ghost backends = images.backends();
        let virtio: Vec<VirtioDev> = attach_devices(
            images.disk,
            images.external_disk_size,
            images.net,
        );
        proof {
            assert(virtio@.map_values(|dev: VirtioDev| dev@.backend) == backends);
            assert forall|i: int| 0 <= i < virtio@.len() implies #[trigger] devices(virtio@)[i]
                == fresh_device(backends[i]) by {
                assert(virtio@.map_values(|dev: VirtioDev| dev@.backend)[i]
                    == virtio@[i]@.backend);
            }
            assert(devices(virtio@) =~= backends.map_values(
                |backend: BackendView| fresh_device(backend),
            ));
        }
        // Enter OpenSBI (fw_dynamic) in M-mode: pc=RAM_BASE, a0=hartid, a1=dtb,
        // a2=&fw_dynamic_info.
        let mut x: [u64; 32] = [0; 32];
        x[11] = state.dtb_addr;
        x[12] = state.info_addr;
        assert(x@ =~= Seq::new(32, |i: int| 0u64).update(11, state.dtb_addr).update(
            12,
            state.info_addr,
        ));
        let sys = if direct_sbi {
            SystemState {
                mode: Mode::Supervisor,
                medeleg: 0xb109,
                mideleg: IRQ_SSIP + IRQ_STIP + IRQ_SEIP,
                mcounteren: 0x7,
                satp: 0,
                mip: 0,
                mtime: 0,
                time_scale: 0,
                time_offset: 0,
            }
        } else {
            SystemState {
                mode: Mode::Machine,
                medeleg: 0,
                mideleg: 0,
                mcounteren: 0,
                satp: 0,
                mip: 0,
                mtime: 0,
                time_scale: 0,
                time_offset: 0,
            }
        };
        let cpu = HartState {
            pc: if direct_sbi {
                RAM_BASE + KERNEL_OFFSET
            } else {
                RAM_BASE
            },
            x,
            insn_count: 0,
            icache_gen: 0,
            host_sbi: direct_sbi,
            sys: Some(sys),
        };
        let machine = VirtMachine {
            cpu,
            bus: VirtBus::new(state.ram, virtio, direct_sbi),
            insns_per_tick: 100,
            idle_ticks: 0,
            realtime_ticks: None,
            power_off: false,
            dtb: state.dtb,
            unsupported_sbi: None,
            sbi_calls: [0; 8],
        };
        assert(machine.sbi_calls@ =~= Seq::new(8, |i: int| 0u64));
        machine
    }

    /// Drain console output.
    pub fn console_output(&mut self) -> (out: Vec<u8>)
        requires
            old(self).wf(),
        ensures
            final(self).wf(),
            out@ == old(self)@.bus.uart.tx,
            final(self)@ == (MachineView {
                bus: BusView {
                    uart: UartView { tx: Seq::empty(), ..old(self)@.bus.uart },
                    ..old(self)@.bus
                },
                ..old(self)@
            }),
    {
        self.bus.uart_take()
    }

    /// Feed console input.
    pub fn console_input(&mut self, bytes: &[u8])
        requires
            old(self).wf(),
        ensures
            final(self).wf(),
            final(self)@ == (MachineView {
                bus: BusView {
                    uart: UartView {
                        rx: old(self)@.bus.uart.rx + bytes@,
                        ..old(self)@.bus.uart
                    },
                    ..old(self)@.bus
                },
                ..old(self)@
            }),
    {
        self.bus.uart_input(bytes);
    }

    /// Enable/advance realtime clocking by a host-monotonic duration.
    pub fn advance_realtime_ns(&mut self, ns: u64)
        requires
            old(self).wf(),
        ensures
            final(self).wf(),
            final(self)@ == (MachineView {
                realtime_ticks: Some(
                    {
                        let sum = (match old(self)@.realtime_ticks {
                            Some(ticks) => ticks as int,
                            None => 0,
                        }) + ns / 100;
                        if sum <= u64::MAX {
                            sum as u64
                        } else {
                            u64::MAX
                        }
                    },
                ),
                ..old(self)@
            }),
    {
        let ticks: u64 = ((ns as u128 * RTC_FREQ as u128) / 1_000_000_000) as u64;
        assert((ns as int * 10_000_000) / 1_000_000_000 == ns as int / 100);
        let so_far: u64 = match self.realtime_ticks {
            Some(ticks) => ticks,
            None => 0,
        };
        self.realtime_ticks = Some(so_far.saturating_add(ticks));
    }

    /// Advance the clocks, and drive the timer line of a directly booted
    /// kernel.
    pub fn sync_devices(&mut self)
        requires
            old(self).wf(),
        ensures
            final(self).wf(),
            final(self)@ == old(self)@.synced(),
    {
        let ticks: u64 = self.cpu.insn_count / self.insns_per_tick;
        let visible_time: u64 = match self.cpu.sys {
            Some(sys) => if sys.time_scale == 0 {
                sys.mtime
            } else {
                (self.cpu.insn_count / sys.time_scale).wrapping_add(sys.time_offset)
            },
            None => self.bus.mtime,
        };
        let mtime: u64 = match self.realtime_ticks {
            // Preserve the value already visible through rdtime. Re-anchoring
            // only to the last host sample would move the guest clock backward
            // after instruction-based interpolation between host samples. If
            // interpolation ran ahead, freeze it below until wall time catches
            // up instead of carrying the speculative lead into every slice.
            Some(wall) => {
                let so_far: u64 = if self.bus.mtime >= wall {
                    self.bus.mtime
                } else {
                    wall
                };
                if so_far >= visible_time {
                    so_far
                } else {
                    visible_time
                }
            },
            None => ticks.wrapping_add(self.idle_ticks),
        };
        self.bus.set_mtime(mtime);
        if let Some(before) = self.cpu.sys {
            let mut sys = before;
            sys.mtime = mtime;
            if self.bus.direct_sbi {
                sys.mip = if mtime >= self.bus.deadline {
                    sys.mip | IRQ_STIP
                } else {
                    sys.mip & !IRQ_STIP
                };
            }
            let caught_up = match self.realtime_ticks {
                Some(wall) => mtime <= wall,
                None => true,
            };
            if caught_up && ticks <= mtime {
                // Let rdtime advance between host samples so a short
                // busy-wait loop can make progress without a JS call.
                sys.time_scale = self.insns_per_tick;
                sys.time_offset = mtime - ticks;
            } else {
                // The guest already observed a speculative value ahead of the
                // host clock. A zero scale makes TIME read sys.mtime verbatim;
                // the next host sample can re-enable interpolation.
                sys.time_scale = 0;
                sys.time_offset = 0;
            }
            self.cpu.sys = Some(sys);
        }
    }

    /// Poll DMA-capable devices and synchronize interrupt/time state before a
    /// full-system JIT dispatch quantum.
    pub fn sync_jit_devices(&mut self)
        requires
            old(self).wf(),
        ensures
            final(self).wf(),
            final(self)@ == old(self)@.polled().synced().power_sampled(),
    {
        self.bus.poll_virtio();
        self.sync_devices();
        self.power_off = self.power_off || self.bus.power_off;
    }

    /// Serve the environment call in the hart's registers.
    pub fn service_sbi(&mut self)
        requires
            old(self).wf(),
        ensures
            final(self).wf(),
            final(self)@ == old(self)@.sbi_served(),
    {
        let ext: u64 = self.cpu.x[17];
        let function: u64 = self.cpu.x[16];
        let arg0: u64 = self.cpu.x[10];
        let arg1: u64 = self.cpu.x[11];
        self.sbi_calls[0] = self.sbi_calls[0].wrapping_add(1);
        let bucket: usize = bucket_of(ext);
        self.sbi_calls[bucket] = self.sbi_calls[bucket].wrapping_add(1);
        let (error, value, effect) = answer(ext, function, arg0, arg1);
        match effect {
            SbiEffect::Nothing => {},
            SbiEffect::SetTimer => {
                self.bus.set_deadline(arg0);
                // TIME.set_timer replaces the previous event. If STIP from
                // that event remains asserted until the outer slice ends,
                // Linux immediately re-enters its timer handler and rearms
                // again, producing a timer-interrupt storm. OpenSBI drops its
                // MTIP-derived line as soon as the deadline moves into the
                // future; direct SBI must provide the same level-triggered
                // behavior.
                if let Some(before) = self.cpu.sys {
                    let mut sys = before;
                    sys.mip = if self.bus.mtime >= arg0 {
                        sys.mip | IRQ_STIP
                    } else {
                        sys.mip & !IRQ_STIP
                    };
                    self.cpu.sys = Some(sys);
                }
            },
            SbiEffect::FenceI => {
                self.cpu.icache_gen = self.cpu.icache_gen.wrapping_add(1);
            },
            SbiEffect::PowerOff => {
                self.bus.set_off();
                self.power_off = true;
            },
            SbiEffect::PutChar => {
                self.bus.put_char((arg0 % 0x100) as u8);
            },
            SbiEffect::Unsupported => {
                self.unsupported_sbi = Some((ext, function));
            },
        }
        self.cpu.x[10] = error;
        self.cpu.x[11] = value;
    }
}

/// The privileged state in which a machine enters OpenSBI, or the kernel
/// directly: a kernel finds the exceptions and interrupts delegated to it that
/// firmware would delegate, and may read the counters.
pub open spec fn entered(direct: bool) -> SystemState {
    SystemState {
        mode: if direct {
            Mode::Supervisor
        } else {
            Mode::Machine
        },
        medeleg: if direct {
            0xb109
        } else {
            0
        },
        mideleg: if direct {
            0x222
        } else {
            0
        },
        mcounteren: if direct {
            7
        } else {
            0
        },
        satp: 0,
        mip: 0,
        mtime: 0,
        time_scale: 0,
        time_offset: 0,
    }
}

/// A machine that has just been assembled from `images`: its RAM, its devices
/// and its hart at the entry point, with a0 = hart id, a1 = device tree and
/// a2 = firmware information.
pub open spec fn booted(m: MachineView, ram: int, images: &VirtImages, direct: bool) -> bool {
    let layout = layout_of(ram, images);
    &&& m.bus.mem.ram == boot_ram(ram, images)
    &&& m.bus.mem.pages.marked == Seq::new(((ram + 4095) / 4096) as nat, |p: int| false)
    &&& m.bus.mem.pages.generation == Seq::new(((ram + 4095) / 4096) as nat, |p: int| 0u64)
    &&& m.bus.mem.pages.dirty == Seq::<u64>::empty()
    &&& m.bus.mtime == 0
    &&& m.bus.deadline == u64::MAX
    &&& !m.bus.msip
    &&& !m.bus.rtc_irq
    &&& m.bus.plic == PlicView::reset()
    &&& !m.bus.power_off
    &&& m.bus.direct_sbi == direct
    &&& m.bus.uart == UartView::reset()
    &&& m.bus.virtio == images.backends().map_values(
        |backend: BackendView| fresh_device(backend),
    )
    &&& m.cpu.pc == if direct {
        RAM_BASE + KERNEL_OFFSET
    } else {
        RAM_BASE as int
    }
    &&& m.cpu.x == Seq::new(32, |i: int| 0u64).update(11, (RAM_BASE + layout.dtb) as u64).update(
        12,
        (RAM_BASE + layout.info) as u64,
    )
    &&& m.cpu.insn_count == 0
    &&& m.cpu.icache_gen == 0
    &&& m.cpu.host_sbi == direct
    &&& m.cpu.sys == Some(entered(direct))
    &&& m.insns_per_tick == 100
    &&& m.idle_ticks == 0
    &&& m.realtime_ticks is None
    &&& !m.power_off
    &&& m.dtb == machine_tree(ram, images, layout.initrd)
    &&& m.unsupported_sbi is None
    &&& m.sbi_calls == Seq::new(8, |i: int| 0u64)
}

fn bucket_of(ext: u64) -> (bucket: usize)
    ensures
        bucket == sbi_bucket(ext),
        1 <= bucket < 8,
{
    if ext == SBI_BASE {
        1
    } else if ext == SBI_TIME {
        2
    } else if ext == SBI_IPI {
        3
    } else if ext == SBI_RFENCE {
        4
    } else if ext == SBI_HSM {
        5
    } else if ext == SBI_SRST {
        6
    } else {
        7
    }
}

fn answer(ext: u64, function: u64, arg0: u64, arg1: u64) -> (r: (u64, u64, SbiEffect))
    ensures
        r == sbi_answer(ext, function, arg0, arg1),
{
    let mut error: u64 = 0;
    let mut value: u64 = 0;
    let mut effect = SbiEffect::Nothing;
    if ext == SBI_BASE && function <= 6 {
        if function == 0 {
            value = 0x200_0000;  // SBI 2.0
        } else if function == 1 {
            value = 0x5256_3634;  // "RV64"
        } else if function == 2 || function == 6 {
            value = 1;
        } else if function == 3 && bucket_of(arg0) < 7 {
            value = 1;
        }
    } else if (ext == SBI_TIME && function == 0) || ext == 0 {
        effect = SbiEffect::SetTimer;
    } else if ext == SBI_IPI && function == 0 {
        if arg1 != 0 && arg1 != u64::MAX {
            error = SBI_INVALID_PARAM;
        }
    } else if (ext == SBI_RFENCE && function == 0) || ext == 5 {
        effect = SbiEffect::FenceI;
    } else if ext == SBI_RFENCE && function <= 6 {
    } else if ext == SBI_HSM && function <= 3 {
        if function == 0 {
            error = SBI_ALREADY_STARTED;
        } else if function == 1 || (function == 2 && arg0 != 0) {
            error = SBI_INVALID_PARAM;
        } else if function == 3 {
            error = SBI_NOT_SUPPORTED;
        }
    } else if ext == SBI_SRST && function == 0 {
        if arg0 <= 2 {
            effect = SbiEffect::PowerOff;
        } else {
            error = SBI_INVALID_PARAM;
        }
    } else if ext == 1 {
        effect = SbiEffect::PutChar;
    } else if ext == 2 {
        value = u64::MAX;
    } else if ext == 8 {
        effect = SbiEffect::PowerOff;
    } else if ext == 3 || ext == 4 || ext == 6 || ext == 7 {
    } else {
        error = SBI_NOT_SUPPORTED;
        effect = SbiEffect::Unsupported;
    }
    (error, value, effect)
}

// ---- host requests and frames --------------------------------------------

impl VirtMachine {
    /// The first device that waits for the host.
    fn find_waiting(&self) -> (found: Option<usize>)
        requires
            self.wf(),
        ensures
            match (found, self@.waiting_device()) {
                (Some(a), Some(b)) => a == b && a < self.bus.virtio@.len(),
                (None, None) => true,
                _ => false,
            },
    {
        let mut i: usize = 0;
        while i < self.bus.virtio.len()
            invariant
                self.wf(),
                i <= self.bus.virtio@.len(),
                first_waiting(self@.bus.virtio, i as int) is None,
            decreases self.bus.virtio@.len() - i,
        {
            assert(self@.bus.virtio[i as int] == self.bus.virtio@[i as int]@);
            if self.bus.virtio[i].has_pending_block_request() {
                proof {
                    lemma_first_found(
                        self@.bus.virtio,
                        i + 1,
                        self@.bus.virtio.len() as int,
                    );
                }
                return Some(i);
            }
            i = i + 1;
        }
        None
    }

    /// The first network device.
    fn find_network(&self) -> (found: Option<usize>)
        requires
            self.wf(),
        ensures
            match (found, self@.network_device()) {
                (Some(a), Some(b)) => a == b && a < self.bus.virtio@.len(),
                (None, None) => true,
                _ => false,
            },
    {
        let mut i: usize = 0;
        while i < self.bus.virtio.len()
            invariant
                self.wf(),
                i <= self.bus.virtio@.len(),
                first_network(self@.bus.virtio, i as int) is None,
            decreases self.bus.virtio@.len() - i,
        {
            assert(self@.bus.virtio[i as int] == self.bus.virtio@[i as int]@);
            if self.bus.virtio[i].device_id() == 1 {
                proof {
                    lemma_first_found(
                        self@.bus.virtio,
                        i + 1,
                        self@.bus.virtio.len() as int,
                    );
                }
                return Some(i);
            }
            i = i + 1;
        }
        None
    }

    /// Deliver an inbound Ethernet frame to the guest's NIC. `poll_virtio`
    /// already runs every slice here, so it lands as soon as the guest has a
    /// buffer posted.
    pub fn net_input(&mut self, frame: &[u8])
        requires
            old(self).wf(),
        ensures
            final(self).wf(),
            final(self)@ == match old(self)@.network_device() {
                Some(i) => match old(self)@.bus.virtio[i].backend {
                    BackendView::Net { mac, inbox, outbox } if frame@.len() <= NET_MAX_FRAME
                        && inbox.len() < NET_QUEUE_LIMIT => old(self)@.with_device(
                        i,
                        DeviceView {
                            backend: BackendView::Net { mac, inbox: inbox.push(frame@), outbox },
                            ..old(self)@.bus.virtio[i]
                        },
                    ),
                    _ => old(self)@,
                },
                None => old(self)@,
            },
    {
        if let Some(i) = self.find_network() {
            let ghost before = self@.bus.virtio;
            assert(self@.bus.virtio[i as int] == self.bus.virtio@[i as int]@);
            let mut dev = self.bus.virtio.remove(i);
            dev.net_input(frame);
            self.bus.virtio.insert(i, dev);
            assert(self@.bus.virtio =~= before.update(i as int, dev@));
            assert(before.update(i as int, before[i as int]) =~= before);
        }
    }

    /// Collect the Ethernet frames the guest has transmitted.
    pub fn net_take_output(&mut self) -> (sent: Vec<Vec<u8>>)
        requires
            old(self).wf(),
        ensures
            final(self).wf(),
            match old(self)@.network_device() {
                Some(i) => match old(self)@.bus.virtio[i].backend {
                    BackendView::Net { mac, inbox, outbox } => {
                        &&& frames(sent@) == outbox
                        &&& final(self)@ == old(self)@.with_device(
                            i,
                            DeviceView {
                                backend: BackendView::Net { mac, inbox, outbox: Seq::empty() },
                                ..old(self)@.bus.virtio[i]
                            },
                        )
                    },
                    _ => true,
                },
                None => sent@.len() == 0 && final(self)@ == old(self)@,
            },
    {
        match self.find_network() {
            Some(i) => {
                let ghost before = self@.bus.virtio;
                assert(self@.bus.virtio[i as int] == self.bus.virtio@[i as int]@);
                let mut dev = self.bus.virtio.remove(i);
                let sent: Vec<Vec<u8>> = dev.net_take_output();
                self.bus.virtio.insert(i, dev);
                assert(self@.bus.virtio =~= before.update(i as int, dev@));
                sent
            },
            None => Vec::new(),
        }
    }

    /// Return the one host operation that is waiting for completion.
    pub fn pending_block_request(&self) -> (request: Option<PendingBlockRequest>)
        requires
            self.wf(),
        ensures
            pending_view(request) == self@.pending(),
    {
        match self.find_waiting() {
            Some(i) => {
                assert(self@.bus.virtio[i as int] == self.bus.virtio@[i as int]@);
                proof {
                    lemma_first_waiting(self@.bus.virtio, self@.bus.virtio.len() as int);
                }
                self.bus.virtio[i].pending_block_request()
            },
            None => None,
        }
    }

    /// The size of the host operation that is waiting for completion.
    pub fn pending_block_request_len(&self) -> (len: Option<u64>)
        requires
            self.wf(),
        ensures
            len == match self@.pending() {
                Some(request) => Some(request.length),
                None => None,
            },
    {
        match self.pending_block_request() {
            Some(request) => Some(request.len()),
            None => None,
        }
    }

    /// Complete the host operation numbered `id`. Returns whether it was the
    /// one that waits.
    pub fn complete_block_request(&mut self, id: u64, data: &[u8], ok: bool) -> (completed: bool)
        requires
            old(self).wf(),
        ensures
            final(self).wf(),
            match old(self)@.waiting_device() {
                None => !completed && final(self)@ == old(self)@,
                Some(i) => match answerable(
                    old(self)@.bus.virtio[i],
                    old(self)@.bus.mem.ram.len(),
                    RAM_BASE,
                    id,
                ) {
                    None => !completed && final(self)@ == old(self)@,
                    Some(request) => {
                        let before = old(self)@;
                        let after = MachineView {
                            bus: BusView {
                                virtio: before.bus.virtio.update(
                                    i,
                                    released(before.bus.virtio[i], request),
                                ),
                                mem: answered(before.bus.mem, RAM_BASE, request, data@, ok),
                                ..before.bus
                            },
                            ..before
                        };
                        completed && final(self)@ == after.synced()
                    },
                },
            },
    {
        match self.find_waiting() {
            None => false,
            Some(i) => {
                let ghost before = self@.bus.virtio;
                assert(self@.bus.virtio[i as int] == self.bus.virtio@[i as int]@);
                let mut dev = self.bus.virtio.remove(i);
                let completed = dev.complete_block_request(
                    id,
                    data,
                    ok,
                    self.bus.ram.as_mut_slice(),
                    RAM_BASE,
                    &mut self.bus.jit,
                );
                self.bus.virtio.insert(i, dev);
                assert(self@.bus.virtio =~= before.update(i as int, dev@));
                assert(before.update(i as int, before[i as int]) =~= before);
                if completed {
                    self.sync_devices();
                }
                completed
            },
        }
    }

    fn has_external_disk(&self) -> (found: bool)
        requires
            self.wf(),
        ensures
            found == self@.has_external_disk(),
    {
        let mut i: usize = 0;
        while i < self.bus.virtio.len()
            invariant
                self.wf(),
                i <= self.bus.virtio@.len(),
                forall|k: int| 0 <= k < i ==> !((#[trigger] self@.bus.virtio[k]).backend is
                    ExternalBlock),
            decreases self.bus.virtio@.len() - i,
        {
            assert(self@.bus.virtio[i as int] == self.bus.virtio@[i as int]@);
            if self.bus.virtio[i].is_external() {
                return true;
            }
            i = i + 1;
        }
        false
    }
}

// ---- slices --------------------------------------------------------------

/// Why the hart stopped.
#[derive(Debug, Clone, Copy, PartialEq, Eq, Structural)]
pub enum SliceStop {
    /// It ran its budget.
    Budget,
    /// It made an environment call.
    Ecall,
    /// It waits for an interrupt.
    Wfi,
    /// The next instruction is compiled.
    Compiled,
    /// Anything else.
    Other,
}

/// What the embedding does next in a slice.
#[derive(Debug, Clone, Copy, PartialEq, Eq, Structural)]
pub enum SliceAction {
    /// Run the hart for at most so many instructions, then report why it
    /// stopped.
    Run(u64),
    /// Say whether execution is to stop at this program counter.
    Ask(u64),
    /// The slice is over.
    Done(RunSliceOutcome),
}

/// A slice in progress.
#[derive(Debug, Clone, Copy, PartialEq, Eq, Structural)]
pub struct Slice {
    pub start: u64,
    pub remaining: u64,
    pub before: u64,
    /// Whether the embedding needs devices synchronized during the slice.
    pub periodic: bool,
}

/// A machine, a slice of it and what the embedding does next.
#[verifier::ext_equal]
pub struct SliceStep {
    pub machine: MachineView,
    pub slice: Slice,
    pub action: SliceAction,
}

/// The end of a slice. A hart that waits for an interrupt has its clock moved
/// to the next timer deadline through `idle_ticks`, unless a wall clock drives
/// it or no deadline is ahead; then the slice is idle.
pub open spec fn slice_ended(m: MachineView, s: Slice, halted: bool) -> SliceStep {
    let skips = halted && m.realtime_ticks is None && m.bus.deadline != u64::MAX && m.bus.deadline
        > m.bus.mtime;
    let skipped = MachineView {
        idle_ticks: if skips {
            vstd::wrapping::u64_specs::wrapping_add(
                m.idle_ticks,
                (m.bus.deadline - m.bus.mtime) as u64,
            )
        } else {
            m.idle_ticks
        },
        ..m
    };
    SliceStep {
        machine: skipped.synced().power_sampled(),
        slice: s,
        action: SliceAction::Done(
            RunSliceOutcome {
                retired: (m.cpu.insn_count - s.start) as u64,
                idle: halted && !skips,
            },
        ),
    }
}

/// The next stretch of a slice: bounded where the embedding or a disk that the
/// host keeps needs devices synchronized.
pub open spec fn slice_continued(m: MachineView, s: Slice) -> SliceStep {
    if s.remaining != 0 && !m.power_off {
        SliceStep {
            machine: m,
            slice: Slice { before: m.cpu.insn_count, ..s },
            action: SliceAction::Run(
                if (s.periodic || m.has_external_disk()) && s.remaining
                    > INTERPRETER_SYNC_INTERVAL {
                    INTERPRETER_SYNC_INTERVAL
                } else {
                    s.remaining
                },
            ),
        }
    } else {
        slice_ended(m, s, false)
    }
}

/// The start of a slice. A host request that waits ends it at once.
pub open spec fn slice_begun(m: MachineView, max_insns: u64, periodic: bool) -> SliceStep {
    let ready = m.polled().synced();
    let s = Slice {
        start: m.cpu.insn_count,
        remaining: max_insns,
        before: m.cpu.insn_count,
        periodic,
    };
    if ready.pending() is Some {
        SliceStep {
            machine: ready,
            slice: s,
            action: SliceAction::Done(RunSliceOutcome { retired: 0, idle: false }),
        }
    } else {
        slice_continued(ready, s)
    }
}

/// The slice after the hart ran and stopped.
pub open spec fn slice_stopped(m: MachineView, s: Slice, stop: SliceStop) -> SliceStep {
    let retired = m.cpu.insn_count - s.before;
    let left = Slice {
        remaining: if retired >= s.remaining {
            0
        } else {
            (s.remaining - retired) as u64
        },
        ..s
    };
    if stop is Ecall && m.bus.direct_sbi {
        let served = m.sbi_served();
        if served.unsupported_sbi is Some {
            slice_ended(MachineView { power_off: true, ..served }, left, false)
        } else if served.power_off {
            slice_ended(served, left, false)
        } else {
            SliceStep { machine: served, slice: left, action: SliceAction::Ask(served.cpu.pc) }
        }
    } else if stop is Budget && left.remaining != 0 {
        let synced = m.synced();
        if synced.pending() is Some || retired == 0 || !(s.periodic
            || synced.has_external_disk()) {
            slice_ended(synced, left, false)
        } else {
            slice_continued(synced, left)
        }
    } else {
        slice_ended(m, left, stop is Wfi)
    }
}

/// The slice after the embedding said whether to stop.
pub open spec fn slice_asked(m: MachineView, s: Slice, stop: bool) -> SliceStep {
    if stop {
        slice_ended(m, s, false)
    } else {
        slice_continued(m, s)
    }
}

/// Idle time is not passed off as work: a halted hart with a timer ahead is
/// moved to its deadline, while the retired count stays that of the
/// instructions that ran.
pub proof fn law_wfi_fast_forwards(m: MachineView, s: Slice)
    requires
        m.wf(),
        m.realtime_ticks is None,
        m.bus.mtime < m.bus.deadline < u64::MAX,
        m.synced_time() == m.bus.mtime,
        s.start <= m.cpu.insn_count,
    ensures
        slice_ended(m, s, true).machine.bus.mtime == m.bus.deadline,
        slice_ended(m, s, true).machine.cpu.insn_count == m.cpu.insn_count,
        slice_ended(m, s, true).action == SliceAction::Done(
            RunSliceOutcome { retired: (m.cpu.insn_count - s.start) as u64, idle: false },
        ),
{
}

/// Under a wall clock a halted hart is reported idle and no time is skipped.
pub proof fn law_realtime_wfi_is_idle(m: MachineView, s: Slice)
    requires
        m.wf(),
        m.realtime_ticks is Some,
        s.start <= m.cpu.insn_count,
    ensures
        slice_ended(m, s, true).machine.idle_ticks == m.idle_ticks,
        slice_ended(m, s, true).action == SliceAction::Done(
            RunSliceOutcome { retired: (m.cpu.insn_count - s.start) as u64, idle: true },
        ),
{
}

/// An SBI call that is not supported ends the slice with the machine off.
pub proof fn law_unsupported_sbi_stops(m: MachineView, s: Slice)
    requires
        m.wf(),
        m.bus.direct_sbi,
        sbi_answer(m.cpu.x[17], m.cpu.x[16], m.cpu.x[10], m.cpu.x[11]).2 is Unsupported,
        s.before <= m.cpu.insn_count,
    ensures
        slice_stopped(m, s, SliceStop::Ecall).action is Done,
        slice_stopped(m, s, SliceStop::Ecall).machine.power_off,
        slice_stopped(m, s, SliceStop::Ecall).machine.unsupported_sbi == Some(
            (m.cpu.x[17], m.cpu.x[16]),
        ),
        slice_stopped(m, s, SliceStop::Ecall).machine.cpu.x[10] == SBI_NOT_SUPPORTED,
{
}

impl VirtMachine {
    /// Start a slice of at most `max_insns` instructions. `periodic` says that
    /// the embedding needs devices synchronized during it.
    pub fn begin_slice(&mut self, max_insns: u64, periodic: bool) -> (step: (Slice, SliceAction))
        requires
            old(self).wf(),
        ensures
            final(self).wf(),
            (SliceStep { machine: final(self)@, slice: step.0, action: step.1 }) == slice_begun(
                old(self)@,
                max_insns,
                periodic,
            ),
    {
        let start: u64 = self.cpu.insn_count;
        self.bus.poll_virtio();
        self.sync_devices();
        let slice = Slice { start, remaining: max_insns, before: start, periodic };
        if self.find_waiting().is_some() {
            proof {
                lemma_first_waiting(self@.bus.virtio, self@.bus.virtio.len() as int);
            }
            return (slice, SliceAction::Done(RunSliceOutcome { retired: 0, idle: false }));
        }
        self.continue_slice(slice)
    }

    fn continue_slice(&mut self, slice: Slice) -> (step: (Slice, SliceAction))
        requires
            old(self).wf(),
            slice.start <= old(self).cpu.insn_count,
        ensures
            final(self).wf(),
            (SliceStep { machine: final(self)@, slice: step.0, action: step.1 })
                == slice_continued(old(self)@, slice),
    {
        if slice.remaining == 0 || self.power_off {
            return (slice, SliceAction::Done(self.end_slice(slice, false)));
        }
        let chunk: u64 = if (slice.periodic || self.has_external_disk()) && slice.remaining
            > INTERPRETER_SYNC_INTERVAL {
            INTERPRETER_SYNC_INTERVAL
        } else {
            slice.remaining
        };
        let mut next = slice;
        next.before = self.cpu.insn_count;
        (next, SliceAction::Run(chunk))
    }

    fn end_slice(&mut self, slice: Slice, halted: bool) -> (outcome: RunSliceOutcome)
        requires
            old(self).wf(),
            slice.start <= old(self).cpu.insn_count,
        ensures
            final(self).wf(),
            (SliceStep { machine: final(self)@, slice, action: SliceAction::Done(outcome) })
                == slice_ended(old(self)@, slice, halted),
    {
        let mut idle = false;
        if halted {
            // Halted: fast-forward the guest clock to the next timer
            // deadline via `idle_ticks` (not `insn_count`, which must
            // stay a true retired-instruction count for budgets/perf).
            let next: u64 = self.bus.deadline;
            if self.realtime_ticks.is_none() && next != u64::MAX && next > self.bus.mtime {
                self.idle_ticks = self.idle_ticks.wrapping_add(next - self.bus.mtime);
            } else {
                idle = true;
            }
        }
        self.sync_devices();
        self.power_off = self.power_off || self.bus.power_off;
        RunSliceOutcome { retired: self.cpu.insn_count - slice.start, idle }
    }

    /// Continue a slice after the hart ran and stopped.
    pub fn slice_stopped(&mut self, slice: Slice, stop: SliceStop) -> (step: (Slice, SliceAction))
        requires
            old(self).wf(),
            slice.start <= slice.before <= old(self).cpu.insn_count,
        ensures
            final(self).wf(),
            (SliceStep { machine: final(self)@, slice: step.0, action: step.1 }) == slice_stopped(
                old(self)@,
                slice,
                stop,
            ),
    {
        let retired: u64 = self.cpu.insn_count - slice.before;
        let mut left = slice;
        left.remaining = slice.remaining.saturating_sub(retired);
        match stop {
            SliceStop::Ecall if self.bus.direct_sbi => {
                self.service_sbi();
                if self.unsupported_sbi.is_some() {
                    self.power_off = true;
                    return (left, SliceAction::Done(self.end_slice(left, false)));
                }
                if self.power_off {
                    return (left, SliceAction::Done(self.end_slice(left, false)));
                }
                (left, SliceAction::Ask(self.cpu.pc))
            },
            SliceStop::Budget if left.remaining != 0 => {
                self.sync_devices();
                proof {
                    lemma_first_waiting(self@.bus.virtio, self@.bus.virtio.len() as int);
                }
                if self.find_waiting().is_some() || retired == 0 || !(slice.periodic
                    || self.has_external_disk()) {
                    return (left, SliceAction::Done(self.end_slice(left, false)));
                }
                self.continue_slice(left)
            },
            SliceStop::Wfi => (left, SliceAction::Done(self.end_slice(left, true))),
            _ => (left, SliceAction::Done(self.end_slice(left, false))),
        }
    }

    /// Continue a slice after the embedding said whether to stop.
    pub fn slice_asked(&mut self, slice: Slice, stop: bool) -> (step: (Slice, SliceAction))
        requires
            old(self).wf(),
            slice.start <= old(self).cpu.insn_count,
        ensures
            final(self).wf(),
            (SliceStep { machine: final(self)@, slice: step.0, action: step.1 }) == slice_asked(
                old(self)@,
                slice,
                stop,
            ),
    {
        if stop {
            (slice, SliceAction::Done(self.end_slice(slice, false)))
        } else {
            self.continue_slice(slice)
        }
    }
}

} // verus!
