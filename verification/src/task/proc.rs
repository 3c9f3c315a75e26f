use vstd::prelude::*;
use std::collections::VecDeque;
use crate::mem::PhysAddr;
use crate::task::proc_layout::{DEFAULT_TIME_SLICE_TICKS, consume_tick, ticks_after};
use crate::trap::gdt::{USER_CODE_SELECTOR, USER_DATA_SELECTOR};
use crate::task::proc_layout::{USER_CODE_BASE, USER_SLOT_SIZE, USER_STACK_TOP, user_code_base, user_stack_top};
use crate::mem::page::pagealloc::{BuddyAllocator, PAGE_SIZE, Placement, alloc_fn, lemma_alloc_outcome_fn};
use crate::mem::page::pagemapper::KERNEL_VMA;
use crate::mem::page::{EntryFlags, MapRange, identity_range, identity_map_range};
use crate::user::elf::{parse, parse_spec, lemma_parsed_segment_within, ParsedElf, LoadSegment};

verus! {

/// Where a process stands.
#[derive(Debug, Clone, Copy, PartialEq, Eq, Structural)]
pub enum ProcState {
    Ready,
    Running,
    Blocked,
    Exited,
}

/// Whether a process runs in the kernel or in user mode.
#[derive(Debug, Clone, Copy, PartialEq, Eq, Structural)]
pub enum ProcKind {
    Kernel,
    User,
}

/// Why a process could not be created.
#[derive(Debug, Clone, Copy, PartialEq, Eq, Structural)]
pub enum SpawnError {
    BadElf,
    ProgramTooLarge,
    NoMemory,
}

/// The callee-saved registers kept across a context switch.
#[derive(Debug, Clone, Copy, PartialEq, Eq, Structural)]
pub struct Context {
    pub r15: u64,
    pub r14: u64,
    pub r13: u64,
    pub r12: u64,
    pub rbx: u64,
    pub rbp: u64,
    pub rsp: u64,
    pub rip: u64,
}

impl Context {
    /// All registers zero.
    pub fn new() -> (c: Self)
        ensures
            c == (Context { r15: 0, r14: 0, r13: 0, r12: 0, rbx: 0, rbp: 0, rsp: 0, rip: 0 }),
    {
        Context { r15: 0, r14: 0, r13: 0, r12: 0, rbx: 0, rbp: 0, rsp: 0, rip: 0 }
    }
}

/// The register frame that enters user mode: the general registers, then
/// RIP, CS, RFLAGS, RSP and SS in the order `iretq` pops them.
#[derive(Debug, Clone, Copy, PartialEq, Eq, Structural)]
pub struct TrapFrame {
    pub r15: u64,
    pub r14: u64,
    pub r13: u64,
    pub r12: u64,
    pub r11: u64,
    pub r10: u64,
    pub r9: u64,
    pub r8: u64,
    pub rdi: u64,
    pub rsi: u64,
    pub rbp: u64,
    pub rdx: u64,
    pub rcx: u64,
    pub rbx: u64,
    pub rax: u64,
    pub rip: u64,
    pub cs: u64,
    pub rflags: u64,
    pub rsp: u64,
    pub ss: u64,
}

/// The interrupt-enable flag and the always-set bit of RFLAGS.
pub const USER_RFLAGS: u64 = 0x202;

/// The frame that starts user code at `rip` with stack `rsp`, user
/// segments, interrupts enabled and every general register zero.
pub open spec fn user_frame(rip: u64, rsp: u64) -> TrapFrame {
    TrapFrame {
        r15: 0,
        r14: 0,
        r13: 0,
        r12: 0,
        r11: 0,
        r10: 0,
        r9: 0,
        r8: 0,
        rdi: 0,
        rsi: 0,
        rbp: 0,
        rdx: 0,
        rcx: 0,
        rbx: 0,
        rax: 0,
        rip,
        cs: USER_CODE_SELECTOR as u64,
        rflags: USER_RFLAGS,
        rsp,
        ss: USER_DATA_SELECTOR as u64,
    }
}

impl TrapFrame {
    /// A frame that starts user code at `rip` with stack `rsp`, user segments,
    /// interrupts enabled and every general register zero.
    pub fn new_user(rip: u64, rsp: u64) -> (t: Self)
        ensures
            t == user_frame(rip, rsp),
    {
        TrapFrame {
            r15: 0,
            r14: 0,
            r13: 0,
            r12: 0,
            r11: 0,
            r10: 0,
            r9: 0,
            r8: 0,
            rdi: 0,
            rsi: 0,
            rbp: 0,
            rdx: 0,
            rcx: 0,
            rbx: 0,
            rax: 0,
            rip,
            cs: USER_CODE_SELECTOR as u64,
            rflags: USER_RFLAGS,
            rsp,
            ss: USER_DATA_SELECTOR as u64,
        }
    }
}

/// A process: its identity, state, saved context and the memory it owns.
#[derive(Debug, Clone, Copy)]
pub struct Proc {
    pub pid: u64,
    pub state: ProcState,
    pub context: Context,
    pub pagetable: PhysAddr,
    pub kstack_phys: usize,
    pub kstack_top: u64,
    pub kind: ProcKind,
    pub ticks_left: u32,
    /// Address of the function a kernel task starts in.
    pub entry: Option<u64>,
    /// Address of the frame a user task enters user mode with.
    pub trap_frame: Option<u64>,
    pub user_code_phys: Option<usize>,
    pub user_stack_phys: Option<usize>,
}

/// A switch the caller performs: load the kernel stack and page table of
/// process slot `to`, then switch from the context of slot `from` to its context.
#[derive(Debug, Clone, Copy, PartialEq, Eq, Structural)]
pub struct Switch {
    pub from: usize,
    pub to: usize,
}

/// The processes, the queue of those ready to run, and the one running.
pub struct Scheduler {
    procs: Vec<Proc>,
    ready: VecDeque<usize>,
    current: Option<usize>,
    next_pid: u64,
}

/// The scheduler's invariant: slots are valid, the queue holds ready
/// processes each once and not the current one, only the current process
/// runs, and there is a current process once anything is queued.
pub open spec fn sched_wf(procs: Seq<Proc>, ready: Seq<usize>, current: Option<usize>) -> bool {
    &&& current matches Some(c) ==> c < procs.len()
    &&& forall|i: int| 0 <= i < ready.len() ==> #[trigger] ready[i] < procs.len() && procs[ready[i] as int].state
        == ProcState::Ready
    &&& forall|i: int, j: int| 0 <= i < j < ready.len() ==> ready[i] != ready[j]
    &&& current matches Some(c) ==> !ready.contains(c)
    &&& forall|s: int| 0 <= s < procs.len() && (#[trigger] procs[s]).state == ProcState::Running ==> current == Some(
        s as usize,
    )
    &&& ready.len() > 0 ==> current is Some
}

impl Scheduler {
    /// Every process, by slot.
    pub closed spec fn procs(&self) -> Seq<Proc> {
        self.procs@
    }

    /// Slots of the processes ready to run, in the order they will run.
    pub closed spec fn ready(&self) -> Seq<usize> {
        self.ready@
    }

    /// Slot of the running process, once there is one.
    pub closed spec fn current(&self) -> Option<usize> {
        self.current
    }

    /// The pid the next process gets.
    pub closed spec fn next_pid(&self) -> u64 {
        self.next_pid
    }

    /// The scheduler's invariant.
    pub open spec fn wf(&self) -> bool {
        sched_wf(self.procs(), self.ready(), self.current())
    }

    /// No processes yet; the first process created gets pid 1.
    pub fn new() -> (s: Self)
        ensures
            s.wf(),
            s.procs() == Seq::<Proc>::empty(),
            s.ready() == Seq::<usize>::empty(),
            s.current() == None::<usize>,
            s.next_pid() == 1,
    {
        Scheduler { procs: Vec::new(), ready: VecDeque::new(), current: None, next_pid: 1 }
    }

    /// Makes the code that is running the boot process, pid 0, unless a
    /// process is already current.
    pub fn init(&mut self, kstack_top: u64, pagetable: PhysAddr)
        requires
            old(self).wf(),
        ensures
            final(self).wf(),
            old(self).current() is Some ==> *final(self) == *old(self),
            old(self).current() is None ==> {
                &&& final(self).procs() == old(self).procs().push(boot_proc(kstack_top, pagetable))
                &&& final(self).current() == Some(old(self).procs().len() as usize)
                &&& final(self).ready() == old(self).ready()
                &&& final(self).next_pid() == old(self).next_pid()
            },
    {
        if self.current.is_some() {
            return;
        }
        let slot = self.procs.len();
        self.procs.push(
            Proc {
                pid: 0,
                state: ProcState::Running,
                context: Context::new(),
                pagetable,
                kstack_phys: 0,
                kstack_top,
                kind: ProcKind::Kernel,
                ticks_left: DEFAULT_TIME_SLICE_TICKS,
                entry: None,
                trap_frame: None,
                user_code_phys: None,
                user_stack_phys: None,
            },
        );
        self.current = Some(slot);
        assert(self.procs@[slot as int] == boot_proc(kstack_top, pagetable));
    }

    /// Hands out the next pid; pids count up and wrap around.
    pub fn take_pid(&mut self) -> (pid: u64)
        requires
            old(self).wf(),
        ensures
            final(self).wf(),
            pid == old(self).next_pid(),
            final(self).next_pid() == pid.wrapping_add(1),
            final(self).procs() == old(self).procs(),
            final(self).ready() == old(self).ready(),
            final(self).current() == old(self).current(),
    {
        let pid = self.next_pid;
        self.next_pid = pid.wrapping_add(1);
        pid
    }

    /// Adds `proc` as a new process, ready to run at the back of the queue.
    pub fn enqueue_new(&mut self, proc: Proc) -> (slot: usize)
        requires
            old(self).wf(),
            old(self).current() is Some,
        ensures
            final(self).wf(),
            slot == old(self).procs().len(),
            final(self).procs() == old(self).procs().push(Proc { state: ProcState::Ready, ..proc }),
            final(self).ready() == old(self).ready().push(slot),
            final(self).current() == old(self).current(),
            final(self).next_pid() == old(self).next_pid(),
    {
        let slot = self.procs.len();
        let mut p = proc;
        p.state = ProcState::Ready;
        self.procs.push(p);
        self.ready.push_back(slot);
        proof {
            let procs = self.procs@;
            let ready = self.ready@;
            assert forall|i: int| 0 <= i < ready.len() implies #[trigger] ready[i] < procs.len() && procs[ready[i] as int].state
                == ProcState::Ready by {
                if i < ready.len() - 1 {
                    assert(ready[i] == old(self).ready@[i]);
                    assert(procs[ready[i] as int] == old(self).procs@[ready[i] as int]);
                }
            }
            assert forall|s: int| 0 <= s < procs.len() && (#[trigger] procs[s]).state == ProcState::Running implies self.current
                == Some(s as usize) by {
                assert(procs[s] == old(self).procs@[s]);
            }
            assert(!ready.contains(self.current->Some_0)) by {
                if ready.contains(self.current->Some_0) {
                    let k = choose|k: int| 0 <= k < ready.len() && ready[k] == self.current->Some_0;
                    if k < ready.len() - 1 {
                        assert(old(self).ready@[k] == self.current->Some_0);
                    }
                }
            }
        }
        slot
    }

    /// Picks the next process to run: the front of the queue. The running
    /// process goes to the back of the queue; one that exited stays out.
    /// `None` when nothing else is ready.
    pub fn schedule(&mut self) -> (r: Option<Switch>)
        requires
            old(self).wf(),
        ensures
            final(self).wf(),
            (r, final(self).procs(), final(self).ready(), final(self).current()) == schedule_spec(
                old(self).procs(),
                old(self).ready(),
                old(self).current(),
            ),
            final(self).next_pid() == old(self).next_pid(),
    {
        let next = match self.ready.pop_front() {
            Some(n) => n,
            None => {
                return None;
            },
        };
        let old_slot = match self.current {
            Some(c) => c,
            None => {
                return None;
            },
        };
        if old_slot == next {
            return None;
        }
        assert(old(self).current() == Some(old_slot));
        let ghost procs0 = self.procs@;
        let ghost ready1 = self.ready@;
        let mut old_proc = self.procs[old_slot];
        if old_proc.state == ProcState::Running {
            old_proc.state = ProcState::Ready;
            self.procs.set(old_slot, old_proc);
            self.ready.push_back(old_slot);
        }
        assert(self.procs@[old_slot as int].state != ProcState::Running);
        let ghost procs1 = self.procs@;
        let mut next_proc = self.procs[next];
        next_proc.state = ProcState::Running;
        next_proc.ticks_left = DEFAULT_TIME_SLICE_TICKS;
        self.procs.set(next, next_proc);
        self.current = Some(next);
        let plen = self.procs.len();
        proof {
            let procs = self.procs@;
            let ready = self.ready@;
            assert(old(self).ready@[0] == next);
            assert forall|i: int| 0 <= i < ready.len() implies #[trigger] ready[i] < procs.len() && procs[ready[i] as int].state
                == ProcState::Ready by {
                if i < ready1.len() {
                    assert(ready[i] == old(self).ready@[i + 1]);
                    assert(old(self).ready@[i + 1] != old(self).ready@[0]);
                }
            }
            assert forall|i: int, j: int| 0 <= i < j < ready.len() implies ready[i] != ready[j] by {
                if j < ready1.len() {
                    assert(ready[i] == old(self).ready@[i + 1] && ready[j] == old(self).ready@[j + 1]);
                } else {
                    assert(ready[i] == old(self).ready@[i + 1]);
                    assert(old(self).ready@.contains(old(self).ready@[i + 1]));
                }
            }
            assert(!ready.contains(next)) by {
                if ready.contains(next) {
                    let k = choose|k: int| 0 <= k < ready.len() && ready[k] == next;
                    if k < ready1.len() {
                        assert(old(self).ready@[k + 1] == next);
                    }
                }
            }
            assert forall|s: int| 0 <= s < procs.len() && (#[trigger] procs[s]).state == ProcState::Running implies self.current
                == Some(s as usize) by {
                if s != next {
                    assert(procs[s] == procs1[s]);
                    if s == old_slot {
                        assert(procs1[s].state != ProcState::Running);
                    }
                    if s != old_slot {
                        assert(procs1[s] == procs0[s]);
                        assert(old(self).procs()[s] == procs0[s]);
                        assert(old(self).procs()[s].state == ProcState::Running);
                        assert(s < plen);
                        assert(old(self).current() == Some(s as usize));
                    }
                }
            }
        }
        Some(Switch { from: old_slot, to: next })
    }

    /// One timer tick for the running process: when its time slice is used
    /// up, the slice is reloaded and the next process is picked.
    pub fn timer_tick(&mut self) -> (r: Option<Switch>)
        requires
            old(self).wf(),
        ensures
            final(self).wf(),
            old(self).current() is None ==> r is None && *final(self) == *old(self),
            old(self).current() matches Some(c) ==> {
                let t = ticks_after(old(self).procs()[c as int].ticks_left);
                let procs1 = old(self).procs().update(
                    c as int,
                    Proc { ticks_left: if t == 0 { DEFAULT_TIME_SLICE_TICKS } else { t }, ..old(self).procs()[c as int] },
                );
                if t == 0 {
                    (r, final(self).procs(), final(self).ready(), final(self).current()) == schedule_spec(
                        procs1,
                        old(self).ready(),
                        old(self).current(),
                    )
                } else {
                    r is None && final(self).procs() == procs1 && final(self).ready() == old(self).ready()
                        && final(self).current() == old(self).current()
                }
            },
            final(self).next_pid() == old(self).next_pid(),
    {
        let c = match self.current {
            Some(c) => c,
            None => {
                return None;
            },
        };
        let mut p = self.procs[c];
        let expired = consume_tick(&mut p.ticks_left, DEFAULT_TIME_SLICE_TICKS);
        self.procs.set(c, p);
        proof {
            let procs = self.procs@;
            assert forall|s: int| 0 <= s < procs.len() && (#[trigger] procs[s]).state == ProcState::Running implies self.current
                == Some(s as usize) by {
                assert(procs[s].state == old(self).procs@[s].state);
            }
            assert forall|i: int| 0 <= i < self.ready@.len() implies #[trigger] self.ready@[i] < procs.len()
                && procs[self.ready@[i] as int].state == ProcState::Ready by {
                assert(procs[self.ready@[i] as int].state == old(self).procs@[self.ready@[i] as int].state);
            }
        }
        if expired {
            self.schedule()
        } else {
            None
        }
    }

    /// Marks the running process as exited and picks the next one.
    pub fn exit_current(&mut self) -> (r: Option<Switch>)
        requires
            old(self).wf(),
        ensures
            final(self).wf(),
            old(self).current() is None ==> r is None && *final(self) == *old(self),
            old(self).current() matches Some(c) ==> (r, final(self).procs(), final(self).ready(), final(self).current())
                == schedule_spec(
                old(self).procs().update(c as int, Proc { state: ProcState::Exited, ..old(self).procs()[c as int] }),
                old(self).ready(),
                old(self).current(),
            ),
            final(self).next_pid() == old(self).next_pid(),
    {
        let c = match self.current {
            Some(c) => c,
            None => {
                return None;
            },
        };
        let mut p = self.procs[c];
        p.state = ProcState::Exited;
        self.procs.set(c, p);
        proof {
            let procs = self.procs@;
            assert forall|s: int| 0 <= s < procs.len() && (#[trigger] procs[s]).state == ProcState::Running implies self.current
                == Some(s as usize) by {
                assert(s != c);
                assert(procs[s] == old(self).procs@[s]);
            }
            assert forall|i: int| 0 <= i < self.ready@.len() implies #[trigger] self.ready@[i] < procs.len()
                && procs[self.ready@[i] as int].state == ProcState::Ready by {
                assert(self.ready@[i] != c);
                assert(procs[self.ready@[i] as int] == old(self).procs@[self.ready@[i] as int]);
            }
        }
        self.schedule()
    }

    /// The process in slot `slot`.
    pub fn proc_at(&self, slot: usize) -> (p: Proc)
        requires
            slot < self.procs().len(),
        ensures
            p == self.procs()[slot as int],
    {
        self.procs[slot]
    }

    /// Slot of the running process.
    pub fn current_slot(&self) -> (r: Option<usize>)
        ensures
            r == self.current(),
    {
        self.current
    }

    /// Pid of the running process.
    pub fn current_pid(&self) -> (r: Option<u64>)
        requires
            self.wf(),
        ensures
            r == match self.current() {
                Some(c) => Some(self.procs()[c as int].pid),
                None => None::<u64>,
            },
    {
        match self.current {
            Some(c) => Some(self.procs[c].pid),
            None => None,
        }
    }
}

/// The process that runs the boot code.
pub open spec fn boot_proc(kstack_top: u64, pagetable: PhysAddr) -> Proc {
    Proc {
        pid: 0,
        state: ProcState::Running,
        context: Context { r15: 0, r14: 0, r13: 0, r12: 0, rbx: 0, rbp: 0, rsp: 0, rip: 0 },
        pagetable,
        kstack_phys: 0,
        kstack_top,
        kind: ProcKind::Kernel,
        ticks_left: DEFAULT_TIME_SLICE_TICKS,
        entry: None,
        trap_frame: None,
        user_code_phys: None,
        user_stack_phys: None,
    }
}

/// The switch that `schedule` picks on a state, with the processes, queue and
/// current slot after it.
pub open spec fn schedule_spec(procs: Seq<Proc>, ready: Seq<usize>, current: Option<usize>) -> (Option<Switch>, Seq<Proc>, Seq<usize>, Option<usize>) {
    if ready.len() == 0 || current is None {
        (None, procs, if ready.len() == 0 { ready } else { ready.drop_first() }, current)
    } else {
        let next = ready[0];
        let old = current->Some_0;
        if old == next {
            (None, procs, ready.drop_first(), current)
        } else {
            let running = procs[old as int].state == ProcState::Running;
            let procs1 = if running {
                procs.update(old as int, Proc { state: ProcState::Ready, ..procs[old as int] })
            } else {
                procs
            };
            let ready1 = if running {
                ready.drop_first().push(old)
            } else {
                ready.drop_first()
            };
            let procs2 = procs1.update(
                next as int,
                Proc { state: ProcState::Running, ticks_left: DEFAULT_TIME_SLICE_TICKS, ..procs1[next as int] },
            );
            (Some(Switch { from: old, to: next }), procs2, ready1, Some(next))
        }
    }
}

/// Order of the buddy block that holds a kernel stack.
pub const KERNEL_STACK_ORDER: usize = 2;
/// Size of a kernel stack.
pub const KERNEL_STACK_SIZE: u64 = 16384;
/// Order of the buddy block that holds a user stack.
pub const USER_STACK_ORDER: usize = 1;
/// Size of a user stack.
pub const USER_STACK_SIZE: u64 = 8192;
/// Size of a `TrapFrame` in memory.
pub const TRAP_FRAME_SIZE: u64 = 160;

/// A process that yields goes to the back of the queue, and the process at
/// the front runs next.
pub proof fn law_round_robin(procs: Seq<Proc>, ready: Seq<usize>, current: Option<usize>)
    requires
        sched_wf(procs, ready, current),
        ready.len() > 0,
        current matches Some(c) && procs[c as int].state == ProcState::Running,
    ensures
        ({
            let (r, procs2, ready2, current2) = schedule_spec(procs, ready, current);
            &&& r == Some(Switch { from: current->Some_0, to: ready[0] })
            &&& current2 == Some(ready[0])
            &&& ready2 == ready.drop_first().push(current->Some_0)
            &&& procs2[ready[0] as int].state == ProcState::Running
            &&& procs2[current->Some_0 as int].state == ProcState::Ready
        }),
{
    assert(ready.contains(ready[0]));
}

/// The top of a kernel stack whose block starts at physical `kstack_phys`,
/// addressed through the higher half.
pub open spec fn kernel_stack_top(kstack_phys: usize) -> int {
    kstack_phys + KERNEL_VMA + KERNEL_STACK_SIZE
}

/// Whether the kernel stack at `kstack_phys` has an address in the higher half.
pub open spec fn kstack_fits(kstack_phys: usize) -> bool {
    kernel_stack_top(kstack_phys) <= u64::MAX
}

/// `addr` rounded down to a multiple of 16.
pub open spec fn align16(addr: u64) -> u64 {
    addr & !15u64
}

fn align_down16(addr: u64) -> (r: u64)
    ensures
        r == align16(addr),
        r <= addr,
        r % 16 == 0,
        addr - r < 16,
{
    proof {
        assert(addr & !15u64 <= addr && (addr & !15u64) % 16 == 0 && addr - (addr & !15u64) < 16) by (bit_vector);
    }
    addr & !15
}

/// A kernel task with pid `pid`, kernel stack at `kstack_phys` and the kernel
/// page table, starting in `bootstrap` on its own stack and then calling `entry`.
pub fn kernel_task(pid: u64, kstack_phys: usize, pagetable: PhysAddr, entry: u64, bootstrap: u64) -> (p: Proc)
    requires
        kstack_fits(kstack_phys),
    ensures
        p.pid == pid,
        p.state == ProcState::Ready,
        p.kind == ProcKind::Kernel,
        p.kstack_phys == kstack_phys,
        p.kstack_top == kernel_stack_top(kstack_phys),
        p.context == (Context { rsp: align16(p.kstack_top), rip: bootstrap, ..Context { r15: 0, r14: 0, r13: 0, r12: 0, rbx: 0, rbp: 0, rsp: 0, rip: 0 } }),
        p.pagetable == pagetable,
        p.ticks_left == DEFAULT_TIME_SLICE_TICKS,
        p.entry == Some(entry),
        p.trap_frame == None::<u64>,
        p.user_code_phys == None::<usize>,
        p.user_stack_phys == None::<usize>,
{
    let kstack_top = kstack_phys as u64 + KERNEL_VMA + KERNEL_STACK_SIZE;
    let mut context = Context::new();
    context.rsp = align_down16(kstack_top);
    context.rip = bootstrap;
    Proc {
        pid,
        state: ProcState::Ready,
        context,
        pagetable,
        kstack_phys,
        kstack_top,
        kind: ProcKind::Kernel,
        ticks_left: DEFAULT_TIME_SLICE_TICKS,
        entry: Some(entry),
        trap_frame: None,
        user_code_phys: None,
        user_stack_phys: None,
    }
}

/// One page mapped at `virt` to the frame at `phys`.
#[derive(Debug, Clone, Copy, PartialEq, Eq, Structural)]
pub struct PageMapping {
    pub virt: u64,
    pub phys: u64,
}

/// Where the pieces of a new user process go.
#[derive(Debug, Clone, Copy, PartialEq, Eq, Structural)]
pub struct UserLayout {
    /// Virtual address of the code page (for a loaded program, where it asked to be loaded).
    pub code_base: u64,
    /// Top of the user stack.
    pub stack_top: u64,
    /// Virtual and physical address of the lower user stack page.
    pub stack_page0: PageMapping,
    /// Virtual and physical address of the upper user stack page.
    pub stack_page1: PageMapping,
    /// Top of the kernel stack.
    pub kstack_top: u64,
    /// Where the trap frame that enters user mode lies, just below the kernel stack top.
    pub trap_frame: u64,
    /// The stack pointer the process first switches to.
    pub context_rsp: u64,
}

/// Whether the user slot of `pid` and the given frames have addresses.
pub open spec fn layout_fits(pid: u64, kstack_phys: usize, ustack_phys: usize) -> bool {
    &&& USER_CODE_BASE + pid * USER_SLOT_SIZE <= u64::MAX
    &&& pid * USER_SLOT_SIZE + USER_STACK_SIZE <= USER_STACK_TOP
    &&& kstack_fits(kstack_phys)
    &&& ustack_phys + USER_STACK_SIZE <= u64::MAX
}

/// The layout of a user process with pid `pid` whose code goes to `code_base`.
pub open spec fn user_layout_spec(pid: u64, code_base: u64, kstack_phys: usize, ustack_phys: usize) -> UserLayout {
    let stack_top = (USER_STACK_TOP - pid * USER_SLOT_SIZE) as u64;
    let bottom = (stack_top - USER_STACK_SIZE) as u64;
    let kstack_top = kernel_stack_top(kstack_phys) as u64;
    let trap_frame = (kstack_top - TRAP_FRAME_SIZE) as u64;
    UserLayout {
        code_base,
        stack_top,
        stack_page0: PageMapping { virt: bottom, phys: ustack_phys as u64 },
        stack_page1: PageMapping { virt: (bottom + PAGE_SIZE) as u64, phys: (ustack_phys + PAGE_SIZE) as u64 },
        kstack_top,
        trap_frame,
        context_rsp: align16(trap_frame),
    }
}

/// Where the pieces of a user process with pid `pid` go: code in its code
/// slot (or at `load_addr` for a loaded program), stack at the top of its
/// stack slot backed by the two frames at `ustack_phys`, and the trap frame
/// at the top of its kernel stack.
pub fn user_layout(pid: u64, load_addr: Option<u64>, kstack_phys: usize, ustack_phys: usize) -> (l: UserLayout)
    requires
        layout_fits(pid, kstack_phys, ustack_phys),
    ensures
        l == user_layout_spec(
            pid,
            match load_addr {
                Some(a) => a,
                None => (USER_CODE_BASE + pid * USER_SLOT_SIZE) as u64,
            },
            kstack_phys,
            ustack_phys,
        ),
{
    let code_base = match load_addr {
        Some(a) => a,
        None => user_code_base(pid),
    };
    let stack_top = user_stack_top(pid);
    let bottom = stack_top - USER_STACK_SIZE;
    let kstack_top = kstack_phys as u64 + KERNEL_VMA + KERNEL_STACK_SIZE;
    let trap_frame = kstack_top - TRAP_FRAME_SIZE;
    UserLayout {
        code_base,
        stack_top,
        stack_page0: PageMapping { virt: bottom, phys: ustack_phys as u64 },
        stack_page1: PageMapping { virt: bottom + PAGE_SIZE as u64, phys: ustack_phys as u64 + PAGE_SIZE as u64 },
        kstack_top,
        trap_frame,
        context_rsp: align_down16(trap_frame),
    }
}

/// The user process with the given layout and frames: ready, with a full
/// time slice, starting in `bootstrap` on the stack just below its trap frame.
pub open spec fn user_proc(
    pid: u64,
    layout: UserLayout,
    pagetable: PhysAddr,
    kstack_phys: usize,
    code_phys: usize,
    ustack_phys: usize,
    bootstrap: u64,
) -> Proc {
    Proc {
        pid,
        state: ProcState::Ready,
        context: Context { r15: 0, r14: 0, r13: 0, r12: 0, rbx: 0, rbp: 0, rsp: layout.context_rsp, rip: bootstrap },
        pagetable,
        kstack_phys,
        kstack_top: layout.kstack_top,
        kind: ProcKind::User,
        ticks_left: DEFAULT_TIME_SLICE_TICKS,
        entry: None,
        trap_frame: Some(layout.trap_frame),
        user_code_phys: Some(code_phys),
        user_stack_phys: Some(ustack_phys),
    }
}

/// A user task with the given layout and frames, starting in `bootstrap`,
/// which enters user mode through the trap frame.
pub fn user_task(pid: u64, layout: UserLayout, pagetable: PhysAddr, kstack_phys: usize, code_phys: usize, ustack_phys: usize, bootstrap: u64) -> (p: Proc)
    ensures
        p == user_proc(pid, layout, pagetable, kstack_phys, code_phys, ustack_phys, bootstrap),
{
    let mut context = Context::new();
    context.rsp = layout.context_rsp;
    context.rip = bootstrap;
    Proc {
        pid,
        state: ProcState::Ready,
        context,
        pagetable,
        kstack_phys,
        kstack_top: layout.kstack_top,
        kind: ProcKind::User,
        ticks_left: DEFAULT_TIME_SLICE_TICKS,
        entry: None,
        trap_frame: Some(layout.trap_frame),
        user_code_phys: Some(code_phys),
        user_stack_phys: Some(ustack_phys),
    }
}

/// The code page of a process that runs `code`: the code, then zeros; an
/// empty program becomes `jmp $`, which spins in user mode.
pub open spec fn code_page_spec(code: Seq<u8>) -> Seq<u8> {
    let body = if code.len() == 0 { seq![0xebu8, 0xfe] } else { code };
    body + Seq::new((PAGE_SIZE - body.len()) as nat, |i: int| 0u8)
}

/// The contents of the code page of a process that runs `code`.
pub fn user_code_page(code: &[u8]) -> (page: Vec<u8>)
    requires
        code@.len() <= PAGE_SIZE,
    ensures
        page@ == code_page_spec(code@),
{
    let mut page: Vec<u8> = Vec::new();
    if code.len() == 0 {
        page.push(0xeb);
        page.push(0xfe);
        assert(page@ =~= seq![0xebu8, 0xfe]);
    } else {
        let mut i: usize = 0;
        while i < code.len()
            invariant
                i <= code@.len(),
                page@ == code@.take(i as int),
            decreases code@.len() - i,
        {
            page.push(code[i]);
            i = i + 1;
            assert(page@ =~= code@.take(i as int));
        }
        assert(code@.take(i as int) =~= code@);
    }
    let ghost body = page@;
    assert(body == if code@.len() == 0 { seq![0xebu8, 0xfe] } else { code@ });
    while page.len() < PAGE_SIZE
        invariant
            body.len() <= page@.len() <= PAGE_SIZE,
            page@.take(body.len() as int) == body,
            forall|j: int| body.len() <= j < page@.len() ==> page@[j] == 0u8,
        decreases PAGE_SIZE - page@.len(),
    {
        page.push(0);
    }
    assert(page@ =~= code_page_spec(code@));
    page
}

/// The code page of a loaded program: the segment's bytes from the image, then zeros.
pub open spec fn elf_page_spec(image: Seq<u8>, load: LoadSegment) -> Seq<u8> {
    image.subrange(load.offset as int, load.offset + load.file_size) + Seq::new(
        (PAGE_SIZE - load.file_size) as nat,
        |i: int| 0u8,
    )
}

/// The contents of the code page of the program whose segment is `load` in `image`.
pub fn elf_code_page(image: &[u8], load: LoadSegment) -> (page: Vec<u8>)
    requires
        load.offset + load.file_size <= image@.len(),
        load.file_size <= PAGE_SIZE,
    ensures
        page@ == elf_page_spec(image@, load),
{
    let mut page: Vec<u8> = Vec::new();
    let mut i: usize = 0;
    let ilen = image.len();
    let ghost seg = image@.subrange(load.offset as int, load.offset + load.file_size);
    while i < load.file_size
        invariant
            i <= load.file_size,
            load.offset + load.file_size <= ilen,
            ilen == image@.len(),
            seg == image@.subrange(load.offset as int, load.offset + load.file_size),
            page@ == seg.take(i as int),
        decreases load.file_size - i,
    {
        page.push(image[load.offset + i]);
        i = i + 1;
        assert(page@ =~= seg.take(i as int));
    }
    assert(seg.take(i as int) =~= seg);
    while page.len() < PAGE_SIZE
        invariant
            seg.len() <= page@.len() <= PAGE_SIZE,
            page@.take(seg.len() as int) == seg,
            forall|j: int| seg.len() <= j < page@.len() ==> page@[j] == 0u8,
        decreases PAGE_SIZE - page@.len(),
    {
        page.push(0);
    }
    assert(page@ =~= elf_page_spec(image@, load));
    page
}

/// The program in `image`, when it fits in one code page.
pub fn check_elf(image: &[u8]) -> (r: Result<ParsedElf, SpawnError>)
    ensures
        r matches Ok(parsed) ==> parsed.load.offset + parsed.load.file_size <= image@.len(),
        match parse_spec(image@) {
            Err(_) => r == Err::<ParsedElf, SpawnError>(SpawnError::BadElf),
            Ok(parsed) => if parsed.load.file_size > PAGE_SIZE || parsed.load.mem_size > PAGE_SIZE {
                r == Err::<ParsedElf, SpawnError>(SpawnError::ProgramTooLarge)
            } else {
                r == Ok::<ParsedElf, SpawnError>(parsed)
            },
        },
{
    let parsed = match parse(image) {
        Ok(p) => p,
        Err(_) => {
            return Err(SpawnError::BadElf);
        },
    };
    if parsed.load.file_size > PAGE_SIZE || parsed.load.mem_size > PAGE_SIZE {
        return Err(SpawnError::ProgramTooLarge);
    }
    proof {
        lemma_parsed_segment_within(image@);
    }
    Ok(parsed)
}

/// The frames of a new process, taken in turn: a kernel stack, a code page
/// and a user stack. Each request that fails ends the reservation; blocks
/// taken before it stay taken.
pub open spec fn reserve_spec(lists: Seq<Seq<usize>>, alloc: Map<usize, nat>) -> (Result<(usize, usize, usize), SpawnError>, Seq<Seq<usize>>, Map<usize, nat>) {
    let (r1, l1, a1) = alloc_fn(lists, alloc, KERNEL_STACK_ORDER as nat, Placement::Anywhere);
    match r1 {
        None => (Err(SpawnError::NoMemory), l1, a1),
        Some(kstack) => {
            let (r2, l2, a2) = alloc_fn(l1, a1, 0, Placement::Anywhere);
            match r2 {
                None => (Err(SpawnError::NoMemory), l2, a2),
                Some(code) => {
                    let (r3, l3, a3) = alloc_fn(l2, a2, USER_STACK_ORDER as nat, Placement::Anywhere);
                    match r3 {
                        None => (Err(SpawnError::NoMemory), l3, a3),
                        Some(ustack) => (Ok((kstack, code, ustack)), l3, a3),
                    }
                },
            }
        },
    }
}

/// Takes the frames of a new process from `buddy`: a kernel stack, a code page and a user stack.
pub fn reserve_frames(buddy: &mut BuddyAllocator) -> (r: Result<(usize, usize, usize), SpawnError>)
    requires
        old(buddy).wf(),
    ensures
        final(buddy).wf(),
        final(buddy).total() == old(buddy).total(),
        (r, final(buddy).free_lists(), final(buddy).allocated_blocks()) == reserve_spec(
            old(buddy).free_lists(),
            old(buddy).allocated_blocks(),
        ),
{
    let ghost l0 = buddy.free_lists();
    let ghost a0 = buddy.allocated_blocks();
    let k = buddy.allocate(KERNEL_STACK_ORDER);
    proof {
        lemma_alloc_outcome_fn(l0, a0, KERNEL_STACK_ORDER as nat, Placement::Anywhere, k, buddy.free_lists(), buddy.allocated_blocks());
    }
    let kstack = match k {
        Some(a) => a,
        None => {
            return Err(SpawnError::NoMemory);
        },
    };
    let ghost l1 = buddy.free_lists();
    let ghost a1 = buddy.allocated_blocks();
    let c = buddy.allocate(0);
    proof {
        lemma_alloc_outcome_fn(l1, a1, 0, Placement::Anywhere, c, buddy.free_lists(), buddy.allocated_blocks());
    }
    let code = match c {
        Some(a) => a,
        None => {
            return Err(SpawnError::NoMemory);
        },
    };
    let ghost l2 = buddy.free_lists();
    let ghost a2 = buddy.allocated_blocks();
    let u = buddy.allocate(USER_STACK_ORDER);
    proof {
        lemma_alloc_outcome_fn(l2, a2, USER_STACK_ORDER as nat, Placement::Anywhere, u, buddy.free_lists(), buddy.allocated_blocks());
    }
    let ustack = match u {
        Some(a) => a,
        None => {
            return Err(SpawnError::NoMemory);
        },
    };
    Ok((kstack, code, ustack))
}

/// The mappings a user address space gets, in order: the boot data onto
/// itself for the kernel only (the stack it runs on until its first switch
/// lies there), the code page readable by the user, and the two stack pages
/// writable by the user and not executable.
pub open spec fn user_map_plan(layout: UserLayout, code_phys: u64, bootdata_start: u64, bootdata_end: u64) -> Seq<MapRange> {
    seq![
        identity_range(bootdata_start, bootdata_end, EntryFlags(1u64 | 2u64 | 0x8000_0000_0000_0000u64)),
        MapRange { virt: layout.code_base, phys: code_phys, pages: 1, flags: EntryFlags(1u64 | 4u64) },
        MapRange {
            virt: layout.stack_page0.virt,
            phys: layout.stack_page0.phys,
            pages: 2,
            flags: EntryFlags(1u64 | 2u64 | 4u64 | 0x8000_0000_0000_0000u64),
        },
    ]
}

/// The first mapping of every user address space: the boot data onto itself,
/// for the kernel only; it can be made before the process's frames are taken.
pub fn bootdata_mapping(bootdata_start: u64, bootdata_end: u64) -> (m: MapRange)
    requires
        bootdata_end + 4095 <= u64::MAX,
    ensures
        m == identity_range(bootdata_start, bootdata_end, EntryFlags(1u64 | 2u64 | 0x8000_0000_0000_0000u64)),
        forall|layout: UserLayout, code_phys: u64| #[trigger] user_map_plan(layout, code_phys, bootdata_start, bootdata_end)[0] == m,
{
    let kernel_rw = EntryFlags::present().union(EntryFlags::writable()).union(EntryFlags::nx());
    proof {
        assert(kernel_rw == EntryFlags(1u64 | 2u64 | 0x8000_0000_0000_0000u64));
    }
    identity_map_range(bootdata_start, bootdata_end, kernel_rw)
}

/// The mappings of a new user address space; see `user_map_plan`.
pub fn user_mappings(layout: UserLayout, code_phys: u64, bootdata_start: u64, bootdata_end: u64) -> (plan: Vec<MapRange>)
    requires
        bootdata_end + 4095 <= u64::MAX,
    ensures
        plan@ == user_map_plan(layout, code_phys, bootdata_start, bootdata_end),
{
    let kernel_rw = EntryFlags::present().union(EntryFlags::writable()).union(EntryFlags::nx());
    let user_rx = EntryFlags::present().union(EntryFlags::user());
    let user_rw = kernel_rw.union(EntryFlags::user());
    let mut plan: Vec<MapRange> = Vec::new();
    plan.push(bootdata_mapping(bootdata_start, bootdata_end));
    plan.push(MapRange { virt: layout.code_base, phys: code_phys, pages: 1, flags: user_rx });
    plan.push(MapRange { virt: layout.stack_page0.virt, phys: layout.stack_page0.phys, pages: 2, flags: user_rw });
    proof {
        assert(kernel_rw == EntryFlags(1u64 | 2u64 | 0x8000_0000_0000_0000u64));
        assert(user_rx == EntryFlags(1u64 | 4u64));
        assert((1u64 | 2u64 | 0x8000_0000_0000_0000u64) | 4u64 == 1u64 | 2u64 | 4u64 | 0x8000_0000_0000_0000u64) by (bit_vector);
        assert(user_rw == EntryFlags(1u64 | 2u64 | 4u64 | 0x8000_0000_0000_0000u64));
    }
    assert(plan@ =~= user_map_plan(layout, code_phys, bootdata_start, bootdata_end));
    plan
}

/// Where a user process's code goes: where the program asked to be loaded,
/// or the code slot of its pid.
pub open spec fn code_base_of(pid: u64, load_addr: Option<u64>) -> u64 {
    match load_addr {
        Some(a) => a,
        None => (USER_CODE_BASE + pid * USER_SLOT_SIZE) as u64,
    }
}

/// What a new user process is made of before it is written to memory: its
/// layout, the mappings of its address space, the frame that enters user
/// mode, and the process itself.
#[derive(Debug)]
pub struct UserSetup {
    pub layout: UserLayout,
    pub mappings: Vec<MapRange>,
    pub trap_frame: TrapFrame,
    pub proc: Proc,
}

/// The parts of the user process `pid` whose kernel stack, code page and
/// user stack are the frames `frames`, under the top-level table
/// `pagetable`: its code goes to `load_addr` (or its code slot) and starts
/// at `entry` (or the start of the code page); `bootdata` is the range of
/// the boot data, and `bootstrap` the code that enters user mode.
pub fn user_setup(
    pid: u64,
    load_addr: Option<u64>,
    entry: Option<u64>,
    frames: (usize, usize, usize),
    pagetable: PhysAddr,
    bootdata: (u64, u64),
    bootstrap: u64,
) -> (s: UserSetup)
    requires
        layout_fits(pid, frames.0, frames.2),
        bootdata.1 + 4095 <= u64::MAX,
    ensures
        s.layout == user_layout_spec(pid, code_base_of(pid, load_addr), frames.0, frames.2),
        s.mappings@ == user_map_plan(s.layout, frames.1 as u64, bootdata.0, bootdata.1),
        s.trap_frame == user_frame(
            match entry {
                Some(e) => e,
                None => s.layout.code_base,
            },
            s.layout.stack_top,
        ),
        s.proc == user_proc(pid, s.layout, pagetable, frames.0, frames.1, frames.2, bootstrap),
{
    let (kstack_phys, code_phys, ustack_phys) = frames;
    let layout = user_layout(pid, load_addr, kstack_phys, ustack_phys);
    let mappings = user_mappings(layout, code_phys as u64, bootdata.0, bootdata.1);
    let rip = match entry {
        Some(e) => e,
        None => layout.code_base,
    };
    let trap_frame = TrapFrame::new_user(rip, layout.stack_top);
    let proc = user_task(pid, layout, pagetable, kstack_phys, code_phys, ustack_phys, bootstrap);
    UserSetup { layout, mappings, trap_frame, proc }
}

} // verus!
