use zeronix::mem::PhysAddr;
use zeronix::task::proc::{kernel_task, user_setup, Context, ProcKind, ProcState, Scheduler, Switch, TrapFrame, USER_RFLAGS};
use zeronix::task::proc_layout::DEFAULT_TIME_SLICE_TICKS;
use zeronix::trap::gdt::{USER_CODE_SELECTOR, USER_DATA_SELECTOR};

fn booted() -> Scheduler {
    let mut s = Scheduler::new();
    s.init(0xffff_8000_0010_0000, PhysAddr::from(0x1000usize));
    s
}

fn add_task(s: &mut Scheduler) -> usize {
    let pid = s.take_pid();
    let p = kernel_task(pid, 0x20_0000, PhysAddr::from(0x1000usize), 0x1234, 0x5678);
    s.enqueue_new(p)
}

#[test]
fn boot_process_runs_first() {
    let s = booted();
    assert_eq!(s.current_slot(), Some(0));
    assert_eq!(s.current_pid(), Some(0));
    let boot = s.proc_at(0);
    assert_eq!(boot.state, ProcState::Running);
    assert_eq!(boot.kind, ProcKind::Kernel);
    assert_eq!(boot.ticks_left, DEFAULT_TIME_SLICE_TICKS);
}

#[test]
fn init_twice_keeps_the_first() {
    let mut s = booted();
    s.init(0, PhysAddr::from(0x9000usize));
    assert_eq!(s.current_slot(), Some(0));
    assert_eq!(s.proc_at(0).kstack_top, 0xffff_8000_0010_0000);
}

#[test]
fn pids_count_up_from_one() {
    let mut s = booted();
    assert_eq!(s.take_pid(), 1);
    assert_eq!(s.take_pid(), 2);
}

#[test]
fn round_robin_order() {
    let mut s = booted();
    let a = add_task(&mut s);
    let b = add_task(&mut s);
    assert_eq!((a, b), (1, 2));
    assert_eq!(s.proc_at(a).state, ProcState::Ready);
    assert_eq!(s.schedule(), Some(Switch { from: 0, to: 1 }));
    assert_eq!(s.proc_at(0).state, ProcState::Ready);
    assert_eq!(s.proc_at(1).state, ProcState::Running);
    assert_eq!(s.schedule(), Some(Switch { from: 1, to: 2 }));
    assert_eq!(s.schedule(), Some(Switch { from: 2, to: 0 }));
    assert_eq!(s.current_pid(), Some(0));
}

#[test]
fn schedule_with_nothing_ready() {
    let mut s = booted();
    assert_eq!(s.schedule(), None);
    assert_eq!(s.current_slot(), Some(0));
    let mut empty = Scheduler::new();
    assert_eq!(empty.schedule(), None);
    assert_eq!(empty.timer_tick(), None);
    assert_eq!(empty.exit_current(), None);
}

#[test]
fn time_slice_expires_after_its_ticks() {
    let mut s = booted();
    add_task(&mut s);
    for _ in 0..DEFAULT_TIME_SLICE_TICKS - 1 {
        assert_eq!(s.timer_tick(), None);
    }
    assert_eq!(s.proc_at(0).ticks_left, 1);
    assert_eq!(s.timer_tick(), Some(Switch { from: 0, to: 1 }));
    assert_eq!(s.proc_at(0).ticks_left, DEFAULT_TIME_SLICE_TICKS);
    assert_eq!(s.proc_at(1).ticks_left, DEFAULT_TIME_SLICE_TICKS);
}

#[test]
fn exited_process_leaves_the_queue() {
    let mut s = booted();
    add_task(&mut s);
    assert_eq!(s.exit_current(), Some(Switch { from: 0, to: 1 }));
    assert_eq!(s.proc_at(0).state, ProcState::Exited);
    assert_eq!(s.schedule(), None);
    assert_eq!(s.current_slot(), Some(1));
}

#[test]
fn kernel_task_starts_in_its_bootstrap() {
    let p = kernel_task(7, 0x20_0000, PhysAddr::from(0x1000usize), 0x1234, 0x5678);
    assert_eq!(p.pid, 7);
    assert_eq!(p.entry, Some(0x1234));
    assert_eq!(p.context.rip, 0x5678);
    assert_eq!(p.context.rsp % 16, 0);
    assert!(p.context.rsp <= p.kstack_top);
    assert_eq!(p.state, ProcState::Ready);
}

#[test]
fn user_trap_frame() {
    let t = TrapFrame::new_user(0x40_0000, 0x7fff_ffff_f000);
    assert_eq!(t.rip, 0x40_0000);
    assert_eq!(t.rsp, 0x7fff_ffff_f000);
    assert_eq!(t.cs, USER_CODE_SELECTOR as u64);
    assert_eq!(t.ss, USER_DATA_SELECTOR as u64);
    assert_eq!(t.rflags, USER_RFLAGS);
    assert_eq!(t.rax, 0);
    let c = Context::new();
    assert_eq!(c.rsp, 0);
}

#[test]
fn user_process_setup() {
    let pt = PhysAddr::from(0x7000usize);
    let s = user_setup(2, None, None, (0x30_0000, 0x50_0000, 0x40_0000), pt, (0x20_0000, 0x20_3000), 0x9999);
    assert_eq!(s.layout.code_base, 0x40_0000 + 2 * 0x20_0000);
    assert_eq!(s.trap_frame.rip, s.layout.code_base);
    assert_eq!(s.trap_frame.rsp, s.layout.stack_top);
    assert_eq!(s.mappings.len(), 3);
    assert_eq!(s.mappings[1].phys, 0x50_0000);
    assert_eq!(s.proc.pid, 2);
    assert_eq!(s.proc.kind, ProcKind::User);
    assert_eq!(s.proc.context.rip, 0x9999);
    assert_eq!(s.proc.trap_frame, Some(s.layout.trap_frame));
    assert_eq!(s.proc.user_code_phys, Some(0x50_0000));
    let loaded = user_setup(3, Some(0x80_0000), Some(0x80_0040), (0x30_0000, 0x50_0000, 0x40_0000), pt, (0, 0), 0);
    assert_eq!(loaded.layout.code_base, 0x80_0000);
    assert_eq!(loaded.trap_frame.rip, 0x80_0040);
    assert_eq!(loaded.mappings[0].pages, 0);
}
