use armkernel::mem::VirtualAddress;
use armkernel::sched::{Sched, SwitchAction, ThreadId};

fn spawn(s: &mut Sched) -> ThreadId {
    s.spawn_thread(VirtualAddress(0x8000), 0, VirtualAddress(0x10_0000), 0xABCD).0
}

#[test]
fn scheduler_starts_with_main_thread() {
    let s = Sched::new(VirtualAddress(0x100));
    assert_eq!(s.get_current_thread(), ThreadId(1));
    assert_eq!(s.thread_count(), 1);
}

#[test]
fn spawned_ids_start_above_ten() {
    let mut s = Sched::new(VirtualAddress(0x100));
    assert_eq!(spawn(&mut s), ThreadId(11));
    assert_eq!(spawn(&mut s), ThreadId(12));
    assert_eq!(s.thread_count(), 3);
    assert!(s.thread_at(2).ready);
}

#[test]
fn yield_cycles_threads() {
    let mut s = Sched::new(VirtualAddress(0x100));
    let a = spawn(&mut s);
    let b = spawn(&mut s);
    let c = spawn(&mut s);
    assert_eq!(s.block(), SwitchAction::Switch { from: Some(ThreadId(1)), to: a });
    let mut buffer = Vec::new();
    for _ in 0..18 {
        buffer.push(s.get_current_thread());
        s.yield_thread();
    }
    let expected: Vec<ThreadId> = (0..6).flat_map(|_| vec![a, b, c]).collect();
    assert_eq!(buffer, expected);
}

#[test]
fn round_robin_is_fair() {
    let mut s = Sched::new(VirtualAddress(0x100));
    spawn(&mut s);
    spawn(&mut s);
    spawn(&mut s);
    let mut visits = [0usize; 4];
    for _ in 0..40 {
        s.yield_thread();
        let id = s.get_current_thread().0;
        let slot = if id == 1 { 0 } else { id - 10 };
        visits[slot] += 1;
    }
    assert_eq!(visits, [10, 10, 10, 10]);
}

#[test]
fn yield_alone_stays() {
    let mut s = Sched::new(VirtualAddress(0x100));
    assert_eq!(s.yield_thread(), SwitchAction::Stay);
}

#[test]
fn sleeper_wakes_on_the_right_tick() {
    let mut s = Sched::new(VirtualAddress(0x100));
    let t = s.get_current_thread();
    assert_eq!(s.sleep(35), SwitchAction::Switch { from: Some(t), to: ThreadId(0) });
    let mut tick = 0;
    while s.get_current_thread() != t {
        tick += 1;
        s.interrupted(100);
        assert!(tick <= 5);
    }
    assert_eq!(tick, 4);
    assert_eq!(s.now(), 40);
    assert_eq!(s.thread_at(0).wake_on, 0);
    assert!(s.thread_at(0).ready);
}

#[test]
fn tick_preempts() {
    let mut s = Sched::new(VirtualAddress(0x100));
    let a = spawn(&mut s);
    assert_eq!(s.interrupted(100), SwitchAction::Switch { from: Some(ThreadId(1)), to: a });
    assert_eq!(s.now(), 10);
}

#[test]
fn blocked_thread_waits_for_wakeup() {
    let mut s = Sched::new(VirtualAddress(0x100));
    let a = spawn(&mut s);
    s.yield_thread();
    assert_eq!(s.get_current_thread(), a);
    assert_eq!(s.block(), SwitchAction::Switch { from: Some(a), to: ThreadId(1) });
    assert_eq!(s.thread_at(1).wake_on, u64::MAX);
    for _ in 0..5 {
        assert_eq!(s.yield_thread(), SwitchAction::Stay);
        s.interrupted(100);
        assert_eq!(s.get_current_thread(), ThreadId(1));
    }
    s.wakeup(a);
    assert_eq!(s.yield_thread(), SwitchAction::Switch { from: Some(ThreadId(1)), to: a });
}

#[test]
fn all_blocked_runs_idle() {
    let mut s = Sched::new(VirtualAddress(0x100));
    assert_eq!(s.block(), SwitchAction::Switch { from: Some(ThreadId(1)), to: ThreadId(0) });
    assert_eq!(s.get_current_thread(), ThreadId(0));
    s.wakeup(ThreadId(1));
    assert_eq!(s.yield_thread(), SwitchAction::Switch { from: Some(ThreadId(0)), to: ThreadId(1) });
}

#[test]
fn wakeup_of_unknown_id_changes_nothing() {
    let mut s = Sched::new(VirtualAddress(0x100));
    s.wakeup(ThreadId(99));
    assert_eq!(s.thread_count(), 1);
    assert_eq!(s.get_current_thread(), ThreadId(1));
}

#[test]
fn exited_thread_is_gone() {
    let mut s = Sched::new(VirtualAddress(0x100));
    let a = spawn(&mut s);
    let b = spawn(&mut s);
    s.yield_thread();
    assert_eq!(s.get_current_thread(), a);
    let r = s.exit_thread();
    assert_eq!(r, SwitchAction::Switch { from: None, to: b });
    assert_eq!(s.thread_count(), 2);
    for i in 0..s.thread_count() {
        assert_ne!(s.thread_at(i).id, a);
    }
    for _ in 0..6 {
        s.yield_thread();
        assert_ne!(s.get_current_thread(), a);
    }
}

#[test]
fn unschedule_blocks_only_non_sleepers() {
    let mut s = Sched::new(VirtualAddress(0x100));
    s.unschedule_no_intr();
    assert!(!s.thread_at(0).ready);
    assert_eq!(s.thread_at(0).wake_on, u64::MAX);
}

#[test]
fn spawn_lays_out_the_first_switch() {
    let mut s = Sched::new(VirtualAddress(0x100));
    let (id, words) = s.spawn_thread(VirtualAddress(0x8000), 7, VirtualAddress(0x20_0000), 0xBEEF);
    assert_eq!(id, ThreadId(11));
    assert_eq!(words, vec![0, 0, 0, 0, 0, 0, 0, 0, 0, 0xBEEF]);
    let t = s.thread_at(1);
    assert_eq!(t.ctx.sp, 0x20_0000 - 40);
    assert_eq!(t.arg, 7);
    assert_eq!(t.entry, VirtualAddress(0x8000));
}

#[test]
fn exit_of_first_thread_runs_its_successor() {
    let mut s = Sched::new(VirtualAddress(0x100));
    let a = spawn(&mut s);
    spawn(&mut s);
    assert_eq!(s.get_current_thread(), ThreadId(1));
    assert_eq!(s.exit_thread(), SwitchAction::Switch { from: None, to: a });
}

#[test]
fn exit_of_last_thread_runs_idle() {
    let mut s = Sched::new(VirtualAddress(0x100));
    assert_eq!(s.exit_thread(), SwitchAction::Switch { from: None, to: ThreadId(0) });
    assert_eq!(s.thread_count(), 0);
}
