//! The round-robin scheduler: which thread runs next, sleeping, blocking
//! and waking. The switch of stacks itself is left to the caller, which
//! performs the `SwitchAction` that each operation returns.
use vstd::prelude::*;
use crate::mem::VirtualAddress;
use crate::thread::{first_frame, new_thread, Context};

verus! {

/// Identifies a thread.
#[derive(Clone, Copy, Debug, PartialEq, Eq, Structural)]
pub struct ThreadId(pub usize);

/// The idle thread's id.
pub const IDLE_THREAD_ID: usize = 0;

/// The id of the thread that was running when the scheduler started.
pub const MAIN_THREAD_ID: usize = 1;

/// The first id handed to a spawned thread is one above this.
pub const FIRST_ID_COUNTER: usize = 10;

/// `wake_on` of a thread that waits for `wakeup`.
pub const WAKE_NEVER: u64 = 0xFFFF_FFFF_FFFF_FFFF;

/// A thread: its id, saved context, whether it may run, when it wakes
/// (`0`: not sleeping; `WAKE_NEVER`: blocked), and where it starts.
#[derive(Clone, Copy, Debug)]
pub struct Thread {
    pub id: ThreadId,
    pub ctx: Context,
    pub ready: bool,
    pub wake_on: u64,
    pub entry: VirtualAddress,
    pub arg: usize,
}

/// What the caller must do after a scheduling decision.
#[derive(Clone, Copy, Debug, PartialEq, Eq, Structural)]
pub enum SwitchAction {
    /// Keep running the current thread.
    Stay,
    /// Save `from` (none when it has exited) and run `to`.
    Switch { from: Option<ThreadId>, to: ThreadId },
}

/// A thread that the scheduling pass may pick: ready, or asleep with its
/// deadline reached.
pub open spec fn eligible(t: Thread, now: u64) -> bool {
    t.ready || (t.wake_on != WAKE_NEVER && t.wake_on <= now)
}

/// A thread as the scheduling pass leaves it when it picks it.
pub open spec fn woken(t: Thread, now: u64) -> Thread {
    if t.wake_on != WAKE_NEVER && t.wake_on <= now {
        Thread { ready: true, wake_on: 0, ..t }
    } else {
        t
    }
}

/// The first eligible thread at or after position `k` of the scan that
/// starts at `start`.
pub open spec fn first_eligible(threads: Seq<Thread>, now: u64, start: int, k: int) -> Option<int>
    decreases threads.len() - k,
{
    if k < 0 || k >= threads.len() {
        None
    } else if eligible(threads[(start + k) % (threads.len() as int)], now) {
        Some((start + k) % (threads.len() as int))
    } else {
        first_eligible(threads, now, start, k + 1)
    }
}

/// Where the scan starts: the thread after the current one.
pub open spec fn scan_start(curr: Option<usize>, n: int) -> int {
    match curr {
        Some(c) => (c + 1) % n,
        None => 1int % n,
    }
}

/// What the scheduler holds.
pub struct SchedState {
    pub threads: Seq<Thread>,
    pub idle_thread: Thread,
    pub curr: Option<usize>,
    pub counter: usize,
    pub now: u64,
}

/// One scheduling pass: the thread list after it and the thread picked
/// (`None`: the idle thread).
pub open spec fn schedule_spec(s: SchedState) -> (Seq<Thread>, Option<usize>) {
    let n = s.threads.len() as int;
    if n == 0 {
        (s.threads, None)
    } else {
        match first_eligible(s.threads, s.now, scan_start(s.curr, n), 0) {
            Some(j) => (s.threads.update(j, woken(s.threads[j], s.now)), Some(j as usize)),
            None => (s.threads, None),
        }
    }
}

/// The state after one scheduling pass.
pub open spec fn after_schedule(s: SchedState) -> SchedState {
    SchedState { threads: schedule_spec(s).0, curr: schedule_spec(s).1, ..s }
}

/// The state after `k` passes.
pub open spec fn after_passes(s: SchedState, k: nat) -> SchedState
    decreases k,
{
    if k == 0 {
        s
    } else {
        after_passes(after_schedule(s), (k - 1) as nat)
    }
}

/// The round-robin scheduler of one CPU. The idle thread is kept apart from
/// the list, which holds every other thread in the order they were added.
pub struct Sched {
    threads: Vec<Thread>,
    idle_thread: Thread,
    curr_thread_index: Option<usize>,
    thread_id_counter: usize,
    time_since_boot_millies: u64,
}

impl View for Sched {
    type V = SchedState;

    closed spec fn view(&self) -> SchedState {
        SchedState {
            threads: self.threads@,
            idle_thread: self.idle_thread,
            curr: self.curr_thread_index,
            counter: self.thread_id_counter,
            now: self.time_since_boot_millies,
        }
    }
}

impl SchedState {
    /// Ids are unique, lie in `1..=counter`, the idle thread has id zero,
    /// the current index, when there is one, points into the list, and a
    /// ready thread neither sleeps nor is blocked.
    pub open spec fn wf(&self) -> bool {
        &&& self.idle_thread.id.0 == IDLE_THREAD_ID
        &&& forall|i: int| 0 <= i < self.threads.len() && (#[trigger] self.threads[i]).ready ==> self.threads[i].wake_on == 0
        &&& self.threads.len() <= usize::MAX
        &&& self.curr matches Some(c) ==> c < self.threads.len()
        &&& forall|i: int| 0 <= i < self.threads.len() ==> 1 <= (#[trigger] self.threads[i]).id.0 <= self.counter
        &&& forall|i: int, j: int| 0 <= i < self.threads.len() && 0 <= j < self.threads.len() && i != j
            ==> (#[trigger] self.threads[i]).id != (#[trigger] self.threads[j]).id
    }

    /// The same state with another thread list.
    pub open spec fn with_threads(self, threads: Seq<Thread>) -> SchedState {
        SchedState { threads, ..self }
    }

    /// The id of the thread that runs.
    pub open spec fn current_id(&self) -> ThreadId {
        match self.curr {
            Some(c) => self.threads[c as int].id,
            None => self.idle_thread.id,
        }
    }
}

/// A list whose ids are those of a well-formed one, place by place, keeps
/// the ids unique and in range.
proof fn lemma_ids_kept(o: SchedState, s: SchedState)
    requires
        o.wf(),
        s.threads.len() == o.threads.len(),
        s.counter == o.counter,
        forall|a: int| 0 <= a < s.threads.len() ==> (#[trigger] s.threads[a]).id == o.threads[a].id,
    ensures
        forall|a: int| 0 <= a < s.threads.len() ==> 1 <= (#[trigger] s.threads[a]).id.0 <= s.counter,
        forall|a: int, b: int| 0 <= a < s.threads.len() && 0 <= b < s.threads.len() && a != b
            ==> (#[trigger] s.threads[a]).id != (#[trigger] s.threads[b]).id,
{
    assert forall|a: int, b: int| 0 <= a < s.threads.len() && 0 <= b < s.threads.len() && a != b
        implies (#[trigger] s.threads[a]).id != (#[trigger] s.threads[b]).id by {
        assert(o.threads[a].id == s.threads[a].id);
        assert(o.threads[b].id == s.threads[b].id);
    }
}

proof fn lemma_first_eligible(threads: Seq<Thread>, now: u64, start: int, k: int)
    requires
        threads.len() > 0,
        0 <= start,
    ensures
        first_eligible(threads, now, start, k) matches Some(j) ==> 0 <= j < threads.len()
            && eligible(threads[j], now),
        first_eligible(threads, now, start, k) is None ==> forall|q: int| k <= q < threads.len() && 0 <= k
            ==> !eligible(#[trigger] threads[(start + q) % (threads.len() as int)], now),
    decreases threads.len() - k,
{
    if 0 <= k < threads.len() && !eligible(threads[(start + k) % (threads.len() as int)], now) {
        lemma_first_eligible(threads, now, start, k + 1);
        if first_eligible(threads, now, start, k) is None {
            assert forall|q: int| k <= q < threads.len() && 0 <= k implies !eligible(#[trigger] threads[(start + q) % (threads.len() as int)], now) by {
                if q > k {
                }
            }
        }
    }
}

/// Every thread is reached by the scan: position `q` of the list is scan
/// step `(q - start) mod n`.
proof fn lemma_scan_covers(n: int, start: int, q: int)
    requires
        0 < n,
        0 <= start < n,
        0 <= q < n,
    ensures
        (start + ((q - start + n) % n)) % n == q,
        0 <= (q - start + n) % n < n,
{
    if q >= start {
        vstd::arithmetic::div_mod::lemma_mod_add_multiples_vanish(q - start, n);
        vstd::arithmetic::div_mod::lemma_small_mod((q - start) as nat, n as nat);
        vstd::arithmetic::div_mod::lemma_small_mod(q as nat, n as nat);
        assert(start + (q - start) == q);
    } else {
        vstd::arithmetic::div_mod::lemma_small_mod((q - start + n) as nat, n as nat);
        vstd::arithmetic::div_mod::lemma_mod_add_multiples_vanish(q, n);
        vstd::arithmetic::div_mod::lemma_small_mod(q as nat, n as nat);
        assert(start + (q - start + n) == n + q);
    }
}

impl Sched {
    /// The scheduler's state.
    pub open spec fn wf(&self) -> bool {
        self@.wf()
    }

    /// A scheduler whose list holds the running main thread, with the idle
    /// thread at `idle_entry` set apart.
    pub fn new(idle_entry: VirtualAddress) -> (r: Sched)
        ensures
            r.wf(),
            r@.threads.len() == 1,
            r@.threads[0].id.0 == MAIN_THREAD_ID,
            r@.threads[0].ready,
            r@.threads[0].wake_on == 0,
            r@.idle_thread.id.0 == IDLE_THREAD_ID,
            r@.idle_thread.entry == idle_entry,
            r@.curr == Some(0usize),
            r@.counter == FIRST_ID_COUNTER,
            r@.now == 0,
    {
        let main = Thread {
            id: ThreadId(MAIN_THREAD_ID),
            ctx: Context { sp: 0 },
            ready: true,
            wake_on: 0,
            entry: VirtualAddress(0),
            arg: 0,
        };
        let idle = Thread {
            id: ThreadId(IDLE_THREAD_ID),
            ctx: Context { sp: 0 },
            ready: true,
            wake_on: 0,
            entry: idle_entry,
            arg: 0,
        };
        let mut threads: Vec<Thread> = Vec::new();
        threads.push(main);
        Sched {
            threads,
            idle_thread: idle,
            curr_thread_index: Some(0),
            thread_id_counter: FIRST_ID_COUNTER,
            time_since_boot_millies: 0,
        }
    }

    /// Adds a ready thread that starts at `start` with `arg`, under the next
    /// id, at the end of the round-robin order, with its stack ending at
    /// `stack` laid out for a first switch into `trampoline`. Returns its id
    /// and the words the caller stores from the new stack pointer up.
    pub fn spawn_thread(&mut self, start: VirtualAddress, arg: usize, stack: VirtualAddress, trampoline: u32)
        -> (r: (ThreadId, Vec<u32>))
        requires
            old(self).wf(),
            old(self)@.counter < usize::MAX,
            old(self)@.threads.len() < usize::MAX,
            40 <= stack.0 <= u32::MAX,
        ensures
            final(self).wf(),
            r.0.0 == old(self)@.counter + 1,
            r.1@ == first_frame(trampoline),
            final(self)@ == (SchedState {
                threads: old(self)@.threads.push(Thread {
                    id: r.0,
                    ctx: Context { sp: (stack.0 - 40) as u32 },
                    ready: true,
                    wake_on: 0,
                    entry: start,
                    arg,
                }),
                counter: r.0.0,
                ..old(self)@
            }),
    {
        let (ctx, words) = new_thread(stack, trampoline);
        self.thread_id_counter = self.thread_id_counter + 1;
        let id = ThreadId(self.thread_id_counter);
        let t = Thread { id, ctx, ready: true, wake_on: 0, entry: start, arg };
        self.threads.push(t);
        proof {
            let s = self@;
            assert forall|i: int, j: int| 0 <= i < s.threads.len() && 0 <= j < s.threads.len() && i != j
                implies (#[trigger] s.threads[i]).id != (#[trigger] s.threads[j]).id by {
                if i < old(self)@.threads.len() && j < old(self)@.threads.len() {
                    assert(s.threads[i] == old(self)@.threads[i]);
                    assert(s.threads[j] == old(self)@.threads[j]);
                }
            }
        }
        (id, words)
    }

    /// One scheduling pass: from the thread after the current one, once
    /// round the list, wakes a sleeper whose deadline has passed and picks
    /// the first thread that is ready; with none ready, the idle thread.
    fn schedule_new(&mut self)
        requires
            old(self).wf(),
        ensures
            final(self).wf(),
            final(self)@ == after_schedule(old(self)@),
    {
        let n = self.threads.len();
        if n == 0 {
            self.curr_thread_index = None;
            return;
        }
        let start: usize = match self.curr_thread_index {
            Some(c) => (c + 1) % n,
            None => 1 % n,
        };
        let now = self.time_since_boot_millies;
        let mut k: usize = 0;
        while k < n
            invariant
                self@ == old(self)@,
                old(self).wf(),
                n == self.threads@.len(),
                n > 0,
                start < n,
                start == scan_start(self@.curr, n as int),
                now == self@.now,
                0 <= k <= n,
                first_eligible(self@.threads, now, start as int, 0)
                    == first_eligible(self@.threads, now, start as int, k as int),
            decreases n - k,
        {
            let j: usize = if k < n - start { start + k } else { k - (n - start) };
            proof {
                if k < n - start {
                    vstd::arithmetic::div_mod::lemma_small_mod((start + k) as nat, n as nat);
                } else {
                    vstd::arithmetic::div_mod::lemma_mod_add_multiples_vanish(j as int, n as int);
                    vstd::arithmetic::div_mod::lemma_small_mod(j as nat, n as nat);
                }
                assert(j == (start + k) % (n as int));
            }
            let t = self.threads[j];
            if t.ready || (t.wake_on != WAKE_NEVER && t.wake_on <= now) {
                let mut w = t;
                if t.wake_on != WAKE_NEVER && t.wake_on <= now {
                    w.wake_on = 0;
                    w.ready = true;
                }
                self.threads.set(j, w);
                self.curr_thread_index = Some(j);
                proof {
                    let s = self@;
                    assert(w == woken(old(self)@.threads[j as int], now));
                    assert(s.threads == old(self)@.threads.update(j as int, w));
                    assert forall|a: int| 0 <= a < s.threads.len() implies (#[trigger] s.threads[a]).id == old(self)@.threads[a].id by {
                        if a == j {
                        }
                    }
                    lemma_ids_kept(old(self)@, s);
                }
                return;
            }
            k = k + 1;
        }
        self.curr_thread_index = None;
    }

    /// The id of the running thread.
    pub fn get_current_thread(&self) -> (r: ThreadId)
        requires
            self.wf(),
        ensures
            r == self@.current_id(),
    {
        match self.curr_thread_index {
            Some(c) => self.threads[c].id,
            None => self.idle_thread.id,
        }
    }

    /// Gives up the CPU: picks the next thread by a scheduling pass and
    /// says to switch to it when it is not the one running.
    pub fn yield_thread(&mut self) -> (r: SwitchAction)
        requires
            old(self).wf(),
        ensures
            final(self).wf(),
            final(self)@ == after_schedule(old(self)@),
            r == (if final(self)@.curr == old(self)@.curr {
                SwitchAction::Stay
            } else {
                SwitchAction::Switch { from: Some(old(self)@.current_id()), to: final(self)@.current_id() }
            }),
    {
        let from = self.get_current_thread();
        let before = self.curr_thread_index;
        self.schedule_new();
        if self.curr_thread_index == before {
            SwitchAction::Stay
        } else {
            SwitchAction::Switch { from: Some(from), to: self.get_current_thread() }
        }
    }

    /// Takes the running thread off the CPU until `wakeup`: not ready, and
    /// blocked unless it already sleeps until a deadline.
    pub fn unschedule_no_intr(&mut self)
        requires
            old(self).wf(),
            old(self)@.curr is Some,
        ensures
            final(self).wf(),
            final(self)@ == (SchedState {
                threads: old(self)@.threads.update(old(self)@.curr->Some_0 as int, unscheduled(old(self)@.threads[old(self)@.curr->Some_0 as int])),
                ..old(self)@
            }),
    {
        let c = match self.curr_thread_index {
            Some(c) => c,
            None => 0,
        };
        let mut t = self.threads[c];
        t.ready = false;
        if t.wake_on == 0 {
            t.wake_on = WAKE_NEVER;
        }
        self.threads.set(c, t);
        proof {
            let s = self@;
            lemma_ids_kept(old(self)@, s);
        }
    }

    /// Blocks the running thread until `wakeup` and yields.
    pub fn block(&mut self) -> (r: SwitchAction)
        requires
            old(self).wf(),
            old(self)@.curr is Some,
        ensures
            final(self).wf(),
            final(self)@ == after_schedule(SchedState {
                threads: old(self)@.threads.update(old(self)@.curr->Some_0 as int, unscheduled(old(self)@.threads[old(self)@.curr->Some_0 as int])),
                ..old(self)@
            }),
            r == (if final(self)@.curr == old(self)@.curr {
                SwitchAction::Stay
            } else {
                SwitchAction::Switch { from: Some(old(self)@.current_id()), to: final(self)@.current_id() }
            }),
    {
        self.block_no_intr()
    }

    /// As `block`, with interrupts already off.
    pub fn block_no_intr(&mut self) -> (r: SwitchAction)
        requires
            old(self).wf(),
            old(self)@.curr is Some,
        ensures
            final(self).wf(),
            final(self)@ == after_schedule(SchedState {
                threads: old(self)@.threads.update(old(self)@.curr->Some_0 as int, unscheduled(old(self)@.threads[old(self)@.curr->Some_0 as int])),
                ..old(self)@
            }),
            r == (if final(self)@.curr == old(self)@.curr {
                SwitchAction::Stay
            } else {
                SwitchAction::Switch { from: Some(old(self)@.current_id()), to: final(self)@.current_id() }
            }),
    {
        self.unschedule_no_intr();
        self.yield_thread()
    }

    /// Puts the running thread to sleep until `millis` milliseconds from now
    /// and yields.
    pub fn sleep(&mut self, millis: u32) -> (r: SwitchAction)
        requires
            old(self).wf(),
            old(self)@.curr is Some,
            old(self)@.now + millis < WAKE_NEVER,
        ensures
            final(self).wf(),
            final(self)@ == after_schedule(SchedState {
                threads: old(self)@.threads.update(old(self)@.curr->Some_0 as int, Thread {
                    ready: false,
                    wake_on: (old(self)@.now + millis) as u64,
                    ..old(self)@.threads[old(self)@.curr->Some_0 as int]
                }),
                ..old(self)@
            }),
            r == (if final(self)@.curr == old(self)@.curr {
                SwitchAction::Stay
            } else {
                SwitchAction::Switch { from: Some(old(self)@.current_id()), to: final(self)@.current_id() }
            }),
    {
        let c = match self.curr_thread_index {
            Some(c) => c,
            None => 0,
        };
        let mut t = self.threads[c];
        t.wake_on = self.time_since_boot_millies + millis as u64;
        t.ready = false;
        self.threads.set(c, t);
        proof {
            let s = self@;
            lemma_ids_kept(old(self)@, s);
        }
        self.yield_thread()
    }

    /// Makes the thread with id `tid`, if there is one, ready and no longer
    /// sleeping or blocked.
    pub fn wakeup(&mut self, tid: ThreadId)
        requires
            old(self).wf(),
        ensures
            final(self).wf(),
            final(self)@ == old(self)@.with_threads(woken_up(old(self)@.threads, tid)),
    {
        self.wakeup_no_intr(tid)
    }

    /// As `wakeup`, with interrupts already off.
    pub fn wakeup_no_intr(&mut self, tid: ThreadId)
        requires
            old(self).wf(),
        ensures
            final(self).wf(),
            final(self)@ == old(self)@.with_threads(woken_up(old(self)@.threads, tid)),
    {
        let mut i: usize = 0;
        while i < self.threads.len()
            invariant
                self@ == old(self)@,
                old(self).wf(),
                0 <= i <= self.threads@.len(),
                forall|j: int| 0 <= j < i ==> (#[trigger] self@.threads[j]).id != tid,
            decreases self.threads@.len() - i,
        {
            if self.threads[i].id == tid {
                let mut t = self.threads[i];
                t.wake_on = 0;
                t.ready = true;
                self.threads.set(i, t);
                proof {
                    let s = self@;
                    let ot = old(self)@.threads;
                    assert(ot[i as int].id == tid);
                    let c = choose|c: int| 0 <= c < ot.len() && ot[c].id == tid;
                    assert(c == i);
                    assert(woken_up(ot, tid) == s.threads);
                    assert forall|a: int| 0 <= a < s.threads.len() implies (#[trigger] s.threads[a]).id == ot[a].id by {
                        if a == i {
                        }
                    }
                    lemma_ids_kept(old(self)@, s);
                }
                return;
            }
            i = i + 1;
        }
    }

    /// Removes the running thread and picks the next one; the caller
    /// switches to it without saving the exited thread.
    pub fn exit_thread(&mut self) -> (r: SwitchAction)
        requires
            old(self).wf(),
            old(self)@.curr is Some,
        ensures
            final(self).wf(),
            final(self)@ == after_schedule(after_exit(old(self)@)),
            r == (SwitchAction::Switch { from: None, to: final(self)@.current_id() }),
    {
        let c = match self.curr_thread_index {
            Some(c) => c,
            None => 0,
        };
        self.threads.remove(c);
        let n = self.threads.len();
        self.curr_thread_index = if c > 0 {
            Some(c - 1)
        } else if n > 0 {
            Some(n - 1)
        } else {
            None
        };
        proof {
            let s = self@;
            assert forall|a: int, b: int| 0 <= a < s.threads.len() && 0 <= b < s.threads.len() && a != b
                implies (#[trigger] s.threads[a]).id != (#[trigger] s.threads[b]).id by {
                let oa = if a < c { a } else { a + 1 };
                let ob = if b < c { b } else { b + 1 };
                assert(old(self)@.threads[oa].id == s.threads[a].id);
                assert(old(self)@.threads[ob].id == s.threads[b].id);
            }
            assert forall|a: int| 0 <= a < s.threads.len() implies 1 <= (#[trigger] s.threads[a]).id.0 <= s.counter by {
                let oa = if a < c { a } else { a + 1 };
                assert(old(self)@.threads[oa].id == s.threads[a].id);
            }
        }
        self.schedule_new();
        SwitchAction::Switch { from: None, to: self.get_current_thread() }
    }

    /// The timer tick: advances the clock by one tick of a timer running at
    /// `ticks_per_second` and yields, which may preempt the running thread.
    pub fn interrupted(&mut self, ticks_per_second: u64) -> (r: SwitchAction)
        requires
            old(self).wf(),
            ticks_per_second > 0,
            old(self)@.now + 1000u64 / ticks_per_second <= u64::MAX,
        ensures
            final(self).wf(),
            final(self)@ == after_schedule(SchedState {
                now: (old(self)@.now + 1000u64 / ticks_per_second) as u64,
                ..old(self)@
            }),
            r == (if final(self)@.curr == old(self)@.curr {
                SwitchAction::Stay
            } else {
                SwitchAction::Switch { from: Some(old(self)@.current_id()), to: final(self)@.current_id() }
            }),
    {
        self.time_since_boot_millies = self.time_since_boot_millies + 1000 / ticks_per_second;
        self.yield_thread()
    }

    /// The thread at position `i` of the round-robin order.
    pub fn thread_at(&self, i: usize) -> (r: Thread)
        requires
            i < self@.threads.len(),
        ensures
            r == self@.threads[i as int],
    {
        self.threads[i]
    }

    /// The number of threads besides the idle one.
    pub fn thread_count(&self) -> (r: usize)
        ensures
            r == self@.threads.len(),
    {
        self.threads.len()
    }

    /// The last id handed out.
    pub fn id_counter(&self) -> (r: usize)
        ensures
            r == self@.counter,
    {
        self.thread_id_counter
    }

    /// Milliseconds since boot, as counted by timer ticks.
    pub fn now(&self) -> (r: u64)
        ensures
            r == self@.now,
    {
        self.time_since_boot_millies
    }
}

/// The state once the running thread has left the list: the scan then
/// starts where that thread stood, at its successor.
pub open spec fn after_exit(s: SchedState) -> SchedState {
    let c = s.curr->Some_0;
    let rest = s.threads.remove(c as int);
    SchedState {
        threads: rest,
        curr: if c > 0 {
            Some((c - 1) as usize)
        } else if rest.len() > 0 {
            Some((rest.len() - 1) as usize)
        } else {
            None
        },
        ..s
    }
}

/// The running thread, taken off the CPU: not ready, blocked unless it
/// sleeps until a deadline.
pub open spec fn unscheduled(t: Thread) -> Thread {
    Thread { ready: false, wake_on: if t.wake_on == 0 { WAKE_NEVER } else { t.wake_on }, ..t }
}

/// The list after waking the first thread with id `tid`.
pub open spec fn woken_up(threads: Seq<Thread>, tid: ThreadId) -> Seq<Thread> {
    if exists|i: int| 0 <= i < threads.len() && threads[i].id == tid {
        let i = choose|i: int| 0 <= i < threads.len() && threads[i].id == tid;
        threads.update(i, Thread { ready: true, wake_on: 0, ..threads[i] })
    } else {
        threads
    }
}

} // verus!

verus! {

/// A pass leaves every id where it was.
proof fn lemma_schedule_keeps_ids(s: SchedState)
    requires
        s.wf(),
    ensures
        schedule_spec(s).0.len() == s.threads.len(),
        forall|i: int| 0 <= i < s.threads.len() ==> (#[trigger] schedule_spec(s).0[i]).id == s.threads[i].id,
        schedule_spec(s).1 matches Some(j) ==> j < s.threads.len(),
        after_schedule(s).wf(),
{
    let n = s.threads.len() as int;
    if n > 0 {
        let start = scan_start(s.curr, n);
        lemma_first_eligible(s.threads, s.now, start, 0);
    }
    let t = schedule_spec(s).0;
    assert forall|i: int| 0 <= i < s.threads.len() implies (#[trigger] t[i]).id == s.threads[i].id by {
    }
}

/// A thread that cannot run (not ready, and not asleep with its deadline
/// reached) is not picked by a pass and is left as it was. This covers a
/// sleeper before its deadline and a blocked thread.
pub proof fn lemma_not_eligible_not_picked(s: SchedState, j: int)
    requires
        s.wf(),
        0 <= j < s.threads.len(),
        !eligible(s.threads[j], s.now),
    ensures
        schedule_spec(s).1 != Some(j as usize),
        schedule_spec(s).0[j] == s.threads[j],
{
    let n = s.threads.len() as int;
    let start = scan_start(s.curr, n);
    lemma_first_eligible(s.threads, s.now, start, 0);
}

/// A sleeper is not picked before the first pass at which the clock has
/// reached its deadline.
pub proof fn lemma_sleep_monotonic(s: SchedState, j: int)
    requires
        s.wf(),
        0 <= j < s.threads.len(),
        !s.threads[j].ready,
        s.now < s.threads[j].wake_on,
    ensures
        schedule_spec(s).1 != Some(j as usize),
        schedule_spec(s).0[j] == s.threads[j],
{
    lemma_not_eligible_not_picked(s, j);
}

/// When thread `j` is the only one that can run, a pass picks it.
pub proof fn lemma_only_eligible_picked(s: SchedState, j: int)
    requires
        s.wf(),
        0 <= j < s.threads.len(),
        eligible(s.threads[j], s.now),
        forall|i: int| 0 <= i < s.threads.len() && i != j ==> !eligible(#[trigger] s.threads[i], s.now),
    ensures
        schedule_spec(s).1 == Some(j as usize),
{
    let n = s.threads.len() as int;
    let start = scan_start(s.curr, n);
    assert(0 <= start < n) by {
        match s.curr {
            Some(c) => {},
            None => {},
        }
    }
    lemma_first_eligible(s.threads, s.now, start, 0);
    if first_eligible(s.threads, s.now, start, 0) is None {
        lemma_scan_covers(n, start, j);
        let q = (j - start + n) % n;
        assert(!eligible(s.threads[(start + q) % n], s.now));
    }
}

/// A blocked thread is not picked until it is woken; once `wakeup` has been
/// called with its id, a pass picks it when no other thread can run.
pub proof fn lemma_block_wakeup(s: SchedState, j: int)
    requires
        s.wf(),
        0 <= j < s.threads.len(),
        !s.threads[j].ready,
        s.threads[j].wake_on == WAKE_NEVER,
        forall|i: int| 0 <= i < s.threads.len() && i != j ==> !eligible(#[trigger] s.threads[i], s.now),
    ensures
        schedule_spec(s).1 != Some(j as usize),
        schedule_spec(s.with_threads(woken_up(s.threads, s.threads[j].id))).1 == Some(j as usize),
{
    lemma_not_eligible_not_picked(s, j);
    let tid = s.threads[j].id;
    let c = choose|c: int| 0 <= c < s.threads.len() && s.threads[c].id == tid;
    assert(c == j);
    let w = s.with_threads(woken_up(s.threads, tid));
    assert forall|i: int| 0 <= i < w.threads.len() && i != j implies !eligible(#[trigger] w.threads[i], w.now) by {
        assert(w.threads[i] == s.threads[i]);
    }
    assert forall|i: int| 0 <= i < w.threads.len() implies (#[trigger] w.threads[i]).id == s.threads[i].id by {
    }
    lemma_ids_kept(s, w);
    lemma_only_eligible_picked(w, j);
}

/// With every thread ready and none asleep, `k` passes move `k` places on
/// in the order the threads were added, and change no thread.
pub proof fn lemma_round_robin(s: SchedState, k: nat)
    requires
        s.wf(),
        s.threads.len() > 0,
        s.curr is Some,
        forall|i: int| 0 <= i < s.threads.len() ==> (#[trigger] s.threads[i]).ready && s.threads[i].wake_on == 0,
    ensures
        after_passes(s, k).threads == s.threads,
        after_passes(s, k).curr == Some(((s.curr->Some_0 + k) % (s.threads.len() as int)) as usize),
    decreases k,
{
    let n = s.threads.len() as int;
    let c = s.curr->Some_0 as int;
    if k > 0 {
        let start = (c + 1) % n;
        assert(eligible(s.threads[(start + 0) % n], s.now)) by {
            vstd::arithmetic::div_mod::lemma_small_mod(start as nat, n as nat);
        }
        vstd::arithmetic::div_mod::lemma_small_mod(start as nat, n as nat);
        assert(first_eligible(s.threads, s.now, start, 0) == Some(start));
        let t = after_schedule(s);
        assert(woken(s.threads[start], s.now) == s.threads[start]);
        assert(t.threads =~= s.threads);
        lemma_schedule_keeps_ids(s);
        lemma_round_robin(t, (k - 1) as nat);
        assert(((c + 1) % n + (k - 1)) % n == (c + k) % n) by {
            vstd::arithmetic::div_mod::lemma_add_mod_noop(c + 1, k - 1, n);
            vstd::arithmetic::div_mod::lemma_mod_twice(k - 1, n);
            vstd::arithmetic::div_mod::lemma_add_mod_noop((c + 1) % n, k - 1, n);
            vstd::arithmetic::div_mod::lemma_mod_twice(c + 1, n);
        }
    } else {
        vstd::arithmetic::div_mod::lemma_small_mod(c as nat, n as nat);
    }
}

/// Once the running thread has exited, no thread in the list carries its
/// id, and the thread picked next is another one.
pub proof fn lemma_exit_removes(s: SchedState)
    requires
        s.wf(),
        s.curr is Some,
    ensures
        forall|i: int| 0 <= i < after_schedule(after_exit(s)).threads.len()
            ==> (#[trigger] after_schedule(after_exit(s)).threads[i]).id != s.current_id(),
        after_schedule(after_exit(s)).current_id() != s.current_id(),
{
    let c = s.curr->Some_0 as int;
    let e = after_exit(s);
    assert forall|i: int| 0 <= i < e.threads.len() implies (#[trigger] e.threads[i]).id != s.current_id() by {
        let o = if i < c { i } else { i + 1 };
        assert(e.threads[i] == s.threads[o]);
    }
    assert(e.wf()) by {
        assert forall|i: int| 0 <= i < e.threads.len() implies 1 <= (#[trigger] e.threads[i]).id.0 <= e.counter by {
            let o = if i < c { i } else { i + 1 };
            assert(e.threads[i] == s.threads[o]);
        }
        assert forall|a: int, b: int| 0 <= a < e.threads.len() && 0 <= b < e.threads.len() && a != b
            implies (#[trigger] e.threads[a]).id != (#[trigger] e.threads[b]).id by {
            let oa = if a < c { a } else { a + 1 };
            let ob = if b < c { b } else { b + 1 };
            assert(e.threads[a] == s.threads[oa]);
            assert(e.threads[b] == s.threads[ob]);
        }
    }
    lemma_schedule_keeps_ids(e);
    let t = after_schedule(e);
    assert forall|i: int| 0 <= i < t.threads.len() implies (#[trigger] t.threads[i]).id != s.current_id() by {
        assert(t.threads[i].id == e.threads[i].id);
    }
    match t.curr {
        Some(j) => {
            assert(t.threads[j as int].id != s.current_id());
        },
        None => {},
    }
}

} // verus!
