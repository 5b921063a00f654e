//! Threads and the stack image that the context switch expects.
use vstd::prelude::*;
use crate::mem::VirtualAddress;

verus! {

/// The saved state of a thread that is not running: its stack pointer. The
/// callee-saved registers lie on the stack below it.
#[derive(Clone, Copy, Debug)]
pub struct Context {
    pub sp: u32,
}

/// The words that the context switch pops for a thread that has never run,
/// from the new stack pointer up: `r4` to `r12` cleared, then `r14`, which
/// sends the first switch into `trampoline`.
pub open spec fn first_frame(trampoline: u32) -> Seq<u32> {
    Seq::new(9, |i: int| 0u32).push(trampoline)
}

/// Lays out the stack of a new thread whose stack ends at `stack`: returns
/// its context and the ten words to store from the new stack pointer up.
/// A zero `stack` stands for the thread that is already running, which
/// needs nothing stored.
pub fn new_thread(stack: VirtualAddress, trampoline: u32) -> (r: (Context, Vec<u32>))
    requires
        stack.0 == 0 || 40 <= stack.0 <= u32::MAX,
    ensures
        stack.0 == 0 ==> r.0.sp == 0 && r.1@.len() == 0,
        stack.0 != 0 ==> r.0.sp == stack.0 - 40 && r.1@ == first_frame(trampoline),
{
    if stack.0 == 0 {
        return (Context { sp: 0 }, Vec::new());
    }
    let mut words: Vec<u32> = Vec::new();
    let mut i: usize = 0;
    while i < 9
        invariant
            0 <= i <= 9,
            words@ == Seq::new(i as nat, |j: int| 0u32),
        decreases 9 - i,
    {
        words.push(0);
        i = i + 1;
    }
    words.push(trampoline);
    proof {
        assert(words@ =~= first_frame(trampoline));
    }
    (Context { sp: (stack.0 - 40) as u32 }, words)
}

} // verus!
