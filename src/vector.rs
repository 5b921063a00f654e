//! The exception vectors: the saved register frame, the layout of the
//! vector table and what each exception handler does.
use vstd::prelude::*;

verus! {

/// Bytes of a saved frame: seventeen words.
pub const SIZE_OF_INT_CTX: usize = 68;

/// Where the vector table lives.
pub const VECTORS_ADDR: usize = 0;

/// The registers saved on exception entry, in the order the entry code
/// pushes them: `sp`, `lr`, `cpsr`, `r0` to `r12`, `pc`.
#[derive(Clone, Copy, Debug)]
pub struct InterruptContext {
    pub sp: u32,
    pub lr: u32,
    pub cpsr: u32,
    pub r0: u32,
    pub r1: u32,
    pub r2: u32,
    pub r3: u32,
    pub r4: u32,
    pub r5: u32,
    pub r6: u32,
    pub r7: u32,
    pub r8: u32,
    pub r9: u32,
    pub r10: u32,
    pub r11: u32,
    pub r12: u32,
    pub pc: u32,
}

impl InterruptContext {
    /// The frame as the words in memory, lowest address first.
    pub open spec fn words(&self) -> Seq<u32> {
        seq![
            self.sp, self.lr, self.cpsr, self.r0, self.r1, self.r2, self.r3, self.r4, self.r5,
            self.r6, self.r7, self.r8, self.r9, self.r10, self.r11, self.r12, self.pc,
        ]
    }

    /// The frame as it lies in memory.
    pub fn to_words(&self) -> (r: [u32; 17])
        ensures
            r@ == self.words(),
    {
        [
            self.sp, self.lr, self.cpsr, self.r0, self.r1, self.r2, self.r3, self.r4, self.r5,
            self.r6, self.r7, self.r8, self.r9, self.r10, self.r11, self.r12, self.pc,
        ]
    }

    /// The frame that the words `w` hold.
    pub fn from_words(w: &[u32; 17]) -> (r: InterruptContext)
        ensures
            r.words() == w@,
    {
        let r = InterruptContext {
            sp: w[0],
            lr: w[1],
            cpsr: w[2],
            r0: w[3],
            r1: w[4],
            r2: w[5],
            r3: w[6],
            r4: w[7],
            r5: w[8],
            r6: w[9],
            r7: w[10],
            r8: w[11],
            r9: w[12],
            r10: w[13],
            r11: w[14],
            r12: w[15],
            pc: w[16],
        };
        assert(r.words() =~= w@);
        r
    }
}

/// The exceptions, in vector order (slot five is reserved).
#[derive(Clone, Copy, Debug, PartialEq, Eq, Structural)]
pub enum Exception {
    Reset,
    Undefined,
    SoftInt,
    PrefetchAbort,
    DataAbort,
    Irq,
    Fiq,
}

/// What a handler leaves for the caller: the line to print, if any, and
/// whether the CPU halts. Only an interrupt returns to the interrupted code.
#[derive(Clone, Copy, Debug)]
pub struct Outcome {
    pub message: Option<&'static str>,
    pub halt: bool,
}

/// The line each fatal exception prints.
pub open spec fn message_of(e: Exception) -> Option<Seq<char>> {
    match e {
        Exception::Reset => Some("reset interrupt!"@),
        Exception::Undefined => Some("Undefined abort!"@),
        Exception::SoftInt => Some("softint handler!"@),
        Exception::PrefetchAbort => Some("prefetch abort!"@),
        Exception::DataAbort => Some("Data abort!"@),
        Exception::Irq => None,
        Exception::Fiq => Some("fiq interrupt!"@),
    }
}

/// Handles exception `e` on its saved frame. The entry code returns to
/// `lr - 4`; after an undefined instruction or a data abort the faulting
/// instruction is four bytes further back, so `pc` is moved there. Every
/// exception but an interrupt is fatal.
pub fn handle_exception(e: Exception, ctx: &mut InterruptContext) -> (r: Outcome)
    requires
        (e == Exception::Undefined || e == Exception::DataAbort) ==> old(ctx).pc >= 4,
    ensures
        *final(ctx) == (if e == Exception::Undefined || e == Exception::DataAbort {
            InterruptContext { pc: (old(ctx).pc - 4) as u32, ..*old(ctx) }
        } else {
            *old(ctx)
        }),
        r.halt == (e != Exception::Irq),
        r.message matches Some(m) ==> message_of(e) == Some(m@),
        r.message is None <==> message_of(e) is None,
{
    match e {
        Exception::Reset => Outcome { message: Some("reset interrupt!"), halt: true },
        Exception::Undefined => {
            ctx.pc = ctx.pc - 4;
            Outcome { message: Some("Undefined abort!"), halt: true }
        },
        Exception::SoftInt => Outcome { message: Some("softint handler!"), halt: true },
        Exception::PrefetchAbort => Outcome { message: Some("prefetch abort!"), halt: true },
        Exception::DataAbort => {
            ctx.pc = ctx.pc - 4;
            Outcome { message: Some("Data abort!"), halt: true }
        },
        Exception::Irq => Outcome { message: None, halt: false },
        Exception::Fiq => Outcome { message: Some("fiq interrupt!"), halt: true },
    }
}

/// The sixteen words of the vector table: eight copies of `jump` (the
/// instruction that loads `pc` from the word 32 bytes on), then the eight
/// handler addresses; slot five is reserved and left zero in both halves.
pub open spec fn vector_table_spec(jump: u32, handlers: Seq<u32>) -> Seq<u32> {
    Seq::new(16, |i: int| if i == 5 || i == 13 {
        0u32
    } else if i < 8 {
        jump
    } else {
        handlers[i - 8]
    })
}

/// Lays out the vector table.
pub fn vector_table_words(jump: u32, handlers: &[u32; 8]) -> (r: [u32; 16])
    ensures
        r@ == vector_table_spec(jump, handlers@),
{
    let mut t: [u32; 16] = [0u32; 16];
    let mut i: usize = 0;
    while i < 16
        invariant
            0 <= i <= 16,
            forall|j: int| 0 <= j < i ==> t@[j] == #[trigger] vector_table_spec(jump, handlers@)[j],
        decreases 16 - i,
    {
        let w: u32 = if i == 5 || i == 13 {
            0
        } else if i < 8 {
            jump
        } else {
            handlers[i - 8]
        };
        t[i] = w;
        i = i + 1;
    }
    assert(t@ =~= vector_table_spec(jump, handlers@));
    t
}

} // verus!
