use armkernel::mem::VirtualAddress;
use armkernel::sync::CpuMutex;
use armkernel::thread::new_thread;
use armkernel::vector::{handle_exception, vector_table_words, Exception, InterruptContext};

fn frame() -> InterruptContext {
    InterruptContext::from_words(&[1, 2, 3, 4, 5, 6, 7, 8, 9, 10, 11, 12, 13, 14, 15, 16, 0x8004])
}

#[test]
fn mutex_excludes_other_cpus() {
    let mut m = CpuMutex::new(5u32);
    assert!(!m.is_held_by(0));
    assert!(m.try_lock(0));
    assert!(m.is_held_by(0));
    assert!(!m.try_lock(1));
    assert!(m.is_held_by(0));
    m.set(0, 7);
    assert_eq!(*m.get(0), 7);
    m.unlock(0);
    assert!(m.try_lock(1));
    assert_eq!(*m.get(1), 7);
}

#[test]
fn data_abort_points_at_faulting_instruction() {
    let mut ctx = frame();
    let out = handle_exception(Exception::DataAbort, &mut ctx);
    assert_eq!(ctx.pc, 0x8000);
    assert_eq!(out.message, Some("Data abort!"));
    assert!(out.halt);
}

#[test]
fn undefined_instruction_is_fatal() {
    let mut ctx = frame();
    let out = handle_exception(Exception::Undefined, &mut ctx);
    assert_eq!(ctx.pc, 0x8000);
    assert_eq!(out.message, Some("Undefined abort!"));
    assert!(out.halt);
}

#[test]
fn interrupt_returns() {
    let mut ctx = frame();
    let out = handle_exception(Exception::Irq, &mut ctx);
    assert_eq!(ctx.pc, 0x8004);
    assert_eq!(out.message, None);
    assert!(!out.halt);
    let mut ctx = frame();
    let out = handle_exception(Exception::PrefetchAbort, &mut ctx);
    assert_eq!(ctx.pc, 0x8004);
    assert_eq!(out.message, Some("prefetch abort!"));
}

#[test]
fn frame_layout_order() {
    let ctx = frame();
    assert_eq!(ctx.sp, 1);
    assert_eq!(ctx.lr, 2);
    assert_eq!(ctx.cpsr, 3);
    assert_eq!(ctx.r0, 4);
    assert_eq!(ctx.r12, 16);
    assert_eq!(ctx.to_words()[16], 0x8004);
    assert_eq!(std::mem::size_of::<[u32; 17]>(), armkernel::vector::SIZE_OF_INT_CTX);
}

#[test]
fn vector_table_layout() {
    let t = vector_table_words(0xE59FF018, &[10, 11, 12, 13, 14, 15, 16, 17]);
    assert_eq!(t[0], 0xE59FF018);
    assert_eq!(t[5], 0);
    assert_eq!(t[7], 0xE59FF018);
    assert_eq!(t[8], 10);
    assert_eq!(t[13], 0);
    assert_eq!(t[14], 16);
    assert_eq!(t[15], 17);
}

#[test]
fn new_thread_stack_image() {
    let (ctx, words) = new_thread(VirtualAddress(0x2000), 0xABCD);
    assert_eq!(ctx.sp, 0x2000 - 40);
    assert_eq!(words, vec![0, 0, 0, 0, 0, 0, 0, 0, 0, 0xABCD]);
    let (ctx, words) = new_thread(VirtualAddress(0), 0xABCD);
    assert_eq!(ctx.sp, 0);
    assert!(words.is_empty());
}
