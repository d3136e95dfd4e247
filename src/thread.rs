//! Per-thread state that the memory core sets up: the saved user context
//! and the kernel stack.
use vstd::prelude::*;
use crate::addr::{PhysAddr, KernelAddr, UserAddr, ADDR_MASK48, KERNEL_BASE, phys_to_kernel};
use crate::addr_space::{VmSpace, MapError, segment_flags, spec_segment_flags};
use crate::frame::{DataFrame, FrameSize, FRAME};
use crate::frame_allocator::{StackFrameAllocator, FrameAllocError, frame_plan, bump_error, suffix_start};
use crate::page_table::PageTableFlagsField;

verus! {

/// Number of saved registers in a user context.
pub const REG_NUM: usize = 35;

/// Saved program status for a return to EL0 with the EL0 stack pointer.
pub const SPSR_EL1_EL0T: u64 = 0;

/// A saved register of a user context.
#[derive(Clone, Copy, PartialEq, Eq, Debug)]
#[allow(non_camel_case_types)]
pub enum RegType {
    X0,
    X1,
    X2,
    X3,
    X4,
    X5,
    X6,
    X7,
    X8,
    X9,
    X10,
    X11,
    X12,
    X13,
    X14,
    X15,
    X16,
    X17,
    X18,
    X19,
    X20,
    X21,
    X22,
    X23,
    X24,
    X25,
    X26,
    X27,
    X28,
    X29,
    X30,
    SP_EL0,
    ELR_EL1,
    SPSR_EL1,
    TPIDR_EL0,
}

impl RegType {
    /// Position of the register in the saved context.
    pub open spec fn spec_index(self) -> nat {
        match self {
            RegType::X0 => 0,
            RegType::X1 => 1,
            RegType::X2 => 2,
            RegType::X3 => 3,
            RegType::X4 => 4,
            RegType::X5 => 5,
            RegType::X6 => 6,
            RegType::X7 => 7,
            RegType::X8 => 8,
            RegType::X9 => 9,
            RegType::X10 => 10,
            RegType::X11 => 11,
            RegType::X12 => 12,
            RegType::X13 => 13,
            RegType::X14 => 14,
            RegType::X15 => 15,
            RegType::X16 => 16,
            RegType::X17 => 17,
            RegType::X18 => 18,
            RegType::X19 => 19,
            RegType::X20 => 20,
            RegType::X21 => 21,
            RegType::X22 => 22,
            RegType::X23 => 23,
            RegType::X24 => 24,
            RegType::X25 => 25,
            RegType::X26 => 26,
            RegType::X27 => 27,
            RegType::X28 => 28,
            RegType::X29 => 29,
            RegType::X30 => 30,
            RegType::SP_EL0 => 31,
            RegType::ELR_EL1 => 32,
            RegType::SPSR_EL1 => 33,
            RegType::TPIDR_EL0 => 34,
        }
    }

    /// Position of the register in the saved context.
    pub fn index(&self) -> (r: usize)
        ensures
            r == self.spec_index(),
            r < REG_NUM,
    {
        match self {
            RegType::X0 => 0,
            RegType::X1 => 1,
            RegType::X2 => 2,
            RegType::X3 => 3,
            RegType::X4 => 4,
            RegType::X5 => 5,
            RegType::X6 => 6,
            RegType::X7 => 7,
            RegType::X8 => 8,
            RegType::X9 => 9,
            RegType::X10 => 10,
            RegType::X11 => 11,
            RegType::X12 => 12,
            RegType::X13 => 13,
            RegType::X14 => 14,
            RegType::X15 => 15,
            RegType::X16 => 16,
            RegType::X17 => 17,
            RegType::X18 => 18,
            RegType::X19 => 19,
            RegType::X20 => 20,
            RegType::X21 => 21,
            RegType::X22 => 22,
            RegType::X23 => 23,
            RegType::X24 => 24,
            RegType::X25 => 25,
            RegType::X26 => 26,
            RegType::X27 => 27,
            RegType::X28 => 28,
            RegType::X29 => 29,
            RegType::X30 => 30,
            RegType::SP_EL0 => 31,
            RegType::ELR_EL1 => 32,
            RegType::SPSR_EL1 => 33,
            RegType::TPIDR_EL0 => 34,
        }
    }
}

/// The registers saved on entry to the kernel from user mode.
#[derive(Debug)]
pub struct ThreadCtx {
    reg: Vec<u64>,
}

impl ThreadCtx {
    /// The saved registers, by position.
    pub closed spec fn view(&self) -> Seq<u64> {
        self.reg@
    }

    /// A context holds one value per register.
    pub open spec fn wf(&self) -> bool {
        self.view().len() == REG_NUM
    }

    /// A context with every register zero.
    pub fn new() -> (r: ThreadCtx)
        ensures
            r.wf(),
            forall|i: int| 0 <= i < REG_NUM ==> #[trigger] r.view()[i] == 0,
    {
        let mut reg: Vec<u64> = Vec::new();
        let mut i: usize = 0;
        while i < REG_NUM
            invariant
                i <= REG_NUM,
                reg@.len() == i,
                forall|j: int| 0 <= j < i ==> #[trigger] reg@[j] == 0,
            decreases REG_NUM - i,
        {
            reg.push(0);
            i = i + 1;
        }
        ThreadCtx { reg }
    }

    /// The saved value of register `r`.
    pub fn get(&self, r: RegType) -> (v: u64)
        requires
            self.wf(),
        ensures
            v == self.view()[r.spec_index() as int],
    {
        self.reg[r.index()]
    }

    /// Sets the saved value of register `r`.
    pub fn set_reg(&mut self, r: RegType, v: u64)
        requires
            old(self).wf(),
        ensures
            final(self).view() == old(self).view().update(r.spec_index() as int, v),
            final(self).wf(),
    {
        let i = r.index();
        self.reg.set(i, v);
    }

    /// Prepares the first return to user mode: the user stack pointer, the
    /// saved status for EL0, and the address to return to.
    pub fn user_init(&mut self, stack: UserAddr, pc: UserAddr)
        requires
            old(self).wf(),
        ensures
            final(self).wf(),
            final(self).view() == old(self).view()
                .update(RegType::SP_EL0.spec_index() as int, stack.view())
                .update(RegType::SPSR_EL1.spec_index() as int, SPSR_EL1_EL0T)
                .update(RegType::ELR_EL1.spec_index() as int, pc.view()),
    {
        self.set_reg(RegType::SP_EL0, stack.view_value());
        self.set_reg(RegType::SPSR_EL1, SPSR_EL1_EL0T);
        self.set_reg(RegType::ELR_EL1, pc.view_value());
    }
}

/// A kernel stack: one data frame, growing down from its top.
#[derive(Debug)]
pub struct KernelStack {
    pos: u64,
    data: DataFrame,
}

impl KernelStack {
    /// The frame that holds the stack.
    pub closed spec fn spec_data(&self) -> DataFrame {
        self.data
    }

    /// Offset of the stack top within the frame.
    pub closed spec fn spec_pos(&self) -> u64 {
        self.pos
    }

    /// An empty stack on `data`: its top is the end of the frame.
    pub fn new(data: DataFrame) -> (r: KernelStack)
        ensures
            r.spec_data() == data,
            r.spec_pos() == data.spec_size().spec_bytes(),
    {
        let pos = data.frame_size().bytes();
        KernelStack { pos, data }
    }

    /// The stack pointer, as a kernel address.
    pub fn sp(&self) -> (r: KernelAddr)
        requires
            self.spec_data().spec_start().view() + self.spec_pos() <= ADDR_MASK48,
        ensures
            r.view() == ((self.spec_data().spec_start().view() + self.spec_pos()) as u64) | KERNEL_BASE,
    {
        let top = self.data.frame_addr().plus(self.pos);
        phys_to_kernel(top)
    }
}

/// Where a thread is in its life.
#[derive(Clone, Copy, PartialEq, Eq, Debug)]
pub enum ThreadState {
    READY,
    RUNNING,
    WAITING,
    EXITING,
    UNINIT,
}

/// Whether a thread runs in user or kernel mode.
#[derive(Clone, Copy, PartialEq, Eq, Debug)]
pub enum ThreadType {
    KERNEL,
    USER,
}

/// Why a thread could not be made.
#[derive(Clone, Copy, PartialEq, Eq, Debug)]
pub enum ThreadError {
    /// No frame for the root table of its address space.
    Space(FrameAllocError),
    /// Its user stack could not be mapped.
    Stack(MapError),
    /// No frame for its kernel stack.
    KernelStack(FrameAllocError),
}

/// A user thread: its address space, its kernel stack and the context of
/// its first return to user mode.
pub struct Thread {
    kind: ThreadType,
    state: ThreadState,
    space: VmSpace,
    kernel_stack: KernelStack,
    ctx: ThreadCtx,
}

impl Thread {
    /// The address space.
    pub closed spec fn spec_space(&self) -> VmSpace {
        self.space
    }

    /// The saved user context.
    pub closed spec fn spec_ctx(&self) -> ThreadCtx {
        self.ctx
    }

    /// The life state.
    pub closed spec fn spec_state(&self) -> ThreadState {
        self.state
    }

    /// The mode the thread runs in.
    pub closed spec fn spec_kind(&self) -> ThreadType {
        self.kind
    }

    /// The kernel stack.
    pub closed spec fn spec_kernel_stack(&self) -> KernelStack {
        self.kernel_stack
    }

    /// Makes the first user thread: a fresh address space whose only
    /// region is a read-write, never executable stack of `stack_size`
    /// bytes at `stack_base` with a guard page above it, a kernel stack,
    /// and a context that returns to `pc` with the stack pointer at the
    /// top of the stack. Every failure is returned, none is retried.
    pub fn create_root_thread(
        alloc: &mut StackFrameAllocator,
        stack_base: UserAddr,
        stack_size: u64,
        pc: UserAddr,
    ) -> (r: Result<Thread, ThreadError>)
        requires
            old(alloc).wf(),
            stack_base.view() + stack_size <= ADDR_MASK48,
        ensures
            final(alloc).wf(),
            final(alloc).limit() == old(alloc).limit(),
            !old(alloc).can_give_page() <==> r matches Err(ThreadError::Space(_)),
            old(alloc).can_give_page() ==> forall|a1: StackFrameAllocator| #[trigger] a1.took_page(&*old(alloc)) ==> {
                let plan = frame_plan(
                    (stack_base.view() / 4096) as u64,
                    (a1.cursor() / 4096) as u64,
                    ((stack_size + 4095) / 4096) as u64,
                );
                let failure = bump_error(a1.cursor(), a1.limit(), plan, 0, suffix_start(plan, a1.free_lens(), plan.len() as int));
                &&& failure is Some ==> r == Err::<Thread, ThreadError>(ThreadError::Stack(MapError::NoFrame(failure.unwrap())))
                &&& failure is None ==> !(r matches Err(ThreadError::Stack(MapError::NoFrame(_))))
            },
            !(r matches Err(ThreadError::Stack(MapError::Overlap))),
            r matches Err(ThreadError::Stack(MapError::NoTableFrame(_))) ==> !final(alloc).can_give_page(),
            r matches Err(ThreadError::Stack(_)) ==> r matches Err(ThreadError::Stack(MapError::NoFrame(_)))
                || r matches Err(ThreadError::Stack(MapError::NoTableFrame(_))),
            r matches Err(ThreadError::KernelStack(_)) ==> !final(alloc).can_give_page(),
            r.is_ok() ==> {
                let t = r.unwrap();
                let regions = t.spec_space().spec_regions();
                &&& t.spec_space().wf()
                &&& t.spec_kind() == ThreadType::USER
                &&& t.spec_state() == ThreadState::READY
                &&& regions.len() == 1
                &&& regions[0].spec_start() == stack_base.view()
                &&& regions[0].spec_size() == stack_size
                &&& regions[0].spec_flag() == Some(PageTableFlagsField { value: spec_segment_flags(true, true, false) })
                &&& t.spec_ctx().wf()
                &&& t.spec_ctx().view()[RegType::SP_EL0.spec_index() as int] == stack_base.view() + stack_size
                &&& t.spec_ctx().view()[RegType::ELR_EL1.spec_index() as int] == pc.view()
                &&& t.spec_ctx().view()[RegType::SPSR_EL1.spec_index() as int] == SPSR_EL1_EL0T
                &&& t.spec_kernel_stack().spec_data().spec_size() == FrameSize::Size4Kb
            },
    {
        let mut space = match VmSpace::new(alloc) {
            Ok(s) => s,
            Err(e) => {
                return Err(ThreadError::Space(e));
            },
        };
        let ghost a1 = *alloc;
        let flag = segment_flags(true, true, false);
        match space.map_new_range(stack_base.view_value(), stack_size, true, Some(flag), alloc) {
            Ok(()) => {},
            Err(e) => {
                proof {
                    assert forall|b: StackFrameAllocator| #[trigger] b.took_page(&*old(alloc)) implies
                        b.cursor() == a1.cursor() && b.limit() == a1.limit() && b.free_lens() == a1.free_lens() by {
                        assert(b.free_lens() =~= a1.free_lens());
                    }
                }
                return Err(ThreadError::Stack(e));
            },
        }
        let frame = match alloc.allocate_single_frame(FrameSize::Size4Kb) {
            Ok(f) => f,
            Err(e) => {
                return Err(ThreadError::KernelStack(e));
            },
        };
        proof {
            assert forall|b: StackFrameAllocator| #[trigger] b.took_page(&*old(alloc)) implies
                b.cursor() == a1.cursor() && b.limit() == a1.limit() && b.free_lens() == a1.free_lens() by {
                assert(b.free_lens() =~= a1.free_lens());
            }
        }
        let kernel_stack = KernelStack::new(frame);
        let mut ctx = ThreadCtx::new();
        ctx.user_init(stack_base.plus(stack_size), pc);
        proof {
            assert(space.spec_regions().drop_last().len() == 0);
        }
        Ok(Thread { kind: ThreadType::USER, state: ThreadState::READY, space, kernel_stack, ctx })
    }

    /// The address space.
    pub fn get_space(&self) -> (r: &VmSpace)
        ensures
            *r == self.spec_space(),
    {
        &self.space
    }

    /// The physical address of the root table of the address space.
    pub fn get_pagetable(&self) -> (r: PhysAddr)
        ensures
            r == self.spec_space().spec_root().spec_start(),
    {
        self.space.get_pagetable()
    }

    /// The kernel stack pointer.
    pub fn get_kernel_stack(&self) -> (r: KernelAddr)
        requires
            self.spec_kernel_stack().spec_data().spec_start().view() + self.spec_kernel_stack().spec_pos() <= ADDR_MASK48,
        ensures
            r.view() == ((self.spec_kernel_stack().spec_data().spec_start().view() + self.spec_kernel_stack().spec_pos()) as u64)
                | KERNEL_BASE,
    {
        self.kernel_stack.sp()
    }

    /// The saved user context.
    pub fn context(&self) -> (r: &ThreadCtx)
        ensures
            *r == self.spec_ctx(),
    {
        &self.ctx
    }

    /// The life state.
    pub fn get_state(&self) -> (r: ThreadState)
        ensures
            r == self.spec_state(),
    {
        self.state
    }

    /// Sets the life state.
    pub fn set_state(&mut self, state: ThreadState)
        ensures
            final(self).spec_state() == state,
            final(self).spec_space() == old(self).spec_space(),
            final(self).spec_ctx() == old(self).spec_ctx(),
            final(self).spec_kind() == old(self).spec_kind(),
            final(self).spec_kernel_stack() == old(self).spec_kernel_stack(),
    {
        self.state = state;
    }
}

} // verus!
