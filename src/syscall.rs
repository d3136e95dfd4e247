//! The decisions of the system-call layer that touch the memory core:
//! which call a trap asks for, its arguments, and what `write` copies out
//! of the calling thread's address space.
use vstd::prelude::*;
use crate::addr::UserAddr;
use crate::addr_space::{VmSpace, find_region, read_count, readable, phys_of, lemma_find_region_some};
use crate::thread::{ThreadCtx, RegType};

verus! {

/// File descriptor of standard input.
pub const STDIN: u64 = 0;

/// File descriptor of standard output.
pub const STDOUT: u64 = 1;

/// Call number of `read`.
pub const SYSCALL_READ: u64 = 63;

/// Call number of `write`.
pub const SYSCALL_WRITE: u64 = 64;

/// Call number of `exit`.
pub const SYSCALL_EXIT: u64 = 93;

/// The arguments of a `read` or `write`.
#[derive(Clone, Copy, PartialEq, Eq, Debug)]
pub struct SyscallArgs {
    pub fd: u64,
    pub buf_addr: UserAddr,
    pub buf_len: u64,
}

/// The call that a trap asks for, by the number in `x8`.
#[derive(Clone, Copy, PartialEq, Eq, Debug)]
pub enum SyscallRequest {
    Write(SyscallArgs),
    Read(SyscallArgs),
    Exit,
    Unsupported(u64),
}

/// The arguments of a call: descriptor in `x0`, buffer in `x1`, length
/// in `x2`.
pub open spec fn spec_args(ctx: &ThreadCtx) -> (u64, u64, u64) {
    (
        ctx.view()[RegType::X0.spec_index() as int],
        ctx.view()[RegType::X1.spec_index() as int],
        ctx.view()[RegType::X2.spec_index() as int],
    )
}

/// The arguments of a `write` saved in `ctx`.
pub fn write_wrapper(ctx: &ThreadCtx) -> (r: SyscallArgs)
    requires
        ctx.wf(),
    ensures
        r.fd == spec_args(ctx).0,
        r.buf_addr.view() == spec_args(ctx).1 & crate::addr::ADDR_MASK48,
        r.buf_len == spec_args(ctx).2,
{
    let fd = ctx.get(RegType::X0);
    let buf_len = ctx.get(RegType::X2);
    let buf_addr = UserAddr::new(ctx.get(RegType::X1));
    SyscallArgs { fd, buf_addr, buf_len }
}

/// The arguments of a `read` saved in `ctx`.
pub fn read_wraper(ctx: &ThreadCtx) -> (r: SyscallArgs)
    requires
        ctx.wf(),
    ensures
        r.fd == spec_args(ctx).0,
        r.buf_addr.view() == spec_args(ctx).1 & crate::addr::ADDR_MASK48,
        r.buf_len == spec_args(ctx).2,
{
    let fd = ctx.get(RegType::X0);
    let buf_len = ctx.get(RegType::X2);
    let buf_addr = UserAddr::new(ctx.get(RegType::X1));
    SyscallArgs { fd, buf_addr, buf_len }
}

/// The call that the trap saved in `ctx` asks for.
pub fn decode_syscall(ctx: &ThreadCtx) -> (r: SyscallRequest)
    requires
        ctx.wf(),
    ensures
        ({
            let n = ctx.view()[RegType::X8.spec_index() as int];
            &&& n == SYSCALL_WRITE ==> r is Write
            &&& n == SYSCALL_READ ==> r is Read
            &&& n == SYSCALL_EXIT ==> r is Exit
            &&& n != SYSCALL_WRITE && n != SYSCALL_READ && n != SYSCALL_EXIT ==> r == SyscallRequest::Unsupported(n)
        }),
{
    let n = ctx.get(RegType::X8);
    if n == SYSCALL_WRITE {
        SyscallRequest::Write(write_wrapper(ctx))
    } else if n == SYSCALL_READ {
        SyscallRequest::Read(read_wraper(ctx))
    } else if n == SYSCALL_EXIT {
        SyscallRequest::Exit
    } else {
        SyscallRequest::Unsupported(n)
    }
}

/// The bytes that a read of `len` bytes at `va` from `s` gives, or none
/// when the read fails.
pub open spec fn space_read(s: &VmSpace, mem: Seq<u8>, va: int, len: int) -> Option<Seq<u8>> {
    match find_region(s.spec_regions(), va) {
        None => None,
        Some(ri) => {
            let reg = s.spec_regions()[ri];
            let cnt = read_count(reg, va, len);
            if readable(reg, mem.len() as int, va, cnt) {
                Some(Seq::new(cnt as nat, |k: int| mem[phys_of(reg.spec_frames(), va - reg.spec_start() + k).unwrap()]))
            } else {
                None
            }
        },
    }
}

/// `write`: for standard output, copies the user buffer out of `space`
/// and appends it to `out`, returning 0; -1 for any other descriptor or
/// when the buffer cannot be read.
pub fn sys_write(space: &VmSpace, mem: &[u8], fd: u64, buf_addr: UserAddr, buf_len: u64, out: &mut Vec<u8>) -> (r: i64)
    requires
        space.wf(),
    ensures
        fd != STDOUT ==> r == -1 && final(out)@ == old(out)@,
        fd == STDOUT ==> match space_read(space, mem@, buf_addr.view() as int, buf_len as int) {
            Some(bytes) => r == 0 && final(out)@ == old(out)@ + bytes,
            None => r == -1 && final(out)@ == old(out)@,
        },
{
    if fd != STDOUT {
        return -1;
    }
    let mut buf: Vec<u8> = Vec::new();
    while (buf.len() as u64) < buf_len
        invariant
            buf@.len() <= buf_len,
        decreases buf_len - buf@.len(),
    {
        buf.push(0);
    }
    assert(buf@.len() == buf_len);
    let ghost buf0 = buf@;
    match space.read_from_space(mem, &mut buf, buf_addr.view_value()) {
        Ok(n) => {
            let ghost base = out@;
            let ghost va = buf_addr.view() as int;
            proof {
                lemma_find_region_some(space.spec_regions(), va);
                match find_region(space.spec_regions(), va) {
                    Some(ri) => {
                        let reg = space.spec_regions()[ri];
                        let cnt = read_count(reg, va, buf_len as int);
                        assert(cnt == read_count(reg, va, buf0.len() as int));
                        assert(readable(reg, mem@.len() as int, va, cnt));
                        assert(n == cnt);
                    },
                    None => {},
                }
            }
            let ghost bytes = space_read(space, mem@, va, buf_len as int).unwrap();
            let mut k: usize = 0;
            while k < n
                invariant
                    k <= n,
                    n == bytes.len(),
                    n <= buf@.len(),
                    forall|j: int| 0 <= j < n ==> #[trigger] buf@[j] == bytes[j],
                    out@ == base + bytes.subrange(0, k as int),
                decreases n - k,
            {
                out.push(buf[k]);
                k = k + 1;
                assert(out@ =~= base + bytes.subrange(0, k as int));
            }
            assert(bytes.subrange(0, n as int) =~= bytes);
            0
        },
        Err(_) => -1,
    }
}

/// `read`: nothing is read yet; it returns 0.
pub fn sys_read(fd: u64, buf_addr: UserAddr, buf_len: u64) -> (r: i64)
    ensures
        r == 0,
{
    0
}

} // verus!
