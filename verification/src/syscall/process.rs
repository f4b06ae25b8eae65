//! Process management system calls.
//!
//! A handler decides; the kernel around it acts. Where a call must block, yield
//! or touch kernel state, the handler returns what to do and takes the kernel's
//! answers as arguments.

use vstd::prelude::*;

verus! {

/// The size of a page in bytes.
pub const PAGE_SIZE: usize = 4096;

/// Time of day, as written to user memory.
#[derive(PartialEq, Eq, Structural, Debug, Clone, Copy)]
pub struct TimeVal {
    /// Whole seconds.
    pub sec: usize,
    /// Microseconds past the second.
    pub usec: usize,
}

impl TimeVal {
    /// Split a time in microseconds into seconds and microseconds.
    pub fn from_micros(time_us: usize) -> (tv: TimeVal)
        ensures
            tv.sec == time_us / 1000000,
            tv.usec == time_us % 1000000,
            tv.sec * 1000000 + tv.usec == time_us,
            tv.usec < 1000000,
    {
        TimeVal { sec: time_us / 1000000, usec: time_us % 1000000 }
    }
}

/// What the kernel does with the calling task after a system call.
#[derive(PartialEq, Eq, Structural, Debug, Clone, Copy)]
pub enum TaskAction {
    /// The task exits with this code and the next task runs.
    Exit(i32),
    /// The task goes back to the ready queue and the next task runs.
    Suspend,
}

/// What `sys_trace` needs from the kernel next.
#[derive(PartialEq, Eq, Structural, Debug, Clone, Copy)]
pub enum TraceStep {
    /// The answer is how many times the system call `id` was made.
    CountCalls { id: usize },
    /// The answer depends on the byte at `offset` of virtual page `vpn`.
    Access { vpn: usize, offset: usize },
}

/// The flags of a page-table entry that `sys_trace` reads.
#[derive(PartialEq, Eq, Structural, Debug, Clone, Copy)]
pub struct PageFlags {
    /// The entry maps a page.
    pub valid: bool,
    /// User mode may access the page.
    pub user: bool,
    /// The page may be read.
    pub readable: bool,
    /// The page may be written.
    pub writable: bool,
}

/// Whether a page-table lookup found a page that user code may access.
pub open spec fn user_page(entry: Option<PageFlags>) -> bool {
    entry matches Some(f) && f.valid && f.user
}

/// Task exits and submits an exit code.
pub fn sys_exit(exit_code: i32) -> (action: TaskAction)
    ensures
        action == TaskAction::Exit(exit_code),
{
    TaskAction::Exit(exit_code)
}

/// Current task gives up the processor; the call returns 0.
pub fn sys_yield() -> (r: (TaskAction, isize))
    ensures
        r == (TaskAction::Suspend, 0isize),
{
    (TaskAction::Suspend, 0)
}

/// The `n` low bytes of `x`, least significant first.
pub open spec fn le_bytes(x: nat, n: nat) -> Seq<u8>
    decreases n,
{
    if n == 0 {
        Seq::empty()
    } else {
        seq![(x % 256) as u8] + le_bytes(x / 256, (n - 1) as nat)
    }
}

/// The number of bytes in a machine word.
pub open spec fn word_len() -> nat {
    (usize::BITS / 8) as nat
}

/// The memory representation of `x` as a machine word: little-endian, or
/// big-endian (the reverse) when `big` holds.
pub open spec fn word_bytes(big: bool, x: usize) -> Seq<u8> {
    if big {
        le_bytes(x as nat, word_len()).reverse()
    } else {
        le_bytes(x as nat, word_len())
    }
}

proof fn lemma_le_bytes_len(x: nat, n: nat)
    ensures
        le_bytes(x, n).len() == n,
    decreases n,
{
    if n > 0 {
        lemma_le_bytes_len(x / 256, (n - 1) as nat);
    }
}

/// The bytes of `a` and of `b`, each in the machine's own byte order, by two
/// calls of `usize::to_ne_bytes` (the arrays turned into vectors). The contract
/// claims that both are the little-endian representations or both the
/// big-endian ones; which of the two is left unsaid, as it depends on the
/// machine.
#[verifier::external_body]
fn native_bytes_pair(a: usize, b: usize) -> (r: (Vec<u8>, Vec<u8>))
    ensures
        exists|big: bool| #[trigger] word_bytes(big, a) == r.0@ && word_bytes(big, b) == r.1@,
{
    (a.to_ne_bytes().to_vec(), b.to_ne_bytes().to_vec())
}

/// The concatenation of the first `k` buffers.
pub open spec fn joined(buffers: Seq<Vec<u8>>, k: int) -> Seq<u8>
    decreases k,
{
    if k <= 0 {
        Seq::empty()
    } else {
        joined(buffers, k - 1) + buffers[k - 1]@
    }
}

/// Fill the buffers, in order, with consecutive bytes of `bytes`; each buffer
/// keeps its length.
pub fn write_chunks(bytes: &Vec<u8>, buffers: &mut Vec<Vec<u8>>)
    requires
        joined(old(buffers)@, old(buffers)@.len() as int).len() <= bytes@.len(),
    ensures
        final(buffers)@.len() == old(buffers)@.len(),
        forall|k: int|
            0 <= k < old(buffers)@.len() ==> (#[trigger] final(buffers)@[k])@.len() == old(
                buffers,
            )@[k]@.len(),
        joined(final(buffers)@, final(buffers)@.len() as int) == bytes@.take(
            joined(old(buffers)@, old(buffers)@.len() as int).len() as int,
        ),
{
    let ghost start = buffers@;
    let n = buffers.len();
    let total = bytes.len();
    let mut current: usize = 0;
    let mut k: usize = 0;
    while k < n
        invariant
            n == start.len(),
            buffers@.len() == n,
            k <= n,
            joined(start, n as int).len() <= bytes@.len(),
            total == bytes@.len(),
            current == joined(start, k as int).len(),
            forall|l: int| 0 <= l < n ==> (#[trigger] buffers@[l])@.len() == start[l]@.len(),
            forall|l: int| k <= l < n ==> #[trigger] buffers@[l] == start[l],
            joined(buffers@, k as int) == bytes@.take(current as int),
        decreases n - k,
    {
        let len = buffers[k].len();
        proof {
            assert(joined(start, k + 1).len() == current + len);
            lemma_joined_len_mono(start, k + 1, n as int);
        }
        let mut chunk: Vec<u8> = Vec::new();
        let mut x: usize = 0;
        while x < len
            invariant
                x <= len,
                current + len <= bytes@.len(),
                total == bytes@.len(),
                chunk@ == bytes@.subrange(current as int, current + x),
            decreases len - x,
        {
            chunk.push(bytes[current + x]);
            x = x + 1;
            assert(chunk@ =~= bytes@.subrange(current as int, current + x));
        }
        let ghost before = buffers@;
        buffers.set(k, chunk);
        proof {
            lemma_joined_same_prefix(before, buffers@, k as int);
            assert(bytes@.take(current as int) + bytes@.subrange(current as int, current + len)
                =~= bytes@.take(current + len));
        }
        current = current + len;
        k = k + 1;
    }
    proof {
        assert(joined(start, n as int).len() == current);
    }
}

/// Concatenating more buffers gives no fewer bytes.
proof fn lemma_joined_len_mono(buffers: Seq<Vec<u8>>, a: int, b: int)
    requires
        0 <= a <= b,
    ensures
        joined(buffers, a).len() <= joined(buffers, b).len(),
    decreases b - a,
{
    if a < b {
        lemma_joined_len_mono(buffers, a, b - 1);
    }
}

/// The concatenation of the first `k + 1` buffers of `b` only depends on those.
proof fn lemma_joined_same_prefix(a: Seq<Vec<u8>>, b: Seq<Vec<u8>>, k: int)
    requires
        0 <= k < a.len(),
        a.len() == b.len(),
        forall|l: int| 0 <= l < k ==> a[l] == b[l],
    ensures
        joined(b, k + 1) == joined(a, k) + b[k]@,
    decreases k,
{
    lemma_joined_equal(a, b, k);
}

proof fn lemma_joined_equal(a: Seq<Vec<u8>>, b: Seq<Vec<u8>>, k: int)
    requires
        0 <= k <= a.len(),
        k <= b.len(),
        forall|l: int| 0 <= l < k ==> a[l] == b[l],
    ensures
        joined(a, k) == joined(b, k),
    decreases k,
{
    if k > 0 {
        lemma_joined_equal(a, b, k - 1);
    }
}

/// Get the time: `time_us` is the current time in microseconds and `buffers` the
/// pieces of user memory that hold the caller's `TimeVal`, in order. The seconds
/// and microseconds of `time_us` are written there in the machine's layout of a
/// `TimeVal`: two machine words, both in the machine's byte order. The buffers
/// together hold the first bytes of that layout, and each keeps its length.
/// Returns 0.
pub fn sys_get_time(time_us: usize, buffers: &mut Vec<Vec<u8>>) -> (r: isize)
    requires
        joined(old(buffers)@, old(buffers)@.len() as int).len() <= 2 * word_len(),
    ensures
        r == 0,
        final(buffers)@.len() == old(buffers)@.len(),
        forall|k: int|
            0 <= k < old(buffers)@.len() ==> (#[trigger] final(buffers)@[k])@.len() == old(
                buffers,
            )@[k]@.len(),
        exists|big: bool|
            joined(final(buffers)@, final(buffers)@.len() as int) == (#[trigger] word_bytes(
                big,
                time_us / 1000000,
            ) + word_bytes(big, time_us % 1000000)).take(
                joined(old(buffers)@, old(buffers)@.len() as int).len() as int,
            ),
{
    let timeval = TimeVal::from_micros(time_us);
    let (sec, usec) = native_bytes_pair(timeval.sec, timeval.usec);
    let ghost big = choose|big: bool|
        #[trigger] word_bytes(big, timeval.sec) == sec@ && word_bytes(big, timeval.usec) == usec@;
    proof {
        lemma_le_bytes_len(timeval.sec as nat, word_len());
        lemma_le_bytes_len(timeval.usec as nat, word_len());
    }
    let mut time_val: Vec<u8> = Vec::new();
    let mut i: usize = 0;
    while i < sec.len()
        invariant
            i <= sec@.len(),
            time_val@ == sec@.take(i as int),
        decreases sec@.len() - i,
    {
        time_val.push(sec[i]);
        i = i + 1;
        assert(time_val@ =~= sec@.take(i as int));
    }
    let mut i: usize = 0;
    while i < usec.len()
        invariant
            i <= usec@.len(),
            time_val@ == sec@.take(sec@.len() as int) + usec@.take(i as int),
        decreases usec@.len() - i,
    {
        time_val.push(usec[i]);
        i = i + 1;
        assert(time_val@ =~= sec@.take(sec@.len() as int) + usec@.take(i as int));
    }
    proof {
        assert(sec@.take(sec@.len() as int) =~= sec@);
        assert(usec@.take(usec@.len() as int) =~= usec@);
        assert(time_val@ == word_bytes(big, time_us / 1000000) + word_bytes(big, time_us % 1000000));
    }
    write_chunks(&time_val, buffers);
    0
}

/// Decide what `sys_trace` needs: request 2 asks how many times the system call
/// `id` was made; any other request concerns the byte at virtual address `id`.
pub fn sys_trace(trace_request: usize, id: usize) -> (step: TraceStep)
    ensures
        step == (if trace_request == 2 {
            TraceStep::CountCalls { id }
        } else {
            TraceStep::Access { vpn: id / PAGE_SIZE, offset: id % PAGE_SIZE }
        }),
{
    if trace_request == 2 {
        return TraceStep::CountCalls { id };
    }
    TraceStep::Access { vpn: id / PAGE_SIZE, offset: id % PAGE_SIZE }
}

/// Whether `trace_access` touches the byte at `offset`.
pub open spec fn trace_touches(trace_request: usize, entry: Option<PageFlags>) -> bool {
    user_page(entry) && ((trace_request == 0 && entry->0.readable) || (trace_request == 1
        && entry->0.writable))
}

/// What `trace_access` returns, and the page after it.
pub open spec fn trace_outcome(
    trace_request: usize,
    offset: usize,
    data: usize,
    entry: Option<PageFlags>,
    page: Seq<u8>,
) -> (isize, Seq<u8>) {
    if trace_touches(trace_request, entry) && trace_request == 0 {
        (page[offset as int] as isize, page)
    } else if trace_touches(trace_request, entry) && trace_request == 1 {
        (0isize, page.update(offset as int, data as u8))
    } else {
        (-1isize, page)
    }
}

/// What `trace_access` does, by the flags of the page: a read of a readable user
/// page gives the byte at the offset, whether or not the page is writable; a
/// write to a writable user page puts the low byte of `data` there and returns
/// 0, whether or not the page is readable; and a missing or kernel page, a read
/// without the readable flag, a write without the writable flag, and any other
/// request give -1. Only a write that is allowed changes the page.
pub proof fn law_trace_access(
    trace_request: usize,
    offset: usize,
    data: usize,
    flags: PageFlags,
    page: Seq<u8>,
)
    requires
        offset < page.len(),
    ensures
        flags.valid && flags.user && flags.readable ==> trace_outcome(
            0,
            offset,
            data,
            Some(flags),
            page,
        ) == (page[offset as int] as isize, page),
        flags.valid && flags.user && flags.writable ==> trace_outcome(
            1,
            offset,
            data,
            Some(flags),
            page,
        ) == (0isize, page.update(offset as int, data as u8)),
        !(flags.valid && flags.user) ==> trace_outcome(trace_request, offset, data, Some(flags), page)
            == (-1isize, page),
        !flags.readable ==> trace_outcome(0, offset, data, Some(flags), page) == (-1isize, page),
        !flags.writable ==> trace_outcome(1, offset, data, Some(flags), page) == (-1isize, page),
        trace_request >= 2 ==> trace_outcome(trace_request, offset, data, Some(flags), page) == (
            -1isize,
            page,
        ),
        trace_outcome(trace_request, offset, data, None, page) == (-1isize, page),
        trace_outcome(trace_request, offset, data, Some(flags), page).1 != page ==> trace_request
            == 1 && flags.valid && flags.user && flags.writable,
{
}

/// Through `trace_access`, a read of a byte of a readable and writable user page
/// gives back what a write just put there.
pub proof fn law_trace_read_after_write(
    offset: usize,
    data: usize,
    other: usize,
    flags: PageFlags,
    page: Seq<u8>,
)
    requires
        flags.valid && flags.user && flags.readable && flags.writable,
        offset < page.len(),
    ensures
        trace_outcome(1, offset, data, Some(flags), page).0 == 0,
        trace_outcome(
            0,
            offset,
            other,
            Some(flags),
            trace_outcome(1, offset, data, Some(flags), page).1,
        ).0 == (data as u8) as isize,
{
}

/// Finish `sys_trace` on a page: `entry` is what the page-table lookup found and
/// `page` the bytes of that page. Request 0 reads the byte at `offset`, request 1
/// writes the low byte of `data` there (and returns 0); either needs a valid user
/// page with the matching permission. Every other case returns -1 and leaves the
/// page alone.
pub fn trace_access(
    trace_request: usize,
    offset: usize,
    data: usize,
    entry: Option<PageFlags>,
    page: &mut Vec<u8>,
) -> (r: isize)
    requires
        trace_touches(trace_request, entry) ==> offset < old(page)@.len(),
    ensures
        (r, final(page)@) == trace_outcome(trace_request, offset, data, entry, old(page)@),
{
    match entry {
        Some(flags) => {
            if flags.valid && flags.user {
                if trace_request == 0 {
                    if flags.readable {
                        return page[offset] as isize;
                    } else {
                        return -1;
                    }
                } else if trace_request == 1 {
                    if flags.writable {
                        page.set(offset, data as u8);
                        return 0;
                    } else {
                        return -1;
                    }
                } else {
                    return -1;
                }
            }
        },
        None => {},
    }
    -1
}

/// Finish `sys_sbrk`: `old_brk` is the kernel's answer to the change of the
/// program break (the previous break, or `None` when refused).
pub fn sys_sbrk(old_brk: Option<usize>) -> (r: isize)
    ensures
        r == (match old_brk {
            Some(b) => b as isize,
            None => -1isize,
        }),
{
    if let Some(b) = old_brk {
        b as isize
    } else {
        -1
    }
}

} // verus!
