//! The memory block: what the kernel says of pages, swap and compressed
//! memory, in one row.

use crate::common::{
    bytes_text, clamp16, clamped, heading_text, lemma_flat_threshold, lemma_flat_title,
    lemma_line, newline_text, push_heading, push_newline, push_threshold, threshold_text, Bytes,
    Quantity, Settings, StatBlock, Threshold,
};
use crate::layout::{lemma_count_add, whole_lines};
use crate::parse::{
    fields, has_prefix, lines, number, parse_number, same_bytes, split_fields, split_lines,
    starts_with, texts,
};
use crate::rate::{minus, minus_of};
use crate::text::{flat, lemma_flat_next, lit, push_blank, push_bytes, Align};
use vstd::prelude::*;

verus! {

/// The state of memory, in bytes.
#[derive(Clone, Copy)]
pub struct Memory {
    pub active: Bytes,
    pub inactive: Bytes,
    pub cached: Bytes,
    pub free: Bytes,
    pub dirty: Threshold<Bytes>,
    pub writeback: Threshold<Bytes>,
    pub swap: Bytes,
    pub zram: Bytes,
}

/// The counters of the kernel's table that the block reads.
#[derive(Clone, Copy, Debug, PartialEq, Eq, Structural)]
pub enum Counter {
    ActiveAnon,
    ActiveFile,
    InactiveAnon,
    InactiveFile,
    SlabUnreclaimable,
    SlabReclaimable,
    KernelMiscReclaimable,
    Swapcached,
    FreePages,
    Dirty,
    DirtyThreshold,
    DirtyBackgroundThreshold,
    Writeback,
}

/// The counter that a name of the table stands for, where the block reads
/// it.
pub open spec fn counter_of(name: Seq<u8>) -> Option<Counter> {
    if name == lit("nr_active_anon") {
        Some(Counter::ActiveAnon)
    } else if name == lit("nr_active_file") {
        Some(Counter::ActiveFile)
    } else if name == lit("nr_inactive_anon") {
        Some(Counter::InactiveAnon)
    } else if name == lit("nr_inactive_file") {
        Some(Counter::InactiveFile)
    } else if name == lit("nr_slab_unreclaimable") {
        Some(Counter::SlabUnreclaimable)
    } else if name == lit("nr_slab_reclaimable") {
        Some(Counter::SlabReclaimable)
    } else if name == lit("nr_kernel_misc_reclaimable") {
        Some(Counter::KernelMiscReclaimable)
    } else if name == lit("nr_swapcached") {
        Some(Counter::Swapcached)
    } else if name == lit("nr_free_pages") {
        Some(Counter::FreePages)
    } else if name == lit("nr_dirty") {
        Some(Counter::Dirty)
    } else if name == lit("nr_dirty_threshold") {
        Some(Counter::DirtyThreshold)
    } else if name == lit("nr_dirty_background_threshold") {
        Some(Counter::DirtyBackgroundThreshold)
    } else if name == lit("nr_writeback") {
        Some(Counter::Writeback)
    } else {
        None
    }
}

/// `a + b` where that fits 64 bits.
pub open spec fn plus(a: u64, b: u64) -> Option<u64> {
    if a + b <= u64::MAX {
        Some((a + b) as u64)
    } else {
        None
    }
}

/// `a * b` where that fits 64 bits.
pub open spec fn times(a: u64, b: u64) -> Option<u64> {
    if a * b <= u64::MAX {
        Some((a * b) as u64)
    } else {
        None
    }
}

/// `a + b` where that fits 64 bits.
pub fn plus_of(a: u64, b: u64) -> (r: Option<u64>)
    ensures
        r == plus(a, b),
{
    if a <= u64::MAX - b {
        Some(a + b)
    } else {
        None
    }
}

/// `a * b` where that fits 64 bits.
pub fn times_of(a: u64, b: u64) -> (r: Option<u64>)
    ensures
        r == times(a, b),
{
    assert(a * b <= u128::MAX) by (nonlinear_arith)
        requires
            a <= u64::MAX,
            b <= u64::MAX,
    ;
    let p = (a as u128) * (b as u128);
    if p <= u64::MAX as u128 {
        Some(p as u64)
    } else {
        None
    }
}

/// The state of memory after one counter of `v` bytes was taken in, or
/// nothing where a sum does not fit 64 bits. Pages that are cached from swap
/// count as cached and no longer as swap.
pub open spec fn counted(m: Memory, c: Counter, v: u64) -> Option<Memory> {
    match c {
        Counter::ActiveAnon => match plus(m.active.0, v) {
            Some(a) => Some(Memory { active: Bytes(a), ..m }),
            None => None,
        },
        Counter::ActiveFile => match (plus(m.active.0, v), plus(m.cached.0, v)) {
            (Some(a), Some(c)) => Some(Memory { active: Bytes(a), cached: Bytes(c), ..m }),
            _ => None,
        },
        Counter::InactiveAnon => match plus(m.inactive.0, v) {
            Some(a) => Some(Memory { inactive: Bytes(a), ..m }),
            None => None,
        },
        Counter::InactiveFile => match (plus(m.inactive.0, v), plus(m.cached.0, v)) {
            (Some(a), Some(c)) => Some(Memory { inactive: Bytes(a), cached: Bytes(c), ..m }),
            _ => None,
        },
        Counter::SlabUnreclaimable | Counter::SlabReclaimable | Counter::KernelMiscReclaimable => match plus(
            m.cached.0,
            v,
        ) {
            Some(c) => Some(Memory { cached: Bytes(c), ..m }),
            None => None,
        },
        Counter::Swapcached => match plus(m.cached.0, v) {
            Some(c) => Some(Memory { cached: Bytes(c), swap: Bytes(minus(m.swap.0, v)), ..m }),
            None => None,
        },
        Counter::FreePages => Some(Memory { free: Bytes(v), ..m }),
        Counter::Dirty => Some(Memory { dirty: Threshold { val: Bytes(v), ..m.dirty }, ..m }),
        Counter::DirtyThreshold => Some(
            Memory { dirty: Threshold { crit: Bytes(v), ..m.dirty }, ..m },
        ),
        Counter::DirtyBackgroundThreshold => Some(
            Memory { dirty: Threshold { med: Bytes(v), high: Bytes(v), ..m.dirty }, ..m },
        ),
        Counter::Writeback => Some(
            Memory { writeback: Threshold { val: Bytes(v), ..m.writeback }, ..m },
        ),
    }
}

/// The state of memory after one line of the kernel's table was taken in. A
/// line names a counter and gives its number of pages. A line that names no
/// counter that the block reads changes nothing. A line without a name, or
/// one that gives a counter of the block no number whose bytes fit 64 bits,
/// makes no sense.
pub open spec fn vm_step(m: Memory, line: Seq<u8>, pagesize: u64) -> Option<Memory> {
    let f = fields(line);
    if f.len() == 0 {
        None
    } else {
        match counter_of(f[0]) {
            None => Some(m),
            Some(c) => if f.len() < 2 {
                None
            } else {
                match number(f[1]) {
                    None => None,
                    Some(pages) => match times(pages, pagesize) {
                        None => None,
                        Some(v) => counted(m, c, v),
                    },
                }
            },
        }
    }
}

/// The state of memory after the lines from the one at index `from` on were
/// taken in.
pub open spec fn vm_from(m: Memory, ls: Seq<Seq<u8>>, from: int, pagesize: u64) -> Option<Memory>
    decreases ls.len() - from,
{
    if from < 0 || from >= ls.len() {
        Some(m)
    } else {
        match vm_step(m, ls[from], pagesize) {
            None => None,
            Some(next) => vm_from(next, ls, from + 1, pagesize),
        }
    }
}

/// The sum `total` and the fourth fields of the lines from the one at index
/// `from` on, each taken as a number of KiB and counted in bytes.
pub open spec fn swap_from(total: u64, ls: Seq<Seq<u8>>, from: int) -> Option<u64>
    decreases ls.len() - from,
{
    if from < 0 || from >= ls.len() {
        Some(total)
    } else {
        let f = fields(ls[from]);
        if f.len() < 4 {
            None
        } else {
            match number(f[3]) {
                None => None,
                Some(kib) => match times(kib, 1024) {
                    None => None,
                    Some(b) => match plus(total, b) {
                        None => None,
                        Some(t) => swap_from(t, ls, from + 1),
                    },
                },
            }
        }
    }
}

/// The bytes of swap in use that the kernel's table of swap areas gives. Its
/// first line is a heading. A table that could not be read gives none.
pub open spec fn swap_total(swaps: Option<Vec<u8>>) -> Option<u64> {
    match swaps {
        None => Some(0u64),
        Some(content) => swap_from(0, lines(content@), 1),
    }
}

/// The sum `total` and the third fields of the files from the one at index
/// `from` on: the bytes that each compressed device takes in memory.
pub open spec fn zram_from(total: u64, files: Seq<Vec<u8>>, from: int) -> Option<u64>
    decreases files.len() - from,
{
    if from < 0 || from >= files.len() {
        Some(total)
    } else {
        let f = fields(files[from]@);
        if f.len() < 3 {
            None
        } else {
            match number(f[2]) {
                None => None,
                Some(b) => match plus(total, b) {
                    None => None,
                    Some(t) => zram_from(t, files, from + 1),
                },
            }
        }
    }
}

/// Whether a block device of the name `name` is a compressed device in
/// memory: its name begins with `zram`.
pub fn is_zram(name: &[u8]) -> (r: bool)
    ensures
        r == has_prefix(name@, lit("zram")),
{
    starts_with(name, "zram".as_bytes())
}

/// What a tick reads for the memory block.
pub struct MemorySource {
    /// The bytes of a page.
    pub pagesize: u64,
    /// The kernel's table of swap areas, or `None` where it could not be
    /// read.
    pub swaps: Option<Vec<u8>>,
    /// The memory statistics of each compressed device that could be read.
    pub zram: Vec<Vec<u8>>,
    /// The kernel's table of memory counters, or `None` where it could not
    /// be read.
    pub vmstat: Option<Vec<u8>>,
}

/// The state of memory after a tick, or nothing where what was read makes
/// no sense. Swap and compressed memory are counted anew. Where the table of
/// counters could be read, so are active, inactive and cached memory, and
/// each counter of the table is taken in.
pub open spec fn memory_after(m: Memory, source: &MemorySource) -> Option<Memory> {
    match (swap_total(source.swaps), zram_from(0, source.zram@, 0)) {
        (Some(swap), Some(zram)) => {
            let base = Memory { swap: Bytes(swap), zram: Bytes(zram), ..m };
            match source.vmstat {
                None => Some(base),
                Some(content) => vm_from(
                    Memory { active: Bytes(0), inactive: Bytes(0), cached: Bytes(0), ..base },
                    lines(content@),
                    0,
                    source.pagesize,
                ),
            }
        },
        _ => None,
    }
}

/// The state of memory before anything was read.
pub open spec fn memory_start() -> Memory {
    let z = Threshold { val: Bytes(0), med: Bytes(1), high: Bytes(1), crit: Bytes(1) };
    Memory {
        active: Bytes(0),
        inactive: Bytes(0),
        cached: Bytes(0),
        free: Bytes(0),
        dirty: z,
        writeback: z,
        swap: Bytes(0),
        zram: Bytes(0),
    }
}

/// The headings of the block.
pub open spec fn mem_head(s: &Settings) -> Seq<u8> {
    let w = s.colwidth as nat;
    let b = seq![0x20u8];
    heading_text(s.smart, "ACTIVE", w, w, Align::Right) + b + heading_text(
        s.smart,
        "INACTIVE",
        w,
        w,
        Align::Right,
    ) + b + heading_text(s.smart, "CACHED", w, w, Align::Right) + b + heading_text(
        s.smart,
        "FREE",
        w,
        w,
        Align::Right,
    ) + b + heading_text(s.smart, "DIRTY", w, w, Align::Right) + b + heading_text(
        s.smart,
        "W_BACK",
        w,
        w,
        Align::Right,
    ) + b + heading_text(s.smart, "SWAP", w, w, Align::Right) + b + heading_text(
        s.smart,
        "ZRAM",
        w,
        w,
        Align::Right,
    ) + newline_text(s.smart)
}

/// The values of the block, each in its column.
pub open spec fn mem_values(s: &Settings, m: Memory) -> Seq<u8> {
    let w = s.colwidth as nat;
    let b = seq![0x20u8];
    bytes_text(m.active.0 as nat, w, 2) + b + bytes_text(m.inactive.0 as nat, w, 2) + b
        + bytes_text(m.cached.0 as nat, w, 2) + b + bytes_text(m.free.0 as nat, w, 2) + b
        + threshold_text(s.smart, m.dirty, w, 2) + b + threshold_text(s.smart, m.writeback, w, 2)
        + b + bytes_text(m.swap.0 as nat, w, 2) + b + bytes_text(m.zram.0 as nat, w, 2)
        + newline_text(s.smart)
}

/// The whole block: the headings, the values, an empty line.
pub open spec fn mem_text(s: &Settings, m: Memory) -> Seq<u8> {
    mem_head(s) + mem_values(s, m) + newline_text(s.smart)
}

/// No heading of the block holds a line feed.
pub proof fn lemma_mem_titles(s: &Settings)
    ensures
        flat(heading_text(s.smart, "ACTIVE", s.colwidth as nat, s.colwidth as nat, Align::Right)),
        flat(heading_text(s.smart, "INACTIVE", s.colwidth as nat, s.colwidth as nat, Align::Right)),
        flat(heading_text(s.smart, "CACHED", s.colwidth as nat, s.colwidth as nat, Align::Right)),
        flat(heading_text(s.smart, "FREE", s.colwidth as nat, s.colwidth as nat, Align::Right)),
        flat(heading_text(s.smart, "DIRTY", s.colwidth as nat, s.colwidth as nat, Align::Right)),
        flat(heading_text(s.smart, "W_BACK", s.colwidth as nat, s.colwidth as nat, Align::Right)),
        flat(heading_text(s.smart, "SWAP", s.colwidth as nat, s.colwidth as nat, Align::Right)),
        flat(heading_text(s.smart, "ZRAM", s.colwidth as nat, s.colwidth as nat, Align::Right)),
{
    let w = s.colwidth as nat;
    reveal_strlit("ACTIVE");
    reveal_strlit("INACTIVE");
    reveal_strlit("CACHED");
    reveal_strlit("FREE");
    reveal_strlit("DIRTY");
    reveal_strlit("W_BACK");
    reveal_strlit("SWAP");
    reveal_strlit("ZRAM");
    lemma_flat_title(s.smart, "ACTIVE", w, w, Align::Right);
    lemma_flat_title(s.smart, "INACTIVE", w, w, Align::Right);
    lemma_flat_title(s.smart, "CACHED", w, w, Align::Right);
    lemma_flat_title(s.smart, "FREE", w, w, Align::Right);
    lemma_flat_title(s.smart, "DIRTY", w, w, Align::Right);
    lemma_flat_title(s.smart, "W_BACK", w, w, Align::Right);
    lemma_flat_title(s.smart, "SWAP", w, w, Align::Right);
    lemma_flat_title(s.smart, "ZRAM", w, w, Align::Right);
}

/// The headings are one whole line.
pub proof fn lemma_mem_head(s: &Settings)
    ensures
        whole_lines(mem_head(s), 1),
{
    let w = s.colwidth as nat;
    lemma_mem_titles(s);
    let h0 = heading_text(s.smart, "ACTIVE", w, w, Align::Right);
    let h1 = h0 + seq![0x20u8] + heading_text(s.smart, "INACTIVE", w, w, Align::Right);
    lemma_flat_next(h0, heading_text(s.smart, "INACTIVE", w, w, Align::Right));
    let h2 = h1 + seq![0x20u8] + heading_text(s.smart, "CACHED", w, w, Align::Right);
    lemma_flat_next(h1, heading_text(s.smart, "CACHED", w, w, Align::Right));
    let h3 = h2 + seq![0x20u8] + heading_text(s.smart, "FREE", w, w, Align::Right);
    lemma_flat_next(h2, heading_text(s.smart, "FREE", w, w, Align::Right));
    let h4 = h3 + seq![0x20u8] + heading_text(s.smart, "DIRTY", w, w, Align::Right);
    lemma_flat_next(h3, heading_text(s.smart, "DIRTY", w, w, Align::Right));
    let h5 = h4 + seq![0x20u8] + heading_text(s.smart, "W_BACK", w, w, Align::Right);
    lemma_flat_next(h4, heading_text(s.smart, "W_BACK", w, w, Align::Right));
    let h6 = h5 + seq![0x20u8] + heading_text(s.smart, "SWAP", w, w, Align::Right);
    lemma_flat_next(h5, heading_text(s.smart, "SWAP", w, w, Align::Right));
    let h7 = h6 + seq![0x20u8] + heading_text(s.smart, "ZRAM", w, w, Align::Right);
    lemma_flat_next(h6, heading_text(s.smart, "ZRAM", w, w, Align::Right));
    lemma_line(h7, s.smart);
}

/// The values are one whole line.
pub proof fn lemma_mem_values(s: &Settings, m: Memory)
    ensures
        whole_lines(mem_values(s, m), 1),
{
    let w = s.colwidth as nat;
    m.active.lemma_flat(w, 2);
    m.inactive.lemma_flat(w, 2);
    m.cached.lemma_flat(w, 2);
    m.free.lemma_flat(w, 2);
    m.swap.lemma_flat(w, 2);
    m.zram.lemma_flat(w, 2);
    lemma_flat_threshold(s.smart, m.dirty, w, 2);
    lemma_flat_threshold(s.smart, m.writeback, w, 2);
    let v0 = bytes_text(m.active.0 as nat, w, 2);
    let v1 = v0 + seq![0x20u8] + bytes_text(m.inactive.0 as nat, w, 2);
    lemma_flat_next(v0, bytes_text(m.inactive.0 as nat, w, 2));
    let v2 = v1 + seq![0x20u8] + bytes_text(m.cached.0 as nat, w, 2);
    lemma_flat_next(v1, bytes_text(m.cached.0 as nat, w, 2));
    let v3 = v2 + seq![0x20u8] + bytes_text(m.free.0 as nat, w, 2);
    lemma_flat_next(v2, bytes_text(m.free.0 as nat, w, 2));
    let v4 = v3 + seq![0x20u8] + threshold_text(s.smart, m.dirty, w, 2);
    lemma_flat_next(v3, threshold_text(s.smart, m.dirty, w, 2));
    let v5 = v4 + seq![0x20u8] + threshold_text(s.smart, m.writeback, w, 2);
    lemma_flat_next(v4, threshold_text(s.smart, m.writeback, w, 2));
    let v6 = v5 + seq![0x20u8] + bytes_text(m.swap.0 as nat, w, 2);
    lemma_flat_next(v5, bytes_text(m.swap.0 as nat, w, 2));
    let v7 = v6 + seq![0x20u8] + bytes_text(m.zram.0 as nat, w, 2);
    lemma_flat_next(v6, bytes_text(m.zram.0 as nat, w, 2));
    lemma_line(v7, s.smart);
}

/// The block prints three whole lines.
pub proof fn lemma_mem_lines(s: &Settings, m: Memory)
    ensures
        whole_lines(mem_text(s, m), 3),
{
    lemma_mem_head(s);
    lemma_mem_values(s, m);
    lemma_line(Seq::empty(), s.smart);
    lemma_count_add(mem_head(s), mem_values(s, m), 0x0a);
    lemma_count_add(mem_head(s) + mem_values(s, m), newline_text(s.smart), 0x0a);
}

/// The counter that a name of the table stands for.
pub fn read_counter(name: &[u8]) -> (r: Option<Counter>)
    ensures
        r == counter_of(name@),
{
    if same_bytes(name, "nr_active_anon".as_bytes()) {
        Some(Counter::ActiveAnon)
    } else if same_bytes(name, "nr_active_file".as_bytes()) {
        Some(Counter::ActiveFile)
    } else if same_bytes(name, "nr_inactive_anon".as_bytes()) {
        Some(Counter::InactiveAnon)
    } else if same_bytes(name, "nr_inactive_file".as_bytes()) {
        Some(Counter::InactiveFile)
    } else if same_bytes(name, "nr_slab_unreclaimable".as_bytes()) {
        Some(Counter::SlabUnreclaimable)
    } else if same_bytes(name, "nr_slab_reclaimable".as_bytes()) {
        Some(Counter::SlabReclaimable)
    } else if same_bytes(name, "nr_kernel_misc_reclaimable".as_bytes()) {
        Some(Counter::KernelMiscReclaimable)
    } else if same_bytes(name, "nr_swapcached".as_bytes()) {
        Some(Counter::Swapcached)
    } else if same_bytes(name, "nr_free_pages".as_bytes()) {
        Some(Counter::FreePages)
    } else if same_bytes(name, "nr_dirty".as_bytes()) {
        Some(Counter::Dirty)
    } else if same_bytes(name, "nr_dirty_threshold".as_bytes()) {
        Some(Counter::DirtyThreshold)
    } else if same_bytes(name, "nr_dirty_background_threshold".as_bytes()) {
        Some(Counter::DirtyBackgroundThreshold)
    } else if same_bytes(name, "nr_writeback".as_bytes()) {
        Some(Counter::Writeback)
    } else {
        None
    }
}

/// Takes one counter of `v` bytes in.
pub fn count_in(m: Memory, c: Counter, v: u64) -> (r: Option<Memory>)
    ensures
        r == counted(m, c, v),
{
    let mut n = m;
    match c {
        Counter::ActiveAnon => {
            n.active = Bytes(plus_of(m.active.0, v)?);
        },
        Counter::ActiveFile => {
            match (plus_of(m.active.0, v), plus_of(m.cached.0, v)) {
                (Some(a), Some(c)) => {
                    n.active = Bytes(a);
                    n.cached = Bytes(c);
                },
                _ => {
                    return None;
                },
            }
        },
        Counter::InactiveAnon => {
            n.inactive = Bytes(plus_of(m.inactive.0, v)?);
        },
        Counter::InactiveFile => {
            match (plus_of(m.inactive.0, v), plus_of(m.cached.0, v)) {
                (Some(a), Some(c)) => {
                    n.inactive = Bytes(a);
                    n.cached = Bytes(c);
                },
                _ => {
                    return None;
                },
            }
        },
        Counter::SlabUnreclaimable | Counter::SlabReclaimable | Counter::KernelMiscReclaimable => {
            n.cached = Bytes(plus_of(m.cached.0, v)?);
        },
        Counter::Swapcached => {
            n.cached = Bytes(plus_of(m.cached.0, v)?);
            n.swap = Bytes(minus_of(m.swap.0, v));
        },
        Counter::FreePages => {
            n.free = Bytes(v);
        },
        Counter::Dirty => {
            n.dirty.val = Bytes(v);
        },
        Counter::DirtyThreshold => {
            n.dirty.crit = Bytes(v);
        },
        Counter::DirtyBackgroundThreshold => {
            n.dirty.med = Bytes(v);
            n.dirty.high = Bytes(v);
        },
        Counter::Writeback => {
            n.writeback.val = Bytes(v);
        },
    }
    Some(n)
}

/// Takes one line of the kernel's table in.
pub fn read_vm_line(m: Memory, line: &[u8], pagesize: u64) -> (r: Option<Memory>)
    ensures
        r == vm_step(m, line@, pagesize),
{
    let f = split_fields(line);
    assert(forall|i: int| 0 <= i < f@.len() ==> texts(f@)[i] == #[trigger] f@[i]@);
    if f.len() == 0 {
        return None;
    }
    match read_counter(f[0].as_slice()) {
        None => Some(m),
        Some(c) => {
            if f.len() < 2 {
                return None;
            }
            let pages = parse_number(f[1].as_slice())?;
            let v = times_of(pages, pagesize)?;
            count_in(m, c, v)
        },
    }
}

/// Takes the kernel's table of counters in.
pub fn read_vmstat(m: Memory, content: &[u8], pagesize: u64) -> (r: Option<Memory>)
    ensures
        r == vm_from(m, lines(content@), 0, pagesize),
{
    let ls = split_lines(content);
    let ghost all = texts(ls@);
    let mut acc = m;
    let mut i: usize = 0;
    while i < ls.len()
        invariant
            all == texts(ls@),
            all == lines(content@),
            vm_from(m, all, 0, pagesize) == vm_from(acc, all, i as int, pagesize),
        decreases ls.len() - i,
    {
        assert(all[i as int] == ls@[i as int]@);
        match read_vm_line(acc, ls[i].as_slice(), pagesize) {
            None => {
                return None;
            },
            Some(next) => {
                acc = next;
            },
        }
        i += 1;
    }
    Some(acc)
}

/// Reads the bytes of swap in use.
pub fn read_swaps(content: &[u8]) -> (r: Option<u64>)
    ensures
        r == swap_from(0, lines(content@), 1),
{
    let ls = split_lines(content);
    let ghost all = texts(ls@);
    let mut total: u64 = 0;
    let mut i: usize = 1;
    while i < ls.len()
        invariant
            1 <= i,
            all == texts(ls@),
            all == lines(content@),
            swap_from(0, all, 1) == swap_from(total, all, i as int),
        decreases ls.len() - i,
    {
        assert(all[i as int] == ls@[i as int]@);
        let f = split_fields(ls[i].as_slice());
        assert(forall|j: int| 0 <= j < f@.len() ==> texts(f@)[j] == #[trigger] f@[j]@);
        if f.len() < 4 {
            return None;
        }
        let kib = parse_number(f[3].as_slice())?;
        let b = times_of(kib, 1024)?;
        total = plus_of(total, b)?;
        i += 1;
    }
    Some(total)
}

/// Reads the bytes that the compressed devices take in memory.
pub fn read_zram(files: &Vec<Vec<u8>>) -> (r: Option<u64>)
    ensures
        r == zram_from(0, files@, 0),
{
    let mut total: u64 = 0;
    let mut i: usize = 0;
    while i < files.len()
        invariant
            zram_from(0, files@, 0) == zram_from(total, files@, i as int),
        decreases files.len() - i,
    {
        let f = split_fields(files[i].as_slice());
        assert(forall|j: int| 0 <= j < f@.len() ==> texts(f@)[j] == #[trigger] f@[j]@);
        if f.len() < 3 {
            return None;
        }
        let b = parse_number(f[2].as_slice())?;
        total = plus_of(total, b)?;
        i += 1;
    }
    Some(total)
}

/// The memory block.
pub struct MemoryStats {
    state: Memory,
}

impl MemoryStats {
    /// The state of memory as the last tick found it.
    pub closed spec fn memory(&self) -> Memory {
        self.state
    }

    /// The block prints as many whole lines as it has rows.
    pub proof fn lemma_lines(&self, s: &Settings)
        ensures
            whole_lines(self.text(s), self.height(s) as int),
    {
        lemma_mem_lines(s, self.memory());
    }

    /// The state of memory as the last tick found it.
    pub fn state(&self) -> (m: Memory)
        ensures
            m == self.memory(),
    {
        self.state
    }
}

impl StatBlock for MemoryStats {
    type Source = MemorySource;

    open spec fn wf(&self) -> bool {
        true
    }

    open spec fn width(&self, s: &Settings) -> u16 {
        clamp16(8 * s.colwidth + 7)
    }

    open spec fn height(&self, s: &Settings) -> u16 {
        3
    }

    open spec fn text(&self, s: &Settings) -> Seq<u8> {
        mem_text(s, self.memory())
    }

    open spec fn fresh(&self) -> bool {
        self.memory() == memory_start()
    }

    open spec fn stepped(&self, source: &MemorySource, next: &Self, ok: bool) -> bool {
        match memory_after(self.memory(), source) {
            Some(m) => ok && next.memory() == m,
            None => !ok && next.memory() == self.memory(),
        }
    }

    proof fn lemma_blank(&self, s: &Settings) {
    }

    fn new() -> (b: Self) {
        let z = Threshold { val: Bytes(0), med: Bytes(1), high: Bytes(1), crit: Bytes(1) };
        MemoryStats {
            state: Memory {
                active: Bytes(0),
                inactive: Bytes(0),
                cached: Bytes(0),
                free: Bytes(0),
                dirty: z,
                writeback: z,
                swap: Bytes(0),
                zram: Bytes(0),
            },
        }
    }

    /// Takes in what a tick has read. Where that makes no sense, nothing
    /// changes.
    fn update(&mut self, source: &MemorySource) -> (ok: bool) {
        let swap = match &source.swaps {
            None => Some(0),
            Some(content) => read_swaps(content.as_slice()),
        };
        let zram = read_zram(&source.zram);
        let (swap, zram) = match (swap, zram) {
            (Some(swap), Some(zram)) => (swap, zram),
            _ => {
                return false;
            },
        };
        let mut m = self.state;
        m.swap = Bytes(swap);
        m.zram = Bytes(zram);
        if let Some(content) = &source.vmstat {
            m.active = Bytes(0);
            m.inactive = Bytes(0);
            m.cached = Bytes(0);
            match read_vmstat(m, content.as_slice(), source.pagesize) {
                None => {
                    return false;
                },
                Some(next) => {
                    m = next;
                },
            }
        }
        self.state = m;
        true
    }

    fn columns(&self, s: &Settings) -> (c: u16) {
        clamped(8 * (s.colwidth as usize) + 7)
    }

    fn rows(&self, s: &Settings) -> (r: u16) {
        3
    }

    fn render(&self, s: &Settings) -> (out: Vec<u8>) {
        let mut out: Vec<u8> = Vec::new();
        push_mem_head(&mut out, s);
        push_mem_values(&mut out, s, &self.state);
        push_newline(&mut out, s.smart);
        assert(out@ =~= mem_text(s, self.memory()));
        out
    }
}

/// Appends the headings of the block.
pub fn push_mem_head(out: &mut Vec<u8>, s: &Settings)
    ensures
        final(out)@ == old(out)@ + mem_head(s),
{
    let w = s.colwidth as usize;
    let mut line: Vec<u8> = Vec::new();
    push_heading(&mut line, s.smart, "ACTIVE", w, w, Align::Right);
    assert(line@ =~= heading_text(s.smart, "ACTIVE", w as nat, w as nat, Align::Right));
    push_blank(&mut line);
    push_heading(&mut line, s.smart, "INACTIVE", w, w, Align::Right);
    push_blank(&mut line);
    push_heading(&mut line, s.smart, "CACHED", w, w, Align::Right);
    push_blank(&mut line);
    push_heading(&mut line, s.smart, "FREE", w, w, Align::Right);
    push_blank(&mut line);
    push_heading(&mut line, s.smart, "DIRTY", w, w, Align::Right);
    push_blank(&mut line);
    push_heading(&mut line, s.smart, "W_BACK", w, w, Align::Right);
    push_blank(&mut line);
    push_heading(&mut line, s.smart, "SWAP", w, w, Align::Right);
    push_blank(&mut line);
    push_heading(&mut line, s.smart, "ZRAM", w, w, Align::Right);
    push_newline(&mut line, s.smart);
    push_bytes(out, line.as_slice());
}

/// Appends the values of the block.
pub fn push_mem_values(out: &mut Vec<u8>, s: &Settings, m: &Memory)
    ensures
        final(out)@ == old(out)@ + mem_values(s, *m),
{
    let w = s.colwidth as usize;
    let mut line: Vec<u8> = Vec::new();
    push_quantity(&mut line, &m.active, w, 2);
    assert(line@ =~= bytes_text(m.active.0 as nat, w as nat, 2));
    push_blank(&mut line);
    push_quantity(&mut line, &m.inactive, w, 2);
    push_blank(&mut line);
    push_quantity(&mut line, &m.cached, w, 2);
    push_blank(&mut line);
    push_quantity(&mut line, &m.free, w, 2);
    push_blank(&mut line);
    push_threshold(&mut line, s.smart, &m.dirty, w, 2);
    push_blank(&mut line);
    push_threshold(&mut line, s.smart, &m.writeback, w, 2);
    push_blank(&mut line);
    push_quantity(&mut line, &m.swap, w, 2);
    push_blank(&mut line);
    push_quantity(&mut line, &m.zram, w, 2);
    push_newline(&mut line, s.smart);
    push_bytes(out, line.as_slice());
}

/// Appends a quantity as its type writes it. The precision is bounded as
/// that of `Quantity::format` is.
pub fn push_quantity<T: Quantity>(out: &mut Vec<u8>, q: &T, width: usize, precision: usize)
    requires
        q.valid(),
        precision <= crate::decimal::MAX_PRECISION,
    ensures
        final(out)@ == old(out)@ + q.text(width as nat, precision as nat),
{
    let t = q.format(width, precision);
    push_bytes(out, t.as_slice());
}

} // verus!
