//! The task block: what every task has used of the CPU since the last tick,
//! and the tasks that deserve a line.

use crate::common::{
    clamp16, coloured, format_whole, heading_text, lemma_flat_coloured, lemma_flat_threshold,
    lemma_flat_title, lemma_line, newline_text, push_coloured, push_heading, push_newline,
    push_threshold, threshold_text, whole_text, Quantity, Settings, Stale, StatBlock, Threshold,
};
use crate::decimal::{digits, lemma_digits, lemma_flat_digits, pow10, push_digits};
use crate::layout::{count, lemma_count_add, whole_lines};
use crate::queue::PickHeap;
use crate::parse::{
    copy_range, decimal, fields, has_prefix, number, parse_decimal, parse_number, rsplit_once,
    split_fields, split_last, starts_with, texts,
};
use crate::rate::{minus, minus_of};
use crate::text::{
    clip, clip_len, count_chars, cut_from, fit, flat, lemma_cut_width, lemma_fit_width,
    lemma_flat_fit, lemma_flat_next, lemma_pad_width, lemma_width_join, lemma_width_plain,
    lemma_width_push, lit, pad, push_blank, push_bytes, push_fitted, push_str, width, Align,
};
use fnv::FnvHashMap;
use vstd::prelude::*;

verus! {

/// `fnv::FnvHasher`, the hasher of the task table. It starts out from a fixed
/// basis and reads nothing but the key, so that a key hashes alike whenever
/// it is asked for: what is said below of the table rests on that.
#[verifier::external_type_specification]
#[verifier::external_body]
pub struct ExFnvHasher(fnv::FnvHasher);

/// `core::hash::BuildHasherDefault`, the standard library's builder of
/// hashers that start out as their type's default.
#[verifier::external_type_specification]
#[verifier::external_body]
#[verifier::reject_recursive_types(H)]
pub struct ExBuildHasherDefault<H>(core::hash::BuildHasherDefault<H>);

/// The jiffies that a task has used, and the system's uptime in jiffies when
/// that was sampled.
#[derive(Clone, Copy, Debug, PartialEq, Eq, Structural)]
pub struct Jiffies {
    pub used: u64,
    pub uptime: u64,
}

/// What a task is doing.
#[derive(Clone, Copy, Debug, PartialEq, Eq, Structural)]
pub enum TaskState {
    Sleeping,
    Running,
    Uninterruptible,
    Zombie,
    Traced,
    Idle,
    Unknown,
}

/// What the block holds of one task.
#[derive(Clone, Copy)]
pub struct TaskEntry {
    /// The descriptor that is kept open on the task's statistics, where the
    /// budget of open files allowed it.
    pub filedes: Option<i32>,
    pub prev: Jiffies,
    pub cur: Jiffies,
    /// When the task started, in jiffies since boot.
    pub starttime: u64,
    pub state: TaskState,
    pub stale: Stale,
}

/// `HashMap::get` on the task table, a `fnv::FnvHashMap`: the entry that is
/// held for `pid`. The standard library gives the value that was last
/// inserted for a key and not removed since, and `None` for a key without
/// one.
#[verifier::external_body]
fn table_get(m: &FnvHashMap<u32, TaskEntry>, pid: u32) -> (r: Option<TaskEntry>)
    ensures
        r == (if m@.contains_key(pid) {
            Some(m@[pid])
        } else {
            None
        }),
{
    m.get(&pid).copied()
}

/// `HashMap::insert` on the task table: afterwards `pid` has the entry
/// `e`, and every other key has what it had.
#[verifier::external_body]
fn table_insert(m: &mut FnvHashMap<u32, TaskEntry>, pid: u32, e: TaskEntry)
    ensures
        final(m)@ == old(m)@.insert(pid, e),
{
    m.insert(pid, e);
}

/// `HashMap::remove` on the task table: afterwards `pid` has no entry,
/// and every other key has what it had.
#[verifier::external_body]
fn table_remove(m: &mut FnvHashMap<u32, TaskEntry>, pid: u32)
    ensures
        final(m)@ == old(m)@.remove(pid),
{
    m.remove(&pid);
}

/// `HashMap::len` on the task table: the number of keys that have an
/// entry.
#[verifier::external_body]
fn table_len(m: &FnvHashMap<u32, TaskEntry>) -> (n: usize)
    ensures
        n == m@.dom().len(),
{
    m.len()
}

/// `HashMap::keys` on the task table: every key that has an entry, once,
/// in an order that nothing is said of.
#[verifier::external_body]
fn table_keys(m: &FnvHashMap<u32, TaskEntry>) -> (keys: Vec<u32>)
    ensures
        keys@.no_duplicates(),
        forall|pid: u32| keys@.contains(pid) <==> m@.contains_key(pid),
{
    m.keys().copied().collect()
}

/// The number of the task whose directory has the name `name`. A directory
/// whose name is no number of 32 bits is no task.
pub open spec fn task_id(name: Seq<u8>) -> Option<u32> {
    match number(name) {
        Some(n) => if n <= u32::MAX {
            Some(n as u32)
        } else {
            None
        },
        None => None,
    }
}

/// The number of the task whose directory has the name `name`.
pub fn read_task_id(name: &[u8]) -> (r: Option<u32>)
    ensures
        r == task_id(name@),
{
    match parse_number(name) {
        Some(n) => if n <= u32::MAX as u64 {
            Some(n as u32)
        } else {
            None
        },
        None => None,
    }
}

/// What the kernel says of one task.
#[derive(Clone, Copy, Debug, PartialEq, Eq, Structural)]
pub struct TaskStat {
    pub state: TaskState,
    /// The jiffies that the task has used, in user and in kernel mode.
    pub used: u64,
    /// When the task started, in jiffies since boot.
    pub starttime: u64,
}

/// The state that a letter stands for.
pub open spec fn state_of(letter: Seq<u8>) -> TaskState {
    if letter == seq![0x53u8] {
        TaskState::Sleeping
    } else if letter == seq![0x52u8] {
        TaskState::Running
    } else if letter == seq![0x44u8] {
        TaskState::Uninterruptible
    } else if letter == seq![0x5au8] {
        TaskState::Zombie
    } else if letter == seq![0x54u8] {
        TaskState::Traced
    } else if letter == seq![0x49u8] {
        TaskState::Idle
    } else {
        TaskState::Unknown
    }
}

/// What a task's statistics say. The task's name ends at the last closing
/// bracket, and may hold anything. Of the fields behind it, the first is
/// the letter of the state, the twelfth and thirteenth are the jiffies in
/// user and in kernel mode, the twentieth is the start time. Statistics
/// without a closing bracket, with fewer fields, with a field that is no
/// number, or whose jiffies do not add up in 64 bits, say nothing.
pub open spec fn task_stat(stat: Seq<u8>) -> Option<TaskStat> {
    match rsplit_once(stat, seq![0x29u8]) {
        None => None,
        Some((_, tail)) => {
            let f = fields(tail);
            if f.len() < 20 {
                None
            } else {
                match (number(f[11]), number(f[12]), number(f[19])) {
                    (Some(utime), Some(stime), Some(starttime)) => if utime + stime <= u64::MAX {
                        Some(
                            TaskStat {
                                state: state_of(f[0]),
                                used: (utime + stime) as u64,
                                starttime,
                            },
                        )
                    } else {
                        None
                    },
                    _ => None,
                }
            }
        },
    }
}

/// Whether `s` is the single byte `b`.
pub fn is_letter(s: &[u8], b: u8) -> (r: bool)
    ensures
        r == (s@ == seq![b]),
{
    if s.len() == 1 && s[0] == b {
        assert(s@ =~= seq![b]);
        true
    } else {
        if s.len() == 1 {
            assert(seq![b][0] == b);
        }
        false
    }
}

/// The state that a letter stands for.
pub fn read_state(letter: &[u8]) -> (st: TaskState)
    ensures
        st == state_of(letter@),
{
    if is_letter(letter, 0x53) {
        TaskState::Sleeping
    } else if is_letter(letter, 0x52) {
        TaskState::Running
    } else if is_letter(letter, 0x44) {
        TaskState::Uninterruptible
    } else if is_letter(letter, 0x5a) {
        TaskState::Zombie
    } else if is_letter(letter, 0x54) {
        TaskState::Traced
    } else if is_letter(letter, 0x49) {
        TaskState::Idle
    } else {
        TaskState::Unknown
    }
}

/// Reads a task's statistics.
pub fn read_task_stat(stat: &[u8]) -> (r: Option<TaskStat>)
    ensures
        r == task_stat(stat@),
{
    let mut close: Vec<u8> = Vec::new();
    close.push(0x29u8);
    assert(close@ =~= seq![0x29u8]);
    let (_, tail) = split_last(stat, close.as_slice())?;
    let f = split_fields(tail);
    assert(forall|i: int| 0 <= i < f@.len() ==> texts(f@)[i] == #[trigger] f@[i]@);
    if f.len() < 20 {
        return None;
    }
    let utime = parse_number(f[11].as_slice())?;
    let stime = parse_number(f[12].as_slice())?;
    let starttime = parse_number(f[19].as_slice())?;
    if utime > u64::MAX - stime {
        return None;
    }
    Some(TaskStat { state: read_state(f[0].as_slice()), used: utime + stime, starttime })
}

/// A number of at most 64 bits, and the largest such number where `n` is
/// larger.
pub open spec fn clamp64(n: int) -> u64 {
    if n > u64::MAX {
        u64::MAX
    } else if n < 0 {
        0
    } else {
        n as u64
    }
}

/// The uptime in jiffies that the kernel's file gives: its first field, in
/// seconds, is cut to hundredths and counted in jiffies of which `user_hz`
/// make a second.
pub open spec fn uptime_jiffies(content: Seq<u8>, user_hz: u16) -> Option<u64> {
    let f = fields(content);
    if f.len() == 0 {
        None
    } else {
        match decimal(f[0]) {
            None => None,
            Some(d) => Some(clamp64((d.units * 100 / (d.scale as int)) * user_hz / 100)),
        }
    }
}

/// The uptime `elapsed_ms` milliseconds after it was `uptime`, in jiffies.
pub open spec fn uptime_after(uptime: u64, elapsed_ms: u64, user_hz: u16) -> u64 {
    clamp64(uptime + elapsed_ms * user_hz / 1000)
}

/// Reads the uptime in jiffies.
pub fn read_uptime(content: &[u8], user_hz: u16) -> (r: Option<u64>)
    ensures
        r == uptime_jiffies(content@, user_hz),
{
    let f = split_fields(content);
    assert(forall|i: int| 0 <= i < f@.len() ==> texts(f@)[i] == #[trigger] f@[i]@);
    if f.len() == 0 {
        return None;
    }
    let d = parse_decimal(f[0].as_slice())?;
    proof {
        crate::parse::lemma_decimal_scale(f@[0]@);
    }
    let cs = (d.units as u128) * 100 / (d.scale as u128);
    assert(cs <= d.units * 100) by (nonlinear_arith)
        requires
            cs == d.units * 100 / (d.scale as int),
            d.scale >= 1,
            d.units >= 0,
    ;
    assert(cs * user_hz <= u128::MAX) by (nonlinear_arith)
        requires
            cs <= 100 * 0xffff_ffff_ffff_ffff,
            user_hz <= 0xffff,
    ;
    let j = cs * (user_hz as u128) / 100;
    Some(
        if j > u64::MAX as u128 {
            u64::MAX
        } else {
            j as u64
        },
    )
}

/// The uptime `elapsed_ms` milliseconds after it was `uptime`, in jiffies.
pub fn later_uptime(uptime: u64, elapsed_ms: u64, user_hz: u16) -> (r: u64)
    ensures
        r == uptime_after(uptime, elapsed_ms, user_hz),
{
    assert(elapsed_ms * user_hz <= 0xffff * 0xffff_ffff_ffff_ffff) by (nonlinear_arith)
        requires
            elapsed_ms <= 0xffff_ffff_ffff_ffff,
            user_hz <= 0xffff,
    ;
    let j = (uptime as u128) + (elapsed_ms as u128) * (user_hz as u128) / 1000;
    if j > u64::MAX as u128 {
        u64::MAX
    } else {
        j as u64
    }
}

/// The entry of a task that was seen but whose statistics were gone.
pub open spec fn blank_entry() -> TaskEntry {
    TaskEntry {
        filedes: None,
        prev: Jiffies { used: 0, uptime: 0 },
        cur: Jiffies { used: 0, uptime: 0 },
        starttime: 0,
        state: TaskState::Sleeping,
        stale: Stale(false),
    }
}

/// The entry of a task after its statistics were read at the uptime `now`.
/// A task that was known moves its last sample to the one before. A task
/// that is new starts out with no jiffies used at its start time. Where the
/// start time differs from the one that was known, the task's number has
/// gone to another task: it starts out with its first sample as both, and
/// so shows no share until the next tick. `kept` is the descriptor that was
/// opened to stay, if any; a task that had one keeps that.
pub open spec fn entry_after(had: Option<TaskEntry>, stat: TaskStat, now: u64, kept: Option<i32>) -> TaskEntry {
    let cur = Jiffies { used: stat.used, uptime: now };
    match had {
        None => TaskEntry {
            filedes: kept,
            prev: Jiffies { used: 0, uptime: stat.starttime },
            cur,
            starttime: stat.starttime,
            state: stat.state,
            stale: Stale(false),
        },
        Some(e) => TaskEntry {
            filedes: if e.filedes is Some {
                e.filedes
            } else {
                kept
            },
            prev: if e.starttime == stat.starttime {
                e.cur
            } else {
                cur
            },
            cur,
            starttime: stat.starttime,
            state: stat.state,
            stale: Stale(false),
        },
    }
}

/// Every entry of `m`, marked stale.
pub open spec fn stale_all(m: Map<u32, TaskEntry>) -> Map<u32, TaskEntry> {
    Map::new(
        |pid: u32| m.contains_key(pid),
        |pid: u32|
            TaskEntry {
                filedes: m[pid].filedes,
                prev: m[pid].prev,
                cur: m[pid].cur,
                starttime: m[pid].starttime,
                state: m[pid].state,
                stale: Stale(true),
            },
    )
}

/// The entries of `m` that are not stale.
pub open spec fn fresh_only(m: Map<u32, TaskEntry>) -> Map<u32, TaskEntry> {
    Map::new(|pid: u32| m.contains_key(pid) && !m[pid].stale.0, |pid: u32| m[pid])
}

/// How the statistics of a task are to be read.
#[derive(Clone, Copy, Debug, PartialEq, Eq, Structural)]
pub enum Access {
    /// Through this descriptor, which stays open: read, then seek back to
    /// the start.
    Cached(i32),
    /// By opening the file. Where `keep` is set the descriptor is to stay
    /// open and to be handed over; else it is closed after the read.
    Open { keep: bool },
}

/// What came of reading the statistics of a task.
pub enum Outcome {
    /// The task was gone.
    Gone,
    /// The statistics, and the descriptor that was opened to stay, if any.
    Read { stat: Vec<u8>, kept: Option<i32> },
}

/// A task that is in the running for a line: its number, its state, and the
/// share of a CPU that it has used, in percent.
#[derive(Clone, Copy, Debug, PartialEq, Eq, Structural)]
pub struct Pick {
    pub pid: u32,
    pub state: TaskState,
    pub cpu: u8,
}

/// Whether a task has two samples that were taken at different uptimes.
pub open spec fn is_candidate(e: TaskEntry) -> bool {
    e.prev.uptime < e.cur.uptime
}

/// The share of a CPU that a task has used between its two samples, in
/// whole percent, rounded down. Of a share that eight bits do not hold, the
/// low eight bits are kept: 300 % come out as 44 %.
pub open spec fn cpu_share(e: TaskEntry) -> u8 {
    let r = 100 * minus(e.cur.used, e.prev.used) / (e.cur.uptime - e.prev.uptime);
    (r % 256) as u8
}

/// What a task brings to the selection.
pub open spec fn pick_of(pid: u32, e: TaskEntry) -> Pick {
    Pick { pid, state: e.state, cpu: cpu_share(e) }
}

/// Whether a task is in uninterruptible sleep.
pub open spec fn urgent(p: Pick) -> bool {
    p.state == TaskState::Uninterruptible
}

/// Whether `a` ranks above `b`: a task in uninterruptible sleep ranks above
/// any that is not; else the larger share decides, and between equal shares
/// the larger number.
pub open spec fn above(a: Pick, b: Pick) -> bool {
    if urgent(a) != urgent(b) {
        urgent(a)
    } else if a.cpu != b.cpu {
        a.cpu > b.cpu
    } else {
        a.pid > b.pid
    }
}

/// Whether a task is of no interest: it sleeps and has used nothing.
pub open spec fn dull(p: Pick) -> bool {
    p.state == TaskState::Sleeping && p.cpu == 0
}

/// Whether the task `pid` is among `picks`.
pub open spec fn picked(picks: Seq<Pick>, pid: u32) -> bool {
    exists|a: int| 0 <= a < picks.len() && (#[trigger] picks[a]).pid == pid
}

/// Whether `pid` is in the running: it is held, it was seen in the tick
/// under way, and its two samples were taken at different uptimes.
pub open spec fn runs(m: Map<u32, TaskEntry>, pid: u32) -> bool {
    m.contains_key(pid) && !m[pid].stale.0 && is_candidate(m[pid])
}

/// Whether `picks` are the tasks that deserve a line, at most `k`: the
/// tasks that are in the running, from the highest rank down, up to the
/// first that is of no interest.
pub open spec fn selected(m: Map<u32, TaskEntry>, k: nat, picks: Seq<Pick>) -> bool {
    &&& picks.len() <= k
    &&& forall|a: int|
        0 <= a < picks.len() ==> runs(m, (#[trigger] picks[a]).pid) && picks[a] == pick_of(
            picks[a].pid,
            m[picks[a].pid],
        ) && !dull(picks[a])
    &&& forall|a: int, b: int|
        0 <= a < b < picks.len() ==> above(#[trigger] picks[a], #[trigger] picks[b])
    &&& forall|pid: u32, a: int|
        runs(m, pid) && !picked(picks, pid) && 0 <= a < picks.len() ==> above(
            #[trigger] picks[a],
            #[trigger] pick_of(pid, m[pid]),
        )
    &&& picks.len() < k ==> (forall|pid: u32| runs(m, pid) ==> picked(picks, pid)) || exists|t: u32|
        runs(m, t) && !picked(picks, t) && dull(#[trigger] pick_of(t, m[t])) && forall|pid: u32|
            runs(m, pid) && !picked(picks, pid) ==> !above(#[trigger] pick_of(pid, m[pid]), pick_of(t, m[t]))
}

/// Among the tasks that deserve a line, those in uninterruptible sleep come
/// first, and the others come in the order of their shares, from the
/// largest down.
pub proof fn lemma_selected_order(m: Map<u32, TaskEntry>, k: nat, picks: Seq<Pick>, a: int, b: int)
    requires
        selected(m, k, picks),
        0 <= a < b < picks.len(),
    ensures
        urgent(picks[b]) ==> urgent(picks[a]),
        !urgent(picks[a]) ==> picks[a].cpu >= picks[b].cpu,
{
    assert(above(picks[a], picks[b]));
}

/// Where two selections from the same tasks agree up to a place, the task
/// that one holds there does not rank above the task that the other holds.
proof fn lemma_selected_clash(
    m: Map<u32, TaskEntry>,
    k: nat,
    p: Seq<Pick>,
    q: Seq<Pick>,
    i: int,
)
    requires
        selected(m, k, p),
        selected(m, k, q),
        0 <= i < p.len(),
        i < q.len(),
        forall|j: int| 0 <= j < i ==> p[j] == q[j],
    ensures
        !above(p[i], q[i]),
{
    let x = p[i];
    assert(runs(m, x.pid) && x == pick_of(x.pid, m[x.pid]));
    if !above(p[i], q[i]) {
    } else if picked(q, x.pid) {
        let a = choose|a: int| 0 <= a < q.len() && (#[trigger] q[a]).pid == x.pid;
        assert(q[a] == pick_of(q[a].pid, m[q[a].pid]));
        assert(q[a] == x);
        if a < i {
            assert(p[a] == q[a]);
            assert(above(p[a], p[i]));
        } else if a > i {
            assert(above(q[i], q[a]));
        }
    } else {
        assert(above(q[i], pick_of(x.pid, m[x.pid])));
    }
}

/// Two selections from the same tasks hold the same task at each place that
/// both have.
proof fn lemma_selected_agree(m: Map<u32, TaskEntry>, k: nat, p: Seq<Pick>, q: Seq<Pick>, i: int)
    requires
        selected(m, k, p),
        selected(m, k, q),
        0 <= i < p.len(),
        i < q.len(),
    ensures
        p[i] == q[i],
    decreases i,
{
    assert forall|j: int| 0 <= j < i implies p[j] == q[j] by {
        lemma_selected_agree(m, k, p, q, j);
    }
    if p[i] != q[i] {
        assert(p[i] == pick_of(p[i].pid, m[p[i].pid]));
        assert(q[i] == pick_of(q[i].pid, m[q[i].pid]));
        lemma_selected_clash(m, k, p, q, i);
        assert forall|j: int| 0 <= j < i implies q[j] == p[j] by {}
        lemma_selected_clash(m, k, q, p, i);
    }
}

/// A selection is no shorter than another from the same tasks.
proof fn lemma_selected_length(m: Map<u32, TaskEntry>, k: nat, p: Seq<Pick>, q: Seq<Pick>)
    requires
        selected(m, k, p),
        selected(m, k, q),
    ensures
        p.len() >= q.len(),
{
    if p.len() < q.len() {
        let n = p.len() as int;
        let x = q[n];
        assert(runs(m, x.pid) && x == pick_of(x.pid, m[x.pid]) && !dull(x));
        assert(!picked(p, x.pid)) by {
            if picked(p, x.pid) {
                let a = choose|a: int| 0 <= a < p.len() && (#[trigger] p[a]).pid == x.pid;
                lemma_selected_agree(m, k, p, q, a);
                assert(p[a] == pick_of(p[a].pid, m[p[a].pid]));
                assert(above(q[a], q[n]));
            }
        }
        if forall|pid: u32| runs(m, pid) ==> picked(p, pid) {
            assert(picked(p, x.pid));
        } else {
            let t = choose|t: u32|
                runs(m, t) && !picked(p, t) && dull(#[trigger] pick_of(t, m[t])) && forall|pid: u32|
                    runs(m, pid) && !picked(p, pid) ==> !above(
                        #[trigger] pick_of(pid, m[pid]),
                        pick_of(t, m[t]),
                    );
            assert(!above(pick_of(x.pid, m[x.pid]), pick_of(t, m[t])));
            assert(!picked(q, t)) by {
                if picked(q, t) {
                    let a = choose|a: int| 0 <= a < q.len() && (#[trigger] q[a]).pid == t;
                    assert(q[a] == pick_of(q[a].pid, m[q[a].pid]));
                }
            }
            assert(above(q[n], pick_of(t, m[t])));
        }
    }
}

/// The tasks that deserve a line are settled by what is held of the tasks
/// and by the number of lines: no two selections differ.
pub proof fn lemma_selected_unique(m: Map<u32, TaskEntry>, k: nat, p: Seq<Pick>, q: Seq<Pick>)
    requires
        selected(m, k, p),
        selected(m, k, q),
    ensures
        p == q,
{
    lemma_selected_length(m, k, p, q);
    lemma_selected_length(m, k, q, p);
    assert forall|i: int| 0 <= i < p.len() implies p[i] == q[i] by {
        lemma_selected_agree(m, k, p, q, i);
    }
    assert(p =~= q);
}

/// Whether `a` ranks above `b`.
pub fn ranks_above(a: &Pick, b: &Pick) -> (r: bool)
    ensures
        r == above(*a, *b),
{
    let ua = a.state == TaskState::Uninterruptible;
    let ub = b.state == TaskState::Uninterruptible;
    if ua != ub {
        ua
    } else if a.cpu != b.cpu {
        a.cpu > b.cpu
    } else {
        a.pid > b.pid
    }
}

/// What a task brings to the selection.
pub fn pick_for(pid: u32, e: &TaskEntry) -> (p: Pick)
    requires
        is_candidate(*e),
    ensures
        p == pick_of(pid, *e),
{
    let used = minus_of(e.cur.used, e.prev.used);
    let r = 100 * (used as u128) / ((e.cur.uptime - e.prev.uptime) as u128);
    Pick {
        pid,
        state: e.state,
        cpu: (r % 256) as u8,
    }
}

/// Marks every entry of the table stale.
fn mark_table(tasks: &mut FnvHashMap<u32, TaskEntry>)
    ensures
        final(tasks)@ == stale_all(old(tasks)@),
{
    let ghost before = tasks@;
    let keys = table_keys(tasks);
    let mut i: usize = 0;
    while i < keys.len()
        invariant
            i <= keys.len(),
            keys@.no_duplicates(),
            forall|pid: u32| keys@.contains(pid) <==> before.contains_key(pid),
            forall|pid: u32| tasks@.contains_key(pid) <==> before.contains_key(pid),
            forall|j: int|
                0 <= j < i ==> tasks@[#[trigger] keys@[j]] == stale_all(before)[keys@[j]],
            forall|j: int| i <= j < keys@.len() ==> tasks@[#[trigger] keys@[j]] == before[keys@[j]],
        decreases keys.len() - i,
    {
        let pid = keys[i];
        assert(keys@.contains(pid));
        let ghost now = tasks@;
        if let Some(e) = table_get(tasks, pid) {
            let mut n = e;
            n.stale = Stale(true);
            table_insert(tasks, pid, n);
        }
        proof {
            assert forall|j: int| 0 <= j < i + 1 implies tasks@[#[trigger] keys@[j]] == stale_all(
                before,
            )[keys@[j]] by {
                if j < i {
                    assert(keys@[j] != pid);
                    assert(now[keys@[j]] == stale_all(before)[keys@[j]]);
                } else {
                    assert(now[keys@[i as int]] == before[keys@[i as int]]);
                }
            }
            assert forall|j: int| i + 1 <= j < keys@.len() implies tasks@[#[trigger] keys@[j]]
                == before[keys@[j]] by {
                assert(keys@[j] != pid);
                assert(now[keys@[j]] == before[keys@[j]]);
            }
        }
        i += 1;
    }
    proof {
        assert forall|pid: u32| tasks@.contains_key(pid) implies #[trigger] tasks@[pid] == stale_all(
            before,
        )[pid] by {
            assert(keys@.contains(pid));
            let j = choose|j: int| 0 <= j < keys@.len() && keys@[j] == pid;
            assert(tasks@[keys@[j]] == stale_all(before)[keys@[j]]);
        }
        assert(tasks@ =~= stale_all(before));
    }
}

/// Removes every entry of the table that is stale; the result holds the
/// descriptors that were open on such tasks.
fn sweep_table(tasks: &mut FnvHashMap<u32, TaskEntry>) -> (fds: Vec<i32>)
    ensures
        final(tasks)@ == fresh_only(old(tasks)@),
        forall|pid: u32|
            final(tasks)@.contains_key(pid) ==> !(#[trigger] final(tasks)@[pid]).stale.0,
        forall|fd: i32|
            fds@.contains(fd) <==> exists|pid: u32|
                old(tasks)@.contains_key(pid) && (#[trigger] old(tasks)@[pid]).stale.0 && old(
                    tasks,
                )@[pid].filedes == Some(fd),
{
    let ghost before = tasks@;
    let keys = table_keys(tasks);
    let mut fds: Vec<i32> = Vec::new();
    let mut i: usize = 0;
    proof {
        assert forall|j: int| 0 <= j < keys@.len() implies tasks@.contains_key(
            #[trigger] keys@[j],
        ) by {
            assert(keys@.contains(keys@[j]));
        }
    }
    while i < keys.len()
        invariant
            i <= keys.len(),
            keys@.no_duplicates(),
            forall|pid: u32| keys@.contains(pid) <==> before.contains_key(pid),
            forall|j: int|
                0 <= j < i ==> (tasks@.contains_key(#[trigger] keys@[j]) <==> !before[keys@[j]].stale.0),
            forall|j: int| i <= j < keys@.len() ==> tasks@.contains_key(#[trigger] keys@[j]),
            forall|pid: u32|
                #[trigger] tasks@.contains_key(pid) ==> before.contains_key(pid) && tasks@[pid]
                    == before[pid],
            forall|fd: i32|
                fds@.contains(fd) <==> exists|j: int|
                    0 <= j < i && (#[trigger] before[keys@[j]]).stale.0 && before[keys@[j]].filedes
                        == Some(fd),
        decreases keys.len() - i,
    {
        let pid = keys[i];
        assert(keys@.contains(pid));
        let ghost fds_before = fds@;
        let ghost tasks_before = tasks@;
        assert(tasks_before.contains_key(keys@[i as int]));
        if let Some(e) = table_get(tasks, pid) {
            if e.stale.0 {
                if let Some(fd) = e.filedes {
                    fds.push(fd);
                }
                table_remove(tasks, pid);
            }
        }
        proof {
            assert forall|q: u32| #[trigger] tasks@.contains_key(q) implies before.contains_key(q)
                && tasks@[q] == before[q] by {
                assert(tasks_before.contains_key(q));
            }
            assert forall|j: int| 0 <= j < i + 1 implies (tasks@.contains_key(#[trigger] keys@[j])
                <==> !before[keys@[j]].stale.0) by {
                if j < i {
                    assert(tasks_before.contains_key(keys@[j]) <==> !before[keys@[j]].stale.0);
                    assert(keys@[j] != pid);
                }
            }
            assert forall|j: int| i + 1 <= j < keys@.len() implies tasks@.contains_key(
                #[trigger] keys@[j],
            ) by {
                assert(tasks_before.contains_key(keys@[j]));
                assert(keys@[j] != pid);
            }
            assert forall|fd: i32| fds@.contains(fd) <==> exists|j: int|
                0 <= j < i + 1 && (#[trigger] before[keys@[j]]).stale.0 && before[keys@[j]].filedes
                    == Some(fd) by {
                if fds@.contains(fd) {
                    if fds_before.contains(fd) {
                        let j = choose|j: int|
                            0 <= j < i && (#[trigger] before[keys@[j]]).stale.0
                                && before[keys@[j]].filedes == Some(fd);
                        assert(0 <= j < i + 1 && before[keys@[j]].stale.0);
                    } else {
                        let k = choose|k: int| 0 <= k < fds@.len() && fds@[k] == fd;
                        if k < fds_before.len() {
                            assert(fds_before[k] == fd);
                        }
                        assert(before[keys@[i as int]].stale.0);
                    }
                }
                if exists|j: int|
                    0 <= j < i + 1 && (#[trigger] before[keys@[j]]).stale.0 && before[keys@[j]].filedes
                        == Some(fd) {
                    let j = choose|j: int|
                        0 <= j < i + 1 && (#[trigger] before[keys@[j]]).stale.0
                            && before[keys@[j]].filedes == Some(fd);
                    if j < i {
                        assert(fds_before.contains(fd));
                        let k = choose|k: int| 0 <= k < fds_before.len() && fds_before[k] == fd;
                        assert(fds@[k] == fd);
                    } else {
                        assert(fds@[fds@.len() - 1] == fd);
                    }
                }
            }
        }
        i += 1;
    }
    proof {
        assert forall|pid: u32| tasks@.contains_key(pid) <==> fresh_only(before).contains_key(
            pid,
        ) by {
            if before.contains_key(pid) {
                assert(keys@.contains(pid));
                let j = choose|j: int| 0 <= j < keys@.len() && keys@[j] == pid;
                assert(tasks@.contains_key(keys@[j]) <==> !before[keys@[j]].stale.0);
            }
        }
        assert(tasks@ =~= fresh_only(before));
        assert forall|fd: i32| fds@.contains(fd) <==> exists|pid: u32|
            before.contains_key(pid) && (#[trigger] before[pid]).stale.0 && before[pid].filedes
                == Some(fd) by {
            if fds@.contains(fd) {
                let j = choose|j: int|
                    0 <= j < i && (#[trigger] before[keys@[j]]).stale.0 && before[keys@[j]].filedes
                        == Some(fd);
                assert(keys@.contains(keys@[j]));
                assert(before.contains_key(keys@[j]));
            }
            if exists|pid: u32|
                before.contains_key(pid) && (#[trigger] before[pid]).stale.0 && before[pid].filedes
                    == Some(fd) {
                let pid = choose|pid: u32|
                    before.contains_key(pid) && (#[trigger] before[pid]).stale.0
                        && before[pid].filedes == Some(fd);
                assert(keys@.contains(pid));
                let j = choose|j: int| 0 <= j < keys@.len() && keys@[j] == pid;
                assert(before[keys@[j]].stale.0);
            }
        }
    }
    fds
}

/// Whether `x` is among `picks`.
pub open spec fn among(picks: Seq<Pick>, x: Pick) -> bool {
    exists|a: int| 0 <= a < picks.len() && #[trigger] picks[a] == x
}

/// Whether `picks` are the first of the candidates `c`, at most `k`, from
/// the highest rank down, up to the first that is of no interest.
pub open spec fn top_of(c: Seq<Pick>, k: nat, picks: Seq<Pick>) -> bool {
    &&& picks.len() <= k
    &&& forall|a: int| 0 <= a < picks.len() ==> among(c, #[trigger] picks[a]) && !dull(picks[a])
    &&& forall|a: int, b: int|
        0 <= a < b < picks.len() ==> above(#[trigger] picks[a], #[trigger] picks[b])
    &&& forall|j: int, a: int|
        0 <= j < c.len() && !among(picks, c[j]) && 0 <= a < picks.len() ==> above(
            #[trigger] picks[a],
            #[trigger] c[j],
        )
    &&& picks.len() < k ==> (forall|j: int| 0 <= j < c.len() ==> among(picks, #[trigger] c[j]))
        || exists|t: int|
        0 <= t < c.len() && !among(picks, #[trigger] c[t]) && dull(c[t]) && forall|j: int|
            0 <= j < c.len() && !among(picks, #[trigger] c[j]) ==> !above(c[j], c[t])
}

/// Whether no two of the candidates are the same task.
pub open spec fn distinct(c: Seq<Pick>) -> bool {
    forall|i: int, j: int|
        0 <= i < j < c.len() ==> (#[trigger] c[i]).pid != (#[trigger] c[j]).pid
}

/// The first of the candidates, at most `k`, from the highest rank down, up
/// to the first that is of no interest: the candidates go into a priority
/// queue, and come out of it one by one.
pub fn top(c: &Vec<Pick>, k: u16) -> (picks: Vec<Pick>)
    requires
        distinct(c@),
    ensures
        top_of(c@, k as nat, picks@),
{
    let mut heap = PickHeap::new();
    let mut i: usize = 0;
    while i < c.len()
        invariant
            i <= c.len(),
            distinct(c@),
            heap.wf(),
            forall|x: Pick| among(heap@, x) <==> among(c@.take(i as int), x),
        decreases c.len() - i,
    {
        let ghost seen = c@.take(i as int);
        let ghost next = c@.take(i + 1);
        proof {
            assert forall|j: int| 0 <= j < heap@.len() implies (#[trigger] heap@[j]).pid
                != c@[i as int].pid by {
                assert(among(heap@, heap@[j]));
                let m = choose|m: int| 0 <= m < seen.len() && #[trigger] seen[m] == heap@[j];
                assert(c@[m].pid != c@[i as int].pid);
            }
            assert forall|x: Pick| among(next, x) <==> among(seen, x) || x == c@[i as int] by {
                if among(next, x) {
                    let m = choose|m: int| 0 <= m < next.len() && #[trigger] next[m] == x;
                    if m < i {
                        assert(seen[m] == x);
                    }
                }
                if among(seen, x) {
                    let m = choose|m: int| 0 <= m < seen.len() && #[trigger] seen[m] == x;
                    assert(next[m] == x);
                }
                if x == c@[i as int] {
                    assert(next[i as int] == x);
                }
            }
        }
        heap.push(c[i]);
        i += 1;
    }
    assert(c@.take(i as int) =~= c@);
    let mut picks: Vec<Pick> = Vec::new();
    let mut open = true;
    while open && picks.len() < k as usize
        invariant
            distinct(c@),
            heap.wf(),
            picks@.len() <= k,
            forall|x: Pick| among(heap@, x) ==> among(c@, x),
            forall|a: int| 0 <= a < picks@.len() ==> among(c@, #[trigger] picks@[a]) && !dull(picks@[a]),
            forall|a: int, b: int|
                0 <= a < b < picks@.len() ==> above(#[trigger] picks@[a], #[trigger] picks@[b]),
            forall|x: Pick, a: int|
                #![trigger among(heap@, x), picks@[a]]
                among(heap@, x) && 0 <= a < picks@.len() ==> above(picks@[a], x),
            forall|j: int, a: int|
                0 <= j < c@.len() && !among(picks@, c@[j]) && 0 <= a < picks@.len() ==> above(
                    #[trigger] picks@[a],
                    #[trigger] c@[j],
                ),
            open ==> forall|j: int|
                0 <= j < c@.len() ==> among(picks@, #[trigger] c@[j]) || among(heap@, c@[j]),
            !open ==> (forall|j: int| 0 <= j < c@.len() ==> among(picks@, #[trigger] c@[j]))
                || exists|t: int|
                0 <= t < c@.len() && !among(picks@, #[trigger] c@[t]) && dull(c@[t]) && forall|j: int|
                    0 <= j < c@.len() && !among(picks@, #[trigger] c@[j]) ==> !above(c@[j], c@[t]),
        decreases (if open { 1int } else { 0int }), k - picks@.len(),
    {
        let ghost old_picks = picks@;
        let ghost old_heap = heap@;
        match heap.pop() {
            None => {
                proof {
                    assert forall|j: int| 0 <= j < c@.len() implies among(old_picks, #[trigger] c@[j]) by {
                        if among(old_heap, c@[j]) {
                            let m = choose|m: int| 0 <= m < old_heap.len() && #[trigger] old_heap[m] == c@[j];
                        }
                    }
                }
                open = false;
            },
            Some(x) => {
                proof {
                    assert(among(c@, x));
                    // what comes out of the queue is none of the picks
                    assert(!among(old_picks, x)) by {
                        if among(old_picks, x) {
                            let a = choose|a: int| 0 <= a < old_picks.len() && #[trigger] old_picks[a]
                                == x;
                            assert(above(old_picks[a], x));
                        }
                    }
                }
                if x.state == TaskState::Sleeping && x.cpu == 0 {
                    proof {
                        let t = choose|t: int| 0 <= t < c@.len() && #[trigger] c@[t] == x;
                        assert forall|j: int|
                            0 <= j < c@.len() && !among(old_picks, #[trigger] c@[j]) implies !above(
                            c@[j],
                            c@[t],
                        ) by {
                            assert(among(old_heap, c@[j]));
                        }
                        assert forall|j: int, a: int|
                            0 <= j < c@.len() && !among(old_picks, c@[j]) && 0 <= a
                                < old_picks.len() implies above(
                            #[trigger] old_picks[a],
                            #[trigger] c@[j],
                        ) by {
                            assert(among(old_heap, c@[j]));
                        }
                    }
                    open = false;
                } else {
                    picks.push(x);
                    proof {
                        let n = old_picks.len() as int;
                        assert(picks@[n] == x);
                        assert forall|a: int| 0 <= a < picks@.len() implies among(
                            c@,
                            #[trigger] picks@[a],
                        ) && !dull(picks@[a]) by {
                            if a < n {
                                assert(picks@[a] == old_picks[a]);
                            }
                        }
                        assert forall|a: int, b: int| 0 <= a < b < picks@.len() implies above(
                            #[trigger] picks@[a],
                            #[trigger] picks@[b],
                        ) by {
                            assert(picks@[a] == old_picks[a]);
                            if b < n {
                                assert(picks@[b] == old_picks[b]);
                            } else {
                                assert(above(old_picks[a], x));
                            }
                        }
                        // what is left in the queue ranks below what came out
                        assert forall|y: Pick| among(heap@, y) implies above(x, y) by {
                            assert(among(old_heap, y) && y != x);
                            assert(!above(y, x));
                            let i = choose|i: int| 0 <= i < c@.len() && #[trigger] c@[i] == x;
                            let j = choose|j: int| 0 <= j < c@.len() && #[trigger] c@[j] == y;
                            if i < j {
                                assert(c@[i].pid != c@[j].pid);
                            } else if j < i {
                                assert(c@[j].pid != c@[i].pid);
                            }
                        }
                        assert forall|y: Pick, a: int|
                            #![trigger among(heap@, y), picks@[a]]
                            among(heap@, y) && 0 <= a < picks@.len() implies above(picks@[a], y) by {
                            if a < n {
                                assert(picks@[a] == old_picks[a]);
                                assert(among(old_heap, y));
                            }
                        }
                        assert forall|j: int| 0 <= j < c@.len() implies among(
                            picks@,
                            #[trigger] c@[j],
                        ) || among(heap@, c@[j]) by {
                            if among(old_picks, c@[j]) {
                                let a = choose|a: int|
                                    0 <= a < old_picks.len() && #[trigger] old_picks[a] == c@[j];
                                assert(picks@[a] == c@[j]);
                            } else if c@[j] == x {
                                assert(picks@[n] == c@[j]);
                            } else {
                                assert(among(old_heap, c@[j]));
                            }
                        }
                        assert forall|j: int, a: int|
                            0 <= j < c@.len() && !among(picks@, c@[j]) && 0 <= a
                                < picks@.len() implies above(#[trigger] picks@[a], #[trigger] c@[j]) by {
                            assert(among(heap@, c@[j]));
                        }
                    }
                }
            },
        }
    }
    proof {
        if open {
            assert(picks@.len() == k);
        }
    }
    picks
}

/// The tasks of the table that are in the running, each with what it brings
/// to the selection.
fn candidates(tasks: &FnvHashMap<u32, TaskEntry>) -> (c: Vec<Pick>)
    ensures
        distinct(c@),
        forall|j: int|
            0 <= j < c@.len() ==> runs(tasks@, (#[trigger] c@[j]).pid) && c@[j] == pick_of(
                c@[j].pid,
                tasks@[c@[j].pid],
            ),
        forall|pid: u32| runs(tasks@, pid) ==> among(c@, #[trigger] pick_of(pid, tasks@[pid])),
{
    let keys = table_keys(tasks);
    let mut c: Vec<Pick> = Vec::new();
    let mut i: usize = 0;
    while i < keys.len()
        invariant
            i <= keys.len(),
            keys@.no_duplicates(),
            forall|pid: u32| keys@.contains(pid) <==> tasks@.contains_key(pid),
            forall|j: int|
                0 <= j < c@.len() ==> runs(tasks@, (#[trigger] c@[j]).pid) && c@[j] == pick_of(
                    c@[j].pid,
                    tasks@[c@[j].pid],
                ) && exists|x: int| 0 <= x < i && keys@[x] == c@[j].pid,
            forall|x: int|
                0 <= x < i && runs(tasks@, #[trigger] keys@[x]) ==> among(
                    c@,
                    pick_of(keys@[x], tasks@[keys@[x]]),
                ),
            distinct(c@),
        decreases keys.len() - i,
    {
        let pid = keys[i];
        assert(keys@.contains(pid));
        let ghost before = c@;
        if let Some(e) = table_get(tasks, pid) {
            if !e.stale.0 && e.prev.uptime < e.cur.uptime {
                let p = pick_for(pid, &e);
                c.push(p);
                proof {
                    assert forall|a: int, b: int| 0 <= a < b < c@.len() implies (#[trigger] c@[a]).pid
                        != (#[trigger] c@[b]).pid by {
                        assert(c@[a] == before[a]);
                        if b < before.len() {
                            assert(c@[b] == before[b]);
                        } else {
                            let x = choose|x: int| 0 <= x < i && keys@[x] == before[a].pid;
                            assert(keys@[x] != keys@[i as int]);
                        }
                    }
                }
            }
        }
        proof {
            assert forall|j: int| 0 <= j < c@.len() implies runs(tasks@, (#[trigger] c@[j]).pid)
                && c@[j] == pick_of(c@[j].pid, tasks@[c@[j].pid]) && exists|x: int|
                0 <= x < i + 1 && keys@[x] == c@[j].pid by {
                if j < before.len() {
                    assert(c@[j] == before[j]);
                    let x = choose|x: int| 0 <= x < i && keys@[x] == before[j].pid;
                    assert(0 <= x < i + 1 && keys@[x] == c@[j].pid);
                } else {
                    assert(keys@[i as int] == c@[j].pid);
                }
            }
            assert forall|x: int| 0 <= x < i + 1 && runs(tasks@, #[trigger] keys@[x]) implies among(
                c@,
                pick_of(keys@[x], tasks@[keys@[x]]),
            ) by {
                if x < i {
                    let w = pick_of(keys@[x], tasks@[keys@[x]]);
                    assert(among(before, w));
                    let a = choose|a: int| 0 <= a < before.len() && #[trigger] before[a] == w;
                    assert(c@[a] == w);
                } else {
                    assert(c@[c@.len() - 1] == pick_of(pid, tasks@[pid]));
                }
            }
        }
        i += 1;
    }
    proof {
        assert forall|pid: u32| runs(tasks@, pid) implies among(
            c@,
            #[trigger] pick_of(pid, tasks@[pid]),
        ) by {
            assert(keys@.contains(pid));
            let x = choose|x: int| 0 <= x < keys@.len() && keys@[x] == pid;
            assert(runs(tasks@, keys@[x]));
        }
    }
    c
}

/// Where `picks` are the first of the candidates that a table gives, they
/// are the tasks of the table that deserve a line.
pub proof fn lemma_top_selected(m: Map<u32, TaskEntry>, c: Seq<Pick>, k: nat, picks: Seq<Pick>)
    requires
        top_of(c, k, picks),
        distinct(c),
        forall|j: int|
            0 <= j < c.len() ==> runs(m, (#[trigger] c[j]).pid) && c[j] == pick_of(
                c[j].pid,
                m[c[j].pid],
            ),
        forall|pid: u32| runs(m, pid) ==> among(c, #[trigger] pick_of(pid, m[pid])),
    ensures
        selected(m, k, picks),
{
    assert forall|a: int| 0 <= a < picks.len() implies runs(m, (#[trigger] picks[a]).pid)
        && picks[a] == pick_of(picks[a].pid, m[picks[a].pid]) && !dull(picks[a]) by {
        let j = choose|j: int| 0 <= j < c.len() && #[trigger] c[j] == picks[a];
        assert(runs(m, c[j].pid));
    }
    // a task that is not picked is none of the picks as a candidate
    assert forall|pid: u32| runs(m, pid) && !picked(picks, pid) implies !among(
        picks,
        #[trigger] pick_of(pid, m[pid]),
    ) by {
        if among(picks, pick_of(pid, m[pid])) {
            let a = choose|a: int| 0 <= a < picks.len() && #[trigger] picks[a] == pick_of(pid, m[pid]);
            assert(picks[a].pid == pid);
        }
    }
    assert forall|pid: u32, a: int|
        runs(m, pid) && !picked(picks, pid) && 0 <= a < picks.len() implies above(
        #[trigger] picks[a],
        #[trigger] pick_of(pid, m[pid]),
    ) by {
        let w = pick_of(pid, m[pid]);
        let j = choose|j: int| 0 <= j < c.len() && #[trigger] c[j] == w;
        assert(above(picks[a], c[j]));
    }
    if picks.len() < k {
        if forall|j: int| 0 <= j < c.len() ==> among(picks, #[trigger] c[j]) {
            assert forall|pid: u32| runs(m, pid) implies picked(picks, pid) by {
                let w = pick_of(pid, m[pid]);
                let j = choose|j: int| 0 <= j < c.len() && #[trigger] c[j] == w;
                assert(among(picks, c[j]));
                let a = choose|a: int| 0 <= a < picks.len() && #[trigger] picks[a] == w;
                assert(picks[a].pid == pid);
            }
        } else {
            let t = choose|t: int|
                0 <= t < c.len() && !among(picks, #[trigger] c[t]) && dull(c[t]) && forall|j: int|
                    0 <= j < c.len() && !among(picks, #[trigger] c[j]) ==> !above(c[j], c[t]);
            let tp = c[t].pid;
            assert(runs(m, tp) && c[t] == pick_of(tp, m[tp]));
            assert(!picked(picks, tp)) by {
                if picked(picks, tp) {
                    let a = choose|a: int| 0 <= a < picks.len() && (#[trigger] picks[a]).pid == tp;
                    assert(picks[a] == pick_of(tp, m[tp]));
                }
            }
            assert forall|pid: u32| runs(m, pid) && !picked(picks, pid) implies !above(
                #[trigger] pick_of(pid, m[pid]),
                pick_of(tp, m[tp]),
            ) by {
                let w = pick_of(pid, m[pid]);
                let j = choose|j: int| 0 <= j < c.len() && #[trigger] c[j] == w;
                assert(!among(picks, c[j]));
            }
            assert(runs(m, tp) && !picked(picks, tp) && dull(pick_of(tp, m[tp])));
        }
    }
}

/// What is shown of one task that deserves a line, as contracts speak of
/// it.
pub struct TaskLine {
    pub pick: Pick,
    pub cmdline: Seq<u8>,
    pub comm: Seq<u8>,
}

/// What is shown of one task that deserves a line.
pub struct TaskText {
    pub pick: Pick,
    /// The task's command line, its arguments ended by zero bytes; empty
    /// where it could not be read.
    pub cmdline: Vec<u8>,
    /// The file of the task's name; empty where it could not be read.
    pub comm: Vec<u8>,
}

impl TaskText {
    pub open spec fn view(&self) -> TaskLine {
        TaskLine { pick: self.pick, cmdline: self.cmdline@, comm: self.comm@ }
    }
}

/// The lines that a list of texts stands for.
pub open spec fn task_lines(v: Seq<TaskText>) -> Seq<TaskLine> {
    Seq::new(v.len(), |i: int| v[i]@)
}

/// The descriptors that the process keeps for its own use.
pub const RESERVED_FDS: u64 = 10;

/// The descriptors that may stay open on tasks where the process may have
/// `limit` open: all but those it keeps for itself.
pub open spec fn fd_budget(limit: u64) -> u64 {
    if limit > RESERVED_FDS {
        (limit - RESERVED_FDS) as u64
    } else {
        0
    }
}

/// The descriptors that may stay open on tasks where the process may have
/// `limit` open.
pub fn fd_budget_of(limit: u64) -> (n: u64)
    ensures
        n == fd_budget(limit),
{
    if limit > RESERVED_FDS {
        limit - RESERVED_FDS
    } else {
        0
    }
}

/// The task block.
pub struct TaskStats {
    user_hz: u16,
    uptime: u64,
    tasks: FnvHashMap<u32, TaskEntry>,
    relevant: Vec<TaskText>,
    maxtasks: u16,
    max_fds: u64,
}

impl TaskStats {
    /// What is held of each task.
    pub closed spec fn entries(&self) -> Map<u32, TaskEntry> {
        self.tasks@
    }

    /// The uptime in jiffies at the start of the tick.
    pub closed spec fn uptime(&self) -> u64 {
        self.uptime
    }

    /// The jiffies that make a second.
    pub closed spec fn user_hz(&self) -> u16 {
        self.user_hz
    }

    /// The most tasks that get a line.
    pub closed spec fn max_tasks(&self) -> u16 {
        self.maxtasks
    }

    /// The most descriptors that stay open.
    pub closed spec fn max_fds(&self) -> u64 {
        self.max_fds
    }

    /// The tasks that have a line, in their order.
    pub closed spec fn lines(&self) -> Seq<TaskLine> {
        task_lines(self.relevant@)
    }

    /// A block for a system with `user_hz` jiffies to the second, in which
    /// at most `max_fds` descriptors stay open.
    pub fn with_limits(user_hz: u16, max_fds: u64) -> (t: Self)
        ensures
            t.entries() == Map::<u32, TaskEntry>::empty(),
            t.user_hz() == user_hz,
            t.max_fds() == max_fds,
            t.max_tasks() == 10,
            t.uptime() == 0,
            t.lines().len() == 0,
    {
        TaskStats {
            user_hz,
            uptime: 0,
            tasks: FnvHashMap::default(),
            relevant: Vec::new(),
            maxtasks: 10,
            max_fds,
        }
    }

    /// Sets the most tasks that get a line.
    pub fn set_max_tasks(&mut self, tasks: u16)
        ensures
            final(self).max_tasks() == tasks,
            final(self).entries() == old(self).entries(),
            final(self).uptime() == old(self).uptime(),
            final(self).user_hz() == old(self).user_hz(),
            final(self).max_fds() == old(self).max_fds(),
            final(self).lines() == old(self).lines(),
    {
        self.maxtasks = tasks;
    }

    /// Begins a tick with the kernel's file of the uptime: every task is
    /// marked stale. Where the file makes no sense, nothing changes.
    pub fn begin(&mut self, uptime: &[u8]) -> (ok: bool)
        ensures
            final(self).user_hz() == old(self).user_hz(),
            final(self).max_fds() == old(self).max_fds(),
            final(self).max_tasks() == old(self).max_tasks(),
            final(self).lines() == old(self).lines(),
            match uptime_jiffies(uptime@, old(self).user_hz()) {
                None => !ok && final(self).entries() == old(self).entries() && final(self).uptime()
                    == old(self).uptime(),
                Some(u) => ok && final(self).uptime() == u && final(self).entries() == stale_all(
                    old(self).entries(),
                ),
            },
    {
        let u = match read_uptime(uptime, self.user_hz) {
            None => {
                return false;
            },
            Some(u) => u,
        };
        self.uptime = u;
        mark_table(&mut self.tasks);
        true
    }

    /// How the statistics of the task `pid` are to be read: through the
    /// descriptor that is open on them, or by opening the file. The
    /// descriptor of a task that is new stays open as long as fewer tasks
    /// are held than descriptors may stay open.
    pub fn plan(&self, pid: u32) -> (a: Access)
        ensures
            a == (if self.entries().contains_key(pid) {
                match self.entries()[pid].filedes {
                    Some(fd) => Access::Cached(fd),
                    None => Access::Open { keep: false },
                }
            } else {
                Access::Open { keep: self.entries().dom().len() < self.max_fds() }
            }),
    {
        match table_get(&self.tasks, pid) {
            Some(e) => match e.filedes {
                Some(fd) => Access::Cached(fd),
                None => Access::Open { keep: false },
            },
            None => Access::Open { keep: (table_len(&self.tasks) as u64) < self.max_fds },
        }
    }

    /// Takes in what came of reading the statistics of the task `pid`,
    /// `elapsed_ms` milliseconds after the uptime was read. A task that was
    /// gone and is not held yet gets an entry without samples. Statistics
    /// that make no sense change nothing.
    pub fn sample(&mut self, pid: u32, elapsed_ms: u64, outcome: &Outcome) -> (ok: bool)
        ensures
            final(self).user_hz() == old(self).user_hz(),
            final(self).max_fds() == old(self).max_fds(),
            final(self).max_tasks() == old(self).max_tasks(),
            final(self).uptime() == old(self).uptime(),
            final(self).lines() == old(self).lines(),
            match *outcome {
                Outcome::Gone => ok && final(self).entries() == (if old(self).entries().contains_key(
                    pid,
                ) {
                    old(self).entries()
                } else {
                    old(self).entries().insert(pid, blank_entry())
                }),
                Outcome::Read { stat, kept } => match task_stat(stat@) {
                    None => !ok && final(self).entries() == old(self).entries(),
                    Some(st) => ok && final(self).entries() == old(self).entries().insert(
                        pid,
                        entry_after(
                            if old(self).entries().contains_key(pid) {
                                Some(old(self).entries()[pid])
                            } else {
                                None
                            },
                            st,
                            uptime_after(old(self).uptime(), elapsed_ms, old(self).user_hz()),
                            kept,
                        ),
                    ),
                },
            },
    {
        let had = table_get(&self.tasks, pid);
        match outcome {
            Outcome::Gone => {
                if had.is_none() {
                    table_insert(
                        &mut self.tasks,
                        pid,
                        TaskEntry {
                            filedes: None,
                            prev: Jiffies { used: 0, uptime: 0 },
                            cur: Jiffies { used: 0, uptime: 0 },
                            starttime: 0,
                            state: TaskState::Sleeping,
                            stale: Stale(false),
                        },
                    );
                }
                true
            },
            Outcome::Read { stat, kept } => {
                let st = match read_task_stat(stat.as_slice()) {
                    None => {
                        return false;
                    },
                    Some(st) => st,
                };
                let now = later_uptime(self.uptime, elapsed_ms, self.user_hz);
                let cur = Jiffies { used: st.used, uptime: now };
                let e = match had {
                    None => TaskEntry {
                        filedes: *kept,
                        prev: Jiffies { used: 0, uptime: st.starttime },
                        cur,
                        starttime: st.starttime,
                        state: st.state,
                        stale: Stale(false),
                    },
                    Some(e) => TaskEntry {
                        filedes: if e.filedes.is_some() {
                            e.filedes
                        } else {
                            *kept
                        },
                        prev: if e.starttime == st.starttime {
                            e.cur
                        } else {
                            cur
                        },
                        cur,
                        starttime: st.starttime,
                        state: st.state,
                        stale: Stale(false),
                    },
                };
                table_insert(&mut self.tasks, pid, e);
                true
            },
        }
    }

    /// The tasks that deserve a line: those that are in the running, from
    /// the highest rank down, as many as get a line, up to the first that
    /// is of no interest.
    pub fn select(&self) -> (picks: Vec<Pick>)
        ensures
            selected(self.entries(), self.max_tasks() as nat, picks@),
    {
        let c = candidates(&self.tasks);
        let picks = top(&c, self.maxtasks);
        proof {
            lemma_top_selected(self.tasks@, c@, self.maxtasks as nat, picks@);
        }
        picks
    }

    /// Ends the sampling of a tick: every task that is still stale is gone.
    /// The result holds the descriptors that were open on such tasks, which
    /// are to be closed.
    pub fn sweep(&mut self) -> (fds: Vec<i32>)
        ensures
            final(self).user_hz() == old(self).user_hz(),
            final(self).max_fds() == old(self).max_fds(),
            final(self).max_tasks() == old(self).max_tasks(),
            final(self).uptime() == old(self).uptime(),
            final(self).lines() == old(self).lines(),
            final(self).entries() == fresh_only(old(self).entries()),
            forall|pid: u32|
                final(self).entries().contains_key(pid) ==> !(#[trigger] final(self).entries()[pid]).stale.0,
            forall|fd: i32|
                fds@.contains(fd) <==> exists|pid: u32|
                    old(self).entries().contains_key(pid) && (#[trigger] old(self).entries()[pid]).stale.0
                        && old(self).entries()[pid].filedes == Some(fd),
    {
        sweep_table(&mut self.tasks)
    }
}

/// A share of a CPU in whole percent.
#[derive(Clone, Copy, Debug, PartialEq, Eq, Structural)]
pub struct CPUPercentage(pub u8);

impl Quantity for CPUPercentage {
    open spec fn valid(&self) -> bool {
        true
    }

    open spec fn text(&self, width: nat, precision: nat) -> Seq<u8> {
        whole_text(self.0 as nat, width, 0x25)
    }

    open spec fn below(&self, other: &Self) -> bool {
        self.0 < other.0
    }

    proof fn lemma_not_below_chains(a: &Self, b: &Self, c: &Self) {
    }

    proof fn lemma_flat(&self, width: nat, precision: nat) {
        crate::decimal::lemma_flat_digits(self.0 as nat);
        crate::common::lemma_flat_number(crate::decimal::digits(self.0 as nat), width, 0x25);
    }

    fn format(&self, width: usize, precision: usize) -> (out: Vec<u8>) {
        format_whole(self.0 as u64, width, 0x25)
    }

    fn is_below(&self, other: &Self) -> (b: bool) {
        self.0 < other.0
    }
}

/// The pieces of `s` between the bytes `sep`. A text without `sep` is one
/// piece.
pub open spec fn split(s: Seq<u8>, sep: u8) -> Seq<Seq<u8>>
    decreases s.len(),
{
    if s.len() == 0 {
        seq![Seq::empty()]
    } else {
        let p = split(s.drop_last(), sep);
        if s.last() == sep {
            p.push(Seq::empty())
        } else if p.len() == 0 {
            seq![seq![s.last()]]
        } else {
            p.drop_last().push(p.last().push(s.last()))
        }
    }
}

/// Splits `s` at the bytes `sep`.
pub fn split_at(s: &[u8], sep: u8) -> (out: Vec<Vec<u8>>)
    ensures
        texts(out@) == split(s@, sep),
        out@.len() >= 1,
{
    let mut out: Vec<Vec<u8>> = Vec::new();
    let mut piece: Vec<u8> = Vec::new();
    let mut i: usize = 0;
    assert(s@.take(0) =~= Seq::<u8>::empty());
    assert(texts(out@).push(piece@) =~= seq![Seq::<u8>::empty()]);
    while i < s.len()
        invariant
            i <= s.len(),
            split(s@.take(i as int), sep) == texts(out@).push(piece@),
        decreases s.len() - i,
    {
        let ghost before = s@.take(i as int);
        let ghost now = s@.take(i + 1);
        let ghost prior = texts(out@);
        let ghost was = piece@;
        proof {
            assert(now.drop_last() =~= before);
            assert(now.last() == s@[i as int]);
            assert(split(before, sep).last() == was);
            assert(split(before, sep).drop_last() =~= prior);
        }
        let b = s[i];
        if b == sep {
            out.push(piece);
            piece = Vec::new();
            proof {
                assert(texts(out@) =~= prior.push(was));
                assert(piece@ =~= Seq::<u8>::empty());
            }
        } else {
            piece.push(b);
            proof {
                assert(texts(out@).push(piece@) =~= prior.push(was.push(b)));
            }
        }
        i += 1;
    }
    assert(s@.take(i as int) =~= s@);
    let ghost prior = texts(out@);
    out.push(piece);
    assert(texts(out@) =~= prior.push(piece@));
    out
}

/// `arg` with a backslash before each single quote.
pub open spec fn escaped(arg: Seq<u8>) -> Seq<u8>
    decreases arg.len(),
{
    if arg.len() == 0 {
        arg
    } else if arg.last() == 0x27 {
        escaped(arg.drop_last()) + seq![0x5cu8, 0x27u8]
    } else {
        escaped(arg.drop_last()).push(arg.last())
    }
}

/// An argument as it is shown: as it is where it holds no blank, else
/// between single quotes, with a backslash before each single quote of its
/// own.
pub open spec fn quoted(arg: Seq<u8>) -> Seq<u8> {
    if !arg.contains(0x20u8) {
        arg
    } else {
        seq![0x27u8] + escaped(arg) + seq![0x27u8]
    }
}

/// The text `acc` and the arguments from the one at index `from` on, each
/// as it is shown and followed by a blank, up to the first before which the
/// text holds `max` bytes or more.
pub open spec fn args_from(acc: Seq<u8>, pieces: Seq<Seq<u8>>, from: int, max: nat) -> Seq<u8>
    decreases pieces.len() - from,
{
    if from < 0 || from >= pieces.len() || acc.len() >= max {
        acc
    } else {
        args_from(acc + quoted(pieces[from]) + seq![0x20u8], pieces, from + 1, max)
    }
}

/// What follows the last slash of a path, and the whole of it where it
/// holds none.
pub open spec fn basename(path: Seq<u8>) -> Seq<u8> {
    match rsplit_once(path, seq![0x2fu8]) {
        Some((_, name)) => name,
        None => path,
    }
}

/// The file of a task's name without the line feed that ends it.
pub open spec fn comm_name(comm: Seq<u8>) -> Seq<u8> {
    if comm.len() > 0 && comm.last() == 0x0a {
        comm.drop_last()
    } else {
        comm
    }
}

/// `x` in bold where the terminal is smart.
pub open spec fn bold(smart: bool, x: Seq<u8>) -> Seq<u8> {
    if smart {
        lit("\x1B[1m") + x + lit("\x1B[0m")
    } else {
        x
    }
}

/// `a - b`, and 0 where `b` is the larger.
pub open spec fn less(a: nat, b: nat) -> nat {
    if a >= b {
        (a - b) as nat
    } else {
        0
    }
}

/// The room that a command has: what the number, the state and the share
/// leave of the frame.
pub open spec fn command_room(s: &Settings) -> nat {
    (s.maxcols - s.colwidth - 8) as nat
}

/// What stands before the program's name: the task's name in brackets
/// and a blank, or nothing where the task's name is a prefix of the
/// program's name.
pub open spec fn command_prefix(prog: Seq<u8>, name: Seq<u8>) -> Seq<u8> {
    if has_prefix(prog, name) {
        Seq::empty()
    } else {
        seq![0x28u8] + name + seq![0x29u8, 0x20u8]
    }
}

/// The three parts of a command as it is shown.
pub struct Command {
    /// What stands before the program's name.
    pub before: Seq<u8>,
    /// The program's name, which is written in bold.
    pub name: Seq<u8>,
    /// The blank and the arguments.
    pub after: Seq<u8>,
}

/// The parts of the command of a task, cut to the room that a command has:
/// the task's name in brackets where it is no prefix of the program's
/// name, the program's name without its path, a blank, and the arguments.
/// Each part has the room that the parts before it leave, and blanks fill
/// what the arguments leave.
pub open spec fn command_parts(s: &Settings, comm: Seq<u8>, cmdline: Seq<u8>) -> Command {
    let max = command_room(s);
    let pieces = split(cmdline, 0);
    let prog = basename(pieces[0]);
    let args = args_from(Seq::empty(), pieces, 1, max);
    let before = clip(command_prefix(prog, comm_name(comm)), max);
    let left = less(max, width(before));
    let name = clip(prog, left);
    let rest = less(left, width(name));
    if rest == 0 {
        Command { before, name, after: Seq::empty() }
    } else {
        let room = (rest - 1) as nat;
        Command { before, name, after: seq![0x20u8] + fit(args, room, Some(room), Align::Left) }
    }
}

/// The command of a task as it is written: its parts, the program's name
/// in bold.
pub open spec fn command_text(s: &Settings, comm: Seq<u8>, cmdline: Seq<u8>) -> Seq<u8> {
    let c = command_parts(s, comm, cmdline);
    c.before + bold(s.smart, c.name) + c.after
}

/// What a command shows: its parts without what makes the name bold.
pub open spec fn command_shown(s: &Settings, comm: Seq<u8>, cmdline: Seq<u8>) -> Seq<u8> {
    let c = command_parts(s, comm, cmdline);
    c.before + c.name + c.after
}

/// A command shows exactly as many characters as a command has room for,
/// whatever the names and the arguments are. On a terminal that is not
/// smart that is all that is written.
pub proof fn lemma_command_width(s: &Settings, comm: Seq<u8>, cmdline: Seq<u8>)
    ensures
        width(command_shown(s, comm, cmdline)) == command_room(s),
        !s.smart ==> command_text(s, comm, cmdline) == command_shown(s, comm, cmdline),
{
    let max = command_room(s);
    let pieces = split(cmdline, 0);
    let prog = basename(pieces[0]);
    let args = args_from(Seq::empty(), pieces, 1, max);
    let prefix = command_prefix(prog, comm_name(comm));
    let c = command_parts(s, comm, cmdline);
    lemma_cut_width(prefix, 0, max);
    assert(c.before =~= prefix.subrange(0, cut_from(prefix, 0, max)));
    let left = less(max, width(c.before));
    lemma_cut_width(prog, 0, left);
    assert(c.name =~= prog.subrange(0, cut_from(prog, 0, left)));
    let rest = less(left, width(c.name));
    lemma_width_join(c.before, c.name);
    lemma_width_join(c.before + c.name, c.after);
    if rest > 0 {
        let room = (rest - 1) as nat;
        lemma_fit_width(args, room, Align::Left);
        lemma_width_plain(seq![0x20u8]);
        lemma_width_join(seq![0x20u8], fit(args, room, Some(room), Align::Left));
    }
}

/// The letter of a state.
pub open spec fn state_letter(st: TaskState) -> u8 {
    match st {
        TaskState::Sleeping => 0x53,
        TaskState::Running => 0x52,
        TaskState::Uninterruptible => 0x44,
        TaskState::Zombie => 0x5a,
        TaskState::Traced => 0x54,
        TaskState::Idle => 0x49,
        TaskState::Unknown => 0x3f,
    }
}

/// The severity that a state is coloured with: running like a medium
/// level, uninterruptible sleep like a critical one, any other not at all.
pub open spec fn state_severity(st: TaskState) -> nat {
    match st {
        TaskState::Running => 1,
        TaskState::Uninterruptible => 3,
        _ => 0,
    }
}

/// The letter of a state in its colour.
pub open spec fn state_text(smart: bool, st: TaskState) -> Seq<u8> {
    coloured(smart, state_severity(st), seq![state_letter(st)])
}

/// A share with the levels from which on it is coloured: 40 %, 60 % and
/// 80 %.
pub open spec fn cpu_levels(cpu: u8) -> Threshold<CPUPercentage> {
    Threshold {
        val: CPUPercentage(cpu),
        med: CPUPercentage(40),
        high: CPUPercentage(60),
        crit: CPUPercentage(80),
    }
}

/// The line of one task: its number, its state, its share and its command.
pub open spec fn task_line(s: &Settings, t: TaskLine) -> Seq<u8> {
    let b = seq![0x20u8];
    fit(digits(t.pick.pid as nat), s.colwidth as nat, None, Align::Right) + b + state_text(
        s.smart,
        t.pick.state,
    ) + b + threshold_text(s.smart, cpu_levels(t.pick.cpu), 4, 2) + b + command_text(
        s,
        t.comm,
        t.cmdline,
    ) + newline_text(s.smart)
}

/// What the line of a task shows before its end.
pub open spec fn task_content(s: &Settings, t: TaskLine) -> Seq<u8> {
    let b = seq![0x20u8];
    fit(digits(t.pick.pid as nat), s.colwidth as nat, None, Align::Right) + b + state_text(
        s.smart,
        t.pick.state,
    ) + b + threshold_text(s.smart, cpu_levels(t.pick.cpu), 4, 2) + b + command_text(
        s,
        t.comm,
        t.cmdline,
    )
}

/// Without colours the line of a task is exactly as wide as the frame,
/// where the task's number has no more digits than a column is wide.
pub proof fn lemma_task_line_width(s: &Settings, t: TaskLine)
    requires
        s.wf(),
        !s.smart,
        digits(t.pick.pid as nat).len() <= s.colwidth,
    ensures
        task_line(s, t) == task_content(s, t) + newline_text(s.smart),
        width(task_content(s, t)) == s.maxcols,
{
    let w = s.colwidth as nat;
    let b = seq![0x20u8];
    let pid = fit(digits(t.pick.pid as nat), w, None, Align::Right);
    let state = state_text(s.smart, t.pick.state);
    let share = threshold_text(s.smart, cpu_levels(t.pick.cpu), 4, 2);
    let command = command_text(s, t.comm, t.cmdline);
    lemma_digits(t.pick.pid as nat, 0);
    lemma_width_plain(digits(t.pick.pid as nat));
    lemma_pad_width(digits(t.pick.pid as nat), w, Align::Right);
    lemma_width_plain(state);
    assert(pow10(3) == 1000) by {
        reveal_with_fuel(pow10, 4);
    }
    lemma_digits(t.pick.cpu as nat, 3);
    lemma_width_plain(digits(t.pick.cpu as nat));
    lemma_pad_width(digits(t.pick.cpu as nat), 3, Align::Right);
    lemma_width_push(pad(digits(t.pick.cpu as nat), 3, Align::Right), 0x25);
    lemma_command_width(s, t.comm, t.cmdline);
    lemma_width_plain(b);
    lemma_width_join(pid, b);
    lemma_width_join(pid + b, state);
    lemma_width_join(pid + b + state, b);
    lemma_width_join(pid + b + state + b, share);
    lemma_width_join(pid + b + state + b + share, b);
    lemma_width_join(pid + b + state + b + share + b, command);
}

/// The lines of the first `n` tasks.
pub open spec fn task_rows(s: &Settings, lines: Seq<TaskLine>, n: int) -> Seq<u8>
    decreases n,
{
    if n <= 0 || n > lines.len() {
        Seq::empty()
    } else {
        task_rows(s, lines, n - 1) + task_line(s, lines[n - 1])
    }
}

/// The headings of the block.
pub open spec fn task_head(s: &Settings) -> Seq<u8> {
    let w = s.colwidth as nat;
    let b = seq![0x20u8];
    heading_text(s.smart, "PID", w, w, Align::Right) + b + heading_text(
        s.smart,
        "S",
        1,
        1,
        Align::Right,
    ) + b + heading_text(s.smart, "CPU%", 4, 4, Align::Right) + b + heading_text(
        s.smart,
        "COMMAND",
        w,
        w,
        Align::Left,
    ) + newline_text(s.smart)
}

/// The whole block: the headings and a line for each task that has one.
pub open spec fn tasks_text(s: &Settings, lines: Seq<TaskLine>) -> Seq<u8> {
    task_head(s) + task_rows(s, lines, lines.len() as int)
}

/// Whether no task's command is written with a line feed.
pub open spec fn commands_flat(s: &Settings, lines: Seq<TaskLine>) -> bool {
    forall|i: int|
        0 <= i < lines.len() ==> flat(command_text(s, (#[trigger] lines[i]).comm, lines[i].cmdline))
}

/// No heading of the block holds a line feed.
pub proof fn lemma_task_titles(s: &Settings)
    ensures
        flat(heading_text(s.smart, "PID", s.colwidth as nat, s.colwidth as nat, Align::Right)),
        flat(heading_text(s.smart, "S", 1, 1, Align::Right)),
        flat(heading_text(s.smart, "CPU%", 4, 4, Align::Right)),
        flat(heading_text(s.smart, "COMMAND", s.colwidth as nat, s.colwidth as nat, Align::Left)),
{
    let w = s.colwidth as nat;
    reveal_strlit("PID");
    reveal_strlit("S");
    reveal_strlit("CPU%");
    reveal_strlit("COMMAND");
    lemma_flat_title(s.smart, "PID", w, w, Align::Right);
    lemma_flat_title(s.smart, "S", 1, 1, Align::Right);
    lemma_flat_title(s.smart, "CPU%", 4, 4, Align::Right);
    lemma_flat_title(s.smart, "COMMAND", w, w, Align::Left);
}

/// The headings are one whole line.
pub proof fn lemma_task_head(s: &Settings)
    ensures
        whole_lines(task_head(s), 1),
{
    let w = s.colwidth as nat;
    lemma_task_titles(s);
    let h0 = heading_text(s.smart, "PID", w, w, Align::Right);
    let h1 = h0 + seq![0x20u8] + heading_text(s.smart, "S", 1, 1, Align::Right);
    lemma_flat_next(h0, heading_text(s.smart, "S", 1, 1, Align::Right));
    let h2 = h1 + seq![0x20u8] + heading_text(s.smart, "CPU%", 4, 4, Align::Right);
    lemma_flat_next(h1, heading_text(s.smart, "CPU%", 4, 4, Align::Right));
    let h3 = h2 + seq![0x20u8] + heading_text(s.smart, "COMMAND", w, w, Align::Left);
    lemma_flat_next(h2, heading_text(s.smart, "COMMAND", w, w, Align::Left));
    lemma_line(h3, s.smart);
}

/// The line of a task whose command is written without a line feed is one
/// whole line.
pub proof fn lemma_task_line(s: &Settings, t: TaskLine)
    requires
        flat(command_text(s, t.comm, t.cmdline)),
    ensures
        whole_lines(task_line(s, t), 1),
{
    let pid = fit(digits(t.pick.pid as nat), s.colwidth as nat, None, Align::Right);
    lemma_flat_digits(t.pick.pid as nat);
    lemma_flat_fit(digits(t.pick.pid as nat), s.colwidth as nat, None, Align::Right);
    lemma_flat_coloured(s.smart, state_severity(t.pick.state), seq![state_letter(t.pick.state)]);
    lemma_flat_threshold(s.smart, cpu_levels(t.pick.cpu), 4, 2);
    let c1 = pid + seq![0x20u8] + state_text(s.smart, t.pick.state);
    lemma_flat_next(pid, state_text(s.smart, t.pick.state));
    let c2 = c1 + seq![0x20u8] + threshold_text(s.smart, cpu_levels(t.pick.cpu), 4, 2);
    lemma_flat_next(c1, threshold_text(s.smart, cpu_levels(t.pick.cpu), 4, 2));
    let c3 = c2 + seq![0x20u8] + command_text(s, t.comm, t.cmdline);
    lemma_flat_next(c2, command_text(s, t.comm, t.cmdline));
    lemma_line(c3, s.smart);
}

/// The lines of tasks whose commands are written without a line feed are
/// as many whole lines.
pub proof fn lemma_task_rows(s: &Settings, lines: Seq<TaskLine>, n: int)
    requires
        commands_flat(s, lines),
        0 <= n <= lines.len(),
    ensures
        whole_lines(task_rows(s, lines, n), n),
    decreases n,
{
    if n > 0 {
        lemma_task_rows(s, lines, n - 1);
        lemma_task_line(s, lines[n - 1]);
        lemma_count_add(task_rows(s, lines, n - 1), task_line(s, lines[n - 1]), 0x0a);
    } else {
        assert(count(Seq::<u8>::empty(), 0x0a) == 0);
    }
}

/// The block prints the headings and a whole line for each task that has
/// one, where no command is written with a line feed. These are as many
/// lines as the block claims where as many tasks have a line as may have
/// one.
pub proof fn lemma_task_lines(s: &Settings, lines: Seq<TaskLine>)
    requires
        commands_flat(s, lines),
    ensures
        whole_lines(tasks_text(s, lines), 1 + lines.len() as int),
{
    lemma_task_head(s);
    lemma_task_rows(s, lines, lines.len() as int);
    lemma_count_add(task_head(s), task_rows(s, lines, lines.len() as int), 0x0a);
    if lines.len() == 0 {
        assert(task_rows(s, lines, 0) =~= Seq::<u8>::empty());
        assert(tasks_text(s, lines) =~= task_head(s));
    }
}

/// Whether `s` holds the byte `b`.
pub fn holds_byte(s: &[u8], b: u8) -> (r: bool)
    ensures
        r == s@.contains(b),
{
    let mut i: usize = 0;
    while i < s.len()
        invariant
            i <= s.len(),
            forall|j: int| 0 <= j < i ==> s@[j] != b,
        decreases s.len() - i,
    {
        if s[i] == b {
            return true;
        }
        i += 1;
    }
    false
}

/// Appends an argument as it is shown.
pub fn push_quoted(out: &mut Vec<u8>, arg: &[u8])
    ensures
        final(out)@ == old(out)@ + quoted(arg@),
{
    if !holds_byte(arg, 0x20) {
        push_bytes(out, arg);
        return ;
    }
    let mut q: Vec<u8> = Vec::new();
    q.push(0x27u8);
    let mut i: usize = 0;
    assert(arg@.take(0) =~= Seq::<u8>::empty());
    assert(q@ =~= seq![0x27u8] + escaped(arg@.take(0)));
    while i < arg.len()
        invariant
            i <= arg.len(),
            q@ == seq![0x27u8] + escaped(arg@.take(i as int)),
        decreases arg.len() - i,
    {
        proof {
            assert(arg@.take(i + 1).drop_last() =~= arg@.take(i as int));
            assert(arg@.take(i + 1).last() == arg@[i as int]);
        }
        let ghost before = q@;
        if arg[i] == 0x27 {
            q.push(0x5cu8);
            q.push(0x27u8);
            assert(q@ =~= before + seq![0x5cu8, 0x27u8]);
        } else {
            q.push(arg[i]);
        }
        assert(q@ =~= seq![0x27u8] + escaped(arg@.take(i + 1)));
        i += 1;
    }
    assert(arg@.take(i as int) =~= arg@);
    q.push(0x27u8);
    assert(q@ =~= quoted(arg@));
    push_bytes(out, q.as_slice());
}

/// The arguments of a command line from the second piece on, as they are
/// shown.
pub fn shown_args(pieces: &Vec<Vec<u8>>, max: usize) -> (args: Vec<u8>)
    ensures
        args@ == args_from(Seq::empty(), texts(pieces@), 1, max as nat),
{
    let ghost all = texts(pieces@);
    let mut args: Vec<u8> = Vec::new();
    let mut i: usize = 1;
    assert(args@ =~= Seq::<u8>::empty());
    while i < pieces.len() && args.len() < max
        invariant
            1 <= i,
            all == texts(pieces@),
            args_from(Seq::empty(), all, 1, max as nat) == args_from(args@, all, i as int, max as nat),
        decreases pieces.len() - i,
    {
        assert(all[i as int] == pieces@[i as int]@);
        push_quoted(&mut args, pieces[i].as_slice());
        push_blank(&mut args);
        i += 1;
    }
    args
}

/// Appends `x`, in bold where the terminal is smart.
pub fn push_bold(out: &mut Vec<u8>, smart: bool, x: &[u8])
    ensures
        final(out)@ == old(out)@ + bold(smart, x@),
{
    if smart {
        let mut b: Vec<u8> = Vec::new();
        push_str(&mut b, "\x1B[1m");
        assert(b@ =~= lit("\x1B[1m"));
        push_bytes(&mut b, x);
        push_str(&mut b, "\x1B[0m");
        push_bytes(out, b.as_slice());
    } else {
        push_bytes(out, x);
    }
}

/// The name that the file of a task's name holds.
pub fn name_in(comm: &[u8]) -> (name: &[u8])
    ensures
        name@ == comm_name(comm@),
{
    let n = comm.len();
    if n > 0 && comm[n - 1] == 0x0a {
        let name = vstd::slice::slice_subrange(comm, 0, n - 1);
        assert(name@ =~= comm@.drop_last());
        name
    } else {
        comm
    }
}

/// What follows the last slash of a path.
pub fn base_of(path: &[u8]) -> (name: &[u8])
    ensures
        name@ == basename(path@),
{
    let mut slash: Vec<u8> = Vec::new();
    slash.push(0x2fu8);
    assert(slash@ =~= seq![0x2fu8]);
    match split_last(path, slash.as_slice()) {
        Some(parts) => parts.1,
        None => path,
    }
}

/// `a - b`, and 0 where `b` is the larger.
pub fn less_of(a: usize, b: usize) -> (r: usize)
    ensures
        r == less(a as nat, b as nat),
{
    if a >= b {
        a - b
    } else {
        0
    }
}

/// Appends the command of a task.
pub fn push_command(out: &mut Vec<u8>, s: &Settings, comm: &[u8], cmdline: &[u8])
    requires
        s.wf(),
    ensures
        final(out)@ == old(out)@ + command_text(s, comm@, cmdline@),
{
    let max = (s.maxcols - s.colwidth - 8) as usize;
    let pieces = split_at(cmdline, 0);
    assert(texts(pieces@)[0] == pieces@[0]@);
    let prog = base_of(pieces[0].as_slice());
    let args = shown_args(&pieces, max);
    let name = name_in(comm);
    let mut prefix: Vec<u8> = Vec::new();
    if !starts_with(prog, name) {
        prefix.push(0x28u8);
        assert(prefix@ =~= seq![0x28u8]);
        push_bytes(&mut prefix, name);
        let mut close: Vec<u8> = Vec::new();
        close.push(0x29u8);
        close.push(0x20u8);
        assert(close@ =~= seq![0x29u8, 0x20u8]);
        push_bytes(&mut prefix, close.as_slice());
    }
    assert(prefix@ =~= command_prefix(prog@, name@));
    let before = vstd::slice::slice_subrange(
        prefix.as_slice(),
        0,
        clip_len(prefix.as_slice(), max),
    );
    assert(before@ =~= clip(prefix@, max as nat));
    let left = less_of(max, count_chars(before));
    let shown = vstd::slice::slice_subrange(prog, 0, clip_len(prog, left));
    assert(shown@ =~= clip(prog@, left as nat));
    let rest = less_of(left, count_chars(shown));
    let mut c: Vec<u8> = Vec::new();
    push_bytes(&mut c, before);
    assert(c@ =~= before@);
    push_bold(&mut c, s.smart, shown);
    if rest > 0 {
        let mut after: Vec<u8> = Vec::new();
        push_blank(&mut after);
        assert(after@ =~= seq![0x20u8]);
        push_fitted(&mut after, args.as_slice(), rest - 1, Some(rest - 1), Align::Left);
        push_bytes(&mut c, after.as_slice());
    } else {
        assert(c@ =~= before@ + bold(s.smart, shown@) + Seq::<u8>::empty());
    }
    push_bytes(out, c.as_slice());
}

/// Appends the letter of a state in its colour.
pub fn push_state(out: &mut Vec<u8>, smart: bool, st: TaskState)
    ensures
        final(out)@ == old(out)@ + state_text(smart, st),
{
    let (letter, severity): (u8, u8) = match st {
        TaskState::Sleeping => (0x53, 0),
        TaskState::Running => (0x52, 1),
        TaskState::Uninterruptible => (0x44, 3),
        TaskState::Zombie => (0x5a, 0),
        TaskState::Traced => (0x54, 0),
        TaskState::Idle => (0x49, 0),
        TaskState::Unknown => (0x3f, 0),
    };
    let mut l: Vec<u8> = Vec::new();
    l.push(letter);
    assert(l@ =~= seq![state_letter(st)]);
    push_coloured(out, smart, severity, l.as_slice());
}

/// Appends the line of one task.
pub fn push_task_line(out: &mut Vec<u8>, s: &Settings, t: &TaskText)
    requires
        s.wf(),
    ensures
        final(out)@ == old(out)@ + task_line(s, t@),
{
    let mut pid: Vec<u8> = Vec::new();
    push_digits(&mut pid, t.pick.pid as u128);
    assert(pid@ =~= digits(t.pick.pid as nat));
    let mut line: Vec<u8> = Vec::new();
    push_fitted(&mut line, pid.as_slice(), s.colwidth as usize, None, Align::Right);
    assert(line@ =~= fit(digits(t.pick.pid as nat), s.colwidth as nat, None, Align::Right));
    push_blank(&mut line);
    push_state(&mut line, s.smart, t.pick.state);
    push_blank(&mut line);
    let levels = Threshold {
        val: CPUPercentage(t.pick.cpu),
        med: CPUPercentage(40),
        high: CPUPercentage(60),
        crit: CPUPercentage(80),
    };
    push_threshold(&mut line, s.smart, &levels, 4, 2);
    push_blank(&mut line);
    push_command(&mut line, s, t.comm.as_slice(), t.cmdline.as_slice());
    push_newline(&mut line, s.smart);
    push_bytes(out, line.as_slice());
}

/// Appends the headings of the block.
pub fn push_task_head(out: &mut Vec<u8>, s: &Settings)
    ensures
        final(out)@ == old(out)@ + task_head(s),
{
    let w = s.colwidth as usize;
    let mut line: Vec<u8> = Vec::new();
    push_heading(&mut line, s.smart, "PID", w, w, Align::Right);
    assert(line@ =~= heading_text(s.smart, "PID", w as nat, w as nat, Align::Right));
    push_blank(&mut line);
    push_heading(&mut line, s.smart, "S", 1, 1, Align::Right);
    push_blank(&mut line);
    push_heading(&mut line, s.smart, "CPU%", 4, 4, Align::Right);
    push_blank(&mut line);
    push_heading(&mut line, s.smart, "COMMAND", w, w, Align::Left);
    push_newline(&mut line, s.smart);
    push_bytes(out, line.as_slice());
}

/// The tasks that some lines are of.
pub open spec fn picks_of(lines: Seq<TaskLine>) -> Seq<Pick> {
    Seq::new(lines.len(), |i: int| lines[i].pick)
}

/// Whether the lines are those of the tasks `picks`, in their order.
pub fn same_picks(source: &Vec<TaskText>, picks: &Vec<Pick>) -> (same: bool)
    ensures
        same == (picks_of(task_lines(source@)) == picks@),
{
    if source.len() != picks.len() {
        return false;
    }
    let mut i: usize = 0;
    while i < source.len()
        invariant
            i <= source.len(),
            source.len() == picks.len(),
            forall|j: int| 0 <= j < i ==> source@[j].pick == picks@[j],
        decreases source.len() - i,
    {
        let a = source[i].pick;
        let b = picks[i];
        if a.pid != b.pid || a.state != b.state || a.cpu != b.cpu {
            assert(picks_of(task_lines(source@))[i as int] != picks@[i as int]);
            return false;
        }
        i += 1;
    }
    assert(picks_of(task_lines(source@)) =~= picks@);
    true
}

/// The first `k` of `lines`, or all of them where they are fewer.
pub open spec fn first_lines(lines: Seq<TaskLine>, k: nat) -> Seq<TaskLine> {
    if lines.len() <= k {
        lines
    } else {
        lines.take(k as int)
    }
}

impl StatBlock for TaskStats {
    type Source = Vec<TaskText>;

    open spec fn wf(&self) -> bool {
        true
    }

    open spec fn width(&self, s: &Settings) -> u16 {
        s.maxcols
    }

    open spec fn height(&self, s: &Settings) -> u16 {
        clamp16(1 + self.max_tasks())
    }

    open spec fn text(&self, s: &Settings) -> Seq<u8> {
        tasks_text(s, self.lines())
    }

    open spec fn fresh(&self) -> bool {
        &&& self.entries() == Map::<u32, TaskEntry>::empty()
        &&& self.user_hz() == 100
        &&& self.max_fds() == 0
        &&& self.max_tasks() == 10
        &&& self.uptime() == 0
        &&& self.lines().len() == 0
    }

    /// The lines that are handed over are taken where they are those of
    /// the tasks that deserve a line, in their order, and of no others.
    /// Else nothing changes.
    open spec fn stepped(&self, source: &Vec<TaskText>, next: &Self, ok: bool) -> bool {
        &&& ok == selected(self.entries(), self.max_tasks() as nat, picks_of(task_lines(source@)))
        &&& next.lines() == if ok {
            task_lines(source@)
        } else {
            self.lines()
        }
        &&& next.entries() == self.entries()
        &&& next.uptime() == self.uptime()
        &&& next.user_hz() == self.user_hz()
        &&& next.max_fds() == self.max_fds()
        &&& next.max_tasks() == self.max_tasks()
    }

    proof fn lemma_blank(&self, s: &Settings) {
    }

    /// A block for a system with a hundred jiffies to the second, in which
    /// no descriptor stays open.
    fn new() -> (b: Self) {
        TaskStats::with_limits(100, 0)
    }

    /// Takes in the tasks that deserve a line, each with its command line
    /// and its name. Lines of other tasks, or in another order, are
    /// refused.
    fn update(&mut self, source: &Vec<TaskText>) -> (ok: bool) {
        let want = self.select();
        let ghost picks = picks_of(task_lines(source@));
        if !same_picks(source, &want) {
            proof {
                if selected(self.entries(), self.max_tasks() as nat, picks) {
                    lemma_selected_unique(
                        self.entries(),
                        self.max_tasks() as nat,
                        picks,
                        want@,
                    );
                }
            }
            return false;
        }
        assert(picks =~= want@);
        self.relevant = copy_lines(source, self.maxtasks as usize);
        assert(first_lines(task_lines(source@), self.maxtasks as nat) == task_lines(source@));
        true
    }

    fn columns(&self, s: &Settings) -> (c: u16) {
        s.maxcols
    }

    fn rows(&self, s: &Settings) -> (r: u16) {
        if self.maxtasks == 0xffff {
            0xffff
        } else {
            1 + self.maxtasks
        }
    }

    fn render(&self, s: &Settings) -> (out: Vec<u8>) {
        let mut out: Vec<u8> = Vec::new();
        push_task_head(&mut out, s);
        assert(out@ =~= task_head(s));
        let n = self.relevant.len();
        let mut i: usize = 0;
        while i < n
            invariant
                i <= n,
                n == self.relevant@.len(),
                s.wf(),
                out@ == task_head(s) + task_rows(s, self.lines(), i as int),
            decreases n - i,
        {
            assert(self.lines()[i as int] == self.relevant@[i as int]@);
            push_task_line(&mut out, s, &self.relevant[i]);
            assert(out@ =~= task_head(s) + task_rows(s, self.lines(), i + 1));
            i += 1;
        }
        out
    }
}

/// A copy of the first `k` of `source`.
pub fn copy_lines(source: &Vec<TaskText>, k: usize) -> (out: Vec<TaskText>)
    ensures
        task_lines(out@) == first_lines(task_lines(source@), k as nat),
{
    let n = if source.len() <= k {
        source.len()
    } else {
        k
    };
    let mut out: Vec<TaskText> = Vec::new();
    let mut i: usize = 0;
    while i < n
        invariant
            i <= n <= source.len(),
            out@.len() == i,
            forall|j: int| 0 <= j < i ==> (#[trigger] out@[j])@ == source@[j]@,
        decreases n - i,
    {
        let t = &source[i];
        let cmdline = copy_range(t.cmdline.as_slice(), 0, t.cmdline.len());
        let comm = copy_range(t.comm.as_slice(), 0, t.comm.len());
        assert(cmdline@ =~= t.cmdline@ && comm@ =~= t.comm@);
        out.push(TaskText { pick: t.pick, cmdline, comm });
        i += 1;
    }
    assert(task_lines(out@) =~= first_lines(task_lines(source@), k as nat));
    out
}

} // verus!
