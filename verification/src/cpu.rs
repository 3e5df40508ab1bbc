//! The CPU block: the ticks of each logical CPU, as a matrix of glyphs with
//! one row for each kind of load and one column for each CPU.

use crate::common::{
    clamp16, clamped, coloured, heading_text, lemma_flat_coloured, lemma_flat_title, lemma_line,
    newline_text, push_coloured, push_heading, push_newline, Quantity, Settings, StatBlock,
    Threshold,
};
use crate::layout::{
    count, is_blank_line, lemma_count_add, lemma_count_flat, lemma_lines_line, line_or_empty,
    whole_lines,
};
use crate::parse::{
    fields, has_prefix, lines, number, parse_number, split_fields, split_lines, starts_with, texts,
    without_cr,
};
use crate::rate::{minus, minus_of};
use crate::text::{
    flat, lemma_fit_width, lemma_flat_join, lemma_width_join, lemma_width_plain, lit, width,
    Align,
};
use crate::ordered::{
    entries, held, lemma_stands_kept, lemma_stands_marked, lemma_stands_taken,
    lemma_stands_unique, mark_all, slot_entries, stands_for, sweep, take_sample, Sampled,
};
use crate::tracker::{
    ascending, entry_of, kept, lemma_kept, lemma_not_held, marked, sampled, Entry, Pair, Rank,
    Slot,
};
use std::collections::BTreeMap;
use vstd::prelude::*;

verus! {

/// The ticks that a CPU has spent since boot, by kind.
#[derive(Clone, Copy)]
pub struct CpuTicks {
    pub user: u64,
    pub nice: u64,
    pub system: u64,
    pub iowait: u64,
    pub idle: u64,
    /// The sum of the five kinds.
    pub total: u64,
}

/// The four kinds of load that get a row.
#[derive(Clone, Copy, Debug, PartialEq, Eq, Structural)]
pub enum Load {
    Iowait,
    System,
    User,
    Nice,
}

impl CpuTicks {
    /// No ticks at all.
    pub open spec fn zero() -> CpuTicks {
        CpuTicks { user: 0, nice: 0, system: 0, iowait: 0, idle: 0, total: 0 }
    }

    /// The ticks of one kind of load.
    pub open spec fn of(&self, load: Load) -> u64 {
        match load {
            Load::Iowait => self.iowait,
            Load::System => self.system,
            Load::User => self.user,
            Load::Nice => self.nice,
        }
    }

    /// The ticks of one kind of load.
    pub fn pick(&self, load: Load) -> (t: u64)
        ensures
            t == self.of(load),
    {
        match load {
            Load::Iowait => self.iowait,
            Load::System => self.system,
            Load::User => self.user,
            Load::Nice => self.nice,
        }
    }
}

/// A share of a CPU's time: `used` of `total` ticks.
#[derive(Clone, Copy, Debug, PartialEq, Eq, Structural)]
pub struct CpuUsage {
    pub used: u64,
    pub total: u64,
}

/// The glyph of a share: blank under 1 %, `.` under 10 %, `o` under 20 %,
/// `O` under 60 %, `X` from there on.
pub open spec fn glyph(used: nat, total: nat) -> u8 {
    if 5 * used >= 3 * total {
        0x58
    } else if 5 * used >= total {
        0x4f
    } else if 10 * used >= total {
        0x6f
    } else if 100 * used >= total {
        0x2e
    } else {
        0x20
    }
}

impl Quantity for CpuUsage {
    open spec fn valid(&self) -> bool {
        self.total > 0
    }

    open spec fn text(&self, width: nat, precision: nat) -> Seq<u8> {
        seq![glyph(self.used as nat, self.total as nat)]
    }

    open spec fn below(&self, other: &Self) -> bool {
        self.used * other.total < other.used * self.total
    }

    proof fn lemma_not_below_chains(a: &Self, b: &Self, c: &Self) {
        crate::common::lemma_quotients_chain(
            a.used as int,
            a.total as int,
            b.used as int,
            b.total as int,
            c.used as int,
            c.total as int,
        );
    }

    proof fn lemma_flat(&self, width: nat, precision: nat) {
    }

    fn format(&self, width: usize, precision: usize) -> (out: Vec<u8>) {
        let used = self.used as u128;
        let total = self.total as u128;
        let g: u8 = if 5 * used >= 3 * total {
            0x58
        } else if 5 * used >= total {
            0x4f
        } else if 10 * used >= total {
            0x6f
        } else if 100 * used >= total {
            0x2e
        } else {
            0x20
        };
        let mut out: Vec<u8> = Vec::new();
        out.push(g);
        assert(out@ =~= seq![glyph(self.used as nat, self.total as nat)]);
        out
    }

    fn is_below(&self, other: &Self) -> (b: bool) {
        assert(self.used * other.total <= u128::MAX) by (nonlinear_arith)
            requires
                self.used <= u64::MAX,
                other.total <= u64::MAX,
        ;
        assert(other.used * self.total <= u128::MAX) by (nonlinear_arith)
            requires
                other.used <= u64::MAX,
                self.total <= u64::MAX,
        ;
        (self.used as u128) * (other.total as u128) < (other.used as u128) * (self.total as u128)
    }
}

/// A level of no load at all (`full == false`) or of full load.
pub open spec fn level(full: bool) -> CpuUsage {
    CpuUsage {
        used: if full {
            1
        } else {
            0
        },
        total: 1,
    }
}

/// The share of one kind of load between two samples, with the levels from
/// which on it is coloured. The levels go by the share of idle time: with up
/// to 20 % idle, any load is critical; with up to 40 %, any load is high;
/// with up to 60 %, any load is medium; above, only full load is coloured.
pub open spec fn cpu_threshold(pair: Pair<CpuTicks>, load: Load) -> Threshold<CpuUsage> {
    let total = minus(pair.cur.total, pair.prev.total);
    let idle = minus(pair.cur.idle, pair.prev.idle);
    Threshold {
        val: CpuUsage { used: minus(pair.cur.of(load), pair.prev.of(load)), total },
        med: level(5 * idle > 3 * total),
        high: level(5 * idle > 2 * total),
        crit: level(5 * idle > total),
    }
}

/// What stands in the matrix for one CPU and one kind of load: the glyph of
/// the share in its colour, and a blank where no tick has passed between the
/// two samples.
pub open spec fn cell_text(smart: bool, pair: Pair<CpuTicks>, load: Load) -> Seq<u8> {
    if minus(pair.cur.total, pair.prev.total) == 0 {
        seq![0x20u8]
    } else {
        let t = cpu_threshold(pair, load);
        coloured(smart, t.severity(), t.val.text(0, 0))
    }
}

/// The cells of one row.
pub open spec fn cells_text(smart: bool, cpus: Seq<Entry<u64, Pair<CpuTicks>>>, load: Load) -> Seq<
    u8,
>
    decreases cpus.len(),
{
    if cpus.len() == 0 {
        Seq::empty()
    } else {
        cells_text(smart, cpus.drop_last(), load) + cell_text(smart, cpus.last().value, load)
    }
}

/// One row of the matrix: the title, a blank, a cell for each CPU.
pub open spec fn row_text(
    s: &Settings,
    cpus: Seq<Entry<u64, Pair<CpuTicks>>>,
    load: Load,
    title: &str,
) -> Seq<u8> {
    heading_text(s.smart, title, s.colwidth as nat, s.colwidth as nat, Align::Right) + seq![
        0x20u8,
    ] + cells_text(s.smart, cpus, load) + newline_text(s.smart)
}

/// The whole block: four rows and an empty line, or nothing where no CPU is
/// known.
pub open spec fn cpu_text(s: &Settings, cpus: Seq<Entry<u64, Pair<CpuTicks>>>) -> Seq<u8> {
    if cpus.len() == 0 {
        Seq::empty()
    } else {
        row_text(s, cpus, Load::Iowait, "IOWAIT") + row_text(s, cpus, Load::System, "SYSTEM")
            + row_text(s, cpus, Load::User, "USER") + row_text(s, cpus, Load::Nice, "NICE")
            + newline_text(s.smart)
    }
}

/// The cells of a row hold no line feed.
pub proof fn lemma_flat_cells(smart: bool, cpus: Seq<Entry<u64, Pair<CpuTicks>>>, load: Load)
    ensures
        flat(cells_text(smart, cpus, load)),
    decreases cpus.len(),
{
    if cpus.len() > 0 {
        lemma_flat_cells(smart, cpus.drop_last(), load);
        let pair = cpus.last().value;
        let t = cpu_threshold(pair, load);
        lemma_flat_coloured(smart, t.severity(), t.val.text(0, 0));
        lemma_flat_join(cells_text(smart, cpus.drop_last(), load), cell_text(smart, pair, load));
    }
}

/// A row of the matrix is one whole line.
pub proof fn lemma_row_line(
    s: &Settings,
    cpus: Seq<Entry<u64, Pair<CpuTicks>>>,
    load: Load,
    title: &str,
)
    requires
        vstd::utf8::is_ascii_chars(title@),
        forall|i: int| 0 <= i < title@.len() ==> (#[trigger] title@[i]) != '\n',
    ensures
        whole_lines(row_text(s, cpus, load, title), 1),
{
    let w = s.colwidth as nat;
    lemma_flat_title(s.smart, title, w, w, Align::Right);
    lemma_flat_cells(s.smart, cpus, load);
    let content = heading_text(s.smart, title, w, w, Align::Right) + seq![0x20u8] + cells_text(
        s.smart,
        cpus,
        load,
    );
    assert(flat(content));
    lemma_line(content, s.smart);
}

/// The block prints five whole lines, or nothing where no CPU is known.
pub proof fn lemma_cpu_lines(s: &Settings, cpus: Seq<Entry<u64, Pair<CpuTicks>>>)
    ensures
        whole_lines(
            cpu_text(s, cpus),
            if cpus.len() == 0 {
                0
            } else {
                5
            },
        ),
{
    if cpus.len() > 0 {
        reveal_strlit("IOWAIT");
        reveal_strlit("SYSTEM");
        reveal_strlit("USER");
        reveal_strlit("NICE");
        let a = row_text(s, cpus, Load::Iowait, "IOWAIT");
        let b = row_text(s, cpus, Load::System, "SYSTEM");
        let c = row_text(s, cpus, Load::User, "USER");
        let d = row_text(s, cpus, Load::Nice, "NICE");
        lemma_row_line(s, cpus, Load::Iowait, "IOWAIT");
        lemma_row_line(s, cpus, Load::System, "SYSTEM");
        lemma_row_line(s, cpus, Load::User, "USER");
        lemma_row_line(s, cpus, Load::Nice, "NICE");
        lemma_line(Seq::empty(), s.smart);
        lemma_count_add(a, b, 0x0a);
        lemma_count_add(a + b, c, 0x0a);
        lemma_count_add(a + b + c, d, 0x0a);
        lemma_count_add(a + b + c + d, newline_text(s.smart), 0x0a);
    } else {
        assert(count(Seq::<u8>::empty(), 0x0a) == 0);
    }
}

/// What a row of the matrix shows before its end.
pub open spec fn row_content(
    s: &Settings,
    cpus: Seq<Entry<u64, Pair<CpuTicks>>>,
    load: Load,
    title: &str,
) -> Seq<u8> {
    heading_text(s.smart, title, s.colwidth as nat, s.colwidth as nat, Align::Right) + seq![
        0x20u8,
    ] + cells_text(s.smart, cpus, load)
}

/// Without colours every CPU has one character in a row, and none of them
/// is a carriage return.
pub proof fn lemma_cells_width(cpus: Seq<Entry<u64, Pair<CpuTicks>>>, load: Load)
    ensures
        width(cells_text(false, cpus, load)) == cpus.len(),
        cells_text(false, cpus, load).len() == cpus.len(),
        cpus.len() > 0 ==> cells_text(false, cpus, load).last() != 0x0d,
    decreases cpus.len(),
{
    if cpus.len() > 0 {
        lemma_cells_width(cpus.drop_last(), load);
        let cell = cell_text(false, cpus.last().value, load);
        assert(cell.len() == 1 && cell[0] != 0x0d && cell[0] < 0x80);
        lemma_width_plain(cell);
        lemma_width_join(cells_text(false, cpus.drop_last(), load), cell);
    }
}

/// Without colours a row is as wide as the title's column, a blank, and a
/// character for each CPU.
pub proof fn lemma_row_width(
    s: &Settings,
    cpus: Seq<Entry<u64, Pair<CpuTicks>>>,
    load: Load,
    title: &str,
)
    requires
        !s.smart,
        cpus.len() > 0,
    ensures
        width(row_content(s, cpus, load, title)) == s.colwidth + 1 + cpus.len(),
        without_cr(row_content(s, cpus, load, title)) == row_content(s, cpus, load, title),
        row_text(s, cpus, load, title) == row_content(s, cpus, load, title) + seq![0x0au8],
{
    let w = s.colwidth as nat;
    let head = heading_text(s.smart, title, w, w, Align::Right);
    lemma_fit_width(lit(title), w, Align::Right);
    lemma_cells_width(cpus, load);
    lemma_width_plain(seq![0x20u8]);
    lemma_width_join(head, seq![0x20u8]);
    lemma_width_join(head + seq![0x20u8], cells_text(s.smart, cpus, load));
    assert(row_content(s, cpus, load, title).last() == cells_text(s.smart, cpus, load).last());
}

/// Whether a row is as it is without colours: its content holds no line
/// feed, ends in no carriage return and is as wide as the block, and the
/// row is its content and a line feed.
pub open spec fn row_plain(
    s: &Settings,
    cpus: Seq<Entry<u64, Pair<CpuTicks>>>,
    load: Load,
    title: &str,
) -> bool {
    let content = row_content(s, cpus, load, title);
    &&& flat(content)
    &&& width(content) == s.colwidth + 1 + cpus.len()
    &&& without_cr(content) == content
    &&& row_text(s, cpus, load, title) == content + seq![0x0au8]
}

/// Without colours the four rows are as `row_plain` says.
pub proof fn lemma_rows_plain(s: &Settings, cpus: Seq<Entry<u64, Pair<CpuTicks>>>)
    requires
        !s.smart,
        cpus.len() > 0,
    ensures
        row_plain(s, cpus, Load::Iowait, "IOWAIT"),
        row_plain(s, cpus, Load::System, "SYSTEM"),
        row_plain(s, cpus, Load::User, "USER"),
        row_plain(s, cpus, Load::Nice, "NICE"),
{
    reveal_strlit("IOWAIT");
    reveal_strlit("SYSTEM");
    reveal_strlit("USER");
    reveal_strlit("NICE");
    lemma_row_line(s, cpus, Load::Iowait, "IOWAIT");
    lemma_row_line(s, cpus, Load::System, "SYSTEM");
    lemma_row_line(s, cpus, Load::User, "USER");
    lemma_row_line(s, cpus, Load::Nice, "NICE");
    lemma_row_width(s, cpus, Load::Iowait, "IOWAIT");
    lemma_row_width(s, cpus, Load::System, "SYSTEM");
    lemma_row_width(s, cpus, Load::User, "USER");
    lemma_row_width(s, cpus, Load::Nice, "NICE");
    lemma_content_flat(row_content(s, cpus, Load::Iowait, "IOWAIT"));
    lemma_content_flat(row_content(s, cpus, Load::System, "SYSTEM"));
    lemma_content_flat(row_content(s, cpus, Load::User, "USER"));
    lemma_content_flat(row_content(s, cpus, Load::Nice, "NICE"));
}

/// Four lines and an empty line, each ended by a line feed, are read back
/// as they are, where none of the four holds a line feed or ends in a
/// carriage return.
pub proof fn lemma_four_lines(a: Seq<u8>, b: Seq<u8>, c: Seq<u8>, d: Seq<u8>)
    requires
        flat(a) && without_cr(a) == a,
        flat(b) && without_cr(b) == b,
        flat(c) && without_cr(c) == c,
        flat(d) && without_cr(d) == d,
    ensures
        lines((a + seq![0x0au8]) + (b + seq![0x0au8]) + (c + seq![0x0au8]) + (d + seq![0x0au8])
            + seq![0x0au8]) == seq![a, b, c, d, Seq::<u8>::empty()],
{
    let e = Seq::<u8>::empty();
    let nl = seq![0x0au8];
    let x1 = e + a + nl;
    let x2 = x1 + b + nl;
    let x3 = x2 + c + nl;
    let x4 = x3 + d + nl;
    let x5 = x4 + e + nl;
    lemma_lines_line(e, a);
    lemma_lines_line(x1, b);
    lemma_lines_line(x2, c);
    lemma_lines_line(x3, d);
    lemma_lines_line(x4, e);
    assert(lines(e) =~= Seq::<Seq<u8>>::empty());
    assert(without_cr(e) =~= e);
    assert((a + nl) + (b + nl) + (c + nl) + (d + nl) + nl =~= x5);
    assert(lines(x5) =~= seq![a, b, c, d, e]);
}

/// Without colours the block has five lines where it has any: the four
/// rows, each as wide as the block, and an empty line.
pub proof fn lemma_cpu_rows(s: &Settings, cpus: Seq<Entry<u64, Pair<CpuTicks>>>)
    requires
        !s.smart,
        cpus.len() > 0,
    ensures
        lines(cpu_text(s, cpus)) == seq![
            row_content(s, cpus, Load::Iowait, "IOWAIT"),
            row_content(s, cpus, Load::System, "SYSTEM"),
            row_content(s, cpus, Load::User, "USER"),
            row_content(s, cpus, Load::Nice, "NICE"),
            Seq::<u8>::empty(),
        ],
        forall|i: int|
            0 <= i < 4 ==> width(#[trigger] lines(cpu_text(s, cpus))[i]) == s.colwidth + 1
                + cpus.len(),
{
    lemma_rows_plain(s, cpus);
    lemma_four_lines(
        row_content(s, cpus, Load::Iowait, "IOWAIT"),
        row_content(s, cpus, Load::System, "SYSTEM"),
        row_content(s, cpus, Load::User, "USER"),
        row_content(s, cpus, Load::Nice, "NICE"),
    );
}

/// A line's content holds no line feed where the line is one whole line.
pub proof fn lemma_content_flat(content: Seq<u8>)
    requires
        whole_lines(content + seq![0x0au8], 1),
    ensures
        flat(content),
{
    lemma_count_add(content, seq![0x0au8], 0x0a);
    assert(count(seq![0x0au8], 0x0a) == 1) by {
        assert(seq![0x0au8].drop_last() =~= Seq::<u8>::empty());
        reveal_with_fuel(count, 2);
    }
    lemma_count_flat(content);
}

/// One line of the kernel's table, read.
#[derive(Clone, Copy)]
pub struct CpuRecord {
    pub id: u64,
    pub ticks: CpuTicks,
}

/// Whether a line of the table is that of one CPU: its first field begins
/// with `cpu`.
pub open spec fn is_cpu_line(line: Seq<u8>) -> bool {
    fields(line).len() > 0 && has_prefix(fields(line)[0], lit("cpu"))
}

/// What the line of one CPU says: the CPU's number behind `cpu`, then the
/// ticks for user, nice, system, idle and iowait. A line with fewer fields,
/// with a field that is no number, or whose ticks do not add up in 64 bits,
/// says nothing.
pub open spec fn cpu_record(line: Seq<u8>) -> Option<CpuRecord> {
    let f = fields(line);
    if f.len() < 6 || !has_prefix(f[0], lit("cpu")) {
        None
    } else {
        match (
            number(f[0].skip(lit("cpu").len() as int)),
            number(f[1]),
            number(f[2]),
            number(f[3]),
            number(f[4]),
            number(f[5]),
        ) {
            (Some(id), Some(user), Some(nice), Some(system), Some(idle), Some(iowait)) => {
                if user + nice + system + idle + iowait <= u64::MAX {
                    Some(
                        CpuRecord {
                            id,
                            ticks: CpuTicks {
                                user,
                                nice,
                                system,
                                iowait,
                                idle,
                                total: (user + nice + system + idle + iowait) as u64,
                            },
                        },
                    )
                } else {
                    None
                }
            },
            _ => None,
        }
    }
}

/// What the lines from the one at index `from` on say: a record for each
/// line up to the first that is not that of a CPU, or nothing where one of
/// those lines says nothing.
pub open spec fn cpu_records(ls: Seq<Seq<u8>>, from: int) -> Option<Seq<CpuRecord>>
    decreases ls.len() - from,
{
    if from < 0 || from >= ls.len() || !is_cpu_line(ls[from]) {
        Some(Seq::empty())
    } else {
        match (cpu_record(ls[from]), cpu_records(ls, from + 1)) {
            (Some(r), Some(rest)) => Some(seq![r] + rest),
            _ => None,
        }
    }
}

/// What the kernel's table says. Its first line, the sum over all CPUs, is
/// passed over.
pub open spec fn stat_records(content: Seq<u8>) -> Option<Seq<CpuRecord>> {
    cpu_records(lines(content), 1)
}

/// The CPUs after the records of one tick were taken in.
pub open spec fn cpu_fold(cpus: Seq<Entry<u64, Pair<CpuTicks>>>, records: Seq<CpuRecord>) -> Seq<
    Entry<u64, Pair<CpuTicks>>,
>
    decreases records.len(),
{
    if records.len() == 0 {
        cpus
    } else {
        sampled(
            cpu_fold(cpus, records.drop_last()),
            records.last().id,
            CpuTicks::zero(),
            records.last().ticks,
        )
    }
}

/// Reads the line of one CPU.
pub fn read_cpu_line(line: &[u8]) -> (r: Option<CpuRecord>)
    ensures
        r == cpu_record(line@),
        is_cpu_line(line@) || r is None,
{
    let f = split_fields(line);
    let p = "cpu".as_bytes();
    assert(forall|i: int| 0 <= i < f@.len() ==> texts(f@)[i] == #[trigger] f@[i]@);
    if f.len() < 6 || !starts_with(f[0].as_slice(), p) {
        return None;
    }
    let head = f[0].as_slice();
    let tail = vstd::slice::slice_subrange(head, p.len(), head.len());
    assert(tail@ =~= head@.skip(p@.len() as int));
    let id = parse_number(tail);
    let user = parse_number(f[1].as_slice());
    let nice = parse_number(f[2].as_slice());
    let system = parse_number(f[3].as_slice());
    let idle = parse_number(f[4].as_slice());
    let iowait = parse_number(f[5].as_slice());
    match (id, user, nice, system, idle, iowait) {
        (Some(id), Some(user), Some(nice), Some(system), Some(idle), Some(iowait)) => {
            let sum = user as u128 + nice as u128 + system as u128 + idle as u128 + iowait as u128;
            if sum <= u64::MAX as u128 {
                Some(
                    CpuRecord {
                        id,
                        ticks: CpuTicks { user, nice, system, iowait, idle, total: sum as u64 },
                    },
                )
            } else {
                None
            }
        },
        _ => None,
    }
}

/// Whether a line is that of one CPU.
pub fn cpu_line(line: &[u8]) -> (r: bool)
    ensures
        r == is_cpu_line(line@),
{
    let f = split_fields(line);
    assert(forall|i: int| 0 <= i < f@.len() ==> texts(f@)[i] == #[trigger] f@[i]@);
    f.len() > 0 && starts_with(f[0].as_slice(), "cpu".as_bytes())
}

/// Reads the kernel's table.
pub fn read_stat(content: &[u8]) -> (r: Option<Vec<CpuRecord>>)
    ensures
        match r {
            Some(v) => stat_records(content@) == Some(v@),
            None => stat_records(content@) is None,
        },
{
    let ls = split_lines(content);
    let mut out: Vec<CpuRecord> = Vec::new();
    let ghost all = texts(ls@);
    let mut i: usize = 1;
    assert(out@ =~= Seq::<CpuRecord>::empty());
    proof {
        match cpu_records(all, 1) {
            Some(rest) => {
                assert(out@ + rest =~= rest);
            },
            None => {},
        }
    }
    while i < ls.len()
        invariant
            1 <= i,
            all == texts(ls@),
            all == lines(content@),
            cpu_records(all, 1) == (match cpu_records(all, i as int) {
                Some(rest) => Some(out@ + rest),
                None => None,
            }),
        decreases ls.len() - i,
    {
        assert(all[i as int] == ls@[i as int]@);
        let line = ls[i].as_slice();
        if !cpu_line(line) {
            assert(out@ + Seq::<CpuRecord>::empty() =~= out@);
            return Some(out);
        }
        match read_cpu_line(line) {
            Some(r) => {
                let ghost before = out@;
                out.push(r);
                proof {
                    match cpu_records(all, i + 1) {
                        Some(rest) => {
                            assert(before + (seq![r] + rest) =~= out@ + rest);
                        },
                        None => {},
                    }
                }
            },
            None => {
                return None;
            },
        }
        i += 1;
    }
    proof {
        assert(out@ + Seq::<CpuRecord>::empty() =~= out@);
    }
    Some(out)
}

/// What a tick reads for the CPU block.
pub struct CpuSource {
    /// The kernel's table of CPU ticks, or `None` where it could not be read.
    pub stat: Option<Vec<u8>>,
}

/// The CPU block. The CPUs are held in a map that keeps them in the order
/// of their numbers.
pub struct CpuStats {
    state: BTreeMap<u64, Sampled<CpuTicks>>,
    model: Ghost<Seq<Entry<u64, Pair<CpuTicks>>>>,
}

impl CpuStats {
    /// The CPUs in ascending order of their numbers.
    pub closed spec fn cpus(&self) -> Seq<Entry<u64, Pair<CpuTicks>>> {
        self.model@
    }

    /// The CPUs are those that the map holds: they stand in ascending
    /// order, each once.
    pub closed spec fn inv(&self) -> bool {
        stands_for(self.model@, self.state@)
    }

    /// The CPUs as the map holds them, in ascending order of their numbers.
    fn listed(&self) -> (v: Vec<Slot<u64, Pair<CpuTicks>>>)
        requires
            self.inv(),
        ensures
            slot_entries(v@) == self.cpus(),
    {
        let v = entries(&self.state);
        proof {
            lemma_stands_unique(slot_entries(v@), self.model@, self.state@);
        }
        v
    }

    /// The block prints as many whole lines as it has rows.
    pub proof fn lemma_lines(&self, s: &Settings)
        ensures
            whole_lines(self.text(s), self.height(s) as int),
    {
        lemma_cpu_lines(s, self.cpus());
    }

    /// Without colours each line of the block shows nothing or is as wide
    /// as the block, where its width is a number that is not cut down.
    pub proof fn lemma_line_width(&self, s: &Settings, i: int)
        requires
            !s.smart,
            s.colwidth + 1 + self.cpus().len() <= 0xffff,
        ensures
            is_blank_line(line_or_empty(lines(self.text(s)), i)) || width(
                line_or_empty(lines(self.text(s)), i),
            ) == self.width(s),
    {
        if self.cpus().len() > 0 {
            lemma_cpu_rows(s, self.cpus());
        } else {
            assert(lines(self.text(s)) =~= Seq::<Seq<u8>>::empty());
        }
    }

    /// A block that is in order holds its CPUs in ascending order of their
    /// numbers, each once.
    pub proof fn lemma_ascending(&self)
        requires
            self.inv(),
        ensures
            ascending(self.cpus()),
    {
    }

    /// The number of CPUs.
    pub fn count(&self) -> (n: usize)
        requires
            self.inv(),
        ensures
            n == self.cpus().len(),
    {
        self.listed().len()
    }

    /// The `i`-th CPU in ascending order of the numbers.
    pub fn cpu(&self, i: usize) -> (c: Slot<u64, Pair<CpuTicks>>)
        requires
            self.inv(),
            i < self.cpus().len(),
        ensures
            c@ == self.cpus()[i as int],
    {
        let v = self.listed();
        assert(slot_entries(v@)[i as int] == v@[i as int]@);
        Slot { key: v[i].key, value: v[i].value, stale: v[i].stale }
    }
}

/// Appends one row of the matrix.
fn push_row(
    out: &mut Vec<u8>,
    s: &Settings,
    listed: &Vec<Slot<u64, Pair<CpuTicks>>>,
    load: Load,
    title: &str,
)
    ensures
        final(out)@ == old(out)@ + row_text(s, slot_entries(listed@), load, title),
{
    let ghost cpus = slot_entries(listed@);
    let w = s.colwidth as usize;
    push_heading(out, s.smart, title, w, w, Align::Right);
    out.push(0x20u8);
    let ghost base = out@;
    let n = listed.len();
    let mut i: usize = 0;
    while i < n
        invariant
            i <= n,
            n == listed@.len(),
            cpus == slot_entries(listed@),
            out@ == base + cells_text(s.smart, cpus.take(i as int), load),
        decreases n - i,
    {
        proof {
            assert(cpus.take(i + 1).drop_last() =~= cpus.take(i as int));
            assert(cpus.take(i + 1).last() == cpus[i as int]);
            assert(cpus[i as int] == listed@[i as int]@);
        }
        let pair = listed[i].value;
        push_cell(out, s.smart, pair, load);
        assert(out@ =~= base + cells_text(s.smart, cpus.take(i + 1), load));
        i += 1;
    }
    assert(cpus.take(n as int) =~= cpus);
    push_newline(out, s.smart);
    assert(out@ =~= old(out)@ + row_text(s, cpus, load, title));
}

/// Appends the cell of one CPU and one kind of load.
pub fn push_cell(out: &mut Vec<u8>, smart: bool, pair: Pair<CpuTicks>, load: Load)
    ensures
        final(out)@ == old(out)@ + cell_text(smart, pair, load),
{
    let total = minus_of(pair.cur.total, pair.prev.total);
    if total == 0 {
        out.push(0x20u8);
        assert(out@ =~= old(out)@ + cell_text(smart, pair, load));
        return ;
    }
    let idle = minus_of(pair.cur.idle, pair.prev.idle) as u128;
    let none = CpuUsage { used: 0, total: 1 };
    let full = CpuUsage { used: 1, total: 1 };
    let t = Threshold {
        val: CpuUsage { used: minus_of(pair.cur.pick(load), pair.prev.pick(load)), total },
        med: if 5 * idle > 3 * (total as u128) {
            full
        } else {
            none
        },
        high: if 5 * idle > 2 * (total as u128) {
            full
        } else {
            none
        },
        crit: if 5 * idle > total as u128 {
            full
        } else {
            none
        },
    };
    assert(t == cpu_threshold(pair, load));
    let inner = t.val.format(0, 0);
    let severity = if smart {
        t.level()
    } else {
        0
    };
    push_coloured(out, smart, severity, inner.as_slice());
}

impl StatBlock for CpuStats {
    type Source = CpuSource;

    open spec fn wf(&self) -> bool {
        &&& self.inv()
        &&& forall|i: int| 0 <= i < self.cpus().len() ==> !(#[trigger] self.cpus()[i]).stale.0
    }

    open spec fn width(&self, s: &Settings) -> u16 {
        if self.cpus().len() == 0 {
            0
        } else {
            clamp16(s.colwidth + 1 + self.cpus().len())
        }
    }

    open spec fn height(&self, s: &Settings) -> u16 {
        if self.cpus().len() == 0 {
            0
        } else {
            5
        }
    }

    open spec fn text(&self, s: &Settings) -> Seq<u8> {
        cpu_text(s, self.cpus())
    }

    open spec fn fresh(&self) -> bool {
        self.cpus().len() == 0
    }

    open spec fn stepped(&self, source: &CpuSource, next: &Self, ok: bool) -> bool {
        match source.stat {
            None => ok && next.cpus() == self.cpus(),
            Some(content) => match stat_records(content@) {
                None => !ok && next.cpus() == self.cpus(),
                Some(records) => ok && next.cpus() == kept(
                    cpu_fold(marked(self.cpus()), records),
                ) && forall|i: int|
                    0 <= i < next.cpus().len() ==> !(#[trigger] next.cpus()[i]).stale.0,
            },
        }
    }

    proof fn lemma_blank(&self, s: &Settings) {
    }

    fn new() -> (b: Self) {
        let b = CpuStats { state: BTreeMap::new(), model: Ghost(Seq::empty()) };
        proof {
            assert forall|k: u64|
                entry_of(b.model@, k.rank()) == #[trigger] held(b.state@, k) by {
                lemma_not_held(b.model@, k.rank());
            }
        }
        b
    }

    /// Takes in the kernel's table. Where it could not be read or makes no
    /// sense, nothing changes. Else each
    /// CPU of the table has its sample, and a CPU that the table leaves out
    /// is gone.
    fn update(&mut self, source: &CpuSource) -> (ok: bool) {
        let content = match &source.stat {
            None => {
                return true;
            },
            Some(content) => content,
        };
        let records = match read_stat(content.as_slice()) {
            None => {
                return false;
            },
            Some(records) => records,
        };
        let ghost start = marked(self.model@);
        proof {
            lemma_stands_marked(self.model@, self.state@);
        }
        mark_all(&mut self.state);
        let mut i: usize = 0;
        while i < records.len()
            invariant
                i <= records.len(),
                stands_for(cpu_fold(start, records@.take(i as int)), self.state@),
            decreases records.len() - i,
        {
            proof {
                assert(records@.take(i + 1).drop_last() =~= records@.take(i as int));
                assert(records@.take(i + 1).last() == records@[i as int]);
                lemma_stands_taken(
                    cpu_fold(start, records@.take(i as int)),
                    self.state@,
                    records@[i as int].id,
                    CpuTicks::zero(),
                    records@[i as int].ticks,
                );
            }
            let r = records[i];
            take_sample(
                &mut self.state,
                r.id,
                CpuTicks { user: 0, nice: 0, system: 0, iowait: 0, idle: 0, total: 0 },
                r.ticks,
            );
            i += 1;
        }
        assert(records@.take(i as int) =~= records@);
        proof {
            lemma_stands_kept(cpu_fold(start, records@), self.state@);
            lemma_kept(cpu_fold(start, records@));
        }
        sweep(&mut self.state);
        self.model = Ghost(kept(cpu_fold(start, records@)));
        true
    }

    fn columns(&self, s: &Settings) -> (c: u16) {
        let n = self.count();
        if n == 0 {
            0
        } else if n > 0xffff {
            0xffff
        } else {
            clamped(s.colwidth as usize + 1 + n)
        }
    }

    fn rows(&self, s: &Settings) -> (r: u16) {
        if self.count() == 0 {
            0
        } else {
            5
        }
    }

    fn render(&self, s: &Settings) -> (out: Vec<u8>) {
        let mut out: Vec<u8> = Vec::new();
        let listed = self.listed();
        if listed.len() == 0 {
            return out;
        }
        push_row(&mut out, s, &listed, Load::Iowait, "IOWAIT");
        push_row(&mut out, s, &listed, Load::System, "SYSTEM");
        push_row(&mut out, s, &listed, Load::User, "USER");
        push_row(&mut out, s, &listed, Load::Nice, "NICE");
        push_newline(&mut out, s.smart);
        assert(out@ =~= cpu_text(s, self.cpus()));
        out
    }
}

} // verus!
