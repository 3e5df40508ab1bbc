//! The pressure block: how much of the time tasks stalled for want of CPU,
//! memory or I/O, averaged over ten seconds, a minute and five minutes.

use crate::common::{
    clamp16, clamped, heading_text, lemma_flat_threshold, lemma_flat_title, lemma_line,
    newline_text, push_heading, push_newline, push_threshold, threshold_text, Percentage,
    Settings, StatBlock, Threshold,
};
use crate::layout::{count, lemma_count_add, whole_lines};
use crate::parse::{
    decimal, fields, lines, parse_decimal, rsplit_once, same_bytes, split_fields, split_last,
    split_lines, texts, Decimal,
};
use crate::text::{
    fit, flat, lemma_flat_fit, lemma_flat_lit, lemma_flat_next, lit, push_blank, push_bytes,
    push_fitted, Align,
};
use vstd::prelude::*;

verus! {

/// The three averages of one kind of stall.
#[derive(Clone, Copy)]
pub struct Averages {
    pub avg10: Threshold<Percentage>,
    pub avg60: Threshold<Percentage>,
    pub avg300: Threshold<Percentage>,
}

/// The stalls of one resource: of some tasks, and of all tasks at once.
#[derive(Clone, Copy)]
pub struct Pressure {
    pub some: Averages,
    pub full: Averages,
}

/// The three windows over which stalls are averaged.
#[derive(Clone, Copy, Debug, PartialEq, Eq, Structural)]
pub enum Window {
    Avg10,
    Avg60,
    Avg300,
}

/// A share of `d` percent with the levels from which on stalls are coloured:
/// 1 %, 5 % and 10 %.
pub open spec fn stall(d: Decimal) -> Threshold<Percentage> {
    Threshold {
        val: Percentage { part: d.units, whole: (d.scale * 100) as u64 },
        med: Percentage { part: 1, whole: 100 },
        high: Percentage { part: 5, whole: 100 },
        crit: Percentage { part: 10, whole: 100 },
    }
}

/// No stall at all.
pub open spec fn no_stall() -> Threshold<Percentage> {
    stall(Decimal { units: 0, scale: 1 })
}

/// The stalls of a resource before anything was read.
pub open spec fn pressure_start() -> Pressure {
    let a = Averages { avg10: no_stall(), avg60: no_stall(), avg300: no_stall() };
    Pressure { some: a, full: a }
}

impl Averages {
    pub open spec fn valid(&self) -> bool {
        self.avg10.valid() && self.avg60.valid() && self.avg300.valid()
    }

    /// The average over one window.
    pub open spec fn of(&self, w: Window) -> Threshold<Percentage> {
        match w {
            Window::Avg10 => self.avg10,
            Window::Avg60 => self.avg60,
            Window::Avg300 => self.avg300,
        }
    }

    /// The average over one window.
    pub fn pick(&self, w: Window) -> (t: Threshold<Percentage>)
        ensures
            t == self.of(w),
    {
        match w {
            Window::Avg10 => self.avg10,
            Window::Avg60 => self.avg60,
            Window::Avg300 => self.avg300,
        }
    }
}

impl Pressure {
    pub open spec fn valid(&self) -> bool {
        self.some.valid() && self.full.valid()
    }
}

/// The window that a name stands for.
pub open spec fn window_of(name: Seq<u8>) -> Option<Window> {
    if name == lit("avg10") {
        Some(Window::Avg10)
    } else if name == lit("avg60") {
        Some(Window::Avg60)
    } else if name == lit("avg300") {
        Some(Window::Avg300)
    } else {
        None
    }
}

/// The averages after one item of a line was taken in. An item is a name,
/// an equals sign and a value. An item without an equals sign, or whose name
/// is not that of a window, changes nothing. An item that names a window
/// but gives no number in decimal notation makes no sense.
pub open spec fn item_step(a: Averages, item: Seq<u8>) -> Option<Averages> {
    match rsplit_once(item, seq![0x3du8]) {
        None => Some(a),
        Some((name, value)) => match window_of(name) {
            None => Some(a),
            Some(w) => match decimal(value) {
                None => None,
                Some(d) => Some(
                    match w {
                        Window::Avg10 => Averages { avg10: stall(d), ..a },
                        Window::Avg60 => Averages { avg60: stall(d), ..a },
                        Window::Avg300 => Averages { avg300: stall(d), ..a },
                    },
                ),
            },
        },
    }
}

/// The averages after the items from the one at index `from` on were taken
/// in.
pub open spec fn items_from(a: Averages, f: Seq<Seq<u8>>, from: int) -> Option<Averages>
    decreases f.len() - from,
{
    if from < 0 || from >= f.len() {
        Some(a)
    } else {
        match item_step(a, f[from]) {
            None => None,
            Some(next) => items_from(next, f, from + 1),
        }
    }
}

/// The stalls of a resource after one line was taken in. A line begins with
/// `some` or `full`; any other line changes nothing.
pub open spec fn psi_step(p: Pressure, line: Seq<u8>) -> Option<Pressure> {
    let f = fields(line);
    if f.len() > 0 && f[0] == lit("some") {
        match items_from(p.some, f, 1) {
            Some(a) => Some(Pressure { some: a, ..p }),
            None => None,
        }
    } else if f.len() > 0 && f[0] == lit("full") {
        match items_from(p.full, f, 1) {
            Some(a) => Some(Pressure { full: a, ..p }),
            None => None,
        }
    } else {
        Some(p)
    }
}

/// The stalls of a resource after the lines from the one at index `from` on
/// were taken in.
pub open spec fn psi_from(p: Pressure, ls: Seq<Seq<u8>>, from: int) -> Option<Pressure>
    decreases ls.len() - from,
{
    if from < 0 || from >= ls.len() {
        Some(p)
    } else {
        match psi_step(p, ls[from]) {
            None => None,
            Some(next) => psi_from(next, ls, from + 1),
        }
    }
}

/// The stalls of a resource after its file was taken in. A file that could
/// not be read changes nothing.
pub open spec fn psi_after(p: Pressure, file: Option<Vec<u8>>) -> Option<Pressure> {
    match file {
        None => Some(p),
        Some(content) => psi_from(p, lines(content@), 0),
    }
}

/// Takes one item of a line in.
pub fn read_item(a: Averages, item: &[u8]) -> (r: Option<Averages>)
    requires
        a.valid(),
    ensures
        r == item_step(a, item@),
        r matches Some(n) ==> n.valid(),
{
    let mut eq: Vec<u8> = Vec::new();
    eq.push(0x3du8);
    assert(eq@ =~= seq![0x3du8]);
    let (name, value) = match split_last(item, eq.as_slice()) {
        None => {
            return Some(a);
        },
        Some(parts) => parts,
    };
    let w = if same_bytes(name, "avg10".as_bytes()) {
        Window::Avg10
    } else if same_bytes(name, "avg60".as_bytes()) {
        Window::Avg60
    } else if same_bytes(name, "avg300".as_bytes()) {
        Window::Avg300
    } else {
        return Some(a);
    };
    let d = parse_decimal(value)?;
    proof {
        crate::decimal::lemma_pow10_grows(0, 0);
        crate::decimal::lemma_pow10_max();
        let k = if crate::parse::point_at(value@) < value@.len() {
            value@.skip(crate::parse::point_at(value@) + 1).len()
        } else {
            0
        };
        crate::decimal::lemma_pow10_grows(k, crate::decimal::MAX_PRECISION as nat);
    }
    let t = Threshold {
        val: Percentage { part: d.units, whole: d.scale * 100 },
        med: Percentage { part: 1, whole: 100 },
        high: Percentage { part: 5, whole: 100 },
        crit: Percentage { part: 10, whole: 100 },
    };
    let mut n = a;
    match w {
        Window::Avg10 => {
            n.avg10 = t;
        },
        Window::Avg60 => {
            n.avg60 = t;
        },
        Window::Avg300 => {
            n.avg300 = t;
        },
    }
    Some(n)
}

/// Takes the items of a line in, from the second field on.
pub fn read_items(a: Averages, f: &Vec<Vec<u8>>) -> (r: Option<Averages>)
    requires
        a.valid(),
    ensures
        r == items_from(a, texts(f@), 1),
        r matches Some(n) ==> n.valid(),
{
    let ghost all = texts(f@);
    let mut acc = a;
    let mut i: usize = 1;
    while i < f.len()
        invariant
            1 <= i,
            all == texts(f@),
            acc.valid(),
            items_from(a, all, 1) == items_from(acc, all, i as int),
        decreases f.len() - i,
    {
        assert(all[i as int] == f@[i as int]@);
        match read_item(acc, f[i].as_slice()) {
            None => {
                return None;
            },
            Some(next) => {
                acc = next;
            },
        }
        i += 1;
    }
    Some(acc)
}

/// Takes one line of a resource's file in.
pub fn read_psi_line(p: Pressure, line: &[u8]) -> (r: Option<Pressure>)
    requires
        p.valid(),
    ensures
        r == psi_step(p, line@),
        r matches Some(n) ==> n.valid(),
{
    let f = split_fields(line);
    assert(forall|i: int| 0 <= i < f@.len() ==> texts(f@)[i] == #[trigger] f@[i]@);
    if f.len() > 0 && same_bytes(f[0].as_slice(), "some".as_bytes()) {
        let a = read_items(p.some, &f)?;
        Some(Pressure { some: a, full: p.full })
    } else if f.len() > 0 && same_bytes(f[0].as_slice(), "full".as_bytes()) {
        let a = read_items(p.full, &f)?;
        Some(Pressure { some: p.some, full: a })
    } else {
        Some(p)
    }
}

/// Takes the file of a resource in.
pub fn read_psi(p: Pressure, file: &Option<Vec<u8>>) -> (r: Option<Pressure>)
    requires
        p.valid(),
    ensures
        r == psi_after(p, *file),
        r matches Some(n) ==> n.valid(),
{
    let content = match file {
        None => {
            return Some(p);
        },
        Some(content) => content,
    };
    let ls = split_lines(content.as_slice());
    let ghost all = texts(ls@);
    let mut acc = p;
    let mut i: usize = 0;
    while i < ls.len()
        invariant
            all == texts(ls@),
            all == lines(content@),
            *file == Some(*content),
            acc.valid(),
            psi_from(p, all, 0) == psi_from(acc, all, i as int),
        decreases ls.len() - i,
    {
        assert(all[i as int] == ls@[i as int]@);
        match read_psi_line(acc, ls[i].as_slice()) {
            None => {
                return None;
            },
            Some(next) => {
                acc = next;
            },
        }
        i += 1;
    }
    Some(acc)
}

/// What a tick reads for the pressure block: the file of each resource, or
/// `None` where it could not be read.
pub struct PressureSource {
    pub cpu: Option<Vec<u8>>,
    pub memory: Option<Vec<u8>>,
    pub io: Option<Vec<u8>>,
}

/// The pressure block.
pub struct PressureStats {
    cpu: Pressure,
    memory: Pressure,
    io: Pressure,
    present: bool,
}

/// What the block holds.
pub struct PressureState {
    pub cpu: Pressure,
    pub memory: Pressure,
    pub io: Pressure,
    /// Whether the last tick could read any of the three files.
    pub present: bool,
}

/// What the block holds after a tick, or nothing where what was read makes
/// no sense.
pub open spec fn pressure_after(st: PressureState, source: &PressureSource) -> Option<
    PressureState,
> {
    match (
        psi_after(st.cpu, source.cpu),
        psi_after(st.memory, source.memory),
        psi_after(st.io, source.io),
    ) {
        (Some(cpu), Some(memory), Some(io)) => Some(
            PressureState {
                cpu,
                memory,
                io,
                present: source.cpu is Some || source.memory is Some || source.io is Some,
            },
        ),
        _ => None,
    }
}

/// The headings of the block.
pub open spec fn psi_head(s: &Settings) -> Seq<u8> {
    let w = s.colwidth as nat;
    let b = seq![0x20u8];
    heading_text(s.smart, "PSI", w, w, Align::Right) + b + heading_text(
        s.smart,
        "SOME_CPU",
        w,
        w,
        Align::Right,
    ) + b + heading_text(s.smart, "FULL_CPU", w, w, Align::Right) + b + heading_text(
        s.smart,
        "SOME_MEM",
        w,
        w,
        Align::Right,
    ) + b + heading_text(s.smart, "FULL_MEM", w, w, Align::Right) + b + heading_text(
        s.smart,
        "SOME_IO",
        w,
        w,
        Align::Right,
    ) + b + heading_text(s.smart, "FULL_IO", w, w, Align::Right) + newline_text(s.smart)
}

/// The line of one window: its name, then for each resource the stalls of
/// some and of all tasks.
pub open spec fn psi_row(s: &Settings, st: PressureState, win: Window, label: &str) -> Seq<u8> {
    let w = s.colwidth as nat;
    let b = seq![0x20u8];
    fit(lit(label), w, None, Align::Right) + b + threshold_text(s.smart, st.cpu.some.of(win), w, 2)
        + b + threshold_text(s.smart, st.cpu.full.of(win), w, 2) + b + threshold_text(
        s.smart,
        st.memory.some.of(win),
        w,
        2,
    ) + b + threshold_text(s.smart, st.memory.full.of(win), w, 2) + b + threshold_text(
        s.smart,
        st.io.some.of(win),
        w,
        2,
    ) + b + threshold_text(s.smart, st.io.full.of(win), w, 2) + newline_text(s.smart)
}

/// The whole block: headings, a line for each window, an empty line; or
/// nothing where none of the three files could be read.
pub open spec fn psi_text(s: &Settings, st: PressureState) -> Seq<u8> {
    if !st.present {
        Seq::empty()
    } else {
        psi_head(s) + psi_row(s, st, Window::Avg10, "avg10") + psi_row(
            s,
            st,
            Window::Avg60,
            "avg60",
        ) + psi_row(s, st, Window::Avg300, "avg300") + newline_text(s.smart)
    }
}

/// The line of one window is one whole line.
pub proof fn lemma_psi_row(s: &Settings, st: PressureState, win: Window, label: &str)
    requires
        st.cpu.valid(),
        st.memory.valid(),
        st.io.valid(),
        vstd::utf8::is_ascii_chars(label@),
        forall|i: int| 0 <= i < label@.len() ==> (#[trigger] label@[i]) != '\n',
    ensures
        whole_lines(psi_row(s, st, win, label), 1),
{
    let w = s.colwidth as nat;
    lemma_flat_lit(label);
    lemma_flat_fit(lit(label), w, None, Align::Right);
    lemma_flat_threshold(s.smart, st.cpu.some.of(win), w, 2);
    lemma_flat_threshold(s.smart, st.cpu.full.of(win), w, 2);
    lemma_flat_threshold(s.smart, st.memory.some.of(win), w, 2);
    lemma_flat_threshold(s.smart, st.memory.full.of(win), w, 2);
    lemma_flat_threshold(s.smart, st.io.some.of(win), w, 2);
    lemma_flat_threshold(s.smart, st.io.full.of(win), w, 2);
    let c0 = fit(lit(label), w, None, Align::Right);
    let c1 = c0 + seq![0x20u8] + threshold_text(s.smart, st.cpu.some.of(win), w, 2);
    lemma_flat_next(c0, threshold_text(s.smart, st.cpu.some.of(win), w, 2));
    let c2 = c1 + seq![0x20u8] + threshold_text(s.smart, st.cpu.full.of(win), w, 2);
    lemma_flat_next(c1, threshold_text(s.smart, st.cpu.full.of(win), w, 2));
    let c3 = c2 + seq![0x20u8] + threshold_text(s.smart, st.memory.some.of(win), w, 2);
    lemma_flat_next(c2, threshold_text(s.smart, st.memory.some.of(win), w, 2));
    let c4 = c3 + seq![0x20u8] + threshold_text(s.smart, st.memory.full.of(win), w, 2);
    lemma_flat_next(c3, threshold_text(s.smart, st.memory.full.of(win), w, 2));
    let c5 = c4 + seq![0x20u8] + threshold_text(s.smart, st.io.some.of(win), w, 2);
    lemma_flat_next(c4, threshold_text(s.smart, st.io.some.of(win), w, 2));
    let content = c5 + seq![0x20u8] + threshold_text(s.smart, st.io.full.of(win), w, 2);
    lemma_flat_next(c5, threshold_text(s.smart, st.io.full.of(win), w, 2));
    lemma_line(content, s.smart);
}

/// No heading of the block holds a line feed.
pub proof fn lemma_psi_titles(s: &Settings)
    ensures
        flat(heading_text(s.smart, "PSI", s.colwidth as nat, s.colwidth as nat, Align::Right)),
        flat(heading_text(s.smart, "SOME_CPU", s.colwidth as nat, s.colwidth as nat, Align::Right)),
        flat(heading_text(s.smart, "FULL_CPU", s.colwidth as nat, s.colwidth as nat, Align::Right)),
        flat(heading_text(s.smart, "SOME_MEM", s.colwidth as nat, s.colwidth as nat, Align::Right)),
        flat(heading_text(s.smart, "FULL_MEM", s.colwidth as nat, s.colwidth as nat, Align::Right)),
        flat(heading_text(s.smart, "SOME_IO", s.colwidth as nat, s.colwidth as nat, Align::Right)),
        flat(heading_text(s.smart, "FULL_IO", s.colwidth as nat, s.colwidth as nat, Align::Right)),
{
    let w = s.colwidth as nat;
    reveal_strlit("PSI");
    reveal_strlit("SOME_CPU");
    reveal_strlit("FULL_CPU");
    reveal_strlit("SOME_MEM");
    reveal_strlit("FULL_MEM");
    reveal_strlit("SOME_IO");
    reveal_strlit("FULL_IO");
    lemma_flat_title(s.smart, "PSI", w, w, Align::Right);
    lemma_flat_title(s.smart, "SOME_CPU", w, w, Align::Right);
    lemma_flat_title(s.smart, "FULL_CPU", w, w, Align::Right);
    lemma_flat_title(s.smart, "SOME_MEM", w, w, Align::Right);
    lemma_flat_title(s.smart, "FULL_MEM", w, w, Align::Right);
    lemma_flat_title(s.smart, "SOME_IO", w, w, Align::Right);
    lemma_flat_title(s.smart, "FULL_IO", w, w, Align::Right);
}

/// The headings are one whole line.
pub proof fn lemma_psi_head(s: &Settings)
    ensures
        whole_lines(psi_head(s), 1),
{
    let w = s.colwidth as nat;
    lemma_psi_titles(s);
    let h0 = heading_text(s.smart, "PSI", w, w, Align::Right);
    let h1 = h0 + seq![0x20u8] + heading_text(s.smart, "SOME_CPU", w, w, Align::Right);
    lemma_flat_next(h0, heading_text(s.smart, "SOME_CPU", w, w, Align::Right));
    let h2 = h1 + seq![0x20u8] + heading_text(s.smart, "FULL_CPU", w, w, Align::Right);
    lemma_flat_next(h1, heading_text(s.smart, "FULL_CPU", w, w, Align::Right));
    let h3 = h2 + seq![0x20u8] + heading_text(s.smart, "SOME_MEM", w, w, Align::Right);
    lemma_flat_next(h2, heading_text(s.smart, "SOME_MEM", w, w, Align::Right));
    let h4 = h3 + seq![0x20u8] + heading_text(s.smart, "FULL_MEM", w, w, Align::Right);
    lemma_flat_next(h3, heading_text(s.smart, "FULL_MEM", w, w, Align::Right));
    let h5 = h4 + seq![0x20u8] + heading_text(s.smart, "SOME_IO", w, w, Align::Right);
    lemma_flat_next(h4, heading_text(s.smart, "SOME_IO", w, w, Align::Right));
    let h6 = h5 + seq![0x20u8] + heading_text(s.smart, "FULL_IO", w, w, Align::Right);
    lemma_flat_next(h5, heading_text(s.smart, "FULL_IO", w, w, Align::Right));
    lemma_line(h6, s.smart);
}

/// The lines of the three windows are one whole line each.
pub proof fn lemma_psi_rows(s: &Settings, st: PressureState)
    requires
        st.cpu.valid(),
        st.memory.valid(),
        st.io.valid(),
    ensures
        whole_lines(psi_row(s, st, Window::Avg10, "avg10"), 1),
        whole_lines(psi_row(s, st, Window::Avg60, "avg60"), 1),
        whole_lines(psi_row(s, st, Window::Avg300, "avg300"), 1),
{
    reveal_strlit("avg10");
    reveal_strlit("avg60");
    reveal_strlit("avg300");
    lemma_psi_row(s, st, Window::Avg10, "avg10");
    lemma_psi_row(s, st, Window::Avg60, "avg60");
    lemma_psi_row(s, st, Window::Avg300, "avg300");
}

/// The block prints five whole lines where it prints any: the headings, a
/// line for each window, and an empty line, which the four lines that the
/// block claims do not count.
pub proof fn lemma_psi_lines(s: &Settings, st: PressureState)
    requires
        st.cpu.valid(),
        st.memory.valid(),
        st.io.valid(),
    ensures
        whole_lines(
            psi_text(s, st),
            if st.present {
                5
            } else {
                0
            },
        ),
{
    if st.present {
        let h = psi_head(s);
        let a = psi_row(s, st, Window::Avg10, "avg10");
        let b = psi_row(s, st, Window::Avg60, "avg60");
        let c = psi_row(s, st, Window::Avg300, "avg300");
        lemma_psi_head(s);
        lemma_psi_rows(s, st);
        lemma_line(Seq::empty(), s.smart);
        lemma_count_add(h, a, 0x0a);
        lemma_count_add(h + a, b, 0x0a);
        lemma_count_add(h + a + b, c, 0x0a);
        lemma_count_add(h + a + b + c, newline_text(s.smart), 0x0a);
    } else {
        assert(count(Seq::<u8>::empty(), 0x0a) == 0);
    }
}

/// Appends the headings of the block.
pub fn push_psi_head(out: &mut Vec<u8>, s: &Settings)
    ensures
        final(out)@ == old(out)@ + psi_head(s),
{
    let w = s.colwidth as usize;
    let mut line: Vec<u8> = Vec::new();
    push_heading(&mut line, s.smart, "PSI", w, w, Align::Right);
    assert(line@ =~= heading_text(s.smart, "PSI", w as nat, w as nat, Align::Right));
    push_blank(&mut line);
    push_heading(&mut line, s.smart, "SOME_CPU", w, w, Align::Right);
    push_blank(&mut line);
    push_heading(&mut line, s.smart, "FULL_CPU", w, w, Align::Right);
    push_blank(&mut line);
    push_heading(&mut line, s.smart, "SOME_MEM", w, w, Align::Right);
    push_blank(&mut line);
    push_heading(&mut line, s.smart, "FULL_MEM", w, w, Align::Right);
    push_blank(&mut line);
    push_heading(&mut line, s.smart, "SOME_IO", w, w, Align::Right);
    push_blank(&mut line);
    push_heading(&mut line, s.smart, "FULL_IO", w, w, Align::Right);
    push_newline(&mut line, s.smart);
    push_bytes(out, line.as_slice());
}

impl PressureStats {
    /// What the block holds.
    pub closed spec fn state(&self) -> PressureState {
        PressureState { cpu: self.cpu, memory: self.memory, io: self.io, present: self.present }
    }

    /// Every share is a share of something.
    pub closed spec fn inv(&self) -> bool {
        self.cpu.valid() && self.memory.valid() && self.io.valid()
    }

    /// A block that is in order prints one whole line more than it has
    /// rows where it prints any: the empty line at its end is not counted.
    pub proof fn lemma_lines(&self, s: &Settings)
        requires
            self.inv(),
        ensures
            whole_lines(
                self.text(s),
                if self.state().present {
                    self.height(s) + 1
                } else {
                    0
                },
            ),
    {
        lemma_psi_lines(s, self.state());
    }

    /// Whether the last tick could read any of the three files.
    pub fn is_present(&self) -> (b: bool)
        ensures
            b == self.state().present,
    {
        self.present
    }

    /// Appends the line of one window.
    fn push_row(&self, out: &mut Vec<u8>, s: &Settings, win: Window, label: &str)
        requires
            self.inv(),
        ensures
            final(out)@ == old(out)@ + psi_row(s, self.state(), win, label),
    {
        let w = s.colwidth as usize;
        let mut line: Vec<u8> = Vec::new();
        push_fitted(&mut line, label.as_bytes(), w, None, Align::Right);
        assert(line@ =~= fit(lit(label), w as nat, None, Align::Right));
        push_blank(&mut line);
        push_threshold(&mut line, s.smart, &self.cpu.some.pick(win), w, 2);
        push_blank(&mut line);
        push_threshold(&mut line, s.smart, &self.cpu.full.pick(win), w, 2);
        push_blank(&mut line);
        push_threshold(&mut line, s.smart, &self.memory.some.pick(win), w, 2);
        push_blank(&mut line);
        push_threshold(&mut line, s.smart, &self.memory.full.pick(win), w, 2);
        push_blank(&mut line);
        push_threshold(&mut line, s.smart, &self.io.some.pick(win), w, 2);
        push_blank(&mut line);
        push_threshold(&mut line, s.smart, &self.io.full.pick(win), w, 2);
        push_newline(&mut line, s.smart);
        push_bytes(out, line.as_slice());
    }
}

impl StatBlock for PressureStats {
    type Source = PressureSource;

    open spec fn wf(&self) -> bool {
        self.inv()
    }

    open spec fn width(&self, s: &Settings) -> u16 {
        if self.state().present {
            clamp16(7 * s.colwidth + 6)
        } else {
            0
        }
    }

    open spec fn height(&self, s: &Settings) -> u16 {
        if self.state().present {
            4
        } else {
            0
        }
    }

    open spec fn text(&self, s: &Settings) -> Seq<u8> {
        psi_text(s, self.state())
    }

    open spec fn fresh(&self) -> bool {
        self.state() == (PressureState {
            cpu: pressure_start(),
            memory: pressure_start(),
            io: pressure_start(),
            present: false,
        })
    }

    open spec fn stepped(&self, source: &PressureSource, next: &Self, ok: bool) -> bool {
        match pressure_after(self.state(), source) {
            Some(st) => ok && next.state() == st,
            None => !ok && next.state() == self.state(),
        }
    }

    proof fn lemma_blank(&self, s: &Settings) {
    }

    fn new() -> (b: Self) {
        let z = Threshold {
            val: Percentage { part: 0, whole: 100 },
            med: Percentage { part: 1, whole: 100 },
            high: Percentage { part: 5, whole: 100 },
            crit: Percentage { part: 10, whole: 100 },
        };
        let a = Averages { avg10: z, avg60: z, avg300: z };
        let p = Pressure { some: a, full: a };
        PressureStats { cpu: p, memory: p, io: p, present: false }
    }

    /// Takes in what a tick has read. Where that makes no sense, nothing
    /// changes.
    fn update(&mut self, source: &PressureSource) -> (ok: bool) {
        let cpu = read_psi(self.cpu, &source.cpu);
        let memory = read_psi(self.memory, &source.memory);
        let io = read_psi(self.io, &source.io);
        match (cpu, memory, io) {
            (Some(cpu), Some(memory), Some(io)) => {
                self.cpu = cpu;
                self.memory = memory;
                self.io = io;
                self.present = source.cpu.is_some() || source.memory.is_some()
                    || source.io.is_some();
                true
            },
            _ => false,
        }
    }

    fn columns(&self, s: &Settings) -> (c: u16) {
        if self.present {
            clamped(7 * (s.colwidth as usize) + 6)
        } else {
            0
        }
    }

    fn rows(&self, s: &Settings) -> (r: u16) {
        if self.present {
            4
        } else {
            0
        }
    }

    fn render(&self, s: &Settings) -> (out: Vec<u8>) {
        let mut out: Vec<u8> = Vec::new();
        if !self.present {
            return out;
        }
        push_psi_head(&mut out, s);
        assert(out@ =~= psi_head(s));
        self.push_row(&mut out, s, Window::Avg10, "avg10");
        self.push_row(&mut out, s, Window::Avg60, "avg60");
        self.push_row(&mut out, s, Window::Avg300, "avg300");
        push_newline(&mut out, s.smart);
        out
    }
}

} // verus!
