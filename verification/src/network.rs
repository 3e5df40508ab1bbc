//! The network block: the bytes that each interface has received and sent,
//! as rates per second.

use crate::common::{
    bytes_text, clamp16, clamped, heading_text, lemma_flat_title, lemma_line, newline_text,
    push_heading, push_newline, Bytes, Quantity, Settings, StatBlock,
};
use crate::layout::{count, lemma_count_add, whole_lines};
use crate::mem::push_quantity;
use crate::parse::{
    copy_range, fields, has_prefix, lines, number, parse_number, split_fields, split_lines,
    starts_with, texts, Read,
};
use crate::rate::{gain, minus, minus_of, per_second, rate, wrap_sub};
use crate::text::{
    fit, flat, lemma_flat_fit, lemma_flat_next, lit, push_blank, push_bytes, push_fitted, Align,
};
use crate::rate::lemma_rate;
use crate::tracker::{
    ascending, entry_of, kept, lemma_kept_ascending, lemma_kept_entry, lemma_marked_ascending,
    lemma_marked_entry, lemma_sampled_entry, marked, sampled, Entry, Pair, Rank, Tracker,
};
use vstd::prelude::*;

verus! {

/// One sample of an interface.
#[derive(Clone, Copy)]
pub struct IfaceStats {
    /// When the sample was taken, in milliseconds.
    pub t: u64,
    pub rx: Bytes,
    pub tx: Bytes,
}

/// One line of the kernel's table, as contracts speak of it.
pub struct IfaceLine {
    pub name: Seq<u8>,
    pub rx: u64,
    pub tx: u64,
}

/// One line of the kernel's table, read.
pub struct IfaceRecord {
    pub name: Vec<u8>,
    pub rx: u64,
    pub tx: u64,
}

impl IfaceRecord {
    pub open spec fn view(&self) -> IfaceLine {
        IfaceLine { name: self.name@, rx: self.rx, tx: self.tx }
    }
}

/// The lines that a list of records stands for.
pub open spec fn iface_lines(v: Seq<IfaceRecord>) -> Seq<IfaceLine> {
    Seq::new(v.len(), |i: int| v[i]@)
}

/// What a line of the table says. Its first field is the interface's name
/// and a colon. The received bytes are the second field, the sent bytes the
/// tenth. Bridges, whose names begin with `br`, are passed over.
pub open spec fn iface_line(line: Seq<u8>) -> Read<IfaceLine> {
    let f = fields(line);
    if f.len() == 0 || f[0].len() == 0 || f[0].last() != 0x3a {
        Read::Bad
    } else if has_prefix(f[0].drop_last(), lit("br")) {
        Read::Skip
    } else if f.len() < 10 {
        Read::Bad
    } else {
        match (number(f[1]), number(f[9])) {
            (Some(rx), Some(tx)) => Read::Record(IfaceLine { name: f[0].drop_last(), rx, tx }),
            _ => Read::Bad,
        }
    }
}

/// What the lines from the one at index `from` on say, or nothing where one
/// of them makes no sense.
pub open spec fn iface_records(ls: Seq<Seq<u8>>, from: int) -> Option<Seq<IfaceLine>>
    decreases ls.len() - from,
{
    if from < 0 || from >= ls.len() {
        Some(Seq::empty())
    } else {
        match (iface_line(ls[from]), iface_records(ls, from + 1)) {
            (Read::Bad, _) => None,
            (_, None) => None,
            (Read::Skip, Some(rest)) => Some(rest),
            (Read::Record(r), Some(rest)) => Some(seq![r] + rest),
        }
    }
}

/// What the kernel's table says. Its first two lines are headings.
pub open spec fn dev_records(content: Seq<u8>) -> Option<Seq<IfaceLine>> {
    iface_records(lines(content), 2)
}

/// The sample that a line gives at the time `now`.
pub open spec fn iface_sample(r: IfaceLine, now: u64) -> IfaceStats {
    IfaceStats { t: now, rx: Bytes(r.rx), tx: Bytes(r.tx) }
}

/// The sample before the first of an interface that shows up at `now`.
pub open spec fn iface_fresh(now: u64) -> IfaceStats {
    IfaceStats { t: now, rx: Bytes(0), tx: Bytes(0) }
}

/// The interfaces after the lines of one tick were taken in.
pub open spec fn iface_fold(
    ifaces: Seq<Entry<Seq<u8>, Pair<IfaceStats>>>,
    records: Seq<IfaceLine>,
    now: u64,
) -> Seq<Entry<Seq<u8>, Pair<IfaceStats>>>
    decreases records.len(),
{
    if records.len() == 0 {
        ifaces
    } else {
        sampled(
            iface_fold(ifaces, records.drop_last(), now),
            records.last().name,
            iface_fresh(now),
            iface_sample(records.last(), now),
        )
    }
}

/// The milliseconds between the two samples of a pair.
pub open spec fn iface_ms(pair: Pair<IfaceStats>) -> u64 {
    minus(pair.cur.t, pair.prev.t)
}

/// The bytes per second that an interface has received between its two
/// samples.
pub open spec fn rx_rate(pair: Pair<IfaceStats>) -> u64 {
    per_second(wrap_sub(pair.cur.rx.0, pair.prev.rx.0), iface_ms(pair))
}

/// The bytes per second that an interface has sent between its two samples.
pub open spec fn tx_rate(pair: Pair<IfaceStats>) -> u64 {
    per_second(wrap_sub(pair.cur.tx.0, pair.prev.tx.0), iface_ms(pair))
}

/// The line of one interface: its name and its two rates, each in a column.
/// An interface whose two samples were taken at the same time has no line.
pub open spec fn iface_row(s: &Settings, name: Seq<u8>, pair: Pair<IfaceStats>) -> Seq<u8> {
    let w = s.colwidth as nat;
    if iface_ms(pair) == 0 {
        Seq::empty()
    } else {
        fit(name, w, Some(w), Align::Right) + seq![0x20u8] + bytes_text(rx_rate(pair) as nat, w, 2)
            + seq![0x20u8] + bytes_text(tx_rate(pair) as nat, w, 2) + newline_text(s.smart)
    }
}

/// The lines of the interfaces.
pub open spec fn iface_rows(s: &Settings, ifaces: Seq<Entry<Seq<u8>, Pair<IfaceStats>>>) -> Seq<u8>
    decreases ifaces.len(),
{
    if ifaces.len() == 0 {
        Seq::empty()
    } else {
        iface_rows(s, ifaces.drop_last()) + iface_row(s, ifaces.last().key, ifaces.last().value)
    }
}

/// The headings of the block.
pub open spec fn net_head(s: &Settings) -> Seq<u8> {
    let w = s.colwidth as nat;
    heading_text(s.smart, "IFACE", w, w, Align::Right) + seq![0x20u8] + heading_text(
        s.smart,
        "RX/s",
        w,
        w,
        Align::Right,
    ) + seq![0x20u8] + heading_text(s.smart, "TX/s", w, w, Align::Right) + newline_text(s.smart)
}

/// The whole block: headings, a line for each interface, an empty line; or
/// nothing where no interface is known.
pub open spec fn net_text(s: &Settings, ifaces: Seq<Entry<Seq<u8>, Pair<IfaceStats>>>) -> Seq<u8> {
    if ifaces.len() == 0 {
        Seq::empty()
    } else {
        net_head(s) + iface_rows(s, ifaces) + newline_text(s.smart)
    }
}

/// Whether every interface has a line of its own: its name holds no line
/// feed, and its two samples were taken at different times.
pub open spec fn ifaces_shown(ifaces: Seq<Entry<Seq<u8>, Pair<IfaceStats>>>) -> bool {
    forall|i: int|
        0 <= i < ifaces.len() ==> flat((#[trigger] ifaces[i]).key) && iface_ms(ifaces[i].value) > 0
}

/// No heading of the block holds a line feed.
pub proof fn lemma_net_titles(s: &Settings)
    ensures
        flat(heading_text(s.smart, "IFACE", s.colwidth as nat, s.colwidth as nat, Align::Right)),
        flat(heading_text(s.smart, "RX/s", s.colwidth as nat, s.colwidth as nat, Align::Right)),
        flat(heading_text(s.smart, "TX/s", s.colwidth as nat, s.colwidth as nat, Align::Right)),
{
    let w = s.colwidth as nat;
    reveal_strlit("IFACE");
    reveal_strlit("RX/s");
    reveal_strlit("TX/s");
    lemma_flat_title(s.smart, "IFACE", w, w, Align::Right);
    lemma_flat_title(s.smart, "RX/s", w, w, Align::Right);
    lemma_flat_title(s.smart, "TX/s", w, w, Align::Right);
}

/// The headings are one whole line.
pub proof fn lemma_net_head(s: &Settings)
    ensures
        whole_lines(net_head(s), 1),
{
    let w = s.colwidth as nat;
    lemma_net_titles(s);
    let h0 = heading_text(s.smart, "IFACE", w, w, Align::Right);
    let h1 = h0 + seq![0x20u8] + heading_text(s.smart, "RX/s", w, w, Align::Right);
    lemma_flat_next(h0, heading_text(s.smart, "RX/s", w, w, Align::Right));
    let h2 = h1 + seq![0x20u8] + heading_text(s.smart, "TX/s", w, w, Align::Right);
    lemma_flat_next(h1, heading_text(s.smart, "TX/s", w, w, Align::Right));
    lemma_line(h2, s.smart);
}

/// Interfaces that each have a line of their own have as many lines.
pub proof fn lemma_iface_rows(s: &Settings, ifaces: Seq<Entry<Seq<u8>, Pair<IfaceStats>>>)
    requires
        ifaces_shown(ifaces),
    ensures
        count(iface_rows(s, ifaces), 0x0a) == ifaces.len(),
    decreases ifaces.len(),
{
    if ifaces.len() > 0 {
        let w = s.colwidth as nat;
        let e = ifaces.last();
        assert(e == ifaces[ifaces.len() - 1]);
        assert(ifaces_shown(ifaces.drop_last())) by {
            assert forall|i: int| 0 <= i < ifaces.drop_last().len() implies flat(
                (#[trigger] ifaces.drop_last()[i]).key,
            ) && iface_ms(ifaces.drop_last()[i].value) > 0 by {
                assert(ifaces.drop_last()[i] == ifaces[i]);
            }
        }
        lemma_iface_rows(s, ifaces.drop_last());
        lemma_flat_fit(e.key, w, Some(w), Align::Right);
        Bytes(rx_rate(e.value)).lemma_flat(w, 2);
        Bytes(tx_rate(e.value)).lemma_flat(w, 2);
        let c0 = fit(e.key, w, Some(w), Align::Right);
        let c1 = c0 + seq![0x20u8] + bytes_text(rx_rate(e.value) as nat, w, 2);
        lemma_flat_next(c0, bytes_text(rx_rate(e.value) as nat, w, 2));
        let content = c1 + seq![0x20u8] + bytes_text(tx_rate(e.value) as nat, w, 2);
        lemma_flat_next(c1, bytes_text(tx_rate(e.value) as nat, w, 2));
        lemma_line(content, s.smart);
        lemma_count_add(iface_rows(s, ifaces.drop_last()), iface_row(s, e.key, e.value), 0x0a);
    }
}

/// The block prints as many whole lines as it claims where every interface
/// has a line of its own: the headings, a line for each interface, an empty
/// line.
pub proof fn lemma_net_lines(s: &Settings, ifaces: Seq<Entry<Seq<u8>, Pair<IfaceStats>>>)
    requires
        ifaces_shown(ifaces),
    ensures
        whole_lines(
            net_text(s, ifaces),
            if ifaces.len() == 0 {
                0
            } else {
                2 + ifaces.len() as int
            },
        ),
{
    if ifaces.len() > 0 {
        lemma_net_head(s);
        lemma_iface_rows(s, ifaces);
        lemma_line(Seq::empty(), s.smart);
        lemma_count_add(net_head(s), iface_rows(s, ifaces), 0x0a);
        lemma_count_add(net_head(s) + iface_rows(s, ifaces), newline_text(s.smart), 0x0a);
    } else {
        assert(count(Seq::<u8>::empty(), 0x0a) == 0);
    }
}

/// Reads one line of the table.
pub fn read_iface_line(line: &[u8]) -> (r: Read<IfaceRecord>)
    ensures
        match r {
            Read::Bad => iface_line(line@) is Bad,
            Read::Skip => iface_line(line@) is Skip,
            Read::Record(rec) => iface_line(line@) == Read::Record(rec@),
        },
{
    let f = split_fields(line);
    assert(forall|i: int| 0 <= i < f@.len() ==> texts(f@)[i] == #[trigger] f@[i]@);
    if f.len() == 0 {
        return Read::Bad;
    }
    let head = f[0].as_slice();
    if head.len() == 0 || head[head.len() - 1] != 0x3a {
        return Read::Bad;
    }
    let name = copy_range(head, 0, head.len() - 1);
    assert(name@ =~= head@.drop_last());
    if starts_with(name.as_slice(), "br".as_bytes()) {
        return Read::Skip;
    }
    if f.len() < 10 {
        return Read::Bad;
    }
    match (parse_number(f[1].as_slice()), parse_number(f[9].as_slice())) {
        (Some(rx), Some(tx)) => Read::Record(IfaceRecord { name, rx, tx }),
        _ => Read::Bad,
    }
}

/// Reads the kernel's table.
pub fn read_dev(content: &[u8]) -> (r: Option<Vec<IfaceRecord>>)
    ensures
        match r {
            Some(v) => dev_records(content@) == Some(iface_lines(v@)),
            None => dev_records(content@) is None,
        },
{
    let ls = split_lines(content);
    let mut out: Vec<IfaceRecord> = Vec::new();
    let ghost all = texts(ls@);
    let mut i: usize = 2;
    proof {
        assert(iface_lines(out@) =~= Seq::<IfaceLine>::empty());
        match iface_records(all, 2) {
            Some(rest) => {
                assert(iface_lines(out@) + rest =~= rest);
            },
            None => {},
        }
    }
    while i < ls.len()
        invariant
            2 <= i,
            all == texts(ls@),
            all == lines(content@),
            iface_records(all, 2) == (match iface_records(all, i as int) {
                Some(rest) => Some(iface_lines(out@) + rest),
                None => None,
            }),
        decreases ls.len() - i,
    {
        assert(all[i as int] == ls@[i as int]@);
        match read_iface_line(ls[i].as_slice()) {
            Read::Bad => {
                return None;
            },
            Read::Skip => {},
            Read::Record(r) => {
                let ghost before = iface_lines(out@);
                out.push(r);
                proof {
                    assert(iface_lines(out@) =~= before.push(r@));
                    match iface_records(all, i + 1) {
                        Some(rest) => {
                            assert(before + (seq![r@] + rest) =~= iface_lines(out@) + rest);
                        },
                        None => {},
                    }
                }
            },
        }
        i += 1;
    }
    proof {
        assert(iface_lines(out@) + Seq::<IfaceLine>::empty() =~= iface_lines(out@));
    }
    Some(out)
}

/// What a tick reads for the network block.
pub struct NetworkSource {
    /// When the table was read, in milliseconds of a clock that never goes
    /// back.
    pub now: u64,
    /// The kernel's table of interfaces, or `None` where it could not be
    /// read.
    pub dev: Option<Vec<u8>>,
}

/// The network block.
pub struct NetworkStats {
    ifaces: Tracker<Vec<u8>, Pair<IfaceStats>>,
}

/// Appends the line of one interface.
pub fn push_iface_row(out: &mut Vec<u8>, s: &Settings, name: &[u8], pair: Pair<IfaceStats>)
    ensures
        final(out)@ == old(out)@ + iface_row(s, name@, pair),
{
    let w = s.colwidth as usize;
    let ms = minus_of(pair.cur.t, pair.prev.t);
    if ms == 0 {
        assert(out@ =~= old(out)@ + Seq::<u8>::empty());
        return ;
    }
    let rx = Bytes(rate(gain(pair.cur.rx.0, pair.prev.rx.0), ms));
    let tx = Bytes(rate(gain(pair.cur.tx.0, pair.prev.tx.0), ms));
    assert(rx.0 == rx_rate(pair) && tx.0 == tx_rate(pair));
    let mut line: Vec<u8> = Vec::new();
    push_fitted(&mut line, name, w, Some(w), Align::Right);
    assert(line@ =~= fit(name@, w as nat, Some(w as nat), Align::Right));
    push_blank(&mut line);
    push_quantity(&mut line, &rx, w, 2);
    push_blank(&mut line);
    push_quantity(&mut line, &tx, w, 2);
    push_newline(&mut line, s.smart);
    push_bytes(out, line.as_slice());
}

impl NetworkStats {
    /// The interfaces in the order of their names.
    pub closed spec fn ifaces(&self) -> Seq<Entry<Seq<u8>, Pair<IfaceStats>>> {
        self.ifaces@
    }

    /// The interfaces stand in the order of their names, each once.
    pub closed spec fn inv(&self) -> bool {
        self.ifaces.wf()
    }

    /// The block prints as many whole lines as it has rows, where every
    /// interface has a line of its own.
    pub proof fn lemma_lines(&self, s: &Settings)
        requires
            ifaces_shown(self.ifaces()),
            self.ifaces().len() + 2 <= 0xffff,
        ensures
            whole_lines(self.text(s), self.height(s) as int),
    {
        lemma_net_lines(s, self.ifaces());
    }

    /// A block that is in order holds its interfaces in ascending order of
    /// their names, each once.
    pub proof fn lemma_ascending(&self)
        requires
            self.inv(),
        ensures
            ascending(self.ifaces()),
    {
    }

    /// The number of interfaces.
    pub fn count(&self) -> (n: usize)
        ensures
            n == self.ifaces().len(),
    {
        self.ifaces.len()
    }
}

impl StatBlock for NetworkStats {
    type Source = NetworkSource;

    open spec fn wf(&self) -> bool {
        &&& self.inv()
        &&& forall|i: int| 0 <= i < self.ifaces().len() ==> !(#[trigger] self.ifaces()[i]).stale.0
    }

    open spec fn width(&self, s: &Settings) -> u16 {
        if self.ifaces().len() == 0 {
            0
        } else {
            clamp16(3 * s.colwidth + 2)
        }
    }

    open spec fn height(&self, s: &Settings) -> u16 {
        if self.ifaces().len() == 0 {
            0
        } else {
            clamp16(2 + self.ifaces().len() as int)
        }
    }

    open spec fn text(&self, s: &Settings) -> Seq<u8> {
        net_text(s, self.ifaces())
    }

    open spec fn fresh(&self) -> bool {
        self.ifaces().len() == 0
    }

    open spec fn stepped(&self, source: &NetworkSource, next: &Self, ok: bool) -> bool {
        match source.dev {
            None => ok && next.ifaces() == self.ifaces(),
            Some(content) => match dev_records(content@) {
                None => !ok && next.ifaces() == self.ifaces(),
                Some(records) => ok && next.ifaces() == kept(
                    iface_fold(marked(self.ifaces()), records, source.now),
                ) && forall|i: int|
                    0 <= i < next.ifaces().len() ==> !(
                    #[trigger] next.ifaces()[i]).stale.0,
            },
        }
    }

    proof fn lemma_blank(&self, s: &Settings) {
    }

    fn new() -> (b: Self) {
        NetworkStats { ifaces: Tracker::new() }
    }

    /// Takes in the kernel's table. Where it could not be read or makes no
    /// sense, nothing changes. Else each interface of the table has its
    /// sample, and an interface that the table leaves out is gone.
    fn update(&mut self, source: &NetworkSource) -> (ok: bool) {
        let content = match &source.dev {
            None => {
                return true;
            },
            Some(content) => content,
        };
        let records = match read_dev(content.as_slice()) {
            None => {
                return false;
            },
            Some(records) => records,
        };
        let now = source.now;
        self.ifaces.mark_all();
        let ghost start = self.ifaces@;
        let ghost all = iface_lines(records@);
        let mut i: usize = 0;
        while i < records.len()
            invariant
                i <= records.len(),
                all == iface_lines(records@),
                self.ifaces.wf(),
                self.ifaces@ == iface_fold(start, all.take(i as int), now),
            decreases records.len() - i,
        {
            proof {
                assert(all.take(i + 1).drop_last() =~= all.take(i as int));
                assert(all.take(i + 1).last() == records@[i as int]@);
            }
            let r = &records[i];
            let name = copy_range(r.name.as_slice(), 0, r.name.len());
            assert(name@ =~= r.name@);
            self.ifaces.sample(
                name,
                IfaceStats { t: now, rx: Bytes(0), tx: Bytes(0) },
                IfaceStats { t: now, rx: Bytes(r.rx), tx: Bytes(r.tx) },
            );
            i += 1;
        }
        assert(all.take(i as int) =~= all);
        self.ifaces.sweep();
        true
    }

    fn columns(&self, s: &Settings) -> (c: u16) {
        if self.ifaces.is_empty() {
            0
        } else {
            clamped(3 * (s.colwidth as usize) + 2)
        }
    }

    fn rows(&self, s: &Settings) -> (r: u16) {
        if self.ifaces.is_empty() {
            0
        } else {
            let n = self.ifaces.len();
            if n > 0xffff {
                0xffff
            } else {
                clamped(2 + n)
            }
        }
    }

    fn render(&self, s: &Settings) -> (out: Vec<u8>) {
        let mut out: Vec<u8> = Vec::new();
        if self.ifaces.is_empty() {
            return out;
        }
        let w = s.colwidth as usize;
        push_heading(&mut out, s.smart, "IFACE", w, w, Align::Right);
        out.push(0x20u8);
        push_heading(&mut out, s.smart, "RX/s", w, w, Align::Right);
        out.push(0x20u8);
        push_heading(&mut out, s.smart, "TX/s", w, w, Align::Right);
        push_newline(&mut out, s.smart);
        assert(out@ =~= net_head(s));
        let n = self.ifaces.len();
        let mut i: usize = 0;
        while i < n
            invariant
                i <= n,
                n == self.ifaces().len(),
                out@ == net_head(s) + iface_rows(s, self.ifaces().take(i as int)),
            decreases n - i,
        {
            proof {
                assert(self.ifaces().take(i + 1).drop_last() =~= self.ifaces().take(i as int));
                assert(self.ifaces().take(i + 1).last() == self.ifaces()[i as int]);
            }
            let slot = self.ifaces.slot(i);
            push_iface_row(&mut out, s, slot.key.as_slice(), slot.value);
            assert(out@ =~= net_head(s) + iface_rows(s, self.ifaces().take(i + 1)));
            i += 1;
        }
        assert(self.ifaces().take(n as int) =~= self.ifaces());
        push_newline(&mut out, s.smart);
        out
    }
}

/// How often the interface `name` stands among the lines.
pub open spec fn named(records: Seq<IfaceLine>, name: Seq<u8>) -> nat
    decreases records.len(),
{
    if records.len() == 0 {
        0
    } else {
        named(records.drop_last(), name) + if records.last().name == name {
            1nat
        } else {
            0nat
        }
    }
}

/// The last of the lines that is that of the interface `name`.
pub open spec fn line_of(records: Seq<IfaceLine>, name: Seq<u8>) -> IfaceLine
    decreases records.len(),
{
    if records.len() == 0 {
        IfaceLine { name, rx: 0, tx: 0 }
    } else if records.last().name == name {
        records.last()
    } else {
        line_of(records.drop_last(), name)
    }
}

/// After the lines of a tick were taken in, an interface that has no line
/// among them is held as before, and an interface that has one line holds
/// that line's sample as the last, and as the one before what was the last
/// before the tick.
pub proof fn lemma_iface_fold(
    ifaces: Seq<Entry<Seq<u8>, Pair<IfaceStats>>>,
    records: Seq<IfaceLine>,
    now: u64,
    name: Seq<u8>,
)
    requires
        ascending(ifaces),
    ensures
        ascending(iface_fold(ifaces, records, now)),
        named(records, name) == 0 ==> entry_of(iface_fold(ifaces, records, now), name.rank())
            == entry_of(ifaces, name.rank()),
        named(records, name) == 1 ==> (match entry_of(
            iface_fold(ifaces, records, now),
            name.rank(),
        ) {
            Some(e) => !e.stale.0 && e.value.cur == iface_sample(line_of(records, name), now)
                && e.value.prev == (match entry_of(ifaces, name.rank()) {
                Some(had) => had.value.cur,
                None => iface_fresh(now),
            }),
            None => false,
        }),
    decreases records.len(),
{
    if records.len() > 0 {
        let init = records.drop_last();
        let last = records.last();
        let before = iface_fold(ifaces, init, now);
        lemma_iface_fold(ifaces, init, now, name);
        lemma_sampled_entry(before, last.name, iface_fresh(now), iface_sample(last, now), name.rank());
        if last.name.rank() == name.rank() {
            Seq::<u8>::lemma_rank_tells_apart(&last.name, &name);
        }
    }
}

/// Where an interface has one line in the table of each of two ticks that
/// follow each other, the later at a later time, its entry holds the two
/// samples, taken at different times, and its rates are the gain of the
/// counters, counted around their end, per second of the time between.
pub proof fn lemma_rate_between_ticks(
    ifaces: Seq<Entry<Seq<u8>, Pair<IfaceStats>>>,
    first: Seq<IfaceLine>,
    t1: u64,
    second: Seq<IfaceLine>,
    t2: u64,
    name: Seq<u8>,
)
    requires
        ascending(ifaces),
        named(first, name) == 1,
        named(second, name) == 1,
        t1 < t2,
    ensures
        ({
            let after_first = kept(iface_fold(marked(ifaces), first, t1));
            let after_second = kept(iface_fold(marked(after_first), second, t2));
            match entry_of(after_second, name.rank()) {
                Some(e) => {
                    &&& iface_ms(e.value) == t2 - t1
                    &&& iface_ms(e.value) > 0
                    &&& rx_rate(e.value) == per_second(
                        wrap_sub(line_of(second, name).rx, line_of(first, name).rx),
                        (t2 - t1) as u64,
                    )
                    &&& tx_rate(e.value) == per_second(
                        wrap_sub(line_of(second, name).tx, line_of(first, name).tx),
                        (t2 - t1) as u64,
                    )
                    &&& 1000 * wrap_sub(line_of(second, name).rx, line_of(first, name).rx) / (t2
                        - t1) <= u64::MAX ==> rx_rate(e.value) == 1000 * wrap_sub(
                        line_of(second, name).rx,
                        line_of(first, name).rx,
                    ) / (t2 - t1)
                },
                None => false,
            }
        }),
{
    let r = name.rank();
    let start = marked(ifaces);
    lemma_marked_ascending(ifaces);
    let early = iface_fold(start, first, t1);
    lemma_iface_fold(start, first, t1, name);
    let swept = kept(early);
    lemma_kept_entry(early, r);
    lemma_kept_ascending(early);
    let again = marked(swept);
    lemma_marked_ascending(swept);
    lemma_marked_entry(swept, r);
    let late = iface_fold(again, second, t2);
    lemma_iface_fold(again, second, t2, name);
    lemma_kept_entry(late, r);
    if 1000 * wrap_sub(line_of(second, name).rx, line_of(first, name).rx) / (t2 - t1) <= u64::MAX {
        lemma_rate(wrap_sub(line_of(second, name).rx, line_of(first, name).rx), (t2 - t1) as u64);
    }
}

} // verus!
