//! The block-device block: what each disk has read and written, as rates per
//! second, and how much of the time requests were waiting.

use crate::common::{
    bytes_text, clamp16, clamped, heading_text, lemma_flat_threshold, lemma_flat_title,
    lemma_line, newline_text, push_heading, push_newline, push_threshold, threshold_text, Bytes,
    Percentage, Quantity, Settings, StatBlock, Threshold,
};
use crate::layout::{count, lemma_count_add, whole_lines};
use crate::mem::push_quantity;
use crate::parse::{
    copy_range, fields, has_prefix, is_digit, lines, number, parse_number, split_fields,
    split_lines, starts_with, texts, Read,
};
use crate::rate::{minus, minus_of, per_second, rate};
use crate::text::{
    fit, flat, lemma_flat_fit, lemma_flat_next, lit, push_blank, push_bytes, push_fitted, Align,
};
use crate::tracker::{
    ascending, entry_of, kept, lemma_kept_ascending, lemma_kept_entry, lemma_marked_ascending,
    lemma_marked_entry, lemma_sampled_entry, marked, sampled, Entry, Pair, Rank, Tracker,
};
use vstd::prelude::*;

verus! {

/// The bytes of a sector.
pub const SECTOR_SIZE: u64 = 512;

/// One sample of a device.
#[derive(Clone, Copy)]
pub struct DevStats {
    /// When the sample was taken, in milliseconds.
    pub t: u64,
    pub read: Bytes,
    pub written: Bytes,
    /// The milliseconds that requests have waited, each request counted.
    pub wrt: u64,
}

/// One line of the kernel's table, as contracts speak of it.
pub struct DevLine {
    pub name: Seq<u8>,
    pub read: u64,
    pub written: u64,
    pub wrt: u64,
}

/// One line of the kernel's table, read.
pub struct DevRecord {
    pub name: Vec<u8>,
    pub read: u64,
    pub written: u64,
    pub wrt: u64,
}

impl DevRecord {
    pub open spec fn view(&self) -> DevLine {
        DevLine { name: self.name@, read: self.read, written: self.written, wrt: self.wrt }
    }
}

/// The lines that a list of records stands for.
pub open spec fn dev_lines(v: Seq<DevRecord>) -> Seq<DevLine> {
    Seq::new(v.len(), |i: int| v[i]@)
}

/// What a line of the table says. The device's name is the third field, the
/// sectors read the sixth, the sectors written the tenth, the weighted time
/// of requests the fourteenth. Device-mapper and loop devices are passed
/// over. Sectors whose bytes do not fit 64 bits make no sense.
pub open spec fn dev_line(line: Seq<u8>) -> Read<DevLine> {
    let f = fields(line);
    if f.len() < 3 {
        Read::Bad
    } else if has_prefix(f[2], lit("dm-")) || has_prefix(f[2], lit("loop")) {
        Read::Skip
    } else if f.len() < 14 {
        Read::Bad
    } else {
        match (number(f[5]), number(f[9]), number(f[13])) {
            (Some(rd), Some(wr), Some(wrt)) => if SECTOR_SIZE * rd <= u64::MAX && SECTOR_SIZE * wr
                <= u64::MAX {
                Read::Record(
                    DevLine {
                        name: f[2],
                        read: (SECTOR_SIZE * rd) as u64,
                        written: (SECTOR_SIZE * wr) as u64,
                        wrt,
                    },
                )
            } else {
                Read::Bad
            },
            _ => Read::Bad,
        }
    }
}

/// What the lines from the one at index `from` on say, or nothing where one
/// of them makes no sense.
pub open spec fn dev_records(ls: Seq<Seq<u8>>, from: int) -> Option<Seq<DevLine>>
    decreases ls.len() - from,
{
    if from < 0 || from >= ls.len() {
        Some(Seq::empty())
    } else {
        match (dev_line(ls[from]), dev_records(ls, from + 1)) {
            (Read::Bad, _) => None,
            (_, None) => None,
            (Read::Skip, Some(rest)) => Some(rest),
            (Read::Record(r), Some(rest)) => Some(seq![r] + rest),
        }
    }
}

/// What the kernel's table says.
pub open spec fn diskstats_records(content: Seq<u8>) -> Option<Seq<DevLine>> {
    dev_records(lines(content), 0)
}

/// Whether a line is that of a partition of a device that the tick has
/// seen: its name ends in a digit, and the name without its last byte is
/// that of a device that is held and not stale. A device that was only held
/// from the tick before hides nothing.
pub open spec fn is_partition(devices: Seq<Entry<Seq<u8>, Pair<DevStats>>>, name: Seq<u8>) -> bool {
    name.len() > 0 && is_digit(name.last()) && (match entry_of(devices, name.drop_last().rank()) {
        Some(parent) => !parent.stale.0,
        None => false,
    })
}

/// The sample that a line gives at the time `now`.
pub open spec fn dev_sample(r: DevLine, now: u64) -> DevStats {
    DevStats { t: now, read: Bytes(r.read), written: Bytes(r.written), wrt: r.wrt }
}

/// The sample before the first of a device that shows up at `now`.
pub open spec fn dev_fresh(now: u64) -> DevStats {
    DevStats { t: now, read: Bytes(0), written: Bytes(0), wrt: 0 }
}

/// The devices after one line was taken in: a partition of a tracked device
/// changes nothing.
pub open spec fn dev_step(devices: Seq<Entry<Seq<u8>, Pair<DevStats>>>, r: DevLine, now: u64) -> Seq<
    Entry<Seq<u8>, Pair<DevStats>>,
> {
    if is_partition(devices, r.name) {
        devices
    } else {
        sampled(devices, r.name, dev_fresh(now), dev_sample(r, now))
    }
}

/// The devices after the lines of one tick were taken in.
pub open spec fn dev_fold(
    devices: Seq<Entry<Seq<u8>, Pair<DevStats>>>,
    records: Seq<DevLine>,
    now: u64,
) -> Seq<Entry<Seq<u8>, Pair<DevStats>>>
    decreases records.len(),
{
    if records.len() == 0 {
        devices
    } else {
        dev_step(dev_fold(devices, records.drop_last(), now), records.last(), now)
    }
}

/// When a tick begins every device is stale, so the first line of a table
/// is never passed over as a partition.
pub proof fn lemma_stale_hides_nothing(devices: Seq<Entry<Seq<u8>, Pair<DevStats>>>, name: Seq<u8>)
    requires
        ascending(devices),
    ensures
        !is_partition(marked(devices), name),
{
    if name.len() > 0 {
        lemma_marked_entry(devices, name.drop_last().rank());
    }
}

/// How often the device `name` stands among the lines.
pub open spec fn listed(records: Seq<DevLine>, name: Seq<u8>) -> nat
    decreases records.len(),
{
    if records.len() == 0 {
        0
    } else {
        listed(records.drop_last(), name) + if records.last().name == name {
            1nat
        } else {
            0nat
        }
    }
}

/// After the lines of a tick were taken in, the devices are in order, and
/// a device that has no line among them is held as before.
pub proof fn lemma_dev_fold(
    devices: Seq<Entry<Seq<u8>, Pair<DevStats>>>,
    records: Seq<DevLine>,
    now: u64,
    name: Seq<u8>,
)
    requires
        ascending(devices),
    ensures
        ascending(dev_fold(devices, records, now)),
        listed(records, name) == 0 ==> entry_of(dev_fold(devices, records, now), name.rank())
            == entry_of(devices, name.rank()),
    decreases records.len(),
{
    if records.len() > 0 {
        let init = records.drop_last();
        let last = records.last();
        let before = dev_fold(devices, init, now);
        lemma_dev_fold(devices, init, now, name);
        lemma_sampled_entry(before, last.name, dev_fresh(now), dev_sample(last, now), name.rank());
        if last.name.rank() == name.rank() {
            Seq::<u8>::lemma_rank_tells_apart(&last.name, &name);
        }
    }
}

/// After a tick the block is in order and holds no device that the table
/// does not list.
pub proof fn lemma_unlisted_leaves(
    devices: Seq<Entry<Seq<u8>, Pair<DevStats>>>,
    records: Seq<DevLine>,
    now: u64,
    name: Seq<u8>,
)
    requires
        ascending(devices),
        listed(records, name) == 0,
    ensures
        ascending(kept(dev_fold(marked(devices), records, now))),
        entry_of(kept(dev_fold(marked(devices), records, now)), name.rank()) is None,
{
    lemma_marked_ascending(devices);
    lemma_marked_entry(devices, name.rank());
    lemma_dev_fold(marked(devices), records, now, name);
    lemma_kept_entry(dev_fold(marked(devices), records, now), name.rank());
    lemma_kept_ascending(dev_fold(marked(devices), records, now));
}

/// A table that lists nothing but one device leaves that device alone in
/// the block, whatever was tracked before: a partition whose disk has left
/// the table stands by itself at once.
pub proof fn lemma_one_line_alone(
    devices: Seq<Entry<Seq<u8>, Pair<DevStats>>>,
    line: DevLine,
    now: u64,
    r: Seq<int>,
)
    requires
        ascending(devices),
    ensures
        ascending(kept(dev_fold(marked(devices), seq![line], now))),
        entry_of(kept(dev_fold(marked(devices), seq![line], now)), r) is Some <==> r
            == line.name.rank(),
{
    let m = marked(devices);
    let one = seq![line];
    assert(one.drop_last() =~= Seq::<DevLine>::empty());
    assert(one.last() == line);
    assert(dev_fold(m, one, now) == dev_step(dev_fold(m, one.drop_last(), now), line, now)) by {
        reveal_with_fuel(dev_fold, 2);
    }
    assert(dev_fold(m, one.drop_last(), now) == m) by {
        reveal_with_fuel(dev_fold, 1);
    }
    lemma_marked_ascending(devices);
    lemma_stale_hides_nothing(devices, line.name);
    let after = sampled(m, line.name, dev_fresh(now), dev_sample(line, now));
    lemma_sampled_entry(m, line.name, dev_fresh(now), dev_sample(line, now), r);
    lemma_marked_entry(devices, r);
    lemma_kept_entry(after, r);
    lemma_kept_ascending(after);
}

/// The milliseconds between the two samples of a pair.
pub open spec fn dev_ms(pair: Pair<DevStats>) -> u64 {
    minus(pair.cur.t, pair.prev.t)
}

/// The bytes per second that a device has read between its two samples.
pub open spec fn read_rate(pair: Pair<DevStats>) -> u64 {
    per_second(minus(pair.cur.read.0, pair.prev.read.0), dev_ms(pair))
}

/// The bytes per second that a device has written between its two samples.
pub open spec fn write_rate(pair: Pair<DevStats>) -> u64 {
    per_second(minus(pair.cur.written.0, pair.prev.written.0), dev_ms(pair))
}

/// The share of the time between the two samples that requests have waited,
/// each request counted, with the levels from which on it is coloured: 50 %,
/// 80 % and 200 %.
pub open spec fn dev_pressure(pair: Pair<DevStats>) -> Threshold<Percentage> {
    Threshold {
        val: Percentage { part: minus(pair.cur.wrt, pair.prev.wrt), whole: dev_ms(pair) },
        med: Percentage { part: 50, whole: 100 },
        high: Percentage { part: 80, whole: 100 },
        crit: Percentage { part: 200, whole: 100 },
    }
}

/// The line of one device: its name, its two rates and its pressure, each in
/// a column. A device whose two samples were taken at the same time has no
/// line.
pub open spec fn dev_row(s: &Settings, name: Seq<u8>, pair: Pair<DevStats>) -> Seq<u8> {
    let w = s.colwidth as nat;
    if dev_ms(pair) == 0 {
        Seq::empty()
    } else {
        fit(name, w, Some(w), Align::Right) + seq![0x20u8] + bytes_text(read_rate(pair) as nat, w, 2)
            + seq![0x20u8] + bytes_text(write_rate(pair) as nat, w, 2) + seq![0x20u8]
            + threshold_text(s.smart, dev_pressure(pair), w, 2) + newline_text(s.smart)
    }
}

/// The lines of the devices.
pub open spec fn dev_rows(s: &Settings, devices: Seq<Entry<Seq<u8>, Pair<DevStats>>>) -> Seq<u8>
    decreases devices.len(),
{
    if devices.len() == 0 {
        Seq::empty()
    } else {
        dev_rows(s, devices.drop_last()) + dev_row(s, devices.last().key, devices.last().value)
    }
}

/// The headings of the block.
pub open spec fn dev_head(s: &Settings) -> Seq<u8> {
    let w = s.colwidth as nat;
    heading_text(s.smart, "DEVICE", w, w, Align::Right) + seq![0x20u8] + heading_text(
        s.smart,
        "READ/s",
        w,
        w,
        Align::Right,
    ) + seq![0x20u8] + heading_text(s.smart, "WRITE/s", w, w, Align::Right) + seq![0x20u8]
        + heading_text(s.smart, "PRESSURE", w, w, Align::Right) + newline_text(s.smart)
}

/// The whole block: headings, a line for each device, an empty line; or
/// nothing where no device is known.
pub open spec fn dev_text(s: &Settings, devices: Seq<Entry<Seq<u8>, Pair<DevStats>>>) -> Seq<u8> {
    if devices.len() == 0 {
        Seq::empty()
    } else {
        dev_head(s) + dev_rows(s, devices) + newline_text(s.smart)
    }
}

/// Whether every device has a line of its own: its name holds no line
/// feed, and its two samples were taken at different times.
pub open spec fn devices_shown(devices: Seq<Entry<Seq<u8>, Pair<DevStats>>>) -> bool {
    forall|i: int|
        0 <= i < devices.len() ==> flat((#[trigger] devices[i]).key) && dev_ms(devices[i].value) > 0
}

/// No heading of the block holds a line feed.
pub proof fn lemma_dev_titles(s: &Settings)
    ensures
        flat(heading_text(s.smart, "DEVICE", s.colwidth as nat, s.colwidth as nat, Align::Right)),
        flat(heading_text(s.smart, "READ/s", s.colwidth as nat, s.colwidth as nat, Align::Right)),
        flat(heading_text(s.smart, "WRITE/s", s.colwidth as nat, s.colwidth as nat, Align::Right)),
        flat(heading_text(s.smart, "PRESSURE", s.colwidth as nat, s.colwidth as nat, Align::Right)),
{
    let w = s.colwidth as nat;
    reveal_strlit("DEVICE");
    reveal_strlit("READ/s");
    reveal_strlit("WRITE/s");
    reveal_strlit("PRESSURE");
    lemma_flat_title(s.smart, "DEVICE", w, w, Align::Right);
    lemma_flat_title(s.smart, "READ/s", w, w, Align::Right);
    lemma_flat_title(s.smart, "WRITE/s", w, w, Align::Right);
    lemma_flat_title(s.smart, "PRESSURE", w, w, Align::Right);
}

/// The headings are one whole line.
pub proof fn lemma_dev_head(s: &Settings)
    ensures
        whole_lines(dev_head(s), 1),
{
    let w = s.colwidth as nat;
    lemma_dev_titles(s);
    let h0 = heading_text(s.smart, "DEVICE", w, w, Align::Right);
    let h1 = h0 + seq![0x20u8] + heading_text(s.smart, "READ/s", w, w, Align::Right);
    lemma_flat_next(h0, heading_text(s.smart, "READ/s", w, w, Align::Right));
    let h2 = h1 + seq![0x20u8] + heading_text(s.smart, "WRITE/s", w, w, Align::Right);
    lemma_flat_next(h1, heading_text(s.smart, "WRITE/s", w, w, Align::Right));
    let h3 = h2 + seq![0x20u8] + heading_text(s.smart, "PRESSURE", w, w, Align::Right);
    lemma_flat_next(h2, heading_text(s.smart, "PRESSURE", w, w, Align::Right));
    lemma_line(h3, s.smart);
}

/// Devices that each have a line of their own have as many lines.
pub proof fn lemma_dev_rows(s: &Settings, devices: Seq<Entry<Seq<u8>, Pair<DevStats>>>)
    requires
        devices_shown(devices),
    ensures
        count(dev_rows(s, devices), 0x0a) == devices.len(),
    decreases devices.len(),
{
    if devices.len() > 0 {
        let w = s.colwidth as nat;
        let e = devices.last();
        assert(e == devices[devices.len() - 1]);
        assert(devices_shown(devices.drop_last())) by {
            assert forall|i: int| 0 <= i < devices.drop_last().len() implies flat(
                (#[trigger] devices.drop_last()[i]).key,
            ) && dev_ms(devices.drop_last()[i].value) > 0 by {
                assert(devices.drop_last()[i] == devices[i]);
            }
        }
        lemma_dev_rows(s, devices.drop_last());
        lemma_flat_fit(e.key, w, Some(w), Align::Right);
        Bytes(read_rate(e.value)).lemma_flat(w, 2);
        Bytes(write_rate(e.value)).lemma_flat(w, 2);
        lemma_flat_threshold(s.smart, dev_pressure(e.value), w, 2);
        let c0 = fit(e.key, w, Some(w), Align::Right);
        let c1 = c0 + seq![0x20u8] + bytes_text(read_rate(e.value) as nat, w, 2);
        lemma_flat_next(c0, bytes_text(read_rate(e.value) as nat, w, 2));
        let c2 = c1 + seq![0x20u8] + bytes_text(write_rate(e.value) as nat, w, 2);
        lemma_flat_next(c1, bytes_text(write_rate(e.value) as nat, w, 2));
        let content = c2 + seq![0x20u8] + threshold_text(s.smart, dev_pressure(e.value), w, 2);
        lemma_flat_next(c2, threshold_text(s.smart, dev_pressure(e.value), w, 2));
        lemma_line(content, s.smart);
        lemma_count_add(dev_rows(s, devices.drop_last()), dev_row(s, e.key, e.value), 0x0a);
    }
}

/// The block prints as many whole lines as it claims where every device has
/// a line of its own: the headings, a line for each device, an empty line.
pub proof fn lemma_dev_lines(s: &Settings, devices: Seq<Entry<Seq<u8>, Pair<DevStats>>>)
    requires
        devices_shown(devices),
    ensures
        whole_lines(
            dev_text(s, devices),
            if devices.len() == 0 {
                0
            } else {
                2 + devices.len() as int
            },
        ),
{
    if devices.len() > 0 {
        lemma_dev_head(s);
        lemma_dev_rows(s, devices);
        lemma_line(Seq::empty(), s.smart);
        lemma_count_add(dev_head(s), dev_rows(s, devices), 0x0a);
        lemma_count_add(dev_head(s) + dev_rows(s, devices), newline_text(s.smart), 0x0a);
    } else {
        assert(count(Seq::<u8>::empty(), 0x0a) == 0);
    }
}

/// Reads one line of the table.
pub fn read_dev_line(line: &[u8]) -> (r: Read<DevRecord>)
    ensures
        match r {
            Read::Bad => dev_line(line@) is Bad,
            Read::Skip => dev_line(line@) is Skip,
            Read::Record(rec) => dev_line(line@) == Read::Record(rec@),
        },
{
    let f = split_fields(line);
    assert(forall|i: int| 0 <= i < f@.len() ==> texts(f@)[i] == #[trigger] f@[i]@);
    if f.len() < 3 {
        return Read::Bad;
    }
    let kname = f[2].as_slice();
    if starts_with(kname, "dm-".as_bytes()) || starts_with(kname, "loop".as_bytes()) {
        return Read::Skip;
    }
    if f.len() < 14 {
        return Read::Bad;
    }
    match (
        parse_number(f[5].as_slice()),
        parse_number(f[9].as_slice()),
        parse_number(f[13].as_slice()),
    ) {
        (Some(rd), Some(wr), Some(wrt)) => {
            if rd <= u64::MAX / SECTOR_SIZE && wr <= u64::MAX / SECTOR_SIZE {
                let name = copy_range(kname, 0, kname.len());
                assert(name@ =~= kname@);
                Read::Record(
                    DevRecord { name, read: SECTOR_SIZE * rd, written: SECTOR_SIZE * wr, wrt },
                )
            } else {
                Read::Bad
            }
        },
        _ => Read::Bad,
    }
}

/// Reads the kernel's table.
pub fn read_diskstats(content: &[u8]) -> (r: Option<Vec<DevRecord>>)
    ensures
        match r {
            Some(v) => diskstats_records(content@) == Some(dev_lines(v@)),
            None => diskstats_records(content@) is None,
        },
{
    let ls = split_lines(content);
    let mut out: Vec<DevRecord> = Vec::new();
    let ghost all = texts(ls@);
    let mut i: usize = 0;
    proof {
        assert(dev_lines(out@) =~= Seq::<DevLine>::empty());
        match dev_records(all, 0) {
            Some(rest) => {
                assert(dev_lines(out@) + rest =~= rest);
            },
            None => {},
        }
    }
    while i < ls.len()
        invariant
            all == texts(ls@),
            all == lines(content@),
            dev_records(all, 0) == (match dev_records(all, i as int) {
                Some(rest) => Some(dev_lines(out@) + rest),
                None => None,
            }),
        decreases ls.len() - i,
    {
        assert(all[i as int] == ls@[i as int]@);
        match read_dev_line(ls[i].as_slice()) {
            Read::Bad => {
                return None;
            },
            Read::Skip => {},
            Read::Record(r) => {
                let ghost before = dev_lines(out@);
                out.push(r);
                proof {
                    assert(dev_lines(out@) =~= before.push(r@));
                    match dev_records(all, i + 1) {
                        Some(rest) => {
                            assert(before + (seq![r@] + rest) =~= dev_lines(out@) + rest);
                        },
                        None => {},
                    }
                }
            },
        }
        i += 1;
    }
    proof {
        assert(dev_lines(out@) + Seq::<DevLine>::empty() =~= dev_lines(out@));
    }
    Some(out)
}

/// What a tick reads for the block-device block.
pub struct BlockDeviceSource {
    /// When the table was read, in milliseconds of a clock that never goes
    /// back.
    pub now: u64,
    /// The kernel's table of disk statistics, or `None` where it could not
    /// be read.
    pub diskstats: Option<Vec<u8>>,
}

/// The block-device block.
pub struct BlockDeviceStats {
    devices: Tracker<Vec<u8>, Pair<DevStats>>,
}

/// Appends the line of one device.
pub fn push_dev_row(out: &mut Vec<u8>, s: &Settings, name: &[u8], pair: Pair<DevStats>)
    ensures
        final(out)@ == old(out)@ + dev_row(s, name@, pair),
{
    let w = s.colwidth as usize;
    let ms = minus_of(pair.cur.t, pair.prev.t);
    if ms == 0 {
        assert(out@ =~= old(out)@ + Seq::<u8>::empty());
        return ;
    }
    let rd = Bytes(rate(minus_of(pair.cur.read.0, pair.prev.read.0), ms));
    let wt = Bytes(rate(minus_of(pair.cur.written.0, pair.prev.written.0), ms));
    let p = Threshold {
        val: Percentage { part: minus_of(pair.cur.wrt, pair.prev.wrt), whole: ms },
        med: Percentage { part: 50, whole: 100 },
        high: Percentage { part: 80, whole: 100 },
        crit: Percentage { part: 200, whole: 100 },
    };
    assert(rd.0 == read_rate(pair) && wt.0 == write_rate(pair) && p == dev_pressure(pair));
    let mut line: Vec<u8> = Vec::new();
    push_fitted(&mut line, name, w, Some(w), Align::Right);
    assert(line@ =~= fit(name@, w as nat, Some(w as nat), Align::Right));
    push_blank(&mut line);
    push_quantity(&mut line, &rd, w, 2);
    push_blank(&mut line);
    push_quantity(&mut line, &wt, w, 2);
    push_blank(&mut line);
    push_threshold(&mut line, s.smart, &p, w, 2);
    push_newline(&mut line, s.smart);
    push_bytes(out, line.as_slice());
}

impl BlockDeviceStats {
    /// The devices in the order of their names.
    pub closed spec fn devices(&self) -> Seq<Entry<Seq<u8>, Pair<DevStats>>> {
        self.devices@
    }

    /// The devices stand in the order of their names, each once.
    pub closed spec fn inv(&self) -> bool {
        self.devices.wf()
    }

    /// The block prints as many whole lines as it has rows, where every
    /// device has a line of its own.
    pub proof fn lemma_lines(&self, s: &Settings)
        requires
            devices_shown(self.devices()),
            self.devices().len() + 2 <= 0xffff,
        ensures
            whole_lines(self.text(s), self.height(s) as int),
    {
        lemma_dev_lines(s, self.devices());
    }

    /// A block that is in order holds its devices in ascending order of
    /// their names, each once.
    pub proof fn lemma_ascending(&self)
        requires
            self.inv(),
        ensures
            ascending(self.devices()),
    {
    }

    /// The number of devices.
    pub fn count(&self) -> (n: usize)
        ensures
            n == self.devices().len(),
    {
        self.devices.len()
    }

    /// Takes in one line of the table.
    fn observe(&mut self, r: &DevRecord, now: u64)
        requires
            old(self).inv(),
        ensures
            final(self).inv(),
            final(self).devices() == dev_step(old(self).devices(), r@, now),
    {
        let n = r.name.len();
        if n > 0 && 0x30 <= r.name[n - 1] && r.name[n - 1] <= 0x39 {
            let parent = copy_range(r.name.as_slice(), 0, n - 1);
            assert(parent@ =~= r.name@.drop_last());
            if let Ok(i) = self.devices.find(&parent) {
                if !self.devices.slot(i).stale.0 {
                    return ;
                }
            }
        }
        let name = copy_range(r.name.as_slice(), 0, n);
        assert(name@ =~= r.name@);
        self.devices.sample(
            name,
            DevStats { t: now, read: Bytes(0), written: Bytes(0), wrt: 0 },
            DevStats { t: now, read: Bytes(r.read), written: Bytes(r.written), wrt: r.wrt },
        );
    }
}

impl StatBlock for BlockDeviceStats {
    type Source = BlockDeviceSource;

    open spec fn wf(&self) -> bool {
        &&& self.inv()
        &&& forall|i: int| 0 <= i < self.devices().len() ==> !(#[trigger] self.devices()[i]).stale.0
    }

    open spec fn width(&self, s: &Settings) -> u16 {
        if self.devices().len() == 0 {
            0
        } else {
            clamp16(4 * s.colwidth + 3)
        }
    }

    open spec fn height(&self, s: &Settings) -> u16 {
        if self.devices().len() == 0 {
            0
        } else {
            clamp16(2 + self.devices().len() as int)
        }
    }

    open spec fn text(&self, s: &Settings) -> Seq<u8> {
        dev_text(s, self.devices())
    }

    open spec fn fresh(&self) -> bool {
        self.devices().len() == 0
    }

    open spec fn stepped(&self, source: &BlockDeviceSource, next: &Self, ok: bool) -> bool {
        match source.diskstats {
            None => ok && next.devices() == self.devices(),
            Some(content) => match diskstats_records(content@) {
                None => !ok && next.devices() == self.devices(),
                Some(records) => ok && next.devices() == kept(
                    dev_fold(marked(self.devices()), records, source.now),
                ) && forall|i: int|
                    0 <= i < next.devices().len() ==> !(
                    #[trigger] next.devices()[i]).stale.0,
            },
        }
    }

    proof fn lemma_blank(&self, s: &Settings) {
    }

    fn new() -> (b: Self) {
        BlockDeviceStats { devices: Tracker::new() }
    }

    /// Takes in the kernel's table. Where it could not be read or makes no
    /// sense, nothing changes. Else each device of the table has its sample,
    /// but for the partitions of tracked devices, and a device that the
    /// table leaves out is gone.
    fn update(&mut self, source: &BlockDeviceSource) -> (ok: bool) {
        let content = match &source.diskstats {
            None => {
                return true;
            },
            Some(content) => content,
        };
        let records = match read_diskstats(content.as_slice()) {
            None => {
                return false;
            },
            Some(records) => records,
        };
        let now = source.now;
        self.devices.mark_all();
        let ghost start = self.devices@;
        let ghost all = dev_lines(records@);
        let mut i: usize = 0;
        while i < records.len()
            invariant
                i <= records.len(),
                all == dev_lines(records@),
                self.inv(),
                self.devices() == dev_fold(start, all.take(i as int), now),
            decreases records.len() - i,
        {
            proof {
                assert(all.take(i + 1).drop_last() =~= all.take(i as int));
                assert(all.take(i + 1).last() == records@[i as int]@);
            }
            self.observe(&records[i], now);
            i += 1;
        }
        assert(all.take(i as int) =~= all);
        self.devices.sweep();
        true
    }

    fn columns(&self, s: &Settings) -> (c: u16) {
        if self.devices.is_empty() {
            0
        } else {
            clamped(4 * (s.colwidth as usize) + 3)
        }
    }

    fn rows(&self, s: &Settings) -> (r: u16) {
        if self.devices.is_empty() {
            0
        } else {
            let n = self.devices.len();
            if n > 0xffff {
                0xffff
            } else {
                clamped(2 + n)
            }
        }
    }

    fn render(&self, s: &Settings) -> (out: Vec<u8>) {
        let mut out: Vec<u8> = Vec::new();
        if self.devices.is_empty() {
            return out;
        }
        let w = s.colwidth as usize;
        push_heading(&mut out, s.smart, "DEVICE", w, w, Align::Right);
        out.push(0x20u8);
        push_heading(&mut out, s.smart, "READ/s", w, w, Align::Right);
        out.push(0x20u8);
        push_heading(&mut out, s.smart, "WRITE/s", w, w, Align::Right);
        out.push(0x20u8);
        push_heading(&mut out, s.smart, "PRESSURE", w, w, Align::Right);
        push_newline(&mut out, s.smart);
        assert(out@ =~= dev_head(s));
        let n = self.devices.len();
        let mut i: usize = 0;
        while i < n
            invariant
                i <= n,
                n == self.devices().len(),
                out@ == dev_head(s) + dev_rows(s, self.devices().take(i as int)),
            decreases n - i,
        {
            proof {
                assert(self.devices().take(i + 1).drop_last() =~= self.devices().take(i as int));
                assert(self.devices().take(i + 1).last() == self.devices()[i as int]);
            }
            let slot = self.devices.slot(i);
            push_dev_row(&mut out, s, slot.key.as_slice(), slot.value);
            assert(out@ =~= dev_head(s) + dev_rows(s, self.devices().take(i + 1)));
            i += 1;
        }
        assert(self.devices().take(n as int) =~= self.devices());
        push_newline(&mut out, s.smart);
        out
    }
}

} // verus!
