//! The filesystem block: how full each mounted filesystem is.

use crate::common::{
    bytes_text, clamp16, clamped, heading_text, lemma_flat_threshold, lemma_flat_title,
    lemma_line, newline_text, push_heading, push_newline, push_threshold, threshold_text, Bytes,
    Percentage, Quantity, Settings, StatBlock, Threshold,
};
use crate::layout::{count, lemma_count_add, whole_lines};
use crate::mem::{push_quantity, times, times_of};
use crate::parse::{
    copy_range, lines, rsplit_once, same_bytes, split_first, split_last, split_lines, split_once,
    strip_prefix, texts, without_prefix, Read,
};
use crate::rate::{minus, minus_of};
use crate::text::{
    fit, flat, lemma_flat_fit, lemma_flat_next, lit, push_blank, push_bytes, push_fitted, Align,
};
use crate::tracker::{ascending, kept, marked, put, Entry, Tracker};
use vstd::prelude::*;

verus! {

/// The size of a filesystem and what of it is free, in bytes.
#[derive(Clone, Copy, Debug, PartialEq, Eq, Structural)]
pub struct FSUsage {
    pub size: Bytes,
    pub avail: Bytes,
}

/// A mount as a line of the kernel's table names it.
pub struct MountLine {
    pub device: Seq<u8>,
    pub mountpoint: Seq<u8>,
}

/// What a line of the table says. A line reads `device D mounted on M with
/// fstype F` and more. `D` ends where ` mounted on ` stands first, `M` where
/// ` with fstype ` stands last. Mounts whose device does not begin with a
/// slash are passed over.
pub open spec fn mount_line(line: Seq<u8>) -> Read<MountLine> {
    match strip_prefix(line, lit("device ")) {
        None => Read::Bad,
        Some(rest) => match split_once(rest, lit(" mounted on ")) {
            None => Read::Bad,
            Some((device, tail)) => if device.len() == 0 || device[0] != 0x2f {
                Read::Skip
            } else {
                match rsplit_once(tail, lit(" with fstype ")) {
                    None => Read::Bad,
                    Some((mountpoint, _)) => Read::Record(MountLine { device, mountpoint }),
                }
            },
        },
    }
}

/// The devices that have had their mount, and the mountpoints that were
/// taken so far.
pub struct Mounts {
    pub seen: Seq<Seq<u8>>,
    pub taken: Seq<Seq<u8>>,
}

/// The mounts after one line was taken in, or nothing where the line makes
/// no sense. Of the mounts of one device only the first counts.
pub open spec fn mount_step(acc: Mounts, line: Seq<u8>) -> Option<Mounts> {
    match mount_line(line) {
        Read::Bad => None,
        Read::Skip => Some(acc),
        Read::Record(m) => if acc.seen.contains(m.device) {
            Some(acc)
        } else {
            Some(Mounts { seen: acc.seen.push(m.device), taken: acc.taken.push(m.mountpoint) })
        },
    }
}

/// The mounts after the lines from the one at index `from` on were taken in.
pub open spec fn mounts_from(acc: Mounts, ls: Seq<Seq<u8>>, from: int) -> Option<Mounts>
    decreases ls.len() - from,
{
    if from < 0 || from >= ls.len() {
        Some(acc)
    } else {
        match mount_step(acc, ls[from]) {
            None => None,
            Some(next) => mounts_from(next, ls, from + 1),
        }
    }
}

/// The mountpoints whose filesystems the block shows, in the order of the
/// table.
pub open spec fn mountpoints(content: Seq<u8>) -> Option<Seq<Seq<u8>>> {
    match mounts_from(Mounts { seen: Seq::empty(), taken: Seq::empty() }, lines(content), 0) {
        Some(acc) => Some(acc.taken),
        None => None,
    }
}

/// Reads one line of the table: the device and the mountpoint.
pub fn read_mount_line(line: &[u8]) -> (r: Read<(Vec<u8>, Vec<u8>)>)
    ensures
        match r {
            Read::Bad => mount_line(line@) is Bad,
            Read::Skip => mount_line(line@) is Skip,
            Read::Record(m) => mount_line(line@) == Read::Record(
                MountLine { device: m.0@, mountpoint: m.1@ },
            ),
        },
{
    let rest = match without_prefix(line, "device ".as_bytes()) {
        None => {
            return Read::Bad;
        },
        Some(rest) => rest,
    };
    let (device, tail) = match split_first(rest, " mounted on ".as_bytes()) {
        None => {
            return Read::Bad;
        },
        Some(parts) => parts,
    };
    if device.len() == 0 || device[0] != 0x2f {
        return Read::Skip;
    }
    match split_last(tail, " with fstype ".as_bytes()) {
        None => Read::Bad,
        Some(parts) => {
            let d = copy_range(device, 0, device.len());
            let m = copy_range(parts.0, 0, parts.0.len());
            assert(d@ =~= device@);
            assert(m@ =~= parts.0@);
            Read::Record((d, m))
        },
    }
}

/// Whether `x` is among `list`.
pub fn is_among(list: &Vec<Vec<u8>>, x: &[u8]) -> (b: bool)
    ensures
        b == texts(list@).contains(x@),
{
    let mut i: usize = 0;
    while i < list.len()
        invariant
            i <= list.len(),
            forall|j: int| 0 <= j < i ==> texts(list@)[j] != x@,
        decreases list.len() - i,
    {
        assert(texts(list@)[i as int] == list@[i as int]@);
        if same_bytes(list[i].as_slice(), x) {
            return true;
        }
        i += 1;
    }
    false
}

/// Takes one line of the table in. The result says whether the line makes
/// sense.
pub fn take_mount(seen: &mut Vec<Vec<u8>>, taken: &mut Vec<Vec<u8>>, line: &[u8]) -> (ok: bool)
    ensures
        match mount_step(Mounts { seen: texts(old(seen)@), taken: texts(old(taken)@) }, line@) {
            None => !ok,
            Some(next) => ok && next == (Mounts {
                seen: texts(final(seen)@),
                taken: texts(final(taken)@),
            }),
        },
{
    match read_mount_line(line) {
        Read::Bad => false,
        Read::Skip => true,
        Read::Record(m) => {
            let (device, mountpoint) = m;
            if !is_among(seen, device.as_slice()) {
                seen.push(device);
                taken.push(mountpoint);
                assert(texts(seen@) =~= texts(old(seen)@).push(device@));
                assert(texts(taken@) =~= texts(old(taken)@).push(mountpoint@));
            }
            true
        },
    }
}

/// Reads the table of mounts: the mountpoints whose filesystems the block
/// shows, in the order of the table.
pub fn read_mountstats(content: &[u8]) -> (r: Option<Vec<Vec<u8>>>)
    ensures
        match r {
            Some(v) => mountpoints(content@) == Some(texts(v@)),
            None => mountpoints(content@) is None,
        },
{
    let ls = split_lines(content);
    let ghost all = texts(ls@);
    let ghost start = Mounts { seen: Seq::empty(), taken: Seq::empty() };
    let mut seen: Vec<Vec<u8>> = Vec::new();
    let mut taken: Vec<Vec<u8>> = Vec::new();
    let mut i: usize = 0;
    assert(texts(seen@) =~= Seq::<Seq<u8>>::empty());
    assert(texts(taken@) =~= Seq::<Seq<u8>>::empty());
    while i < ls.len()
        invariant
            all == texts(ls@),
            all == lines(content@),
            start == (Mounts { seen: Seq::empty(), taken: Seq::empty() }),
            mounts_from(start, all, 0) == mounts_from(
                Mounts { seen: texts(seen@), taken: texts(taken@) },
                all,
                i as int,
            ),
        decreases ls.len() - i,
    {
        assert(all[i as int] == ls@[i as int]@);
        if !take_mount(&mut seen, &mut taken, ls[i].as_slice()) {
            return None;
        }
        i += 1;
    }
    Some(taken)
}

/// What the system says of one filesystem: the number of blocks and of free
/// blocks, and the sizes that each is counted in.
#[derive(Clone, Copy)]
pub struct Statvfs {
    pub blocks: u64,
    pub frsize: u64,
    pub bavail: u64,
    pub bsize: u64,
}

/// One mountpoint and what the system says of its filesystem.
pub struct Mount {
    pub mountpoint: Vec<u8>,
    pub vfs: Statvfs,
}

/// The usage that the system's numbers give, where they fit 64 bits.
pub open spec fn usage_of(v: Statvfs) -> Option<FSUsage> {
    match (times(v.blocks, v.frsize), times(v.bavail, v.bsize)) {
        (Some(size), Some(avail)) => Some(FSUsage { size: Bytes(size), avail: Bytes(avail) }),
        _ => None,
    }
}

/// Whether the numbers of each mount from the one at index `from` on fit 64
/// bits.
pub open spec fn all_fit(mounts: Seq<Mount>, from: int) -> bool
    decreases mounts.len() - from,
{
    if from < 0 || from >= mounts.len() {
        true
    } else {
        usage_of(mounts[from].vfs) is Some && all_fit(mounts, from + 1)
    }
}

/// The filesystems after the first `n` mounts of a tick were taken in.
pub open spec fn fs_fold(fss: Seq<Entry<Seq<u8>, FSUsage>>, mounts: Seq<Mount>, n: int) -> Seq<
    Entry<Seq<u8>, FSUsage>,
>
    decreases n,
{
    if n <= 0 || n > mounts.len() {
        fss
    } else {
        match usage_of(mounts[n - 1].vfs) {
            Some(u) => put(fs_fold(fss, mounts, n - 1), mounts[n - 1].mountpoint@, u),
            None => fs_fold(fss, mounts, n - 1),
        }
    }
}

/// What a tick reads for the filesystem block.
pub struct FilesystemSource {
    /// The mounts that the table of mounts names, each with what the system
    /// says of its filesystem; `None` where the table could not be read.
    pub mounts: Option<Vec<Mount>>,
}

/// The name that a mountpoint is shown by: what follows its last slash, and
/// the whole of it where it is the root or holds no slash.
pub open spec fn shown_name(mountpoint: Seq<u8>) -> Seq<u8> {
    if mountpoint == seq![0x2fu8] {
        mountpoint
    } else {
        match rsplit_once(mountpoint, seq![0x2fu8]) {
            Some((_, name)) => name,
            None => mountpoint,
        }
    }
}

/// The bytes in use.
pub open spec fn used(u: FSUsage) -> u64 {
    minus(u.size.0, u.avail.0)
}

/// The share of a filesystem that is in use, with the levels from which on
/// it is coloured: 80 %, 90 % and 95 %. A filesystem without size has no
/// share in use.
pub open spec fn fill(u: FSUsage) -> Threshold<Percentage> {
    Threshold {
        val: if u.size.0 == 0 {
            Percentage { part: 0, whole: 1 }
        } else {
            Percentage { part: used(u), whole: u.size.0 }
        },
        med: Percentage { part: 80, whole: 100 },
        high: Percentage { part: 90, whole: 100 },
        crit: Percentage { part: 95, whole: 100 },
    }
}

/// The line of one filesystem: its name, the share in use, the bytes in use
/// and the bytes that are free, each in a column.
pub open spec fn fs_row(s: &Settings, mountpoint: Seq<u8>, u: FSUsage) -> Seq<u8> {
    let w = s.colwidth as nat;
    let b = seq![0x20u8];
    fit(shown_name(mountpoint), w, Some(w), Align::Right) + b + threshold_text(
        s.smart,
        fill(u),
        w,
        2,
    ) + b + bytes_text(used(u) as nat, w, 2) + b + bytes_text(u.avail.0 as nat, w, 2)
        + newline_text(s.smart)
}

/// The lines of the filesystems.
pub open spec fn fs_rows(s: &Settings, fss: Seq<Entry<Seq<u8>, FSUsage>>) -> Seq<u8>
    decreases fss.len(),
{
    if fss.len() == 0 {
        Seq::empty()
    } else {
        fs_rows(s, fss.drop_last()) + fs_row(s, fss.last().key, fss.last().value)
    }
}

/// The headings of the block.
pub open spec fn fs_head(s: &Settings) -> Seq<u8> {
    let w = s.colwidth as nat;
    let b = seq![0x20u8];
    heading_text(s.smart, "FS", w, w, Align::Right) + b + heading_text(
        s.smart,
        "USED%",
        w,
        w,
        Align::Right,
    ) + b + heading_text(s.smart, "USED", w, w, Align::Right) + b + heading_text(
        s.smart,
        "AVAIL",
        w,
        w,
        Align::Right,
    ) + newline_text(s.smart)
}

/// The whole block: headings, a line for each filesystem, an empty line; or
/// nothing where no filesystem is known.
pub open spec fn fs_text(s: &Settings, fss: Seq<Entry<Seq<u8>, FSUsage>>) -> Seq<u8> {
    if fss.len() == 0 {
        Seq::empty()
    } else {
        fs_head(s) + fs_rows(s, fss) + newline_text(s.smart)
    }
}

/// Whether no filesystem is shown by a name that holds a line feed.
pub open spec fn names_shown(fss: Seq<Entry<Seq<u8>, FSUsage>>) -> bool {
    forall|i: int| 0 <= i < fss.len() ==> flat(shown_name((#[trigger] fss[i]).key))
}

/// No heading of the block holds a line feed.
pub proof fn lemma_fs_titles(s: &Settings)
    ensures
        flat(heading_text(s.smart, "FS", s.colwidth as nat, s.colwidth as nat, Align::Right)),
        flat(heading_text(s.smart, "USED%", s.colwidth as nat, s.colwidth as nat, Align::Right)),
        flat(heading_text(s.smart, "USED", s.colwidth as nat, s.colwidth as nat, Align::Right)),
        flat(heading_text(s.smart, "AVAIL", s.colwidth as nat, s.colwidth as nat, Align::Right)),
{
    let w = s.colwidth as nat;
    reveal_strlit("FS");
    reveal_strlit("USED%");
    reveal_strlit("USED");
    reveal_strlit("AVAIL");
    lemma_flat_title(s.smart, "FS", w, w, Align::Right);
    lemma_flat_title(s.smart, "USED%", w, w, Align::Right);
    lemma_flat_title(s.smart, "USED", w, w, Align::Right);
    lemma_flat_title(s.smart, "AVAIL", w, w, Align::Right);
}

/// The headings are one whole line.
pub proof fn lemma_fs_head(s: &Settings)
    ensures
        whole_lines(fs_head(s), 1),
{
    let w = s.colwidth as nat;
    lemma_fs_titles(s);
    let h0 = heading_text(s.smart, "FS", w, w, Align::Right);
    let h1 = h0 + seq![0x20u8] + heading_text(s.smart, "USED%", w, w, Align::Right);
    lemma_flat_next(h0, heading_text(s.smart, "USED%", w, w, Align::Right));
    let h2 = h1 + seq![0x20u8] + heading_text(s.smart, "USED", w, w, Align::Right);
    lemma_flat_next(h1, heading_text(s.smart, "USED", w, w, Align::Right));
    let h3 = h2 + seq![0x20u8] + heading_text(s.smart, "AVAIL", w, w, Align::Right);
    lemma_flat_next(h2, heading_text(s.smart, "AVAIL", w, w, Align::Right));
    lemma_line(h3, s.smart);
}

/// Filesystems have a line each.
pub proof fn lemma_fs_rows(s: &Settings, fss: Seq<Entry<Seq<u8>, FSUsage>>)
    requires
        names_shown(fss),
    ensures
        count(fs_rows(s, fss), 0x0a) == fss.len(),
    decreases fss.len(),
{
    if fss.len() > 0 {
        let w = s.colwidth as nat;
        let e = fss.last();
        assert(e == fss[fss.len() - 1]);
        assert(names_shown(fss.drop_last())) by {
            assert forall|i: int| 0 <= i < fss.drop_last().len() implies flat(
                shown_name((#[trigger] fss.drop_last()[i]).key),
            ) by {
                assert(fss.drop_last()[i] == fss[i]);
            }
        }
        lemma_fs_rows(s, fss.drop_last());
        lemma_flat_fit(shown_name(e.key), w, Some(w), Align::Right);
        lemma_flat_threshold(s.smart, fill(e.value), w, 2);
        Bytes(used(e.value)).lemma_flat(w, 2);
        e.value.avail.lemma_flat(w, 2);
        let c0 = fit(shown_name(e.key), w, Some(w), Align::Right);
        let c1 = c0 + seq![0x20u8] + threshold_text(s.smart, fill(e.value), w, 2);
        lemma_flat_next(c0, threshold_text(s.smart, fill(e.value), w, 2));
        let c2 = c1 + seq![0x20u8] + bytes_text(used(e.value) as nat, w, 2);
        lemma_flat_next(c1, bytes_text(used(e.value) as nat, w, 2));
        let content = c2 + seq![0x20u8] + bytes_text(e.value.avail.0 as nat, w, 2);
        lemma_flat_next(c2, bytes_text(e.value.avail.0 as nat, w, 2));
        lemma_line(content, s.smart);
        lemma_count_add(fs_rows(s, fss.drop_last()), fs_row(s, e.key, e.value), 0x0a);
    }
}

/// The block prints as many whole lines as it claims where no name holds a
/// line feed: the headings, a line for each filesystem, an empty line.
pub proof fn lemma_fs_lines(s: &Settings, fss: Seq<Entry<Seq<u8>, FSUsage>>)
    requires
        names_shown(fss),
    ensures
        whole_lines(
            fs_text(s, fss),
            if fss.len() == 0 {
                0
            } else {
                2 + fss.len() as int
            },
        ),
{
    if fss.len() > 0 {
        lemma_fs_head(s);
        lemma_fs_rows(s, fss);
        lemma_line(Seq::empty(), s.smart);
        lemma_count_add(fs_head(s), fs_rows(s, fss), 0x0a);
        lemma_count_add(fs_head(s) + fs_rows(s, fss), newline_text(s.smart), 0x0a);
    } else {
        assert(count(Seq::<u8>::empty(), 0x0a) == 0);
    }
}

/// The name that a mountpoint is shown by.
pub fn name_of(mountpoint: &[u8]) -> (name: &[u8])
    ensures
        name@ == shown_name(mountpoint@),
{
    let mut slash: Vec<u8> = Vec::new();
    slash.push(0x2fu8);
    assert(slash@ =~= seq![0x2fu8]);
    if same_bytes(mountpoint, slash.as_slice()) {
        return mountpoint;
    }
    match split_last(mountpoint, slash.as_slice()) {
        Some(parts) => parts.1,
        None => mountpoint,
    }
}

/// Appends the line of one filesystem.
pub fn push_fs_row(out: &mut Vec<u8>, s: &Settings, mountpoint: &[u8], u: FSUsage)
    ensures
        final(out)@ == old(out)@ + fs_row(s, mountpoint@, u),
{
    let w = s.colwidth as usize;
    let in_use = minus_of(u.size.0, u.avail.0);
    let t = Threshold {
        val: if u.size.0 == 0 {
            Percentage { part: 0, whole: 1 }
        } else {
            Percentage { part: in_use, whole: u.size.0 }
        },
        med: Percentage { part: 80, whole: 100 },
        high: Percentage { part: 90, whole: 100 },
        crit: Percentage { part: 95, whole: 100 },
    };
    let mut line: Vec<u8> = Vec::new();
    push_fitted(&mut line, name_of(mountpoint), w, Some(w), Align::Right);
    assert(line@ =~= fit(shown_name(mountpoint@), w as nat, Some(w as nat), Align::Right));
    push_blank(&mut line);
    push_threshold(&mut line, s.smart, &t, w, 2);
    push_blank(&mut line);
    push_quantity(&mut line, &Bytes(in_use), w, 2);
    push_blank(&mut line);
    push_quantity(&mut line, &u.avail, w, 2);
    push_newline(&mut line, s.smart);
    push_bytes(out, line.as_slice());
}

/// Appends the headings of the block.
pub fn push_fs_head(out: &mut Vec<u8>, s: &Settings)
    ensures
        final(out)@ == old(out)@ + fs_head(s),
{
    let w = s.colwidth as usize;
    let mut line: Vec<u8> = Vec::new();
    push_heading(&mut line, s.smart, "FS", w, w, Align::Right);
    assert(line@ =~= heading_text(s.smart, "FS", w as nat, w as nat, Align::Right));
    push_blank(&mut line);
    push_heading(&mut line, s.smart, "USED%", w, w, Align::Right);
    push_blank(&mut line);
    push_heading(&mut line, s.smart, "USED", w, w, Align::Right);
    push_blank(&mut line);
    push_heading(&mut line, s.smart, "AVAIL", w, w, Align::Right);
    push_newline(&mut line, s.smart);
    push_bytes(out, line.as_slice());
}

/// The filesystem block.
pub struct FilesystemStats {
    filesystems: Tracker<Vec<u8>, FSUsage>,
}

impl FilesystemStats {
    /// The filesystems in the order of their mountpoints.
    pub closed spec fn filesystems(&self) -> Seq<Entry<Seq<u8>, FSUsage>> {
        self.filesystems@
    }

    /// The filesystems stand in the order of their mountpoints, each once.
    pub closed spec fn inv(&self) -> bool {
        self.filesystems.wf()
    }

    /// The block prints as many whole lines as it has rows, where no name
    /// holds a line feed.
    pub proof fn lemma_lines(&self, s: &Settings)
        requires
            names_shown(self.filesystems()),
            self.filesystems().len() + 2 <= 0xffff,
        ensures
            whole_lines(self.text(s), self.height(s) as int),
    {
        lemma_fs_lines(s, self.filesystems());
    }

    /// A block that is in order holds its filesystems in ascending order of
    /// their mountpoints, each once.
    pub proof fn lemma_ascending(&self)
        requires
            self.inv(),
        ensures
            ascending(self.filesystems()),
    {
    }

    /// The number of filesystems.
    pub fn count(&self) -> (n: usize)
        ensures
            n == self.filesystems().len(),
    {
        self.filesystems.len()
    }
}

/// Whether the numbers of every mount fit 64 bits.
pub fn fits(mounts: &Vec<Mount>) -> (b: bool)
    ensures
        b == all_fit(mounts@, 0),
{
    let mut i: usize = mounts.len();
    while i > 0
        invariant
            i <= mounts.len(),
            all_fit(mounts@, i as int),
        decreases i,
    {
        i -= 1;
        let v = mounts[i].vfs;
        if times_of(v.blocks, v.frsize).is_none() || times_of(v.bavail, v.bsize).is_none() {
            assert(!all_fit(mounts@, i as int));
            proof {
                lemma_misfit(mounts@, i as int, 0);
            }
            return false;
        }
    }
    true
}

/// Where the numbers of one mount do not fit, those of the mounts from any
/// earlier one on do not all fit.
pub proof fn lemma_misfit(mounts: Seq<Mount>, i: int, from: int)
    requires
        0 <= from <= i < mounts.len(),
        usage_of(mounts[i].vfs) is None,
    ensures
        !all_fit(mounts, from),
    decreases i - from,
{
    if from < i {
        lemma_misfit(mounts, i, from + 1);
    }
}

/// Where the numbers of all mounts from an index on fit, those of each of
/// them do.
pub proof fn lemma_fit(mounts: Seq<Mount>, from: int, i: int)
    requires
        0 <= from <= i < mounts.len(),
        all_fit(mounts, from),
    ensures
        usage_of(mounts[i].vfs) is Some,
    decreases i - from,
{
    if from < i {
        lemma_fit(mounts, from + 1, i);
    }
}

impl StatBlock for FilesystemStats {
    type Source = FilesystemSource;

    open spec fn wf(&self) -> bool {
        &&& self.inv()
        &&& forall|i: int| 0 <= i < self.filesystems().len() ==> !(#[trigger] self.filesystems()[i]).stale.0
    }

    open spec fn width(&self, s: &Settings) -> u16 {
        if self.filesystems().len() == 0 {
            0
        } else {
            clamp16(4 * s.colwidth + 3)
        }
    }

    open spec fn height(&self, s: &Settings) -> u16 {
        if self.filesystems().len() == 0 {
            0
        } else {
            clamp16(2 + self.filesystems().len() as int)
        }
    }

    open spec fn text(&self, s: &Settings) -> Seq<u8> {
        fs_text(s, self.filesystems())
    }

    open spec fn fresh(&self) -> bool {
        self.filesystems().len() == 0
    }

    open spec fn stepped(&self, source: &FilesystemSource, next: &Self, ok: bool) -> bool {
        match source.mounts {
            None => ok && next.filesystems() == self.filesystems(),
            Some(mounts) => if all_fit(mounts@, 0) {
                ok && next.filesystems() == kept(
                    fs_fold(marked(self.filesystems()), mounts@, mounts@.len() as int),
                ) && forall|i: int|
                    0 <= i < next.filesystems().len() ==> !(
                    #[trigger] next.filesystems()[i]).stale.0
            } else {
                !ok && next.filesystems() == self.filesystems()
            },
        }
    }

    proof fn lemma_blank(&self, s: &Settings) {
    }

    fn new() -> (b: Self) {
        FilesystemStats { filesystems: Tracker::new() }
    }

    /// Takes in the mounts of a tick. Where the table of mounts could not be
    /// read, or the numbers of a mount do not fit 64 bits, nothing changes.
    /// Else each mount has its usage, and a filesystem that is no longer
    /// mounted is gone.
    fn update(&mut self, source: &FilesystemSource) -> (ok: bool) {
        let mounts = match &source.mounts {
            None => {
                return true;
            },
            Some(mounts) => mounts,
        };
        if !fits(mounts) {
            return false;
        }
        self.filesystems.mark_all();
        let ghost start = self.filesystems@;
        let mut i: usize = 0;
        while i < mounts.len()
            invariant
                i <= mounts.len(),
                all_fit(mounts@, 0),
                self.filesystems.wf(),
                self.filesystems@ == fs_fold(start, mounts@, i as int),
            decreases mounts.len() - i,
        {
            proof {
                lemma_fit(mounts@, 0, i as int);
            }
            let m = &mounts[i];
            let size = times_of(m.vfs.blocks, m.vfs.frsize);
            let avail = times_of(m.vfs.bavail, m.vfs.bsize);
            match (size, avail) {
                (Some(size), Some(avail)) => {
                    let name = copy_range(m.mountpoint.as_slice(), 0, m.mountpoint.len());
                    assert(name@ =~= m.mountpoint@);
                    self.filesystems.put(name, FSUsage { size: Bytes(size), avail: Bytes(avail) });
                },
                _ => {},
            }
            i += 1;
        }
        self.filesystems.sweep();
        true
    }

    fn columns(&self, s: &Settings) -> (c: u16) {
        if self.filesystems.is_empty() {
            0
        } else {
            clamped(4 * (s.colwidth as usize) + 3)
        }
    }

    fn rows(&self, s: &Settings) -> (r: u16) {
        if self.filesystems.is_empty() {
            0
        } else {
            let n = self.filesystems.len();
            if n > 0xffff {
                0xffff
            } else {
                clamped(2 + n)
            }
        }
    }

    fn render(&self, s: &Settings) -> (out: Vec<u8>) {
        let mut out: Vec<u8> = Vec::new();
        if self.filesystems.is_empty() {
            return out;
        }
        push_fs_head(&mut out, s);
        assert(out@ =~= fs_head(s));
        let n = self.filesystems.len();
        let mut i: usize = 0;
        while i < n
            invariant
                i <= n,
                n == self.filesystems().len(),
                out@ == fs_head(s) + fs_rows(s, self.filesystems().take(i as int)),
            decreases n - i,
        {
            proof {
                assert(self.filesystems().take(i + 1).drop_last() =~= self.filesystems().take(
                    i as int,
                ));
                assert(self.filesystems().take(i + 1).last() == self.filesystems()[i as int]);
            }
            let slot = self.filesystems.slot(i);
            push_fs_row(&mut out, s, slot.key.as_slice(), slot.value);
            assert(out@ =~= fs_head(s) + fs_rows(s, self.filesystems().take(i + 1)));
            i += 1;
        }
        assert(self.filesystems().take(n as int) =~= self.filesystems());
        push_newline(&mut out, s.smart);
        out
    }
}

} // verus!
