//! The hardware-monitor block: the temperatures that each chip reports,
//! power and video memory of some graphics cards, and the sensors of
//! others.

use crate::common::{
    bytes_text, clamp16, clamped, heading_bytes, lemma_flat_heading, lemma_flat_number,
    lemma_flat_threshold, newline_text, push_heading_bytes, push_newline, push_threshold, room,
    room_of, threshold_text, whole_text, Bytes, Percentage, Quantity, Settings, Stale, StatBlock,
    Threshold, Watts,
};
use crate::layout::{count, lemma_count_add, lemma_count_none, lemma_newline_count, whole_lines};
use crate::decimal::{digits, fixed, lemma_flat_fixed, push_digits, push_fixed};
use crate::mem::push_quantity;
use crate::parse::{
    copy_range, number, parse_number, parse_signed, same_bytes, signed, strip_prefix,
    without_prefix, Read,
};
use crate::text::{
    fit, flat, lemma_flat_fit, lemma_flat_join, lemma_flat_lit, lit, pad, push_blank, push_bytes,
    push_fitted, push_padded, push_spaces, push_str, spaces, Align,
};
use crate::tracker::{
    ascending, kept, lemma_kept, lemma_lookup_unique, lemma_same_keys_lookup, lex_less, lookup,
    marked, place, put, same_keys, Entry, Key, Rank, Tracker,
};
use vstd::prelude::*;

verus! {

/// A temperature in thousandths of a degree Celsius.
#[derive(Clone, Copy, Debug, PartialEq, Eq, Structural)]
pub struct Celsius {
    pub milli: i64,
}

/// How far a temperature is from zero, in thousandths of a degree.
pub open spec fn magnitude(milli: i64) -> nat {
    if milli < 0 {
        (-milli) as nat
    } else {
        milli as nat
    }
}

/// A temperature as it is written: a minus sign where it is below zero, the
/// degrees with `precision` digits after the point, right-aligned, and `C`.
pub open spec fn celsius_text(milli: i64, width: nat, precision: nat) -> Seq<u8> {
    let sign = if milli < 0 {
        seq![0x2du8]
    } else {
        Seq::empty()
    };
    pad(sign + fixed(magnitude(milli), 1000, precision), room(width), Align::Right).push(0x43)
}

impl Quantity for Celsius {
    open spec fn valid(&self) -> bool {
        true
    }

    open spec fn text(&self, width: nat, precision: nat) -> Seq<u8> {
        celsius_text(self.milli, width, precision)
    }

    open spec fn below(&self, other: &Self) -> bool {
        self.milli < other.milli
    }

    proof fn lemma_not_below_chains(a: &Self, b: &Self, c: &Self) {
    }

    proof fn lemma_flat(&self, width: nat, precision: nat) {
        let sign = if self.milli < 0 {
            seq![0x2du8]
        } else {
            Seq::empty()
        };
        lemma_flat_fixed(magnitude(self.milli), 1000, precision);
        lemma_flat_join(sign, fixed(magnitude(self.milli), 1000, precision));
        lemma_flat_number(sign + fixed(magnitude(self.milli), 1000, precision), width, 0x43);
    }

    fn format(&self, width: usize, precision: usize) -> (out: Vec<u8>) {
        let mut number: Vec<u8> = Vec::new();
        let m: u128 = if self.milli < 0 {
            number.push(0x2du8);
            (-(self.milli as i128)) as u128
        } else {
            self.milli as u128
        };
        assert(number@ =~= if self.milli < 0 {
            seq![0x2du8]
        } else {
            Seq::empty()
        });
        push_fixed(&mut number, m, 1000, precision);
        let mut out: Vec<u8> = Vec::new();
        push_padded(&mut out, number.as_slice(), room_of(width), Align::Right);
        out.push(0x43u8);
        assert(out@ =~= celsius_text(self.milli, width as nat, precision as nat));
        out
    }

    fn is_below(&self, other: &Self) -> (b: bool) {
        self.milli < other.milli
    }
}

/// What a sensor reads.
#[derive(Clone, Copy)]
pub enum DataKind {
    Temperature(Celsius),
    Percentage(Percentage),
    /// What is in use, and of how much.
    Bytes(Bytes, Option<Bytes>),
    /// What is drawn, and up to how much.
    Watts(Watts, Option<Watts>),
    Nothing,
}

impl DataKind {
    /// A share is a share of something.
    pub open spec fn valid(&self) -> bool {
        match self {
            DataKind::Percentage(p) => p.valid(),
            _ => true,
        }
    }
}

/// The key of a chip: the kernel's monitors come first, in the order of
/// their numbers, then the cards of the vendor library, in the order of
/// theirs.
#[derive(Clone, Copy, Debug, PartialEq, Eq, Structural)]
pub struct ChipKey {
    pub nvml: bool,
    pub index: u64,
}

impl Rank for ChipKey {
    open spec fn rank(&self) -> Seq<int> {
        seq![
            if self.nvml {
                1int
            } else {
                0int
            },
            self.index as int,
        ]
    }

    proof fn lemma_rank_tells_apart(a: &Self, b: &Self) {
        assert(a.rank()[0] == b.rank()[0]);
        assert(a.rank()[1] == b.rank()[1]);
    }
}

impl Key for ChipKey {
    type Model = ChipKey;

    open spec fn model(&self) -> ChipKey {
        *self
    }

    fn precedes(&self, other: &Self) -> (b: bool) {
        proof {
            let a = self.rank();
            let b = other.rank();
            reveal_with_fuel(lex_less, 3);
            assert(a.len() == 2 && b.len() == 2);
            assert(a.drop_first().len() == 1 && b.drop_first().len() == 1);
            assert(a.drop_first()[0] == self.index && b.drop_first()[0] == other.index);
            assert(a.drop_first().drop_first().len() == 0);
            assert(b.drop_first().drop_first().len() == 0);
        }
        if self.nvml != other.nvml {
            !self.nvml
        } else {
            self.index < other.index
        }
    }
}

/// One sensor of a chip as contracts speak of it.
pub struct SensorModel {
    pub label: Seq<u8>,
    pub value: DataKind,
}

/// One sensor of a chip.
pub struct Sensor {
    pub label: Vec<u8>,
    pub value: DataKind,
}

impl Sensor {
    pub open spec fn view(&self) -> SensorModel {
        SensorModel { label: self.label@, value: self.value }
    }
}

/// The sensors that a list stands for.
pub open spec fn sensor_models(v: Seq<Sensor>) -> Seq<SensorModel> {
    Seq::new(v.len(), |i: int| v[i]@)
}

/// What a tick has found of one chip, as contracts speak of it.
pub struct SampleModel {
    pub key: ChipKey,
    pub name: Seq<u8>,
    pub sensors: Seq<SensorModel>,
}

/// What a tick has found of one chip.
pub struct Sample {
    pub key: ChipKey,
    pub name: Vec<u8>,
    pub sensors: Vec<Sensor>,
}

impl Sample {
    pub open spec fn view(&self) -> SampleModel {
        SampleModel { key: self.key, name: self.name@, sensors: sensor_models(self.sensors@) }
    }
}

/// The samples that a list stands for.
pub open spec fn sample_models(v: Seq<Sample>) -> Seq<SampleModel> {
    Seq::new(v.len(), |i: int| v[i]@)
}

/// What was read of one temperature sensor of a monitor.
pub struct TempReading {
    /// The file of the temperature, in thousandths of a degree, or `None`
    /// where there is no such file.
    pub input: Option<Vec<u8>>,
    /// The file of the label, or `None` where the sensor has none.
    pub label: Option<Vec<u8>>,
}

/// What was read of one of the kernel's monitors.
pub struct ChipReading {
    /// The name of the monitor's directory: `hwmon` and a number.
    pub dir: Vec<u8>,
    /// The file of the chip's name.
    pub name: Vec<u8>,
    /// The temperature sensors from the first on. What stands after the
    /// first whose temperature is missing does not count.
    pub temps: Vec<TempReading>,
    /// The files of the average power and of its cap, in millionths of a
    /// watt, where both could be read.
    pub power: Option<(Vec<u8>, Vec<u8>)>,
    /// The files of the video memory in use and in all, in bytes, where
    /// both could be read.
    pub vram: Option<(Vec<u8>, Vec<u8>)>,
}

/// What the vendor library says of one card. Each part is `None` where the
/// library gave an error.
pub struct GpuReading {
    pub index: u64,
    /// Degrees Celsius.
    pub temperature: Option<u32>,
    /// Bytes of memory in use, and in all.
    pub memory: Option<(u64, u64)>,
    /// Percent of the time that the card and its memory were busy.
    pub utilization: Option<(u32, u32)>,
}

/// What a tick reads for the hardware-monitor block.
pub struct HwmonSource {
    /// The kernel's monitors, or `None` where they could not be listed.
    pub chips: Option<Vec<ChipReading>>,
    /// The cards of the vendor library, or `None` where the library is not
    /// there or could not count them.
    pub gpus: Option<Vec<GpuReading>>,
}

/// A file without the last byte, the line feed that the kernel ends it with.
pub open spec fn chomp(raw: Seq<u8>) -> Seq<u8> {
    if raw.len() == 0 {
        raw
    } else {
        raw.drop_last()
    }
}

/// A file without the last byte.
pub fn chomped(raw: &[u8]) -> (r: &[u8])
    ensures
        r@ == chomp(raw@),
{
    if raw.len() == 0 {
        raw
    } else {
        let r = vstd::slice::slice_subrange(raw, 0, raw.len() - 1);
        assert(r@ =~= raw@.drop_last());
        r
    }
}

/// The label of the `n`-th temperature sensor, counted from 1: what its
/// file says, or `Temp` and the number where it has none.
pub open spec fn temp_label(t: TempReading, n: nat) -> Seq<u8> {
    match t.label {
        Some(l) => chomp(l@),
        None => lit("Temp") + digits(n),
    }
}

/// Whether the walk over a monitor's temperature sensors ends with this
/// one: its temperature is missing.
pub open spec fn ends_walk(t: TempReading) -> bool {
    t.input is None
}

/// What a temperature sensor with the file `input` gives, or nothing where
/// the file holds no whole number.
pub open spec fn temp_sensor(t: TempReading, input: Seq<u8>, n: nat) -> Option<SensorModel> {
    match signed(chomp(input)) {
        Some(milli) => Some(
            SensorModel {
                label: temp_label(t, n),
                value: DataKind::Temperature(Celsius { milli }),
            },
        ),
        None => None,
    }
}

/// The sensors `acc` and those that the temperature sensors from the one at
/// index `from` on give, up to the first whose temperature is missing.
pub open spec fn temp_sensors(acc: Seq<SensorModel>, temps: Seq<TempReading>, from: int) -> Option<
    Seq<SensorModel>,
>
    decreases temps.len() - from,
{
    if from < 0 || from >= temps.len() {
        Some(acc)
    } else {
        match temps[from].input {
            None => Some(acc),
            Some(input) => match temp_sensor(temps[from], input@, (from + 1) as nat) {
                None => None,
                Some(s) => temp_sensors(acc.push(s), temps, from + 1),
            },
        }
    }
}

/// The two numbers that a pair of files holds.
pub open spec fn number_pair(files: (Vec<u8>, Vec<u8>)) -> Option<(u64, u64)> {
    match (number(chomp(files.0@)), number(chomp(files.1@))) {
        (Some(a), Some(b)) => Some((a, b)),
        _ => None,
    }
}

/// The sensors `acc` and the one that the files of the power give, in whole
/// watts.
pub open spec fn with_power(acc: Seq<SensorModel>, power: Option<(Vec<u8>, Vec<u8>)>) -> Option<
    Seq<SensorModel>,
> {
    match power {
        None => Some(acc),
        Some(files) => match number_pair(files) {
            None => None,
            Some((avg, cap)) => Some(
                acc.push(
                    SensorModel {
                        label: lit("pwr"),
                        value: DataKind::Watts(
                            Watts(avg / 1000000),
                            Some(Watts(cap / 1000000)),
                        ),
                    },
                ),
            ),
        },
    }
}

/// The sensors `acc` and the one that the files of the video memory give.
pub open spec fn with_vram(acc: Seq<SensorModel>, vram: Option<(Vec<u8>, Vec<u8>)>) -> Option<
    Seq<SensorModel>,
> {
    match vram {
        None => Some(acc),
        Some(files) => match number_pair(files) {
            None => None,
            Some((used, total)) => Some(
                acc.push(
                    SensorModel {
                        label: lit("vram"),
                        value: DataKind::Bytes(Bytes(used), Some(Bytes(total))),
                    },
                ),
            ),
        },
    }
}

/// The number of a monitor whose directory has the name `dir`: what
/// follows `hwmon`. A directory of another name is no monitor.
pub open spec fn monitor_index(dir: Seq<u8>) -> Option<u64> {
    match strip_prefix(dir, lit("hwmon")) {
        Some(tail) => number(tail),
        None => None,
    }
}

/// The sensors of a monitor: its temperatures, and for the chip `amdgpu`
/// the power and the video memory. Nothing where a file that counts holds
/// no number.
pub open spec fn chip_sensors(c: ChipReading) -> Option<Seq<SensorModel>> {
    match temp_sensors(Seq::empty(), c.temps@, 0) {
        None => None,
        Some(temps) => if chomp(c.name@) == lit("amdgpu") {
            match with_power(temps, c.power) {
                None => None,
                Some(p) => with_vram(p, c.vram),
            }
        } else {
            Some(temps)
        },
    }
}

/// What a monitor gives: its name and its sensors. A directory that is no
/// monitor is passed over.
pub open spec fn chip_sample(c: ChipReading) -> Read<SampleModel> {
    match monitor_index(c.dir@) {
        None => Read::Skip,
        Some(index) => match chip_sensors(c) {
            None => Read::Bad,
            Some(sensors) => Read::Record(
                SampleModel { key: ChipKey { nvml: false, index }, name: chomp(c.name@), sensors },
            ),
        },
    }
}

/// The larger of two numbers.
pub open spec fn larger(a: u32, b: u32) -> u32 {
    if a >= b {
        a
    } else {
        b
    }
}

/// What a card of the vendor library gives: the temperature, the share of
/// its memory that is in use, and the share of the time that it or its
/// memory was busy, whichever is larger. A part that the library gave no
/// answer for, and a share of no memory at all, read nothing.
pub open spec fn gpu_sample(g: GpuReading) -> SampleModel {
    SampleModel {
        key: ChipKey { nvml: true, index: g.index },
        name: lit("nvidia") + digits(g.index as nat),
        sensors: seq![
            SensorModel {
                label: lit("Tgpu"),
                value: match g.temperature {
                    Some(t) => DataKind::Temperature(Celsius { milli: (t * 1000) as i64 }),
                    None => DataKind::Nothing,
                },
            },
            SensorModel {
                label: lit("Vram"),
                value: match g.memory {
                    Some((used, total)) => if total > 0 {
                        DataKind::Percentage(Percentage { part: used, whole: total })
                    } else {
                        DataKind::Nothing
                    },
                    None => DataKind::Nothing,
                },
            },
            SensorModel {
                label: lit("Load"),
                value: match g.utilization {
                    Some((gpu, memory)) => DataKind::Percentage(
                        Percentage { part: larger(gpu, memory) as u64, whole: 100 },
                    ),
                    None => DataKind::Nothing,
                },
            },
        ],
    }
}

/// The samples `acc` and those of the monitors from the one at index `from`
/// on, or nothing where one of them gives none.
pub open spec fn chip_samples(acc: Seq<SampleModel>, chips: Seq<ChipReading>, from: int) -> Option<
    Seq<SampleModel>,
>
    decreases chips.len() - from,
{
    if from < 0 || from >= chips.len() {
        Some(acc)
    } else {
        match chip_sample(chips[from]) {
            Read::Bad => None,
            Read::Skip => chip_samples(acc, chips, from + 1),
            Read::Record(s) => chip_samples(acc.push(s), chips, from + 1),
        }
    }
}

/// The samples `acc` and those of the cards from the one at index `from` on.
pub open spec fn gpu_samples(acc: Seq<SampleModel>, gpus: Seq<GpuReading>, from: int) -> Seq<
    SampleModel,
>
    decreases gpus.len() - from,
{
    if from < 0 || from >= gpus.len() {
        acc
    } else {
        gpu_samples(acc.push(gpu_sample(gpus[from])), gpus, from + 1)
    }
}

/// The samples of a tick: those of the monitors, then those of the cards.
pub open spec fn samples(source: &HwmonSource) -> Option<Seq<SampleModel>> {
    let chips = match source.chips {
        Some(list) => chip_samples(Seq::empty(), list@, 0),
        None => Some(Seq::empty()),
    };
    match chips {
        None => None,
        Some(acc) => Some(
            match source.gpus {
                Some(list) => gpu_samples(acc, list@, 0),
                None => acc,
            },
        ),
    }
}

/// Whether every share among the sensors is a share of something.
pub open spec fn sensors_valid(sensors: Seq<SensorModel>) -> bool {
    forall|i: int| 0 <= i < sensors.len() ==> (#[trigger] sensors[i]).value.valid()
}

/// Whether every share among the sensors of the samples is a share of
/// something.
pub open spec fn samples_valid(samples: Seq<SampleModel>) -> bool {
    forall|i: int| 0 <= i < samples.len() ==> sensors_valid((#[trigger] samples[i]).sensors)
}

/// Whether the walk over a monitor's temperature sensors ends with this
/// one.
pub fn walk_ends(t: &TempReading) -> (b: bool)
    ensures
        b == ends_walk(*t),
{
    t.input.is_none()
}

/// Reads one temperature sensor from the file of its temperature.
pub fn read_temp(t: &TempReading, input: &[u8], n: usize) -> (r: Option<Sensor>)
    ensures
        match r {
            Some(s) => temp_sensor(*t, input@, n as nat) == Some(s@) && s.value.valid(),
            None => temp_sensor(*t, input@, n as nat) is None,
        },
{
    let milli = parse_signed(chomped(input))?;
    let label = match &t.label {
        Some(l) => {
            let c = chomped(l.as_slice());
            copy_range(c, 0, c.len())
        },
        None => {
            let mut l: Vec<u8> = Vec::new();
            push_str(&mut l, "Temp");
            push_digits(&mut l, n as u128);
            assert(l@ =~= lit("Temp") + digits(n as nat));
            l
        },
    };
    assert(label@ =~= temp_label(*t, n as nat));
    Some(Sensor { label, value: DataKind::Temperature(Celsius { milli }) })
}

/// Reads the two numbers that a pair of files holds.
pub fn read_pair(files: &(Vec<u8>, Vec<u8>)) -> (r: Option<(u64, u64)>)
    ensures
        r == number_pair(*files),
{
    let a = parse_number(chomped(files.0.as_slice()));
    let b = parse_number(chomped(files.1.as_slice()));
    match (a, b) {
        (Some(a), Some(b)) => Some((a, b)),
        _ => None,
    }
}

/// A list of bytes that holds the bytes of `s`.
pub fn bytes_of(s: &str) -> (v: Vec<u8>)
    ensures
        v@ == lit(s),
{
    let mut v: Vec<u8> = Vec::new();
    push_str(&mut v, s);
    assert(v@ =~= lit(s));
    v
}

/// The number of a monitor whose directory has the name `dir`.
pub fn read_monitor_index(dir: &[u8]) -> (r: Option<u64>)
    ensures
        r == monitor_index(dir@),
{
    match without_prefix(dir, "hwmon".as_bytes()) {
        Some(tail) => parse_number(tail),
        None => None,
    }
}

/// Reads the sensors of one monitor.
pub fn read_chip_sensors(c: &ChipReading) -> (r: Option<Vec<Sensor>>)
    ensures
        match r {
            Some(v) => chip_sensors(*c) == Some(sensor_models(v@)) && sensors_valid(
                sensor_models(v@),
            ),
            None => chip_sensors(*c) is None,
        },
{
    let mut sensors: Vec<Sensor> = Vec::new();
    assert(sensor_models(sensors@) =~= Seq::<SensorModel>::empty());
    let mut i: usize = 0;
    while i < c.temps.len()
        invariant_except_break
            i <= c.temps.len(),
            temp_sensors(Seq::empty(), c.temps@, 0) == temp_sensors(
                sensor_models(sensors@),
                c.temps@,
                i as int,
            ),
        invariant
            sensors_valid(sensor_models(sensors@)),
        ensures
            temp_sensors(Seq::empty(), c.temps@, 0) == Some(sensor_models(sensors@)),
        decreases c.temps.len() - i,
    {
        let t = &c.temps[i];
        match &t.input {
            None => {
                break ;
            },
            Some(input) => match read_temp(t, input.as_slice(), i + 1) {
                None => {
                    return None;
                },
                Some(s) => {
                    let ghost before = sensor_models(sensors@);
                    sensors.push(s);
                    assert(sensor_models(sensors@) =~= before.push(s@));
                },
            },
        }
        i += 1;
    }
    if same_bytes(chomped(c.name.as_slice()), "amdgpu".as_bytes()) {
        if let Some(files) = &c.power {
            match read_pair(files) {
                None => {
                    return None;
                },
                Some((avg, cap)) => {
                    let ghost before = sensor_models(sensors@);
                    let s = Sensor {
                        label: bytes_of("pwr"),
                        value: DataKind::Watts(Watts(avg / 1000000), Some(Watts(cap / 1000000))),
                    };
                    sensors.push(s);
                    assert(sensor_models(sensors@) =~= before.push(s@));
                },
            }
        }
        if let Some(files) = &c.vram {
            match read_pair(files) {
                None => {
                    return None;
                },
                Some((used, total)) => {
                    let ghost before = sensor_models(sensors@);
                    let s = Sensor {
                        label: bytes_of("vram"),
                        value: DataKind::Bytes(Bytes(used), Some(Bytes(total))),
                    };
                    sensors.push(s);
                    assert(sensor_models(sensors@) =~= before.push(s@));
                },
            }
        }
    }
    Some(sensors)
}

/// Reads one monitor.
pub fn read_chip(c: &ChipReading) -> (r: Read<Sample>)
    ensures
        match r {
            Read::Record(s) => chip_sample(*c) == Read::Record(s@) && sensors_valid(s@.sensors),
            Read::Skip => chip_sample(*c) is Skip,
            Read::Bad => chip_sample(*c) is Bad,
        },
{
    let index = match read_monitor_index(c.dir.as_slice()) {
        None => {
            return Read::Skip;
        },
        Some(index) => index,
    };
    match read_chip_sensors(c) {
        None => Read::Bad,
        Some(sensors) => {
            let n = chomped(c.name.as_slice());
            let name = copy_range(n, 0, n.len());
            assert(name@ =~= chomp(c.name@));
            Read::Record(Sample { key: ChipKey { nvml: false, index }, name, sensors })
        },
    }
}

/// Reads one card of the vendor library.
pub fn read_gpu(g: &GpuReading) -> (s: Sample)
    ensures
        s@ == gpu_sample(*g),
        sensors_valid(s@.sensors),
{
    let mut name: Vec<u8> = Vec::new();
    push_str(&mut name, "nvidia");
    push_digits(&mut name, g.index as u128);
    assert(name@ =~= lit("nvidia") + digits(g.index as nat));
    let t = Sensor {
        label: bytes_of("Tgpu"),
        value: match g.temperature {
            Some(t) => DataKind::Temperature(Celsius { milli: (t as i64) * 1000 }),
            None => DataKind::Nothing,
        },
    };
    let v = Sensor {
        label: bytes_of("Vram"),
        value: match g.memory {
            Some((used, total)) => if total > 0 {
                DataKind::Percentage(Percentage { part: used, whole: total })
            } else {
                DataKind::Nothing
            },
            None => DataKind::Nothing,
        },
    };
    let l = Sensor {
        label: bytes_of("Load"),
        value: match g.utilization {
            Some((gpu, memory)) => DataKind::Percentage(
                Percentage {
                    part: if gpu >= memory {
                        gpu as u64
                    } else {
                        memory as u64
                    },
                    whole: 100,
                },
            ),
            None => DataKind::Nothing,
        },
    };
    let mut sensors: Vec<Sensor> = Vec::new();
    sensors.push(t);
    sensors.push(v);
    sensors.push(l);
    assert(sensor_models(sensors@) =~= gpu_sample(*g).sensors);
    Sample { key: ChipKey { nvml: true, index: g.index }, name, sensors }
}

/// Reads what a tick has found.
pub fn read_samples(source: &HwmonSource) -> (r: Option<Vec<Sample>>)
    ensures
        match r {
            Some(v) => samples(source) == Some(sample_models(v@)) && samples_valid(
                sample_models(v@),
            ),
            None => samples(source) is None,
        },
{
    let mut out: Vec<Sample> = Vec::new();
    assert(sample_models(out@) =~= Seq::<SampleModel>::empty());
    if let Some(chips) = &source.chips {
        let mut i: usize = 0;
        while i < chips.len()
            invariant
                i <= chips.len(),
                source.chips == Some(*chips),
                samples_valid(sample_models(out@)),
                chip_samples(Seq::empty(), chips@, 0) == chip_samples(
                    sample_models(out@),
                    chips@,
                    i as int,
                ),
            decreases chips.len() - i,
        {
            match read_chip(&chips[i]) {
                Read::Bad => {
                    return None;
                },
                Read::Skip => {},
                Read::Record(s) => {
                    let ghost before = sample_models(out@);
                    out.push(s);
                    assert(sample_models(out@) =~= before.push(s@));
                },
            }
            i += 1;
        }
    }
    let ghost mid = sample_models(out@);
    if let Some(gpus) = &source.gpus {
        let mut i: usize = 0;
        assert(samples(source) == Some(gpu_samples(mid, gpus@, 0)));
        while i < gpus.len()
            invariant
                i <= gpus.len(),
                source.gpus == Some(*gpus),
                samples(source) == Some(gpu_samples(mid, gpus@, 0)),
                samples_valid(sample_models(out@)),
                gpu_samples(mid, gpus@, 0) == gpu_samples(sample_models(out@), gpus@, i as int),
            decreases gpus.len() - i,
        {
            let s = read_gpu(&gpus[i]);
            let ghost before = sample_models(out@);
            out.push(s);
            assert(sample_models(out@) =~= before.push(s@));
            i += 1;
        }
    }
    Some(out)
}

/// One chip as contracts speak of it: its name, and its sensors in the
/// order of their labels.
pub struct ChipModel {
    pub name: Seq<u8>,
    pub readings: Seq<Entry<Seq<u8>, DataKind>>,
}

/// Whether every share among the readings is a share of something.
pub open spec fn readings_valid(rs: Seq<Entry<Seq<u8>, DataKind>>) -> bool {
    forall|i: int| 0 <= i < rs.len() ==> (#[trigger] rs[i]).value.valid()
}

/// The readings after the first `n` sensors of a sample were observed.
pub open spec fn observed(rs: Seq<Entry<Seq<u8>, DataKind>>, sensors: Seq<SensorModel>, n: int) -> Seq<
    Entry<Seq<u8>, DataKind>,
>
    decreases n,
{
    if n <= 0 || n > sensors.len() {
        rs
    } else {
        put(observed(rs, sensors, n - 1), sensors[n - 1].label, sensors[n - 1].value)
    }
}

/// The readings of a chip after a sample: each sensor of the sample has its
/// value, and a sensor that the sample leaves out is gone.
pub open spec fn readings_after(rs: Seq<Entry<Seq<u8>, DataKind>>, sample: SampleModel) -> Seq<
    Entry<Seq<u8>, DataKind>,
> {
    kept(observed(marked(rs), sample.sensors, sample.sensors.len() as int))
}

/// The chips after one sample was taken in.
pub open spec fn applied(chips: Seq<Entry<ChipKey, ChipModel>>, sample: SampleModel) -> Seq<
    Entry<ChipKey, ChipModel>,
> {
    let had = match lookup(chips, sample.key.rank()) {
        Some(i) => chips[i].value.readings,
        None => Seq::empty(),
    };
    put(chips, sample.key, ChipModel { name: sample.name, readings: readings_after(had, sample) })
}

/// The chips after the first `n` samples of a tick were taken in.
pub open spec fn applied_all(
    chips: Seq<Entry<ChipKey, ChipModel>>,
    samples: Seq<SampleModel>,
    n: int,
) -> Seq<Entry<ChipKey, ChipModel>>
    decreases n,
{
    if n <= 0 || n > samples.len() {
        chips
    } else {
        applied(applied_all(chips, samples, n - 1), samples[n - 1])
    }
}

/// The chips after a tick, or nothing where what was read makes no sense:
/// each chip of the tick has its sample, and a chip that the tick leaves out
/// is gone.
pub open spec fn hwmon_after(chips: Seq<Entry<ChipKey, ChipModel>>, source: &HwmonSource) -> Option<
    Seq<Entry<ChipKey, ChipModel>>,
> {
    match samples(source) {
        None => None,
        Some(ss) => Some(kept(applied_all(marked(chips), ss, ss.len() as int))),
    }
}

/// Observing a sensor whose share is a share of something keeps the
/// readings so.
pub proof fn lemma_put_valid(rs: Seq<Entry<Seq<u8>, DataKind>>, label: Seq<u8>, value: DataKind)
    requires
        ascending(rs),
        readings_valid(rs),
        value.valid(),
    ensures
        readings_valid(put(rs, label, value)),
{
    let after = put(rs, label, value);
    let r = label.rank();
    lemma_same_keys_lookup(rs, rs, r);
    assert forall|i: int| 0 <= i < after.len() implies (#[trigger] after[i]).value.valid() by {
        match lookup(rs, r) {
            Some(k) => {
                if i != k {
                    assert(after[i] == rs[i]);
                }
            },
            None => {
                let at = place(rs, r);
                if i < at {
                    assert(after[i] == rs[i]);
                } else if i > at {
                    assert(after[i] == rs[i - 1]);
                }
            },
        }
    }
}

/// A sweep keeps readings whose shares are shares of something so.
pub proof fn lemma_kept_valid(rs: Seq<Entry<Seq<u8>, DataKind>>)
    requires
        readings_valid(rs),
    ensures
        readings_valid(kept(rs)),
{
    lemma_kept(rs);
    let k = kept(rs);
    assert forall|i: int| 0 <= i < k.len() implies (#[trigger] k[i]).value.valid() by {
        let j = choose|j: int| i <= j < rs.len() && rs[j] == k[i];
        assert(rs[j].value.valid());
    }
}

/// One chip.
pub struct Chip {
    name: Vec<u8>,
    readings: Tracker<Vec<u8>, DataKind>,
}

impl Chip {
    pub closed spec fn view(&self) -> ChipModel {
        ChipModel { name: self.name@, readings: self.readings@ }
    }

    /// The sensors stand in the order of their labels, each once, none is
    /// stale, and every share is a share of something.
    pub closed spec fn wf(&self) -> bool {
        &&& self.readings.wf()
        &&& readings_valid(self.readings@)
        &&& forall|j: int| 0 <= j < self.readings@.len() ==> !(#[trigger] self.readings@[j]).stale.0
    }

    /// The chip's name.
    pub fn name(&self) -> (n: &[u8])
        ensures
            n@ == self@.name,
    {
        self.name.as_slice()
    }

    /// The number of sensors.
    pub fn count(&self) -> (n: usize)
        ensures
            n == self@.readings.len(),
    {
        self.readings.len()
    }
}

/// The chips that a list of entries stands for.
pub open spec fn chip_models(s: Seq<Entry<ChipKey, Chip>>) -> Seq<Entry<ChipKey, ChipModel>> {
    Seq::new(s.len(), |i: int| Entry { key: s[i].key, value: s[i].value@, stale: s[i].stale })
}

/// The hardware-monitor block.
pub struct HwmonStats {
    state: Tracker<ChipKey, Chip>,
}

impl HwmonStats {
    /// The chips in the order of their keys.
    pub closed spec fn chips(&self) -> Seq<Entry<ChipKey, ChipModel>> {
        chip_models(self.state@)
    }

    /// The chips stand in the order of their keys, each once, and each is
    /// well formed.
    pub closed spec fn inv(&self) -> bool {
        &&& self.state.wf()
        &&& forall|i: int| 0 <= i < self.state@.len() ==> (#[trigger] self.state@[i]).value.wf()
    }

    /// A block that is in order holds its chips in ascending order of their
    /// keys, each once.
    pub proof fn lemma_ascending(&self)
        requires
            self.inv(),
        ensures
            ascending(self.chips()),
    {
        assert forall|i: int, j: int| 0 <= i < j < self.chips().len() implies lex_less(
            #[trigger] self.chips()[i].key.rank(),
            #[trigger] self.chips()[j].key.rank(),
        ) by {
            assert(self.chips()[i].key == self.state@[i].key);
            assert(self.chips()[j].key == self.state@[j].key);
        }
    }

    /// Each chip of a block that is in order holds its sensors in ascending
    /// order of their labels, each once, and every share among them is a
    /// share of something.
    pub proof fn lemma_sensors_ascending(&self, i: int)
        requires
            self.inv(),
            0 <= i < self.chips().len(),
        ensures
            ascending(self.chips()[i].value.readings),
            readings_valid(self.chips()[i].value.readings),
    {
        assert(self.state@[i].value.wf());
        assert(self.chips()[i].value == self.state@[i].value@);
    }

    /// The number of chips.
    pub fn count(&self) -> (n: usize)
        ensures
            n == self.chips().len(),
    {
        self.state.len()
    }

    /// No sensor of any chip is stale.
    pub proof fn lemma_sensors_fresh(&self, i: int, j: int)
        requires
            self.inv(),
            0 <= i < self.chips().len(),
            0 <= j < self.chips()[i].value.readings.len(),
        ensures
            !self.chips()[i].value.readings[j].stale.0,
    {
        assert(self.state@[i].value.wf());
        assert(self.chips()[i].value == self.state@[i].value@);
    }

    /// Takes the sensors of a sample into the readings of its chip.
    fn observe(readings: &mut Tracker<Vec<u8>, DataKind>, sample: &Sample)
        requires
            old(readings).wf(),
            readings_valid(old(readings)@),
            sensors_valid(sample@.sensors),
        ensures
            final(readings).wf(),
            readings_valid(final(readings)@),
            final(readings)@ == readings_after(old(readings)@, sample@),
            forall|j: int| 0 <= j < final(readings)@.len() ==> !(#[trigger] final(readings)@[j]).stale.0,
    {
        let ghost sensors = sample@.sensors;
        readings.mark_all();
        let ghost start = readings@;
        assert(readings_valid(start)) by {
            assert forall|i: int| 0 <= i < start.len() implies (#[trigger] start[i]).value.valid() by {
                assert(old(readings)@[i].value.valid());
            }
        }
        let mut i: usize = 0;
        while i < sample.sensors.len()
            invariant
                i <= sample.sensors.len(),
                sensors == sample@.sensors,
                sensors_valid(sensors),
                readings.wf(),
                readings_valid(readings@),
                readings@ == observed(start, sensors, i as int),
            decreases sample.sensors.len() - i,
        {
            let s = &sample.sensors[i];
            assert(sensors[i as int] == s@);
            let label = copy_range(s.label.as_slice(), 0, s.label.len());
            assert(label@ =~= s.label@);
            proof {
                lemma_put_valid(readings@, label@, s.value);
            }
            readings.put(label, s.value);
            i += 1;
        }
        proof {
            lemma_kept_valid(readings@);
        }
        readings.sweep();
    }

    /// Takes one sample in.
    fn apply(&mut self, sample: &Sample)
        requires
            old(self).inv(),
            sensors_valid(sample@.sensors),
        ensures
            final(self).inv(),
            final(self).chips() == applied(old(self).chips(), sample@),
    {
        let ghost before = self.state@;
        let ghost r = sample.key.rank();
        proof {
            assert(same_keys(before, chip_models(before)));
            lemma_same_keys_lookup(before, chip_models(before), r);
        }
        let name = copy_range(sample.name.as_slice(), 0, sample.name.len());
        assert(name@ =~= sample.name@);
        match self.state.find(&sample.key) {
            Ok(i) => {
                let had = self.state.replace(i, Chip { name: Vec::new(), readings: Tracker::new() });
                let mut readings = had.readings;
                assert(before[i as int].value.wf());
                Self::observe(&mut readings, sample);
                let ghost mid = self.state@;
                proof {
                    lemma_lookup_unique(mid, r, i as int);
                }
                let chip = Chip { name, readings };
                self.state.put(sample.key, chip);
                proof {
                    let after = self.state@;
                    assert(after =~= before.update(
                        i as int,
                        Entry { key: before[i as int].key, value: chip, stale: Stale(false) },
                    ));
                    assert(chip_models(after) =~= applied(chip_models(before), sample@));
                    assert forall|j: int| 0 <= j < after.len() implies (#[trigger] after[j]).value.wf() by {
                        if j != i {
                            assert(before[j].value.wf());
                        }
                    }
                }
            },
            Err(at) => {
                let mut readings: Tracker<Vec<u8>, DataKind> = Tracker::new();
                assert(readings@ =~= Seq::<Entry<Seq<u8>, DataKind>>::empty());
                Self::observe(&mut readings, sample);
                let chip = Chip { name, readings };
                self.state.put(sample.key, chip);
                proof {
                    let after = self.state@;
                    assert(chip_models(after) =~= applied(chip_models(before), sample@));
                    assert forall|j: int| 0 <= j < after.len() implies (#[trigger] after[j]).value.wf() by {
                        if j < at {
                            assert(after[j] == before[j]);
                        } else if j > at {
                            assert(after[j] == before[j - 1]);
                        }
                    }
                }
            },
        }
    }

    /// Takes in what a tick has read. Where that makes no sense, nothing
    /// changes.
    pub fn take(&mut self, source: &HwmonSource) -> (ok: bool)
        requires
            old(self).inv(),
        ensures
            final(self).inv(),
            match hwmon_after(old(self).chips(), source) {
                Some(chips) => ok && final(self).chips() == chips && forall|i: int|
                    0 <= i < final(self).chips().len() ==> !(#[trigger] final(self).chips()[i]).stale.0,
                None => !ok && final(self).chips() == old(self).chips(),
            },
    {
        let list = match read_samples(source) {
            None => {
                return false;
            },
            Some(list) => list,
        };
        let ghost before = self.state@;
        let ghost ss = sample_models(list@);
        self.state.mark_all();
        let ghost start = self.state@;
        proof {
            assert(chip_models(start) =~= marked(chip_models(before)));
            assert forall|i: int| 0 <= i < start.len() implies (#[trigger] start[i]).value.wf() by {
                assert(before[i].value.wf());
            }
        }
        let mut i: usize = 0;
        while i < list.len()
            invariant
                i <= list.len(),
                ss == sample_models(list@),
                samples_valid(ss),
                self.inv(),
                self.chips() == applied_all(chip_models(start), ss, i as int),
            decreases list.len() - i,
        {
            assert(ss[i as int] == list@[i as int]@);
            self.apply(&list[i]);
            i += 1;
        }
        let ghost mid = self.state@;
        self.state.sweep();
        proof {
            let after = self.state@;
            lemma_models_kept(mid);
            lemma_kept(mid);
            assert forall|i: int| 0 <= i < after.len() implies (#[trigger] after[i]).value.wf() by {
                let j = choose|j: int| i <= j < mid.len() && mid[j] == after[i];
                assert(mid[j].value.wf());
            }
            assert forall|i: int| 0 <= i < self.chips().len() implies !(
            #[trigger] self.chips()[i]).stale.0 by {
                assert(!after[i].stale.0);
            }
        }
        true
    }
}

/// Sweeping the chips and then looking at what they stand for gives what
/// sweeping what they stand for gives.
pub proof fn lemma_models_kept(s: Seq<Entry<ChipKey, Chip>>)
    ensures
        chip_models(kept(s)) == kept(chip_models(s)),
    decreases s.len(),
{
    if s.len() > 0 {
        lemma_models_kept(s.drop_last());
        assert(chip_models(s).drop_last() =~= chip_models(s.drop_last()));
        assert(chip_models(kept(s)) =~= kept(chip_models(s)));
    } else {
        assert(chip_models(kept(s)) =~= kept(chip_models(s)));
    }
}

/// A temperature with the levels from which on it is coloured: 50, 70 and
/// 90 degrees.
pub open spec fn temp_levels(c: Celsius) -> Threshold<Celsius> {
    Threshold {
        val: c,
        med: Celsius { milli: 50000 },
        high: Celsius { milli: 70000 },
        crit: Celsius { milli: 90000 },
    }
}

/// A share with the levels from which on it is coloured: 50 %, 80 % and
/// 90 %.
pub open spec fn share_levels(p: Percentage) -> Threshold<Percentage> {
    Threshold {
        val: p,
        med: Percentage { part: 50, whole: 100 },
        high: Percentage { part: 80, whole: 100 },
        crit: Percentage { part: 90, whole: 100 },
    }
}

/// `num / den` of `total`, rounded down.
pub open spec fn part_of(total: u64, num: int, den: int) -> u64 {
    (total * num / den) as u64
}

/// `num / den` of `total`, for a share of at most the whole.
pub fn part(total: u64, num: u8, den: u8) -> (r: u64)
    requires
        0 < num <= den,
    ensures
        r == part_of(total, num as int, den as int),
{
    assert(total * num <= u128::MAX) by (nonlinear_arith)
        requires
            total <= u64::MAX,
            num <= 255,
    ;
    let p = (total as u128) * (num as u128) / (den as u128);
    assert(total * num / (den as int) <= total) by (nonlinear_arith)
        requires
            0 < num <= den,
            total >= 0,
    ;
    p as u64
}

/// Bytes in use with the levels from which on they are coloured: a half,
/// three quarters and nine tenths of the whole.
pub open spec fn bytes_levels(b: Bytes, t: Bytes) -> Threshold<Bytes> {
    Threshold {
        val: b,
        med: Bytes(part_of(t.0, 1, 2)),
        high: Bytes(part_of(t.0, 3, 4)),
        crit: Bytes(part_of(t.0, 9, 10)),
    }
}

/// Watts drawn with the levels from which on they are coloured: a half,
/// three quarters and nine tenths of the cap.
pub open spec fn watts_levels(w: Watts, t: Watts) -> Threshold<Watts> {
    Threshold {
        val: w,
        med: Watts(part_of(t.0, 1, 2)),
        high: Watts(part_of(t.0, 3, 4)),
        crit: Watts(part_of(t.0, 9, 10)),
    }
}

/// The label of a sensor in a field of `n` characters.
pub open spec fn label_text(s: &Settings, label: Seq<u8>, n: nat) -> Seq<u8> {
    heading_bytes(s.smart, label, n, n, Align::Right)
}

/// The cell of one sensor: a blank, the label, and the value in what the
/// label leaves of the column. Temperatures have a digit after the point
/// where columns are wider than ten characters.
pub open spec fn sensor_cell(s: &Settings, label: Seq<u8>, d: DataKind) -> Seq<u8> {
    let w = s.colwidth as nat;
    let narrow = (w - 6) as nat;
    let wide = (w - 4) as nat;
    let b = seq![0x20u8];
    match d {
        DataKind::Nothing => b + label_text(s, label, wide) + lit(" n/a"),
        DataKind::Temperature(c) => b + label_text(s, label, narrow) + threshold_text(
            s.smart,
            temp_levels(c),
            6,
            if w > 10 {
                1
            } else {
                0
            },
        ),
        DataKind::Percentage(p) => b + label_text(s, label, wide) + threshold_text(
            s.smart,
            share_levels(p),
            4,
            0,
        ),
        DataKind::Bytes(x, None) => b + label_text(s, label, narrow) + bytes_text(x.0 as nat, 6, 0),
        DataKind::Bytes(x, Some(t)) => b + label_text(s, label, narrow) + threshold_text(
            s.smart,
            bytes_levels(x, t),
            6,
            0,
        ),
        DataKind::Watts(x, None) => b + label_text(s, label, narrow) + whole_text(
            x.0 as nat,
            6,
            0x57,
        ),
        DataKind::Watts(x, Some(t)) => b + label_text(s, label, narrow) + threshold_text(
            s.smart,
            watts_levels(x, t),
            6,
            0,
        ),
    }
}

/// The cell of a chip's name.
pub open spec fn name_cell(s: &Settings, name: Seq<u8>) -> Seq<u8> {
    fit(name, s.colwidth as nat, Some(s.colwidth as nat), Align::Right)
}

/// `n` empty cells, each a blank and a column of blanks.
pub open spec fn blanks(n: int, w: nat) -> Seq<u8>
    decreases n,
{
    if n <= 0 {
        Seq::empty()
    } else {
        blanks(n - 1, w) + (seq![0x20u8] + spaces(w))
    }
}

/// What is written so far, and how many cells the line under way holds.
pub struct Cursor {
    pub text: Seq<u8>,
    pub used: int,
}

/// The cursor after the first `n` sensors of a chip were written. Before
/// each seventh sensor but the first a new line begins with the chip's name.
pub open spec fn readings_text(
    s: &Settings,
    name: Seq<u8>,
    rs: Seq<Entry<Seq<u8>, DataKind>>,
    n: int,
    c: Cursor,
) -> Cursor
    decreases n,
{
    if n <= 0 || n > rs.len() {
        c
    } else {
        let p = readings_text(s, name, rs, n - 1, c);
        let q = if n - 1 > 0 && (n - 1) % 7 == 0 {
            Cursor { text: p.text + newline_text(s.smart) + name_cell(s, name), used: 1 }
        } else {
            p
        };
        Cursor { text: q.text + sensor_cell(s, rs[n - 1].key, rs[n - 1].value), used: q.used + 1 }
    }
}

/// The cursor after a chip's line was closed. Where two chips share a line,
/// a chip is filled up to four cells and a blank, or, past four cells, up to
/// eight cells and the end of the line. Else every chip is filled up to
/// eight cells and the end of the line.
pub open spec fn closed(s: &Settings, two: bool, c: Cursor) -> Cursor {
    let w = s.colwidth as nat;
    if two && 1 <= c.used <= 4 {
        Cursor { text: c.text + blanks(4 - c.used, w) + seq![0x20u8], used: 4 }
    } else if c.used > 4 || (!two && c.used > 0) {
        Cursor { text: c.text + blanks(8 - c.used, w) + newline_text(s.smart), used: 0 }
    } else {
        c
    }
}

/// The cursor after one chip was written: its name, its sensors, and what
/// closes its line. A chip without sensors is not written.
pub open spec fn chip_text(s: &Settings, two: bool, chip: ChipModel, c: Cursor) -> Cursor {
    if chip.readings.len() == 0 {
        c
    } else {
        closed(
            s,
            two,
            readings_text(
                s,
                chip.name,
                chip.readings,
                chip.readings.len() as int,
                Cursor { text: c.text + name_cell(s, chip.name), used: c.used + 1 },
            ),
        )
    }
}

/// The cursor after the first `n` chips were written.
pub open spec fn chips_text(
    s: &Settings,
    two: bool,
    chips: Seq<Entry<ChipKey, ChipModel>>,
    n: int,
) -> Cursor
    decreases n,
{
    if n <= 0 || n > chips.len() {
        Cursor { text: Seq::empty(), used: 0 }
    } else {
        chip_text(s, two, chips[n - 1].value, chips_text(s, two, chips, n - 1))
    }
}

/// Whether two chips share a line: no chip has more than three sensors.
pub open spec fn two_cols(chips: Seq<Entry<ChipKey, ChipModel>>) -> bool {
    forall|i: int| 0 <= i < chips.len() ==> (#[trigger] chips[i]).value.readings.len() <= 3
}

/// The cursor after the line under way, where there is one, was filled up
/// to eight cells and ended.
pub open spec fn ended(s: &Settings, c: Cursor) -> Cursor {
    if c.used > 0 {
        Cursor {
            text: c.text + blanks(8 - c.used, s.colwidth as nat) + newline_text(s.smart),
            used: 0,
        }
    } else {
        c
    }
}

/// The whole block: the chips, the end of a line that is under way, and an
/// empty line; or nothing where no chip is known.
pub open spec fn hwmon_text(s: &Settings, chips: Seq<Entry<ChipKey, ChipModel>>) -> Seq<u8> {
    if chips.len() == 0 {
        Seq::empty()
    } else {
        ended(s, chips_text(s, two_cols(chips), chips, chips.len() as int)).text + newline_text(
            s.smart,
        )
    }
}

/// The lines that the first `n` chips take where each has lines of its own:
/// one for every seven sensors.
pub open spec fn wrapped_rows(chips: Seq<Entry<ChipKey, ChipModel>>, n: int) -> int
    decreases n,
{
    if n <= 0 || n > chips.len() {
        0
    } else {
        wrapped_rows(chips, n - 1) + (chips[n - 1].value.readings.len() + 6) / 7
    }
}

/// The lines that the block claims: one, and a line for every two chips
/// where two chips share a line, else the lines of each chip.
pub open spec fn hwmon_rows(chips: Seq<Entry<ChipKey, ChipModel>>) -> int {
    if chips.len() == 0 {
        0
    } else if two_cols(chips) {
        1 + (chips.len() as int + 1) / 2
    } else {
        1 + wrapped_rows(chips, chips.len() as int)
    }
}

/// The lines that the block prints: the empty line, and the lines of each
/// chip, or where two chips share a line, a line for every two chips that
/// have a sensor. A chip without sensors is not written and takes no line.
pub open spec fn hwmon_lines(chips: Seq<Entry<ChipKey, ChipModel>>) -> int {
    let lines = wrapped_rows(chips, chips.len() as int);
    if chips.len() == 0 {
        0
    } else if two_cols(chips) {
        1 + (lines + 1) / 2
    } else {
        1 + lines
    }
}

/// Whether every chip has a sensor.
pub open spec fn all_sensed(chips: Seq<Entry<ChipKey, ChipModel>>) -> bool {
    forall|i: int| 0 <= i < chips.len() ==> (#[trigger] chips[i]).value.readings.len() > 0
}

/// Chips with one sensor to seven take a line each.
pub proof fn lemma_line_each(chips: Seq<Entry<ChipKey, ChipModel>>, n: int)
    requires
        0 <= n <= chips.len(),
        forall|i: int| 0 <= i < chips.len() ==> 1 <= (#[trigger] chips[i]).value.readings.len() <= 7,
    ensures
        wrapped_rows(chips, n) == n,
    decreases n,
{
    if n > 0 {
        lemma_line_each(chips, n - 1);
        assert(1 <= chips[n - 1].value.readings.len() <= 7);
    }
}

/// The block claims as many lines as it prints where every chip has a
/// sensor, and where chips have lines of their own.
pub proof fn lemma_rows_printed(chips: Seq<Entry<ChipKey, ChipModel>>)
    requires
        all_sensed(chips) || !two_cols(chips),
    ensures
        hwmon_rows(chips) == hwmon_lines(chips),
{
    if chips.len() > 0 && two_cols(chips) {
        assert forall|i: int| 0 <= i < chips.len() implies 1 <= (
        #[trigger] chips[i]).value.readings.len() <= 7 by {
            assert(chips[i].value.readings.len() <= 3);
        }
        lemma_line_each(chips, chips.len() as int);
    }
}

/// Whether no label among the readings holds a line feed.
pub open spec fn labels_flat(rs: Seq<Entry<Seq<u8>, DataKind>>) -> bool {
    forall|j: int| 0 <= j < rs.len() ==> flat((#[trigger] rs[j]).key)
}

/// Whether no chip's name and no sensor's label holds a line feed.
pub open spec fn names_flat(chips: Seq<Entry<ChipKey, ChipModel>>) -> bool {
    forall|i: int|
        0 <= i < chips.len() ==> flat((#[trigger] chips[i]).value.name) && labels_flat(
            chips[i].value.readings,
        )
}

/// Whether no chip's name and no sensor's label holds a line feed, and
/// every share is a share of something.
pub open spec fn chips_flat(chips: Seq<Entry<ChipKey, ChipModel>>) -> bool {
    &&& names_flat(chips)
    &&& forall|i: int| 0 <= i < chips.len() ==> readings_valid((#[trigger] chips[i]).value.readings)
}

/// The cell of a sensor whose label holds no line feed holds none.
pub proof fn lemma_flat_sensor_cell(s: &Settings, label: Seq<u8>, d: DataKind)
    requires
        flat(label),
        d.valid(),
    ensures
        flat(sensor_cell(s, label, d)),
{
    let w = s.colwidth as nat;
    let narrow = (w - 6) as nat;
    let wide = (w - 4) as nat;
    let b = seq![0x20u8];
    lemma_flat_heading(s.smart, label, narrow, narrow, Align::Right);
    lemma_flat_heading(s.smart, label, wide, wide, Align::Right);
    lemma_flat_join(b, label_text(s, label, narrow));
    lemma_flat_join(b, label_text(s, label, wide));
    let value = match d {
        DataKind::Nothing => lit(" n/a"),
        DataKind::Temperature(c) => threshold_text(
            s.smart,
            temp_levels(c),
            6,
            if w > 10 {
                1
            } else {
                0
            },
        ),
        DataKind::Percentage(p) => threshold_text(s.smart, share_levels(p), 4, 0),
        DataKind::Bytes(x, None) => bytes_text(x.0 as nat, 6, 0),
        DataKind::Bytes(x, Some(t)) => threshold_text(s.smart, bytes_levels(x, t), 6, 0),
        DataKind::Watts(x, None) => whole_text(x.0 as nat, 6, 0x57),
        DataKind::Watts(x, Some(t)) => threshold_text(s.smart, watts_levels(x, t), 6, 0),
    };
    assert(flat(value)) by {
        match d {
            DataKind::Nothing => {
                reveal_strlit(" n/a");
                lemma_flat_lit(" n/a");
            },
            DataKind::Temperature(c) => {
                lemma_flat_threshold(s.smart, temp_levels(c), 6, if w > 10 {
                    1
                } else {
                    0
                });
            },
            DataKind::Percentage(p) => {
                lemma_flat_threshold(s.smart, share_levels(p), 4, 0);
            },
            DataKind::Bytes(x, None) => {
                x.lemma_flat(6, 0);
            },
            DataKind::Bytes(x, Some(t)) => {
                lemma_flat_threshold(s.smart, bytes_levels(x, t), 6, 0);
            },
            DataKind::Watts(x, None) => {
                x.lemma_flat(6, 0);
            },
            DataKind::Watts(x, Some(t)) => {
                lemma_flat_threshold(s.smart, watts_levels(x, t), 6, 0);
            },
        }
    }
    lemma_flat_join(b + label_text(s, label, narrow), value);
    lemma_flat_join(b + label_text(s, label, wide), value);
}

/// Empty cells hold no line feed.
pub proof fn lemma_flat_blanks(n: int, w: nat)
    ensures
        flat(blanks(n, w)),
    decreases n,
{
    if n > 0 {
        lemma_flat_blanks(n - 1, w);
        lemma_flat_join(seq![0x20u8], spaces(w));
        lemma_flat_join(blanks(n - 1, w), seq![0x20u8] + spaces(w));
    }
}

/// The line feeds that a chip's sensors add to what is written: one before
/// each seventh sensor but the first. Up to seven sensors begin no line.
pub proof fn lemma_readings_feeds(
    s: &Settings,
    name: Seq<u8>,
    rs: Seq<Entry<Seq<u8>, DataKind>>,
    n: int,
    c: Cursor,
)
    requires
        flat(name),
        labels_flat(rs),
        readings_valid(rs),
        0 <= n <= rs.len(),
        c.used >= 1,
    ensures
        count(readings_text(s, name, rs, n, c).text, 0x0a) == count(c.text, 0x0a) + if n > 0 {
            (n - 1) / 7
        } else {
            0
        },
        readings_text(s, name, rs, n, c).used >= 1,
        n <= 7 ==> readings_text(s, name, rs, n, c).used == c.used + n,
    decreases n,
{
    if n > 0 {
        lemma_readings_feeds(s, name, rs, n - 1, c);
        let p = readings_text(s, name, rs, n - 1, c);
        let cell = sensor_cell(s, rs[n - 1].key, rs[n - 1].value);
        lemma_flat_sensor_cell(s, rs[n - 1].key, rs[n - 1].value);
        lemma_count_none(cell, 0x0a);
        if n - 1 > 0 && (n - 1) % 7 == 0 {
            lemma_flat_fit(name, s.colwidth as nat, Some(s.colwidth as nat), Align::Right);
            lemma_count_none(name_cell(s, name), 0x0a);
            lemma_newline_count(s.smart);
            lemma_count_add(p.text, newline_text(s.smart), 0x0a);
            lemma_count_add(p.text + newline_text(s.smart), name_cell(s, name), 0x0a);
            lemma_count_add(p.text + newline_text(s.smart) + name_cell(s, name), cell, 0x0a);
        } else {
            lemma_count_add(p.text, cell, 0x0a);
        }
    }
}

/// What closing a chip's line adds: a line feed where the line ends, none
/// where the next chip shares it.
pub proof fn lemma_closed_feeds(s: &Settings, two: bool, c: Cursor)
    ensures
        count(closed(s, two, c).text, 0x0a) == count(c.text, 0x0a) + if closed(s, two, c).used
            == 0 && c.used > 0 {
            1nat
        } else {
            0nat
        },
{
    let w = s.colwidth as nat;
    lemma_flat_blanks(4 - c.used, w);
    lemma_flat_blanks(8 - c.used, w);
    lemma_count_none(blanks(4 - c.used, w), 0x0a);
    lemma_count_none(blanks(8 - c.used, w), 0x0a);
    lemma_count_none(seq![0x20u8], 0x0a);
    lemma_newline_count(s.smart);
    lemma_count_add(c.text, blanks(4 - c.used, w), 0x0a);
    lemma_count_add(c.text + blanks(4 - c.used, w), seq![0x20u8], 0x0a);
    lemma_count_add(c.text, blanks(8 - c.used, w), 0x0a);
    lemma_count_add(c.text + blanks(8 - c.used, w), newline_text(s.smart), 0x0a);
}

/// The line feeds after the first `n` chips, and the cells of the line
/// under way. Where two chips share a line, every second chip that has a
/// sensor ends a line, and the others fill half of one. Else every chip
/// ends its last line.
pub proof fn lemma_chips_feeds(s: &Settings, chips: Seq<Entry<ChipKey, ChipModel>>, n: int)
    requires
        chips_flat(chips),
        0 <= n <= chips.len(),
    ensures
        ({
            let c = chips_text(s, two_cols(chips), chips, n);
            let lines = wrapped_rows(chips, n);
            if two_cols(chips) {
                count(c.text, 0x0a) == lines / 2 && c.used == 4 * (lines % 2)
            } else {
                count(c.text, 0x0a) == lines && c.used == 0
            }
        }),
        wrapped_rows(chips, n) >= 0,
    decreases n,
{
    let two = two_cols(chips);
    if n > 0 {
        lemma_chips_feeds(s, chips, n - 1);
        let c = chips_text(s, two, chips, n - 1);
        let chip = chips[n - 1].value;
        let k = chip.readings.len() as int;
        if k > 0 {
            let named = Cursor { text: c.text + name_cell(s, chip.name), used: c.used + 1 };
            lemma_flat_fit(chip.name, s.colwidth as nat, Some(s.colwidth as nat), Align::Right);
            lemma_count_none(name_cell(s, chip.name), 0x0a);
            lemma_count_add(c.text, name_cell(s, chip.name), 0x0a);
            lemma_readings_feeds(s, chip.name, chip.readings, k, named);
            let r = readings_text(s, chip.name, chip.readings, k, named);
            lemma_closed_feeds(s, two, r);
            if two {
                assert(k <= 3);
            }
        }
    } else {
        assert(count(Seq::<u8>::empty(), 0x0a) == 0);
    }
}

/// The block prints whole lines, a line for every two chips that have a
/// sensor or the lines of each chip, and the empty line, where no name and
/// no label holds a line feed.
pub proof fn lemma_hwmon_lines(s: &Settings, chips: Seq<Entry<ChipKey, ChipModel>>)
    requires
        chips_flat(chips),
    ensures
        whole_lines(hwmon_text(s, chips), hwmon_lines(chips)),
{
    if chips.len() > 0 {
        let c = chips_text(s, two_cols(chips), chips, chips.len() as int);
        lemma_chips_feeds(s, chips, chips.len() as int);
        lemma_flat_blanks(8 - c.used, s.colwidth as nat);
        lemma_count_none(blanks(8 - c.used, s.colwidth as nat), 0x0a);
        lemma_newline_count(s.smart);
        lemma_count_add(c.text, blanks(8 - c.used, s.colwidth as nat), 0x0a);
        lemma_count_add(c.text + blanks(8 - c.used, s.colwidth as nat), newline_text(s.smart), 0x0a);
        lemma_count_add(ended(s, c).text, newline_text(s.smart), 0x0a);
        assert(newline_text(s.smart).last() == 0x0a);
    } else {
        assert(count(Seq::<u8>::empty(), 0x0a) == 0);
    }
}

/// Appends the label of a sensor in a field of `n` characters.
pub fn push_label(out: &mut Vec<u8>, s: &Settings, label: &[u8], n: usize)
    ensures
        final(out)@ == old(out)@ + label_text(s, label@, n as nat),
{
    push_heading_bytes(out, s.smart, label, n, n, Align::Right);
}

/// Appends the cell of one sensor.
pub fn push_sensor_cell(out: &mut Vec<u8>, s: &Settings, label: &[u8], d: DataKind)
    requires
        s.wf(),
        d.valid(),
    ensures
        final(out)@ == old(out)@ + sensor_cell(s, label@, d),
{
    let w = s.colwidth as usize;
    let narrow = w - 6;
    let wide = w - 4;
    let mut cell: Vec<u8> = Vec::new();
    push_blank(&mut cell);
    assert(cell@ =~= seq![0x20u8]);
    match d {
        DataKind::Nothing => {
            push_label(&mut cell, s, label, wide);
            push_str(&mut cell, " n/a");
        },
        DataKind::Temperature(c) => {
            push_label(&mut cell, s, label, narrow);
            let t = Threshold {
                val: c,
                med: Celsius { milli: 50000 },
                high: Celsius { milli: 70000 },
                crit: Celsius { milli: 90000 },
            };
            push_threshold(
                &mut cell,
                s.smart,
                &t,
                6,
                if w > 10 {
                    1
                } else {
                    0
                },
            );
        },
        DataKind::Percentage(p) => {
            push_label(&mut cell, s, label, wide);
            let t = Threshold {
                val: p,
                med: Percentage { part: 50, whole: 100 },
                high: Percentage { part: 80, whole: 100 },
                crit: Percentage { part: 90, whole: 100 },
            };
            push_threshold(&mut cell, s.smart, &t, 4, 0);
        },
        DataKind::Bytes(x, None) => {
            push_label(&mut cell, s, label, narrow);
            push_quantity(&mut cell, &x, 6, 0);
        },
        DataKind::Bytes(x, Some(t)) => {
            push_label(&mut cell, s, label, narrow);
            let t = Threshold {
                val: x,
                med: Bytes(part(t.0, 1, 2)),
                high: Bytes(part(t.0, 3, 4)),
                crit: Bytes(part(t.0, 9, 10)),
            };
            push_threshold(&mut cell, s.smart, &t, 6, 0);
        },
        DataKind::Watts(x, None) => {
            push_label(&mut cell, s, label, narrow);
            push_quantity(&mut cell, &x, 6, 0);
        },
        DataKind::Watts(x, Some(t)) => {
            push_label(&mut cell, s, label, narrow);
            let t = Threshold {
                val: x,
                med: Watts(part(t.0, 1, 2)),
                high: Watts(part(t.0, 3, 4)),
                crit: Watts(part(t.0, 9, 10)),
            };
            push_threshold(&mut cell, s.smart, &t, 6, 0);
        },
    }
    push_bytes(out, cell.as_slice());
}

/// Appends empty cells up to the `upto`-th of a line that holds `used`.
pub fn push_blanks(out: &mut Vec<u8>, used: u128, upto: u128, w: usize)
    ensures
        final(out)@ == old(out)@ + blanks(upto - used, w as nat),
{
    let mut i: u128 = used;
    assert(old(out)@ + blanks(0, w as nat) =~= old(out)@);
    while i < upto
        invariant
            used <= i,
            i <= upto || (upto < used && i == used),
            out@ == old(out)@ + blanks(i - used, w as nat),
        decreases upto - i,
    {
        let mut cell: Vec<u8> = Vec::new();
        push_blank(&mut cell);
        push_spaces(&mut cell, w);
        assert(cell@ =~= seq![0x20u8] + spaces(w as nat));
        push_bytes(out, cell.as_slice());
        i += 1;
        assert(out@ =~= old(out)@ + blanks(i - used, w as nat));
    }
    assert(upto < used ==> blanks(upto - used, w as nat) == blanks(0, w as nat));
}

/// Appends what closes a chip's line; the result is the number of cells
/// that the line under way then holds.
pub fn push_closed(out: &mut Vec<u8>, s: &Settings, two: bool, used: u128) -> (r: u128)
    ensures
        (Cursor { text: final(out)@, used: r as int }) == closed(
            s,
            two,
            Cursor { text: old(out)@, used: used as int },
        ),
        r <= 4 || r == used,
{
    let w = s.colwidth as usize;
    if two && 1 <= used && used <= 4 {
        push_blanks(out, used, 4, w);
        push_blank(out);
        4
    } else if used > 4 || (!two && used > 0) {
        push_blanks(out, used, 8, w);
        push_newline(out, s.smart);
        0
    } else {
        used
    }
}

/// Appends the sensors of a chip; the result is the number of cells that
/// the line under way then holds.
pub fn push_readings(out: &mut Vec<u8>, s: &Settings, chip: &Chip, used: u128) -> (r: u128)
    requires
        s.wf(),
        chip.wf(),
        1 <= used <= 5,
    ensures
        (Cursor { text: final(out)@, used: r as int }) == readings_text(
            s,
            chip@.name,
            chip@.readings,
            chip@.readings.len() as int,
            Cursor { text: old(out)@, used: used as int },
        ),
        r >= 1,
{
    let w = s.colwidth as usize;
    let ghost start = Cursor { text: old(out)@, used: used as int };
    let n = chip.readings.len();
    let mut u: u128 = used;
    let mut i: usize = 0;
    while i < n
        invariant
            i <= n,
            n == chip@.readings.len(),
            s.wf(),
            chip.wf(),
            w == s.colwidth,
            1 <= u <= 5 + i,
            (Cursor { text: out@, used: u as int }) == readings_text(
                s,
                chip@.name,
                chip@.readings,
                i as int,
                start,
            ),
        decreases n - i,
    {
        if i > 0 && i % 7 == 0 {
            push_newline(out, s.smart);
            push_fitted(out, chip.name.as_slice(), w, Some(w), Align::Right);
            u = 1;
        }
        let slot = chip.readings.slot(i);
        assert(chip@.readings[i as int].value.valid());
        push_sensor_cell(out, s, slot.key.as_slice(), slot.value);
        u += 1;
        i += 1;
    }
    u
}

/// Appends one chip; the result is the number of cells that the line under
/// way then holds.
pub fn push_chip(out: &mut Vec<u8>, s: &Settings, two: bool, chip: &Chip, used: u128) -> (r: u128)
    requires
        s.wf(),
        chip.wf(),
        used <= 4,
    ensures
        (Cursor { text: final(out)@, used: r as int }) == chip_text(
            s,
            two,
            chip@,
            Cursor { text: old(out)@, used: used as int },
        ),
        r <= 4,
{
    if chip.readings.is_empty() {
        return used;
    }
    let w = s.colwidth as usize;
    push_fitted(out, chip.name.as_slice(), w, Some(w), Align::Right);
    let u = push_readings(out, s, chip, used + 1);
    push_closed(out, s, two, u)
}

impl HwmonStats {
    /// A block that is in order prints as many whole lines as it has rows,
    /// where no name and no label holds a line feed, and every chip has a
    /// sensor or chips have lines of their own.
    pub proof fn lemma_lines(&self, s: &Settings)
        requires
            self.inv(),
            names_flat(self.chips()),
            all_sensed(self.chips()) || !two_cols(self.chips()),
        ensures
            whole_lines(self.text(s), hwmon_rows(self.chips())),
            hwmon_rows(self.chips()) <= 0xffff ==> whole_lines(self.text(s), self.height(s) as int),
    {
        lemma_rows_printed(self.chips());
        let chips = self.chips();
        assert forall|i: int| 0 <= i < chips.len() implies readings_valid(
            (#[trigger] chips[i]).value.readings,
        ) by {
            self.lemma_sensors_ascending(i);
        }
        lemma_hwmon_lines(s, chips);
        lemma_wrapped_rows(chips, chips.len() as int);
    }

    /// Whether two chips share a line.
    pub fn shares_lines(&self) -> (two: bool)
        requires
            self.inv(),
        ensures
            two == two_cols(self.chips()),
    {
        let n = self.state.len();
        let mut i: usize = 0;
        while i < n
            invariant
                i <= n,
                n == self.chips().len(),
                n == self.state@.len(),
                forall|j: int| 0 <= j < i ==> (#[trigger] self.chips()[j]).value.readings.len() <= 3,
            decreases n - i,
        {
            assert(self.chips()[i as int].value == self.state@[i as int].value@);
            if self.state.slot(i).value.readings.len() > 3 {
                return false;
            }
            i += 1;
        }
        true
    }
}

impl StatBlock for HwmonStats {
    type Source = HwmonSource;

    open spec fn wf(&self) -> bool {
        &&& self.inv()
        &&& forall|i: int| 0 <= i < self.chips().len() ==> !(#[trigger] self.chips()[i]).stale.0
    }

    /// A line of the block holds eight cells, each a column wide, and the
    /// blanks between them.
    open spec fn width(&self, s: &Settings) -> u16 {
        if self.chips().len() == 0 {
            0
        } else {
            clamp16(8 * s.colwidth + 7)
        }
    }

    open spec fn height(&self, s: &Settings) -> u16 {
        clamp16(hwmon_rows(self.chips()))
    }

    open spec fn text(&self, s: &Settings) -> Seq<u8> {
        hwmon_text(s, self.chips())
    }

    open spec fn fresh(&self) -> bool {
        self.chips().len() == 0
    }

    open spec fn stepped(&self, source: &HwmonSource, next: &Self, ok: bool) -> bool {
        match hwmon_after(self.chips(), source) {
            Some(chips) => ok && next.chips() == chips && forall|i: int|
                0 <= i < next.chips().len() ==> !(#[trigger] next.chips()[i]).stale.0,
            None => !ok && next.chips() == self.chips(),
        }
    }

    proof fn lemma_blank(&self, s: &Settings) {
    }

    fn new() -> (b: Self) {
        HwmonStats { state: Tracker::new() }
    }

    fn update(&mut self, source: &HwmonSource) -> (ok: bool) {
        self.take(source)
    }

    fn columns(&self, s: &Settings) -> (c: u16) {
        if self.state.is_empty() {
            0
        } else {
            clamped(8 * (s.colwidth as usize) + 7)
        }
    }

    fn rows(&self, s: &Settings) -> (r: u16) {
        let n = self.state.len();
        if n == 0 {
            return 0;
        }
        if self.shares_lines() {
            let half = n / 2 + n % 2;
            if half >= 0xffff {
                0xffff
            } else {
                (1 + half) as u16
            }
        } else {
            let mut acc: usize = 1;
            let mut i: usize = 0;
            while i < n
                invariant
                    i <= n,
                    n == self.chips().len(),
                    n == self.state@.len(),
                    acc <= 0xffff,
                    acc == clamp16(1 + wrapped_rows(self.chips(), i as int)),
                decreases n - i,
            {
                assert(self.chips()[i as int].value == self.state@[i as int].value@);
                let k = self.state.slot(i).value.readings.len();
                let lines = k / 7 + if k % 7 > 0 {
                    1usize
                } else {
                    0usize
                };
                assert(lines == (k + 6) / 7);
                proof {
                    assert(wrapped_rows(self.chips(), i as int) >= 0) by {
                        lemma_wrapped_rows(self.chips(), i as int);
                    }
                }
                acc = if lines >= 0xffff - acc {
                    0xffff
                } else {
                    acc + lines
                };
                i += 1;
            }
            acc as u16
        }
    }

    fn render(&self, s: &Settings) -> (out: Vec<u8>) {
        let mut out: Vec<u8> = Vec::new();
        let n = self.state.len();
        if n == 0 {
            return out;
        }
        let two = self.shares_lines();
        let mut used: u128 = 0;
        let mut i: usize = 0;
        while i < n
            invariant
                i <= n,
                n == self.chips().len(),
                n == self.state@.len(),
                self.inv(),
                s.wf(),
                used <= 4,
                (Cursor { text: out@, used: used as int }) == chips_text(
                    s,
                    two,
                    self.chips(),
                    i as int,
                ),
            decreases n - i,
        {
            assert(self.chips()[i as int].value == self.state@[i as int].value@);
            assert(self.state@[i as int].value.wf());
            used = push_chip(&mut out, s, two, &self.state.slot(i).value, used);
            i += 1;
        }
        if used > 0 {
            push_blanks(&mut out, used, 8, s.colwidth as usize);
            push_newline(&mut out, s.smart);
        }
        push_newline(&mut out, s.smart);
        out
    }
}

/// The lines that chips take are no negative number.
pub proof fn lemma_wrapped_rows(chips: Seq<Entry<ChipKey, ChipModel>>, n: int)
    ensures
        wrapped_rows(chips, n) >= 0,
    decreases n,
{
    if 0 < n <= chips.len() {
        lemma_wrapped_rows(chips, n - 1);
    }
}

} // verus!
