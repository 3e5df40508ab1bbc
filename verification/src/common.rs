//! What every block shares: the settings, the typed quantities and how each
//! is written, headings, line ends and threshold colours.

use crate::decimal::{
    digits, fixed, lemma_digits, lemma_flat_digits, lemma_flat_fixed, lemma_point,
    lemma_pow10_grows, pow10, pow10_of, push_digits, push_fixed, scaled, scaled_quotient,
    MAX_NUMERATOR, MAX_PRECISION,
};
use crate::layout::{count, lemma_count_add, lemma_count_none, lemma_newline_count};
use crate::text::{
    fit, flat, lemma_flat_fit, lemma_flat_join, lemma_flat_lit, lemma_flat_pad, lemma_pad_len, lit,
    pad, push_bytes, push_fitted, push_padded, push_str, Align,
};
use vstd::prelude::*;

pub use crate::layout::MergedStatBlock;
pub use crate::sanitize::{read_to_string, read_to_string_unchecked};

verus! {

/// The least column width.
pub const MIN_COL_WIDTH: u16 = 8;

/// The least frame width: eight columns of the least width and the blanks
/// between them.
pub const MIN_COLUMNS: u16 = 71;

/// The least frame height.
pub const MIN_ROWS: u16 = 24;

/// The widest column that is chosen from the frame width.
pub const MAX_AUTO_COL_WIDTH: u16 = 10;

/// What the command line gives.
pub struct Cli {
    /// Use colour and other escape sequences; guessed where absent.
    pub colour: Option<bool>,
    /// Width of the terminal window in characters; probed where absent.
    pub columns: Option<u16>,
    /// Height of the terminal window in lines; probed where absent.
    pub rows: Option<u16>,
    /// Width of a column in characters; derived where absent.
    pub column_width: Option<u16>,
    /// Refresh interval in milliseconds.
    pub refresh_interval: u64,
}

/// The settings of a run. The three dimensions follow the terminal from tick
/// to tick where their `auto_` flag is set.
#[derive(Clone, Copy)]
pub struct Settings {
    pub smart: bool,
    pub refresh: u64,
    pub auto_colwidth: bool,
    pub auto_maxcols: bool,
    pub auto_maxrows: bool,
    pub maxcols: u16,
    pub maxrows: u16,
    pub colwidth: u16,
}

impl Settings {
    /// The geometry that every block relies on.
    pub open spec fn wf(&self) -> bool {
        &&& self.colwidth >= MIN_COL_WIDTH
        &&& self.maxcols >= 8 * self.colwidth + 7
        &&& self.maxrows >= MIN_ROWS
    }

    /// Whether the geometry is one that every block relies on.
    pub fn is_wf(&self) -> (ok: bool)
        ensures
            ok == self.wf(),
    {
        self.colwidth >= MIN_COL_WIDTH && self.maxcols as u32 >= 8 * (self.colwidth as u32) + 7
            && self.maxrows >= MIN_ROWS
    }

    /// The settings that a command line asks for. `term_smart` says whether
    /// the terminal takes escape sequences, and decides where the command line
    /// does not. Dimensions that the command line leaves open are zero until
    /// the first probe.
    pub fn from_cli(cli: &Cli, term_smart: bool) -> (s: Settings)
        ensures
            s.smart == (match cli.colour {
                Some(c) => c,
                None => term_smart,
            }),
            s.refresh == cli.refresh_interval,
            s.auto_maxcols == (cli.columns is None),
            s.auto_maxrows == (cli.rows is None),
            s.auto_colwidth == (cli.column_width is None),
            s.maxcols == (match cli.columns {
                Some(c) => c,
                None => 0u16,
            }),
            s.maxrows == (match cli.rows {
                Some(r) => r,
                None => 0u16,
            }),
            s.colwidth == (match cli.column_width {
                Some(w) => w,
                None => 0u16,
            }),
    {
        Settings {
            smart: match cli.colour {
                Some(c) => c,
                None => term_smart,
            },
            refresh: cli.refresh_interval,
            auto_colwidth: cli.column_width.is_none(),
            auto_maxcols: cli.columns.is_none(),
            auto_maxrows: cli.rows.is_none(),
            maxcols: match cli.columns {
                Some(c) => c,
                None => 0,
            },
            maxrows: match cli.rows {
                Some(r) => r,
                None => 0,
            },
            colwidth: match cli.column_width {
                Some(w) => w,
                None => 0,
            },
        }
    }
}

impl Default for Settings {
    fn default() -> (s: Settings)
        ensures
            !s.smart,
            s.refresh == 2000,
            !s.auto_colwidth && !s.auto_maxcols && !s.auto_maxrows,
            s.maxcols == 120,
            s.maxrows == 50,
            s.colwidth == 10,
            s.wf(),
    {
        Settings {
            smart: false,
            refresh: 2000,
            auto_colwidth: false,
            auto_maxcols: false,
            auto_maxrows: false,
            maxcols: 120,
            maxrows: 50,
            colwidth: 10,
        }
    }
}

/// Whether an entry was left unobserved in the tick that is under way.
#[derive(Debug, PartialEq, Eq, Clone, Copy, Structural)]
pub struct Stale(pub bool);

/// A quantity with an order and with one way of writing it in a field.
pub trait Quantity: Sized {
    /// What the type asks of a value.
    spec fn valid(&self) -> bool;

    /// The quantity written in a field of `width` characters with `precision`
    /// digits after the point, where the type has any.
    spec fn text(&self, width: nat, precision: nat) -> Seq<u8>;

    /// Whether `self` is strictly less than `other`.
    spec fn below(&self, other: &Self) -> bool;

    /// Two quantities of which neither is below a third's neighbour keep
    /// their order: what is not below `b`, where `b` is not below `c`, is not
    /// below `c`.
    proof fn lemma_not_below_chains(a: &Self, b: &Self, c: &Self)
        requires
            a.valid(),
            b.valid(),
            c.valid(),
            !a.below(b),
            !b.below(c),
        ensures
            !a.below(c),
    ;

    /// A quantity is written without a line feed.
    proof fn lemma_flat(&self, width: nat, precision: nat)
        requires
            self.valid(),
        ensures
            flat(self.text(width, precision)),
    ;

    /// The quantity as `text` gives it. The precision is bounded by what
    /// the arithmetic of the machine holds, see `MAX_PRECISION`.
    fn format(&self, width: usize, precision: usize) -> (out: Vec<u8>)
        requires
            self.valid(),
            precision <= MAX_PRECISION,
        ensures
            out@ == self.text(width as nat, precision as nat),
    ;

    fn is_below(&self, other: &Self) -> (b: bool)
        requires
            self.valid(),
            other.valid(),
        ensures
            b == self.below(other),
    ;
}

/// The room that a quantity's number has in a field of `width`: one
/// character goes to the unit.
pub open spec fn room(width: nat) -> nat {
    if width == 0 {
        0
    } else {
        (width - 1) as nat
    }
}

/// The room that a quantity's number has in a field of `width`.
pub fn room_of(width: usize) -> (w: usize)
    ensures
        w == room(width as nat),
{
    if width == 0 {
        0
    } else {
        width - 1
    }
}

/// A number without a line feed, right-aligned before a unit's letter,
/// holds none.
pub proof fn lemma_flat_number(number: Seq<u8>, width: nat, letter: u8)
    requires
        flat(number),
        letter != 0x0a,
    ensures
        flat(pad(number, room(width), Align::Right).push(letter)),
{
    lemma_flat_pad(number, room(width), Align::Right);
    let p = pad(number, room(width), Align::Right);
    lemma_flat_join(p, seq![letter]);
    assert(p.push(letter) =~= p + seq![letter]);
}

/// A number of bytes.
#[derive(Debug, PartialEq, Eq, Clone, Copy, Structural)]
pub struct Bytes(pub u64);

/// The digits before the point that a count of bytes may have in its unit:
/// as many as the field has room for beside the unit's letter, the point and
/// the digits after it, but four at most; and three where the field has
/// room for none.
pub open spec fn bytes_digits(width: nat, precision: nat) -> nat {
    let w = room(width) as int;
    let whole = if precision == 0 {
        w
    } else {
        w - precision - 1
    };
    if whole >= 4 {
        4
    } else if whole <= 0 {
        3
    } else {
        whole as nat
    }
}

/// The number from which on a count of bytes goes to the next larger unit:
/// the least with one digit more before the point than `bytes_digits` allows.
pub open spec fn bytes_threshold(width: nat, precision: nat) -> nat {
    pow10(bytes_digits(width, precision))
}

/// Whether `n` bytes, written in the unit of `size` bytes and rounded to
/// `precision` digits after the point, stay under the threshold.
pub open spec fn bytes_fit(n: nat, size: nat, width: nat, precision: nat) -> bool {
    scaled(n, size, precision) < bytes_threshold(width, precision) * pow10(precision)
}

/// The binary exponent of the unit that `n` bytes are written in: 10 for K,
/// 20 for M, 30 for G, 40 for T. It is the smallest unit in which the
/// number, as it is written after rounding, stays under the threshold, and
/// T where there is none.
pub open spec fn bytes_unit(n: nat, width: nat, precision: nat) -> nat {
    if bytes_fit(n, 0x400, width, precision) {
        10
    } else if bytes_fit(n, 0x10_0000, width, precision) {
        20
    } else if bytes_fit(n, 0x4000_0000, width, precision) {
        30
    } else {
        40
    }
}

/// The letter of the unit with binary exponent `unit`.
pub open spec fn unit_letter(unit: nat) -> u8 {
    if unit == 40 {
        0x54
    } else if unit == 30 {
        0x47
    } else if unit == 20 {
        0x4d
    } else {
        0x4b
    }
}

/// Two to the power of a unit's binary exponent.
pub open spec fn unit_size(unit: nat) -> nat {
    if unit == 40 {
        0x100_0000_0000
    } else if unit == 30 {
        0x4000_0000
    } else if unit == 20 {
        0x10_0000
    } else {
        0x400
    }
}

/// A count of bytes as it is written: a single point for zero, else the count
/// in its unit, rounded to `precision` digits after the point and
/// right-aligned, and the unit's letter.
pub open spec fn bytes_text(n: nat, width: nat, precision: nat) -> Seq<u8> {
    if n == 0 {
        pad(seq![0x2eu8], room(width) + 1, Align::Right)
    } else {
        let unit = bytes_unit(n, width, precision);
        pad(fixed(n, unit_size(unit), precision), room(width), Align::Right).push(
            unit_letter(unit),
        )
    }
}

/// The number of a count of bytes as it is written, without the unit's
/// letter and not yet in its field.
pub open spec fn bytes_number(n: nat, width: nat, precision: nat) -> Seq<u8> {
    fixed(n, unit_size(bytes_unit(n, width, precision)), precision)
}

/// A count of bytes takes its field, and more where its number and the
/// unit's letter are longer than the field is wide.
pub proof fn lemma_bytes_len(n: nat, width: nat, precision: nat)
    requires
        width >= 1,
    ensures
        bytes_text(n, width, precision).len() == if n == 0 || bytes_number(
            n,
            width,
            precision,
        ).len() < width {
            width
        } else {
            bytes_number(n, width, precision).len() + 1
        },
{
    if n == 0 {
        lemma_pad_len(seq![0x2eu8], room(width) + 1, Align::Right);
    } else {
        let unit = bytes_unit(n, width, precision);
        lemma_point(scaled(n, unit_size(unit), precision), precision);
        lemma_pad_len(bytes_number(n, width, precision), room(width), Align::Right);
    }
}

/// A count of bytes is exactly as long as its field is wide where, and only
/// where, its number leaves room for the unit's letter.
pub proof fn lemma_bytes_fill(n: nat, width: nat, precision: nat)
    requires
        width >= precision + 4,
    ensures
        bytes_text(n, width, precision).len() == width <==> n == 0 || bytes_number(
            n,
            width,
            precision,
        ).len() < width,
{
    lemma_bytes_len(n, width, precision);
}

/// In a field that is at least four characters wider than the precision, a
/// count of bytes that stays under the threshold in T is exactly as long as
/// the field is wide. Zero is among them, and every count that is written
/// in K, M or G.
pub proof fn lemma_bytes_width(n: nat, width: nat, precision: nat)
    requires
        width >= precision + 4,
        bytes_fit(n, unit_size(40), width, precision),
    ensures
        bytes_text(n, width, precision).len() == width,
{
    lemma_bytes_len(n, width, precision);
    if n > 0 {
        let unit = bytes_unit(n, width, precision);
        let units = scaled(n, unit_size(unit), precision);
        let scale = pow10(precision);
        let k = bytes_digits(width, precision);
        assert(bytes_fit(n, unit_size(unit), width, precision));
        lemma_pow10_grows(0, precision);
        lemma_point(units, precision);
        assert(units / scale < pow10(k)) by (nonlinear_arith)
            requires
                units < pow10(k) * scale,
                scale >= 1,
        ;
        lemma_digits(units / scale, k);
    }
}

/// A count of no more than nine times two to the power of 40 bytes stays
/// under the threshold in T in every field, whatever the precision.
pub proof fn lemma_bytes_small(n: nat, width: nat, precision: nat)
    requires
        n <= 9 * unit_size(40),
    ensures
        bytes_fit(n, unit_size(40), width, precision),
{
    let d = unit_size(40);
    let scale = pow10(precision);
    lemma_pow10_grows(0, precision);
    lemma_pow10_grows(1, bytes_digits(width, precision));
    assert(pow10(1) == 10) by {
        reveal_with_fuel(pow10, 2);
    }
    let a = n * scale;
    assert(a <= 9 * scale * d) by (nonlinear_arith)
        requires
            a == n * scale,
            n <= 9 * d,
            scale >= 1,
    ;
    assert(a / d <= 9 * scale) by (nonlinear_arith)
        requires
            a <= 9 * scale * d,
            d > 0,
    ;
    assert(10 * scale <= bytes_threshold(width, precision) * scale) by (nonlinear_arith)
        requires
            bytes_threshold(width, precision) >= 10,
            scale >= 1,
    ;
}

impl Quantity for Bytes {
    open spec fn valid(&self) -> bool {
        true
    }

    open spec fn text(&self, width: nat, precision: nat) -> Seq<u8> {
        bytes_text(self.0 as nat, width, precision)
    }

    open spec fn below(&self, other: &Self) -> bool {
        self.0 < other.0
    }

    proof fn lemma_not_below_chains(a: &Self, b: &Self, c: &Self) {
    }

    proof fn lemma_flat(&self, width: nat, precision: nat) {
        let n = self.0 as nat;
        if n == 0 {
            lemma_flat_pad(seq![0x2eu8], room(width) + 1, Align::Right);
        } else {
            let unit = bytes_unit(n, width, precision);
            lemma_flat_fixed(n, unit_size(unit), precision);
            lemma_flat_number(fixed(n, unit_size(unit), precision), width, unit_letter(unit));
        }
    }

    fn format(&self, width: usize, precision: usize) -> (out: Vec<u8>) {
        let w = room_of(width);
        let mut out: Vec<u8> = Vec::new();
        if self.0 == 0 {
            let mut dot: Vec<u8> = Vec::new();
            dot.push(0x2eu8);
            assert(dot@ =~= seq![0x2eu8]);
            push_padded(&mut out, dot.as_slice(), w + 1, Align::Right);
            assert(out@ =~= bytes_text(0, width as nat, precision as nat));
            return out;
        }
        let whole = if precision == 0 {
            w
        } else if w > precision {
            w - precision - 1
        } else {
            0
        };
        let k: usize = if whole >= 4 {
            4
        } else if whole == 0 {
            3
        } else {
            whole
        };
        assert(k == bytes_digits(width as nat, precision as nat));
        let t = pow10_of(k);
        let scale = pow10_of(precision);
        proof {
            lemma_pow10_grows(k as nat, 4);
            assert(pow10(4) == 10000) by {
                reveal_with_fuel(pow10, 5);
            }
        }
        assert(t * scale <= 1_000_000_000_000_000_000_000) by (nonlinear_arith)
            requires
                t <= 10000,
                scale <= 100_000_000_000_000_000,
        ;
        let limit = t * scale;
        let n = self.0 as u128;
        let (size, letter): (u128, u8) = if scaled_quotient(n, 0x400, precision) < limit {
            (0x400, 0x4b)
        } else if scaled_quotient(n, 0x10_0000, precision) < limit {
            (0x10_0000, 0x4d)
        } else if scaled_quotient(n, 0x4000_0000, precision) < limit {
            (0x4000_0000, 0x47)
        } else {
            (0x100_0000_0000, 0x54)
        };
        let ghost unit = bytes_unit(self.0 as nat, width as nat, precision as nat);
        assert(size == unit_size(unit) && letter == unit_letter(unit));
        let mut number: Vec<u8> = Vec::new();
        push_fixed(&mut number, self.0 as u128, size, precision);
        assert(number@ =~= fixed(self.0 as nat, unit_size(unit), precision as nat));
        push_padded(&mut out, number.as_slice(), w, Align::Right);
        out.push(letter);
        assert(out@ =~= bytes_text(self.0 as nat, width as nat, precision as nat));
        out
    }

    fn is_below(&self, other: &Self) -> (b: bool) {
        self.0 < other.0
    }
}

/// A power in watts.
#[derive(Debug, PartialEq, Eq, Clone, Copy, Structural)]
pub struct Watts(pub u64);

/// A whole number, right-aligned, and a unit's letter.
pub open spec fn whole_text(n: nat, width: nat, letter: u8) -> Seq<u8> {
    pad(digits(n), room(width), Align::Right).push(letter)
}

/// Writes a whole number, right-aligned, and a unit's letter.
pub fn format_whole(n: u64, width: usize, letter: u8) -> (out: Vec<u8>)
    ensures
        out@ == whole_text(n as nat, width as nat, letter),
{
    let mut number: Vec<u8> = Vec::new();
    push_digits(&mut number, n as u128);
    assert(number@ =~= digits(n as nat));
    let mut out: Vec<u8> = Vec::new();
    push_padded(&mut out, number.as_slice(), room_of(width), Align::Right);
    out.push(letter);
    assert(out@ =~= whole_text(n as nat, width as nat, letter));
    out
}

impl Quantity for Watts {
    open spec fn valid(&self) -> bool {
        true
    }

    open spec fn text(&self, width: nat, precision: nat) -> Seq<u8> {
        whole_text(self.0 as nat, width, 0x57)
    }

    open spec fn below(&self, other: &Self) -> bool {
        self.0 < other.0
    }

    proof fn lemma_not_below_chains(a: &Self, b: &Self, c: &Self) {
    }

    proof fn lemma_flat(&self, width: nat, precision: nat) {
        lemma_flat_digits(self.0 as nat);
        lemma_flat_number(digits(self.0 as nat), width, 0x57);
    }

    fn format(&self, width: usize, precision: usize) -> (out: Vec<u8>) {
        format_whole(self.0, width, 0x57)
    }

    fn is_below(&self, other: &Self) -> (b: bool) {
        self.0 < other.0
    }
}

/// A share in percent: `part` of `whole`, so that `part == whole` is 100 %.
#[derive(Debug, PartialEq, Eq, Clone, Copy, Structural)]
pub struct Percentage {
    pub part: u64,
    pub whole: u64,
}

/// A quotient, right-aligned, and a unit's letter.
pub open spec fn quotient_text(num: nat, den: nat, width: nat, precision: nat, letter: u8) -> Seq<
    u8,
> {
    pad(fixed(num, den, precision), room(width), Align::Right).push(letter)
}

/// Writes a quotient, right-aligned, and a unit's letter.
pub fn format_quotient(num: u128, den: u128, width: usize, precision: usize, letter: u8) -> (out:
    Vec<u8>)
    requires
        den > 0,
        num <= MAX_NUMERATOR,
        precision <= MAX_PRECISION,
    ensures
        out@ == quotient_text(num as nat, den as nat, width as nat, precision as nat, letter),
{
    let mut number: Vec<u8> = Vec::new();
    push_fixed(&mut number, num, den, precision);
    assert(number@ =~= fixed(num as nat, den as nat, precision as nat));
    let mut out: Vec<u8> = Vec::new();
    push_padded(&mut out, number.as_slice(), room_of(width), Align::Right);
    out.push(letter);
    assert(out@ =~= quotient_text(
        num as nat,
        den as nat,
        width as nat,
        precision as nat,
        letter,
    ));
    out
}

/// What is not below `b`, where `b` is not below `c`, is not below `c`: for
/// quotients with positive denominators, compared by cross-multiplication.
pub proof fn lemma_quotients_chain(an: int, ad: int, bn: int, bd: int, cn: int, cd: int)
    requires
        ad > 0,
        bd > 0,
        cd > 0,
        an * bd >= bn * ad,
        bn * cd >= cn * bd,
    ensures
        an * cd >= cn * ad,
{
    assert(an * bd * cd >= bn * ad * cd) by (nonlinear_arith)
        requires
            an * bd >= bn * ad,
            cd > 0,
    ;
    assert(bn * cd * ad >= cn * bd * ad) by (nonlinear_arith)
        requires
            bn * cd >= cn * bd,
            ad > 0,
    ;
    assert(bn * ad * cd == bn * cd * ad) by (nonlinear_arith);
    assert(an * bd * cd == an * cd * bd) by (nonlinear_arith);
    assert(cn * bd * ad == cn * ad * bd) by (nonlinear_arith);
    assert(an * cd >= cn * ad) by (nonlinear_arith)
        requires
            (an * cd) * bd >= (cn * ad) * bd,
            bd > 0,
    ;
}

impl Percentage {
    /// No share at all.
    pub fn zero() -> (p: Percentage)
        ensures
            p == (Percentage { part: 0, whole: 1 }),
    {
        Percentage { part: 0, whole: 1 }
    }

    /// `n` percent.
    pub fn of_hundred(n: u64) -> (p: Percentage)
        ensures
            p == (Percentage { part: n, whole: 100 }),
    {
        Percentage { part: n, whole: 100 }
    }
}

impl Quantity for Percentage {
    open spec fn valid(&self) -> bool {
        self.whole > 0
    }

    open spec fn text(&self, width: nat, precision: nat) -> Seq<u8> {
        quotient_text(100 * self.part as nat, self.whole as nat, width, precision, 0x25)
    }

    open spec fn below(&self, other: &Self) -> bool {
        self.part * other.whole < other.part * self.whole
    }

    proof fn lemma_not_below_chains(a: &Self, b: &Self, c: &Self) {
        lemma_quotients_chain(
            a.part as int,
            a.whole as int,
            b.part as int,
            b.whole as int,
            c.part as int,
            c.whole as int,
        );
    }

    proof fn lemma_flat(&self, width: nat, precision: nat) {
        lemma_flat_fixed(100 * self.part as nat, self.whole as nat, precision);
        lemma_flat_number(
            fixed(100 * self.part as nat, self.whole as nat, precision),
            width,
            0x25,
        );
    }

    fn format(&self, width: usize, precision: usize) -> (out: Vec<u8>) {
        format_quotient(100 * (self.part as u128), self.whole as u128, width, precision, 0x25)
    }

    fn is_below(&self, other: &Self) -> (b: bool) {
        assert(self.part * other.whole <= u128::MAX) by (nonlinear_arith)
            requires
                self.part <= u64::MAX,
                other.whole <= u64::MAX,
        ;
        assert(other.part * self.whole <= u128::MAX) by (nonlinear_arith)
            requires
                other.part <= u64::MAX,
                self.whole <= u64::MAX,
        ;
        (self.part as u128) * (other.whole as u128) < (other.part as u128) * (self.whole as u128)
    }
}

/// A value and the three levels from which on it is coloured.
#[derive(Clone, Copy)]
pub struct Threshold<T> {
    pub val: T,
    pub med: T,
    pub high: T,
    pub crit: T,
}

impl<T: Quantity> Threshold<T> {
    pub open spec fn valid(&self) -> bool {
        self.val.valid() && self.med.valid() && self.high.valid() && self.crit.valid()
    }

    /// How many levels the value has reached, counted from the lowest: it
    /// stops at the first level that the value is below.
    pub open spec fn severity(&self) -> nat {
        if self.val.below(&self.med) {
            0
        } else if self.val.below(&self.high) {
            1
        } else if self.val.below(&self.crit) {
            2
        } else {
            3
        }
    }

    /// How many levels the value has reached.
    pub fn level(&self) -> (l: u8)
        requires
            self.valid(),
        ensures
            l == self.severity(),
    {
        if self.val.is_below(&self.med) {
            0
        } else if self.val.is_below(&self.high) {
            1
        } else if self.val.is_below(&self.crit) {
            2
        } else {
            3
        }
    }
}

/// Against the same three levels, a value that is not below another is
/// coloured at least as severely.
pub proof fn lemma_severity_monotone<T: Quantity>(lower: Threshold<T>, upper: Threshold<T>)
    requires
        lower.valid(),
        upper.valid(),
        lower.med == upper.med,
        lower.high == upper.high,
        lower.crit == upper.crit,
        !upper.val.below(&lower.val),
    ensures
        lower.severity() <= upper.severity(),
{
    if !lower.val.below(&lower.med) {
        T::lemma_not_below_chains(&upper.val, &lower.val, &lower.med);
    }
    if !lower.val.below(&lower.high) {
        T::lemma_not_below_chains(&upper.val, &lower.val, &lower.high);
    }
    if !lower.val.below(&lower.crit) {
        T::lemma_not_below_chains(&upper.val, &lower.val, &lower.crit);
    }
}

/// The escape sequence that switches on the colour of a severity: none for
/// 0, bold yellow for 1, bold red for 2, bold magenta from 3 on.
pub open spec fn colour_on(severity: nat) -> Seq<u8> {
    if severity == 0 {
        Seq::empty()
    } else if severity == 1 {
        lit("\x1B[1;93m")
    } else if severity == 2 {
        lit("\x1B[1;91m")
    } else {
        lit("\x1B[1;95m")
    }
}

/// The escape sequence that ends what `colour_on` began.
pub open spec fn colour_off(severity: nat) -> Seq<u8> {
    if severity == 0 {
        Seq::empty()
    } else {
        lit("\x1B[0m")
    }
}

/// `inner` in the colour of a severity where the terminal is smart, else as
/// it is.
pub open spec fn coloured(smart: bool, severity: nat, inner: Seq<u8>) -> Seq<u8> {
    if smart {
        colour_on(severity) + inner + colour_off(severity)
    } else {
        inner
    }
}

/// Colours add no line feed.
pub proof fn lemma_flat_coloured(smart: bool, severity: nat, inner: Seq<u8>)
    requires
        flat(inner),
    ensures
        flat(coloured(smart, severity, inner)),
{
    reveal_strlit("\x1B[1;93m");
    reveal_strlit("\x1B[1;91m");
    reveal_strlit("\x1B[1;95m");
    reveal_strlit("\x1B[0m");
    lemma_flat_lit("\x1B[1;93m");
    lemma_flat_lit("\x1B[1;91m");
    lemma_flat_lit("\x1B[1;95m");
    lemma_flat_lit("\x1B[0m");
    lemma_flat_join(colour_on(severity), inner);
    lemma_flat_join(colour_on(severity) + inner, colour_off(severity));
}

/// Appends `inner` in the colour of a severity where the terminal is smart.
pub fn push_coloured(out: &mut Vec<u8>, smart: bool, severity: u8, inner: &[u8])
    ensures
        final(out)@ == old(out)@ + coloured(smart, severity as nat, inner@),
{
    if smart && severity > 0 {
        if severity == 1 {
            push_str(out, "\x1B[1;93m");
        } else if severity == 2 {
            push_str(out, "\x1B[1;91m");
        } else {
            push_str(out, "\x1B[1;95m");
        }
        push_bytes(out, inner);
        push_str(out, "\x1B[0m");
        assert(out@ =~= old(out)@ + coloured(smart, severity as nat, inner@));
    } else {
        push_bytes(out, inner);
        assert(out@ =~= old(out)@ + coloured(smart, severity as nat, inner@));
    }
}

/// The title of a column.
pub struct Heading<'a>(pub &'a str);

/// The end of a line.
pub struct Newline();

/// A value together with the settings that decide how it is written.
pub struct MaybeSmart<'a, T>(pub T, pub &'a Settings);

/// A title of any bytes, clipped to `precision` characters in a field of
/// `width`, in bold where the terminal is smart.
pub open spec fn heading_bytes(
    smart: bool,
    title: Seq<u8>,
    width: nat,
    precision: nat,
    align: Align,
) -> Seq<u8> {
    let inner = fit(title, width, Some(precision), align);
    if smart {
        lit("\x1B[1m") + inner + lit("\x1B[0m")
    } else {
        inner
    }
}

/// A title clipped to `precision` characters in a field of `width`, in bold
/// where the terminal is smart.
pub open spec fn heading_text(smart: bool, title: &str, width: nat, precision: nat, align: Align) -> Seq<
    u8,
> {
    heading_bytes(smart, lit(title), width, precision, align)
}

/// The end of a line: where the terminal is smart, what is left of the old
/// line is erased first.
pub open spec fn newline_text(smart: bool) -> Seq<u8> {
    if smart {
        lit("\x1B[0K") + seq![0x0au8]
    } else {
        seq![0x0au8]
    }
}

/// A title without a line feed makes a heading without.
pub proof fn lemma_flat_heading(smart: bool, title: Seq<u8>, width: nat, precision: nat, align: Align)
    requires
        flat(title),
    ensures
        flat(heading_bytes(smart, title, width, precision, align)),
{
    reveal_strlit("\x1B[1m");
    reveal_strlit("\x1B[0m");
    lemma_flat_lit("\x1B[1m");
    lemma_flat_lit("\x1B[0m");
    let inner = fit(title, width, Some(precision), align);
    lemma_flat_fit(title, width, Some(precision), align);
    lemma_flat_join(lit("\x1B[1m"), inner);
    lemma_flat_join(lit("\x1B[1m") + inner, lit("\x1B[0m"));
}

/// A heading whose title is a literal of one-byte characters, none of them
/// a line feed, holds no line feed.
pub proof fn lemma_flat_title(smart: bool, title: &str, width: nat, precision: nat, align: Align)
    requires
        vstd::utf8::is_ascii_chars(title@),
        forall|i: int| 0 <= i < title@.len() ==> (#[trigger] title@[i]) != '\n',
    ensures
        flat(heading_text(smart, title, width, precision, align)),
{
    lemma_flat_lit(title);
    lemma_flat_heading(smart, lit(title), width, precision, align);
}

/// A line's content without a line feed, and the end of the line, hold one
/// line feed, which stands last.
pub proof fn lemma_line(content: Seq<u8>, smart: bool)
    requires
        flat(content),
    ensures
        count(content + newline_text(smart), 0x0a) == 1,
        (content + newline_text(smart)).last() == 0x0a,
        newline_text(smart).len() > 0,
        newline_text(smart).last() == 0x0a,
        count(newline_text(smart), 0x0a) == 1,
{
    lemma_newline_count(smart);
    lemma_count_none(content, 0x0a);
    lemma_count_add(content, newline_text(smart), 0x0a);
}

/// Appends a title of any bytes as `heading_bytes` gives it.
pub fn push_heading_bytes(
    out: &mut Vec<u8>,
    smart: bool,
    title: &[u8],
    width: usize,
    precision: usize,
    align: Align,
)
    ensures
        final(out)@ == old(out)@ + heading_bytes(
            smart,
            title@,
            width as nat,
            precision as nat,
            align,
        ),
{
    if smart {
        push_str(out, "\x1B[1m");
        push_fitted(out, title, width, Some(precision), align);
        push_str(out, "\x1B[0m");
        assert(out@ =~= old(out)@ + heading_bytes(
            smart,
            title@,
            width as nat,
            precision as nat,
            align,
        ));
    } else {
        push_fitted(out, title, width, Some(precision), align);
    }
}

/// Appends a title as `heading_text` gives it.
pub fn push_heading(
    out: &mut Vec<u8>,
    smart: bool,
    title: &str,
    width: usize,
    precision: usize,
    align: Align,
)
    ensures
        final(out)@ == old(out)@ + heading_text(
            smart,
            title,
            width as nat,
            precision as nat,
            align,
        ),
{
    push_heading_bytes(out, smart, title.as_bytes(), width, precision, align);
}

/// Appends the end of a line.
pub fn push_newline(out: &mut Vec<u8>, smart: bool)
    ensures
        final(out)@ == old(out)@ + newline_text(smart),
{
    if smart {
        push_str(out, "\x1B[0K");
    }
    out.push(0x0au8);
    assert(out@ =~= old(out)@ + newline_text(smart));
}

impl<'a, 'b> MaybeSmart<'a, Heading<'b>> {
    pub open spec fn text(&self, width: nat, precision: nat, align: Align) -> Seq<u8> {
        heading_text(self.1.smart, self.0.0, width, precision, align)
    }

    /// The title in a field of `width` characters, clipped to `precision`.
    pub fn format(&self, width: usize, precision: usize, align: Align) -> (out: Vec<u8>)
        ensures
            out@ == self.text(width as nat, precision as nat, align),
    {
        let mut out: Vec<u8> = Vec::new();
        push_heading(&mut out, self.1.smart, self.0.0, width, precision, align);
        out
    }
}

impl<'a> MaybeSmart<'a, Newline> {
    pub open spec fn text(&self) -> Seq<u8> {
        newline_text(self.1.smart)
    }

    /// The end of a line.
    pub fn format(&self) -> (out: Vec<u8>)
        ensures
            out@ == self.text(),
    {
        let mut out: Vec<u8> = Vec::new();
        push_newline(&mut out, self.1.smart);
        out
    }
}

/// A value as its type writes it, in the colour of the highest level that it
/// has reached where the terminal is smart.
pub open spec fn threshold_text<T: Quantity>(
    smart: bool,
    t: Threshold<T>,
    width: nat,
    precision: nat,
) -> Seq<u8> {
    coloured(smart, t.severity(), t.val.text(width, precision))
}

/// A value in its colour holds no line feed.
pub proof fn lemma_flat_threshold<T: Quantity>(
    smart: bool,
    t: Threshold<T>,
    width: nat,
    precision: nat,
)
    requires
        t.val.valid(),
    ensures
        flat(threshold_text(smart, t, width, precision)),
{
    t.val.lemma_flat(width, precision);
    lemma_flat_coloured(smart, t.severity(), t.val.text(width, precision));
}

/// Appends a value in the colour of the highest level that it has reached.
/// The precision is bounded as that of `Quantity::format` is.
pub fn push_threshold<T: Quantity>(
    out: &mut Vec<u8>,
    smart: bool,
    t: &Threshold<T>,
    width: usize,
    precision: usize,
)
    requires
        t.valid(),
        precision <= MAX_PRECISION,
    ensures
        final(out)@ == old(out)@ + threshold_text(smart, *t, width as nat, precision as nat),
{
    let inner = t.val.format(width, precision);
    let level = if smart {
        t.level()
    } else {
        0
    };
    push_coloured(out, smart, level, inner.as_slice());
}

impl<'a, T: Quantity> MaybeSmart<'a, Threshold<T>> {
    pub open spec fn text(&self, width: nat, precision: nat) -> Seq<u8> {
        threshold_text(self.1.smart, self.0, width, precision)
    }

    /// The value as its type writes it, in the colour of the highest level
    /// that it has reached. The precision is bounded as that of
    /// `Quantity::format` is.
    pub fn format(&self, width: usize, precision: usize) -> (out: Vec<u8>)
        requires
            self.0.valid(),
            precision <= MAX_PRECISION,
        ensures
            out@ == self.text(width as nat, precision as nat),
    {
        let mut out: Vec<u8> = Vec::new();
        push_threshold(&mut out, self.1.smart, &self.0, width, precision);
        out
    }
}


/// The largest number that a count of rows or columns is given as.
pub open spec fn clamp16(n: int) -> u16 {
    if n < 0 {
        0
    } else if n > u16::MAX {
        u16::MAX
    } else {
        n as u16
    }
}

/// A number as a count of rows or columns.
pub fn clamped(n: usize) -> (r: u16)
    ensures
        r == clamp16(n as int),
{
    if n > 0xffff {
        0xffff
    } else {
        n as u16
    }
}

/// One self-contained part of a frame.
pub trait StatBlock: Sized {
    /// What one tick reads for the block.
    type Source;

    /// What the block asks of its own state, and what holds of it between
    /// ticks: a block that tracks entities holds none that is stale.
    spec fn wf(&self) -> bool;

    /// The width of each line that the block prints, and 0 where it prints
    /// nothing.
    spec fn width(&self, s: &Settings) -> u16;

    /// The number of lines that the block claims in a frame.
    spec fn height(&self, s: &Settings) -> u16;

    /// What the block prints.
    spec fn text(&self, s: &Settings) -> Seq<u8>;

    /// Whether the block is as `new` makes it.
    spec fn fresh(&self) -> bool;

    /// Whether `next` is what the block becomes when it takes in `source`,
    /// and `ok` what it says of that.
    spec fn stepped(&self, source: &Self::Source, next: &Self, ok: bool) -> bool;

    /// A block has no width exactly where it prints nothing.
    proof fn lemma_blank(&self, s: &Settings)
        requires
            self.wf(),
            s.wf(),
        ensures
            self.width(s) == 0 <==> self.text(s).len() == 0,
    ;

    /// A block that has observed nothing yet.
    fn new() -> (b: Self)
        ensures
            b.wf(),
            b.fresh(),
    ;

    /// Takes in what a tick has read. The result says whether the block could
    /// make sense of it.
    fn update(&mut self, source: &Self::Source) -> (ok: bool)
        requires
            old(self).wf(),
        ensures
            final(self).wf(),
            old(self).stepped(source, final(self), ok),
    ;

    fn columns(&self, s: &Settings) -> (c: u16)
        requires
            self.wf(),
            s.wf(),
        ensures
            c == self.width(s),
    ;

    fn rows(&self, s: &Settings) -> (r: u16)
        requires
            self.wf(),
            s.wf(),
        ensures
            r == self.height(s),
    ;

    fn render(&self, s: &Settings) -> (out: Vec<u8>)
        requires
            self.wf(),
            s.wf(),
        ensures
            out@ == self.text(s),
    ;
}

} // verus!
