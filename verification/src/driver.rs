//! What the tick driver decides: the dimensions of the frame, the rows that
//! are left for tasks, and what opens and closes a frame.

use crate::common::{Settings, MAX_AUTO_COL_WIDTH, MIN_COLUMNS, MIN_COL_WIDTH, MIN_ROWS};
use crate::parse::{number, parse_number, same_bytes};
use crate::text::{lit, push_str};
use vstd::prelude::*;

verus! {

/// The size of the terminal window.
#[derive(Clone, Copy, Debug, PartialEq, Eq, Structural)]
pub struct TermDimensions {
    pub rows: u16,
    pub cols: u16,
}

/// The number of rows or columns that a variable of the environment gives:
/// a number of 16 bits.
pub open spec fn dimension(value: Seq<u8>) -> Option<u16> {
    match number(value) {
        Some(n) => if n <= u16::MAX {
            Some(n as u16)
        } else {
            None
        },
        None => None,
    }
}

/// The size of the window that the environment gives, where both its lines
/// and its columns are set to numbers.
pub open spec fn env_size(lines: Option<Vec<u8>>, columns: Option<Vec<u8>>) -> Option<
    TermDimensions,
> {
    match (lines, columns) {
        (Some(l), Some(c)) => match (dimension(l@), dimension(c@)) {
            (Some(rows), Some(cols)) => Some(TermDimensions { rows, cols }),
            _ => None,
        },
        _ => None,
    }
}

/// The number of rows or columns that a variable of the environment gives.
pub fn read_dimension(value: &[u8]) -> (r: Option<u16>)
    ensures
        r == dimension(value@),
{
    match parse_number(value) {
        Some(n) => if n <= u16::MAX as u64 {
            Some(n as u16)
        } else {
            None
        },
        None => None,
    }
}

/// The size of the window that the environment gives: `lines` and `columns`
/// are what the variables of these names hold, where they are set.
pub fn env_dimensions(lines: &Option<Vec<u8>>, columns: &Option<Vec<u8>>) -> (r: Option<
    TermDimensions,
>)
    ensures
        r == env_size(*lines, *columns),
{
    match (lines, columns) {
        (Some(l), Some(c)) => match (read_dimension(l.as_slice()), read_dimension(c.as_slice())) {
            (Some(rows), Some(cols)) => Some(TermDimensions { rows, cols }),
            _ => None,
        },
        _ => None,
    }
}

/// Whether a terminal of the kind `term` takes escape sequences: any kind
/// does but `dumb`, and so does none where the kind is not known.
pub fn term_is_smart(term: &Option<Vec<u8>>) -> (smart: bool)
    ensures
        smart == (match *term {
            Some(kind) => kind@ != lit("dumb"),
            None => false,
        }),
{
    match term {
        Some(kind) => !same_bytes(kind.as_slice(), "dumb".as_bytes()),
        None => false,
    }
}

/// The least number of rows that the task block gets.
pub const MIN_TASKS: u16 = 5;

/// The column width that goes with a frame of `maxcols` columns: an eighth
/// of what the seven blanks between eight columns leave, and no less than 8
/// nor more than 10.
pub open spec fn auto_colwidth(maxcols: u16) -> u16 {
    let w = (maxcols - 7) / 8;
    if w < MIN_COL_WIDTH {
        MIN_COL_WIDTH
    } else if w > MAX_AUTO_COL_WIDTH {
        MAX_AUTO_COL_WIDTH
    } else {
        w as u16
    }
}

/// The settings after the terminal was probed. A dimension follows the probe
/// where its flag is set, and is raised to the least that a frame needs. The
/// column width follows the frame width, probed or given, where its flag is
/// set. A failed probe counts as a window without rows and columns.
pub open spec fn probed_settings(s: Settings, probed: Option<TermDimensions>) -> Settings {
    let size = match probed {
        Some(d) => d,
        None => TermDimensions { rows: 0, cols: 0 },
    };
    let maxcols = if s.auto_maxcols {
        if size.cols > MIN_COLUMNS {
            size.cols
        } else {
            MIN_COLUMNS
        }
    } else {
        s.maxcols
    };
    let colwidth = if s.auto_colwidth {
        auto_colwidth(maxcols)
    } else {
        s.colwidth
    };
    let maxrows = if s.auto_maxrows {
        if size.rows > MIN_ROWS {
            size.rows
        } else {
            MIN_ROWS
        }
    } else {
        s.maxrows
    };
    Settings {
        smart: s.smart,
        refresh: s.refresh,
        auto_colwidth: s.auto_colwidth,
        auto_maxcols: s.auto_maxcols,
        auto_maxrows: s.auto_maxrows,
        maxcols,
        maxrows,
        colwidth,
    }
}

/// Brings the dimensions up to date with the terminal. `probed` is the size
/// of the window, or `None` where the probe failed. The result says whether
/// the settings now have a geometry that the blocks can work with.
pub fn update_term_dimensions(s: &mut Settings, probed: Option<TermDimensions>) -> (ok: bool)
    ensures
        *final(s) == probed_settings(*old(s), probed),
        ok == final(s).wf(),
{
    let size = match probed {
        Some(d) => d,
        None => TermDimensions { rows: 0, cols: 0 },
    };
    if s.auto_maxcols {
        s.maxcols = if size.cols > MIN_COLUMNS {
            size.cols
        } else {
            MIN_COLUMNS
        };
    }
    if s.auto_colwidth {
        s.colwidth = column_width(s.maxcols);
    }
    if s.auto_maxrows {
        s.maxrows = if size.rows > MIN_ROWS {
            size.rows
        } else {
            MIN_ROWS
        };
    }
    s.is_wf()
}

/// Whether the terminal has to be asked: some dimension of the frame
/// follows it.
pub fn wants_probe(s: &Settings) -> (b: bool)
    ensures
        b == (s.auto_maxcols || s.auto_maxrows),
{
    s.auto_maxcols || s.auto_maxrows
}

/// Where no dimension follows the terminal, what the probe found changes
/// nothing.
pub proof fn lemma_probe_unread(s: Settings, a: Option<TermDimensions>, b: Option<TermDimensions>)
    requires
        !s.auto_maxcols,
        !s.auto_maxrows,
    ensures
        probed_settings(s, a) == probed_settings(s, b),
{
}

/// The column width that goes with a frame of `maxcols` columns.
pub fn column_width(maxcols: u16) -> (w: u16)
    ensures
        w == auto_colwidth(maxcols),
{
    if maxcols < 7 + 8 * MIN_COL_WIDTH {
        MIN_COL_WIDTH
    } else {
        let w = (maxcols - 7) / 8;
        if w > MAX_AUTO_COL_WIDTH {
            MAX_AUTO_COL_WIDTH
        } else {
            w
        }
    }
}

/// Where the column width follows a frame width that has room for eight
/// columns of the least width, the frame has room for its eight columns.
pub proof fn lemma_colwidth_fits(s: Settings, probed: Option<TermDimensions>)
    requires
        s.auto_colwidth,
        s.auto_maxcols || s.maxcols >= MIN_COLUMNS,
    ensures
        probed_settings(s, probed).colwidth >= MIN_COL_WIDTH,
        probed_settings(s, probed).maxcols >= 8 * probed_settings(s, probed).colwidth + 7,
{
}

/// Where all three dimensions follow the terminal, the geometry is one that
/// the blocks can work with, whatever the probe gave.
pub proof fn lemma_probe_makes_wf(s: Settings, probed: Option<TermDimensions>)
    requires
        s.auto_maxcols,
        s.auto_maxrows,
        s.auto_colwidth,
    ensures
        probed_settings(s, probed).wf(),
{
}

/// The rows that are left for tasks in a frame of `maxrows` rows, of which
/// the other blocks take `taken` and the task block's heading and the line
/// that opens the frame two more: no fewer than five.
pub open spec fn task_budget(maxrows: u16, taken: int) -> u16 {
    let left = maxrows - taken - 2;
    if left < MIN_TASKS {
        MIN_TASKS
    } else {
        left as u16
    }
}

/// The rows that are left for tasks beside blocks of the given heights.
pub fn remaining_rows(maxrows: u16, mem: u16, psi: u16, cpu_net: u16, bdev_fs: u16, hwmon: u16) -> (n:
    u16)
    ensures
        n == task_budget(maxrows, mem + psi + cpu_net + bdev_fs + hwmon),
        n >= MIN_TASKS,
{
    let taken = mem as i64 + psi as i64 + cpu_net as i64 + bdev_fs as i64 + hwmon as i64;
    let left = maxrows as i64 - taken - 2;
    if left < MIN_TASKS as i64 {
        MIN_TASKS
    } else {
        left as u16
    }
}

/// What opens a frame: on a smart terminal the cursor goes home and the
/// screen is cleared from there, elsewhere a rule is drawn.
pub open spec fn frame_start(smart: bool) -> Seq<u8> {
    if smart {
        lit("\x1B[1;1H\x1B[0J")
    } else {
        lit("----------\n")
    }
}

/// What closes a frame: on a smart terminal what is left of the old frame is
/// erased.
pub open spec fn frame_end(smart: bool) -> Seq<u8> {
    if smart {
        lit("\x1B[0J")
    } else {
        Seq::empty()
    }
}

/// Appends what opens a frame.
pub fn push_frame_start(out: &mut Vec<u8>, smart: bool)
    ensures
        final(out)@ == old(out)@ + frame_start(smart),
{
    if smart {
        push_str(out, "\x1B[1;1H\x1B[0J");
    } else {
        push_str(out, "----------\n");
    }
}

/// Appends what closes a frame.
pub fn push_frame_end(out: &mut Vec<u8>, smart: bool)
    ensures
        final(out)@ == old(out)@ + frame_end(smart),
{
    if smart {
        push_str(out, "\x1B[0J");
    } else {
        assert(out@ =~= old(out)@ + frame_end(smart));
    }
}

/// How long to sleep until the next tick, in milliseconds: what the tick has
/// left of the refresh interval.
pub fn sleep_ms(refresh: u64, elapsed: u64) -> (ms: u64)
    ensures
        ms == if refresh >= elapsed {
            refresh - elapsed
        } else {
            0
        },
{
    if refresh >= elapsed {
        refresh - elapsed
    } else {
        0
    }
}

} // verus!
