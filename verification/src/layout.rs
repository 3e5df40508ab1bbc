//! The layout engine: two blocks side by side where their widths allow it,
//! else one above the other.

use crate::common::{clamp16, newline_text, push_newline, Settings, StatBlock};
use crate::parse::{lines, same_bytes, split_lines, texts, without_cr};
use crate::text::{
    flat, lemma_width_join, lemma_width_plain, lemma_width_spaces, lit, push_bytes, push_spaces,
    spaces, width,
};
use vstd::prelude::*;

verus! {

/// A width rounded up to the end of a column, where columns of `colwidth`
/// characters stand one blank apart. No width stays none.
pub open spec fn padded(len: int, colwidth: int) -> int {
    if len > 0 {
        len + colwidth - len % (colwidth + 1)
    } else {
        0
    }
}

/// Whether two blocks of the widths `tc` and `uc` go side by side: the first
/// rounded up to a column, and the second, stay under the frame width.
pub open spec fn mergeable(tc: u16, uc: u16, s: &Settings) -> bool {
    padded(tc as int, s.colwidth as int) + uc < s.maxcols
}

/// Whether a line shows nothing: it is empty, or holds only the sequence
/// that erases the rest of a line.
pub open spec fn is_blank_line(l: Seq<u8>) -> bool {
    l.len() == 0 || l == lit("\x1B[0K")
}

/// The `i`-th of some lines, and the empty line past their end.
pub open spec fn line_or_empty(ls: Seq<Seq<u8>>, i: int) -> Seq<u8> {
    if 0 <= i < ls.len() {
        ls[i]
    } else {
        Seq::empty()
    }
}

/// The measures of a side-by-side frame.
pub struct Frame {
    /// The width that the left block is filled up to.
    pub left: nat,
    /// The blanks that fill a line of the left block.
    pub fill: nat,
    /// The width of the right block.
    pub right: nat,
    pub smart: bool,
}

/// A line of the left block and one of the right as one line: each in its
/// room, one blank between them. A line that shows nothing is replaced by
/// blanks.
pub open spec fn joined_line(a: Seq<u8>, b: Seq<u8>, f: Frame) -> Seq<u8> {
    (if is_blank_line(a) {
        spaces(f.left)
    } else {
        a + spaces(f.fill)
    }) + seq![0x20u8] + (if is_blank_line(b) {
        spaces(f.right)
    } else {
        b
    }) + newline_text(f.smart)
}

/// What a line of two blocks side by side shows before its end.
pub open spec fn joined_content(a: Seq<u8>, b: Seq<u8>, f: Frame) -> Seq<u8> {
    (if is_blank_line(a) {
        spaces(f.left)
    } else {
        a + spaces(f.fill)
    }) + seq![0x20u8] + (if is_blank_line(b) {
        spaces(f.right)
    } else {
        b
    })
}

/// A line of two blocks side by side is as wide as the left block rounded
/// up to a column, a blank, and the right block, where each of the two
/// lines shows nothing or is as many characters wide as its block.
pub proof fn lemma_joined_width(a: Seq<u8>, b: Seq<u8>, tc: u16, uc: u16, s: &Settings)
    requires
        is_blank_line(a) || width(a) == tc,
        is_blank_line(b) || width(b) == uc,
    ensures
        joined_line(a, b, frame_of(tc, uc, s)) == joined_content(a, b, frame_of(tc, uc, s))
            + newline_text(s.smart),
        width(joined_content(a, b, frame_of(tc, uc, s))) == padded(tc as int, s.colwidth as int)
            + 1 + uc,
{
    let f = frame_of(tc, uc, s);
    let p = padded(tc as int, s.colwidth as int);
    assert(p >= tc) by (nonlinear_arith)
        requires
            p == padded(tc as int, s.colwidth as int),
            tc >= 0,
            s.colwidth >= 0,
    ;
    let left = if is_blank_line(a) {
        spaces(f.left)
    } else {
        a + spaces(f.fill)
    };
    let right = if is_blank_line(b) {
        spaces(f.right)
    } else {
        b
    };
    lemma_width_spaces(f.left);
    lemma_width_spaces(f.fill);
    lemma_width_spaces(f.right);
    lemma_width_join(a, spaces(f.fill));
    lemma_width_join(left, seq![0x20u8]);
    lemma_width_join(left + seq![0x20u8], right);
    assert(width(seq![0x20u8]) == 1) by {
        lemma_width_plain(seq![0x20u8]);
    }
}

/// The first `n` lines of two blocks side by side.
pub open spec fn joined(als: Seq<Seq<u8>>, bls: Seq<Seq<u8>>, n: int, f: Frame) -> Seq<u8>
    decreases n,
{
    if n <= 0 {
        Seq::empty()
    } else {
        joined(als, bls, n - 1, f) + joined_line(
            line_or_empty(als, n - 1),
            line_or_empty(bls, n - 1),
            f,
        )
    }
}

/// The larger of two numbers.
pub open spec fn larger(a: int, b: int) -> int {
    if a >= b {
        a
    } else {
        b
    }
}

/// The measures of the frame for two blocks of the widths `tc` and `uc`.
pub open spec fn frame_of(tc: u16, uc: u16, s: &Settings) -> Frame {
    Frame {
        left: padded(tc as int, s.colwidth as int) as nat,
        fill: (padded(tc as int, s.colwidth as int) - tc) as nat,
        right: uc as nat,
        smart: s.smart,
    }
}

/// What two blocks print together. `a` and `b` are what each prints alone,
/// `tc` and `uc` the widths of their lines. Where one prints nothing, the
/// other stands alone. Where they do not go side by side, `b` follows `a`.
/// Else the lines stand side by side, as many as the longer block has.
pub open spec fn merged_text(a: Seq<u8>, b: Seq<u8>, tc: u16, uc: u16, s: &Settings) -> Seq<u8> {
    if a.len() == 0 {
        b
    } else if b.len() == 0 {
        a
    } else if !mergeable(tc, uc, s) {
        a + b
    } else {
        joined(
            lines(a),
            lines(b),
            larger(lines(a).len() as int, lines(b).len() as int),
            frame_of(tc, uc, s),
        )
    }
}

/// How often `b` stands in `s`.
pub open spec fn count(s: Seq<u8>, b: u8) -> nat
    decreases s.len(),
{
    if s.len() == 0 {
        0
    } else {
        count(s.drop_last(), b) + if s.last() == b {
            1nat
        } else {
            0nat
        }
    }
}

/// A byte stands in two texts joined as often as in both together.
pub proof fn lemma_count_add(x: Seq<u8>, y: Seq<u8>, b: u8)
    ensures
        count(x + y, b) == count(x, b) + count(y, b),
    decreases y.len(),
{
    if y.len() == 0 {
        assert(x + y =~= x);
    } else {
        assert((x + y).drop_last() =~= x + y.drop_last());
        lemma_count_add(x, y.drop_last(), b);
    }
}

/// Blanks hold no other byte.
pub proof fn lemma_count_spaces(n: nat, b: u8)
    requires
        b != 0x20,
    ensures
        count(spaces(n), b) == 0,
    decreases n,
{
    if n > 0 {
        assert(spaces(n).drop_last() =~= spaces((n - 1) as nat));
        lemma_count_spaces((n - 1) as nat, b);
    }
}

/// A byte that stands nowhere in a text is counted no times.
pub proof fn lemma_count_none(s: Seq<u8>, b: u8)
    requires
        forall|i: int| 0 <= i < s.len() ==> s[i] != b,
    ensures
        count(s, b) == 0,
    decreases s.len(),
{
    if s.len() > 0 {
        lemma_count_none(s.drop_last(), b);
    }
}

/// The bytes of the sequence that erases the rest of a line.
pub proof fn lemma_erase_bytes()
    ensures
        lit("\x1B[0K") == seq![0x1bu8, 0x5bu8, 0x30u8, 0x4bu8],
{
    let s = "\x1B[0K";
    reveal_strlit("\x1B[0K");
    assert(vstd::utf8::is_ascii_chars(s@));
    vstd::utf8::is_ascii_chars_encode_utf8(s@);
    assert(lit(s) =~= seq![0x1bu8, 0x5bu8, 0x30u8, 0x4bu8]);
}

/// The end of a line holds one line feed.
pub proof fn lemma_newline_count(smart: bool)
    ensures
        count(newline_text(smart), 0x0a) == 1,
{
    lemma_erase_bytes();
    let e = seq![0x1bu8, 0x5bu8, 0x30u8, 0x4bu8];
    lemma_count_none(e, 0x0a);
    lemma_count_add(e, seq![0x0au8], 0x0a);
    reveal_with_fuel(count, 2);
    assert(seq![0x0au8].drop_last() =~= Seq::<u8>::empty());
    assert(count(seq![0x0au8], 0x0a) == 1);
}

/// No line holds a line feed, and a text that is not empty has a line.
pub proof fn lemma_lines(s: Seq<u8>)
    ensures
        forall|i: int| 0 <= i < lines(s).len() ==> count(#[trigger] lines(s)[i], 0x0a) == 0,
        s.len() > 0 ==> lines(s).len() > 0,
    decreases s.len(),
{
    if s.len() > 0 {
        let init = s.drop_last();
        let l = lines(init);
        lemma_lines(init);
        let r = lines(s);
        assert forall|i: int| 0 <= i < r.len() implies count(#[trigger] r[i], 0x0a) == 0 by {
            reveal_with_fuel(count, 2);
            let fresh = init.len() == 0 || init.last() == 0x0a || l.len() == 0;
            if i < r.len() - 1 {
                assert(r[i] == l[i]);
            } else if s.last() == 0x0a {
                if fresh {
                    assert(r[i] =~= Seq::<u8>::empty());
                } else {
                    let last = l[l.len() - 1];
                    assert(count(last, 0x0a) == 0);
                    assert(r[i] == without_cr(last));
                }
            } else if fresh {
                assert(r[i] =~= seq![s.last()]);
                assert(seq![s.last()].drop_last() =~= Seq::<u8>::empty());
            } else {
                let last = l[l.len() - 1];
                assert(count(last, 0x0a) == 0);
                assert(r[i] == last.push(s.last()));
                assert(last.push(s.last()).drop_last() =~= last);
            }
        }
    }
}

/// Whether `text` is `rows` whole lines: it holds `rows` line feeds, and
/// the last of them ends it.
pub open spec fn whole_lines(text: Seq<u8>, rows: int) -> bool {
    count(text, 0x0a) == rows && (text.len() > 0 ==> text.last() == 0x0a)
}

/// A text has a line for each line feed, and one more for what follows the
/// last of them.
pub proof fn lemma_lines_count(s: Seq<u8>)
    ensures
        lines(s).len() == count(s, 0x0a) + if s.len() > 0 && s.last() != 0x0a {
            1nat
        } else {
            0nat
        },
    decreases s.len(),
{
    if s.len() > 0 {
        lemma_lines_count(s.drop_last());
    }
}

/// A text of whole lines has as many lines as line feeds.
pub proof fn lemma_whole_lines(text: Seq<u8>, rows: int)
    requires
        whole_lines(text, rows),
    ensures
        lines(text).len() == rows,
{
    lemma_lines_count(text);
}

/// Lines side by side end in a line feed.
pub proof fn lemma_joined_ends(als: Seq<Seq<u8>>, bls: Seq<Seq<u8>>, n: int, f: Frame)
    requires
        n > 0,
    ensures
        joined(als, bls, n, f).len() > 0,
        joined(als, bls, n, f).last() == 0x0a,
{
    let l = joined_line(line_or_empty(als, n - 1), line_or_empty(bls, n - 1), f);
    assert(newline_text(f.smart).last() == 0x0a);
    assert(l.last() == 0x0a);
}

/// A text in which the line feed is counted no times holds none.
pub proof fn lemma_count_flat(s: Seq<u8>)
    requires
        count(s, 0x0a) == 0,
    ensures
        flat(s),
    decreases s.len(),
{
    if s.len() > 0 {
        lemma_count_flat(s.drop_last());
        assert forall|i: int| 0 <= i < s.len() implies (#[trigger] s[i]) != 0x0a by {
            if i < s.len() - 1 {
                assert(s.drop_last()[i] == s[i]);
            }
        }
    }
}

/// What a smart terminal erases the rest of a line with, and nothing for
/// another.
pub open spec fn line_end(smart: bool) -> Seq<u8> {
    if smart {
        lit("\x1B[0K")
    } else {
        Seq::empty()
    }
}

/// Text without a line feed behind whole lines is one line more.
pub proof fn lemma_lines_more(x: Seq<u8>, l: Seq<u8>)
    requires
        x.len() > 0 ==> x.last() == 0x0a,
        flat(l),
        l.len() > 0,
    ensures
        lines(x + l) == lines(x).push(l),
    decreases l.len(),
{
    let init = l.drop_last();
    assert((x + l).drop_last() =~= x + init);
    assert((x + l).last() == l.last());
    assert(l.last() == l[l.len() - 1]);
    if init.len() == 0 {
        assert(x + init =~= x);
        assert(l =~= seq![l.last()]);
        lemma_lines_count(x);
    } else {
        assert(flat(init)) by {
            assert forall|i: int| 0 <= i < init.len() implies (#[trigger] init[i]) != 0x0a by {
                assert(init[i] == l[i]);
            }
        }
        lemma_lines_more(x, init);
        assert((x + init).last() == init.last());
        assert(init.last() == l[l.len() - 2]);
        assert(lines(x).push(init).drop_last() =~= lines(x));
        assert(init.push(l.last()) =~= l);
    }
}

/// A line without a line feed and its line feed, behind whole lines, are
/// one line more: the line without the carriage return at its end.
pub proof fn lemma_lines_line(x: Seq<u8>, l: Seq<u8>)
    requires
        x.len() > 0 ==> x.last() == 0x0a,
        flat(l),
    ensures
        lines(x + l + seq![0x0au8]) == lines(x).push(without_cr(l)),
{
    let s = x + l + seq![0x0au8];
    let init = s.drop_last();
    assert(init =~= x + l);
    assert(s.last() == 0x0a);
    if l.len() == 0 {
        assert(init =~= x);
        assert(without_cr(l) =~= Seq::<u8>::empty());
        assert(lines(s) == lines(init).push(Seq::<u8>::empty()));
    } else {
        lemma_lines_more(x, l);
        assert(init.last() == l[l.len() - 1]);
        assert(lines(init).last() == l);
        assert(lines(init).drop_last() =~= lines(x));
        assert(lines(s) == lines(init).drop_last().push(without_cr(lines(init).last())));
    }
}

/// The lines of two blocks side by side: as many as were joined, each what
/// the two lines show in their rooms, and what erases the rest of the line
/// where the terminal is smart.
pub proof fn lemma_joined_lines(als: Seq<Seq<u8>>, bls: Seq<Seq<u8>>, n: int, f: Frame)
    requires
        0 <= n,
        forall|i: int| 0 <= i < als.len() ==> count(#[trigger] als[i], 0x0a) == 0,
        forall|i: int| 0 <= i < bls.len() ==> count(#[trigger] bls[i], 0x0a) == 0,
    ensures
        lines(joined(als, bls, n, f)).len() == n,
        forall|i: int|
            0 <= i < n ==> #[trigger] lines(joined(als, bls, n, f))[i] == without_cr(
                joined_content(line_or_empty(als, i), line_or_empty(bls, i), f) + line_end(
                    f.smart,
                ),
            ),
    decreases n,
{
    if n > 0 {
        lemma_joined_lines(als, bls, n - 1, f);
        let x = joined(als, bls, n - 1, f);
        let a = line_or_empty(als, n - 1);
        let b = line_or_empty(bls, n - 1);
        let l = joined_content(a, b, f) + line_end(f.smart);
        if n > 1 {
            lemma_joined_ends(als, bls, n - 1, f);
        }
        assert(flat(l)) by {
            lemma_erase_bytes();
            if 0 <= n - 1 < als.len() {
                lemma_count_flat(a);
            }
            if 0 <= n - 1 < bls.len() {
                lemma_count_flat(b);
            }
        }
        lemma_lines_line(x, l);
        assert(joined(als, bls, n, f) =~= x + l + seq![0x0au8]);
    }
}

/// Two blocks side by side print one line feed for each line of the longer.
pub proof fn lemma_joined_newlines(als: Seq<Seq<u8>>, bls: Seq<Seq<u8>>, n: int, f: Frame)
    requires
        0 <= n,
        forall|i: int| 0 <= i < als.len() ==> count(#[trigger] als[i], 0x0a) == 0,
        forall|i: int| 0 <= i < bls.len() ==> count(#[trigger] bls[i], 0x0a) == 0,
    ensures
        count(joined(als, bls, n, f), 0x0a) == n,
    decreases n,
{
    if n > 0 {
        lemma_joined_newlines(als, bls, n - 1, f);
        let a = line_or_empty(als, n - 1);
        let b = line_or_empty(bls, n - 1);
        let left = if is_blank_line(a) {
            spaces(f.left)
        } else {
            a + spaces(f.fill)
        };
        let right = if is_blank_line(b) {
            spaces(f.right)
        } else {
            b
        };
        lemma_count_spaces(f.left, 0x0a);
        lemma_count_spaces(f.fill, 0x0a);
        lemma_count_spaces(f.right, 0x0a);
        lemma_count_add(a, spaces(f.fill), 0x0a);
        lemma_newline_count(f.smart);
        assert(count(seq![0x20u8], 0x0a) == 0) by {
            lemma_count_none(seq![0x20u8], 0x0a);
        }
        lemma_count_add(left, seq![0x20u8], 0x0a);
        lemma_count_add(left + seq![0x20u8], right, 0x0a);
        lemma_count_add(left + seq![0x20u8] + right, newline_text(f.smart), 0x0a);
        lemma_count_add(joined(als, bls, n - 1, f), joined_line(a, b, f), 0x0a);
    }
}

/// What two blocks print together holds as many line feeds as the longer
/// block has lines where they stand side by side, and else as many as both
/// blocks print.
pub proof fn lemma_merged_newlines(a: Seq<u8>, b: Seq<u8>, tc: u16, uc: u16, s: &Settings)
    ensures
        count(merged_text(a, b, tc, uc, s), 0x0a) == if a.len() > 0 && b.len() > 0 && mergeable(
            tc,
            uc,
            s,
        ) {
            larger(lines(a).len() as int, lines(b).len() as int)
        } else {
            (count(a, 0x0a) + count(b, 0x0a)) as int
        },
{
    if a.len() == 0 {
    } else if b.len() == 0 {
    } else if !mergeable(tc, uc, s) {
        lemma_count_add(a, b, 0x0a);
    } else {
        lemma_lines(a);
        lemma_lines(b);
        lemma_joined_newlines(
            lines(a),
            lines(b),
            larger(lines(a).len() as int, lines(b).len() as int),
            frame_of(tc, uc, s),
        );
    }
}

/// A width rounded up to the end of a column.
pub fn pad_width(len: u16, colwidth: u16) -> (r: u32)
    ensures
        r == padded(len as int, colwidth as int),
        r >= len,
{
    if len > 0 {
        len as u32 + colwidth as u32 - (len as u32) % (colwidth as u32 + 1)
    } else {
        0
    }
}

/// Whether a line shows nothing.
pub fn blank_line(l: &[u8]) -> (r: bool)
    ensures
        r == is_blank_line(l@),
{
    l.len() == 0 || same_bytes(l, "\x1B[0K".as_bytes())
}

/// Appends a line of the left block and one of the right as one line.
pub fn push_joined_line(
    out: &mut Vec<u8>,
    la: &[u8],
    lb: &[u8],
    left: usize,
    fill: usize,
    right: usize,
    smart: bool,
)
    ensures
        final(out)@ == old(out)@ + joined_line(
            la@,
            lb@,
            Frame { left: left as nat, fill: fill as nat, right: right as nat, smart },
        ),
{
    if blank_line(la) {
        push_spaces(out, left);
    } else {
        push_bytes(out, la);
        push_spaces(out, fill);
    }
    out.push(0x20u8);
    if blank_line(lb) {
        push_spaces(out, right);
    } else {
        push_bytes(out, lb);
    }
    push_newline(out, smart);
    assert(out@ =~= old(out)@ + joined_line(
        la@,
        lb@,
        Frame { left: left as nat, fill: fill as nat, right: right as nat, smart },
    ));
}

/// The `i`-th of some lines, and the empty line past their end.
pub fn line_at<'a>(ls: &'a Vec<Vec<u8>>, i: usize, empty: &'a Vec<u8>) -> (l: &'a [u8])
    requires
        empty@.len() == 0,
    ensures
        l@ == line_or_empty(texts(ls@), i as int),
{
    if i < ls.len() {
        assert(texts(ls@)[i as int] == ls@[i as int]@);
        ls[i].as_slice()
    } else {
        assert(empty@ =~= Seq::<u8>::empty());
        empty.as_slice()
    }
}

/// Puts what two blocks print side by side or one above the other.
pub fn merge(a: &[u8], b: &[u8], tc: u16, uc: u16, s: &Settings) -> (out: Vec<u8>)
    ensures
        out@ == merged_text(a@, b@, tc, uc, s),
{
    let mut out: Vec<u8> = Vec::new();
    if a.len() == 0 {
        push_bytes(&mut out, b);
        assert(out@ =~= b@);
        return out;
    }
    if b.len() == 0 {
        push_bytes(&mut out, a);
        assert(out@ =~= a@);
        return out;
    }
    let left = pad_width(tc, s.colwidth);
    if !(left + (uc as u32) < s.maxcols as u32) {
        push_bytes(&mut out, a);
        push_bytes(&mut out, b);
        assert(out@ =~= a@ + b@);
        return out;
    }
    let fill = left - tc as u32;
    let als = split_lines(a);
    let bls = split_lines(b);
    let n = if als.len() >= bls.len() {
        als.len()
    } else {
        bls.len()
    };
    let ghost f = frame_of(tc, uc, s);
    let ghost la = lines(a@);
    let ghost lb = lines(b@);
    let empty: Vec<u8> = Vec::new();
    let mut i: usize = 0;
    while i < n
        invariant
            i <= n,
            texts(als@) == la,
            texts(bls@) == lb,
            empty@.len() == 0,
            f == (Frame { left: left as nat, fill: fill as nat, right: uc as nat, smart: s.smart }),
            out@ == joined(la, lb, i as int, f),
        decreases n - i,
    {
        let x = line_at(&als, i, &empty);
        let y = line_at(&bls, i, &empty);
        push_joined_line(&mut out, x, y, left as usize, fill as usize, uc as usize, s.smart);
        i += 1;
    }
    out
}

/// Two blocks that share their lines where the frame is wide enough.
pub struct MergedStatBlock<T, U> {
    pub t: T,
    pub u: U,
}

impl<T: StatBlock, U: StatBlock> MergedStatBlock<T, U> {
    /// What the two blocks print together holds as many line feeds as the
    /// longer block has lines where they stand side by side, and else as
    /// many as both blocks print.
    pub proof fn lemma_newlines(&self, s: &Settings)
        ensures
            count(self.text(s), 0x0a) == if self.t.text(s).len() > 0 && self.u.text(s).len() > 0
                && mergeable(self.t.width(s), self.u.width(s), s) {
                larger(lines(self.t.text(s)).len() as int, lines(self.u.text(s)).len() as int)
            } else {
                (count(self.t.text(s), 0x0a) + count(self.u.text(s), 0x0a)) as int
            },
    {
        lemma_merged_newlines(self.t.text(s), self.u.text(s), self.t.width(s), self.u.width(s), s);
    }

    /// Where each of the two blocks prints as many whole lines as it claims,
    /// what they print together holds as many line feeds as the longer
    /// block claims lines where they stand side by side, and else as many
    /// as both claim together. Where the frame is wide enough for both side
    /// by side, these are the lines that the two claim together.
    pub proof fn lemma_rows(&self, s: &Settings)
        requires
            whole_lines(self.t.text(s), self.t.height(s) as int),
            whole_lines(self.u.text(s), self.u.height(s) as int),
        ensures
            count(self.text(s), 0x0a) == if self.t.text(s).len() > 0 && self.u.text(s).len() > 0
                && mergeable(self.t.width(s), self.u.width(s), s) {
                larger(self.t.height(s) as int, self.u.height(s) as int)
            } else {
                self.t.height(s) + self.u.height(s)
            },
            self.text(s).len() > 0 ==> self.text(s).last() == 0x0a,
            mergeable(self.t.width(s), self.u.width(s), s) ==> whole_lines(
                self.text(s),
                self.height(s) as int,
            ),
    {
        let a = self.t.text(s);
        let b = self.u.text(s);
        self.lemma_newlines(s);
        lemma_whole_lines(a, self.t.height(s) as int);
        lemma_whole_lines(b, self.u.height(s) as int);
        if a.len() > 0 && b.len() > 0 && mergeable(self.t.width(s), self.u.width(s), s) {
            lemma_lines(a);
            lemma_joined_ends(
                lines(a),
                lines(b),
                larger(lines(a).len() as int, lines(b).len() as int),
                frame_of(self.t.width(s), self.u.width(s), s),
            );
        }
    }

    /// Where two blocks stand side by side, each line of what they print
    /// together is what the two lines show in their rooms. It is as many
    /// characters wide as the left block rounded up to a column, a blank,
    /// and the right block, where each of the two lines shows nothing or
    /// is as wide as its block.
    pub proof fn lemma_line_width(&self, s: &Settings, i: int)
        requires
            self.t.text(s).len() > 0,
            self.u.text(s).len() > 0,
            mergeable(self.t.width(s), self.u.width(s), s),
            0 <= i < larger(
                lines(self.t.text(s)).len() as int,
                lines(self.u.text(s)).len() as int,
            ),
            is_blank_line(line_or_empty(lines(self.t.text(s)), i)) || width(
                line_or_empty(lines(self.t.text(s)), i),
            ) == self.t.width(s),
            is_blank_line(line_or_empty(lines(self.u.text(s)), i)) || width(
                line_or_empty(lines(self.u.text(s)), i),
            ) == self.u.width(s),
        ensures
            ({
                let f = frame_of(self.t.width(s), self.u.width(s), s);
                let shown = joined_content(
                    line_or_empty(lines(self.t.text(s)), i),
                    line_or_empty(lines(self.u.text(s)), i),
                    f,
                );
                &&& lines(self.text(s))[i] == without_cr(shown + line_end(s.smart))
                &&& width(shown) == padded(self.t.width(s) as int, s.colwidth as int) + 1
                    + self.u.width(s)
            }),
    {
        let als = lines(self.t.text(s));
        let bls = lines(self.u.text(s));
        lemma_lines(self.t.text(s));
        lemma_lines(self.u.text(s));
        lemma_joined_lines(
            als,
            bls,
            larger(als.len() as int, bls.len() as int),
            frame_of(self.t.width(s), self.u.width(s), s),
        );
        lemma_joined_width(
            line_or_empty(als, i),
            line_or_empty(bls, i),
            self.t.width(s),
            self.u.width(s),
            s,
        );
    }

    /// A width rounded up to the end of a column, and at most 65535.
    pub fn pad_length_to_columns(&self, s: &Settings, len: u16) -> (r: u16)
        ensures
            r == clamp16(padded(len as int, s.colwidth as int)),
    {
        let p = pad_width(len, s.colwidth);
        if p > 0xffff {
            0xffff
        } else {
            p as u16
        }
    }

    /// Whether the two blocks go side by side.
    pub fn can_merge(&self, s: &Settings) -> (b: bool)
        requires
            self.wf(),
            s.wf(),
        ensures
            b == mergeable(self.t.width(s), self.u.width(s), s),
    {
        let tc = self.t.columns(s);
        let uc = self.u.columns(s);
        pad_width(tc, s.colwidth) + (uc as u32) < s.maxcols as u32
    }
}

impl<T: StatBlock, U: StatBlock> StatBlock for MergedStatBlock<T, U> {
    type Source = (T::Source, U::Source);

    open spec fn wf(&self) -> bool {
        self.t.wf() && self.u.wf()
    }

    open spec fn width(&self, s: &Settings) -> u16 {
        let tc = self.t.width(s);
        let uc = self.u.width(s);
        if mergeable(tc, uc, s) && tc > 0 && uc > 0 {
            clamp16(padded(tc as int, s.colwidth as int) + uc + 1)
        } else if tc >= uc {
            tc
        } else {
            uc
        }
    }

    open spec fn height(&self, s: &Settings) -> u16 {
        let tr = self.t.height(s);
        let ur = self.u.height(s);
        if mergeable(self.t.width(s), self.u.width(s), s) {
            if tr >= ur {
                tr
            } else {
                ur
            }
        } else {
            clamp16(tr + ur + 1)
        }
    }

    open spec fn text(&self, s: &Settings) -> Seq<u8> {
        merged_text(self.t.text(s), self.u.text(s), self.t.width(s), self.u.width(s), s)
    }

    open spec fn fresh(&self) -> bool {
        self.t.fresh() && self.u.fresh()
    }

    /// Each of the two blocks takes in its part of the source, and the
    /// result is good where both say so.
    open spec fn stepped(&self, source: &(T::Source, U::Source), next: &Self, ok: bool) -> bool {
        if ok {
            self.t.stepped(&source.0, &next.t, true) && self.u.stepped(&source.1, &next.u, true)
        } else {
            ||| self.t.stepped(&source.0, &next.t, false) && self.u.stepped(&source.1, &next.u, true)
            ||| self.t.stepped(&source.0, &next.t, true) && self.u.stepped(&source.1, &next.u, false)
            ||| self.t.stepped(&source.0, &next.t, false) && self.u.stepped(
                &source.1,
                &next.u,
                false,
            )
        }
    }

    proof fn lemma_blank(&self, s: &Settings) {
        self.t.lemma_blank(s);
        self.u.lemma_blank(s);
        let a = self.t.text(s);
        let b = self.u.text(s);
        if a.len() > 0 && b.len() > 0 && mergeable(self.t.width(s), self.u.width(s), s) {
            lemma_lines(a);
            let n = larger(lines(a).len() as int, lines(b).len() as int);
            assert(n >= 1);
            let f = frame_of(self.t.width(s), self.u.width(s), s);
            assert(joined(lines(a), lines(b), n, f).len() > 0);
        }
    }

    fn new() -> (b: Self) {
        MergedStatBlock { t: T::new(), u: U::new() }
    }

    /// Takes in what a tick has read for each of the two blocks.
    fn update(&mut self, source: &(T::Source, U::Source)) -> (ok: bool) {
        let a = self.t.update(&source.0);
        let b = self.u.update(&source.1);
        a && b
    }

    fn columns(&self, s: &Settings) -> (c: u16) {
        let tc = self.t.columns(s);
        let uc = self.u.columns(s);
        let left = pad_width(tc, s.colwidth);
        if left + (uc as u32) < s.maxcols as u32 && tc > 0 && uc > 0 {
            (left + uc as u32 + 1) as u16
        } else if tc >= uc {
            tc
        } else {
            uc
        }
    }

    fn rows(&self, s: &Settings) -> (r: u16) {
        let tr = self.t.rows(s);
        let ur = self.u.rows(s);
        if self.can_merge(s) {
            if tr >= ur {
                tr
            } else {
                ur
            }
        } else {
            let sum = tr as u32 + ur as u32 + 1;
            if sum > 0xffff {
                0xffff
            } else {
                sum as u16
            }
        }
    }

    fn render(&self, s: &Settings) -> (out: Vec<u8>) {
        let a = self.t.render(s);
        let b = self.u.render(s);
        let tc = self.t.columns(s);
        let uc = self.u.columns(s);
        merge(a.as_slice(), b.as_slice(), tc, uc, s)
    }
}

} // verus!
