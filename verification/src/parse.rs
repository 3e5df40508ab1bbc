//! Reading the kernel's text files: lines, blank-separated fields, decimal
//! numbers, and fixed pieces of text.

use crate::decimal::{
    digits, lemma_pow10_grows, lemma_pow10_max, pow10, pow10_of, MAX_PRECISION,
};
use vstd::prelude::*;

verus! {

/// The views of a list of texts.
pub open spec fn texts(v: Seq<Vec<u8>>) -> Seq<Seq<u8>> {
    Seq::new(v.len(), |i: int| v[i]@)
}

/// ASCII white space: blank, tab, line feed, form feed, carriage return.
pub open spec fn is_space(b: u8) -> bool {
    b == 0x20 || b == 0x09 || b == 0x0a || b == 0x0c || b == 0x0d
}

/// The fields of `s`: its longest runs of bytes that are not white space, in
/// their order.
pub open spec fn fields(s: Seq<u8>) -> Seq<Seq<u8>>
    decreases s.len(),
{
    if s.len() == 0 {
        Seq::empty()
    } else {
        let init = s.drop_last();
        let f = fields(init);
        if is_space(s.last()) {
            f
        } else if init.len() == 0 || is_space(init.last()) || f.len() == 0 {
            f.push(seq![s.last()])
        } else {
            f.drop_last().push(f.last().push(s.last()))
        }
    }
}

/// No field is empty, and none holds white space.
pub proof fn lemma_fields(s: Seq<u8>)
    ensures
        forall|i: int|
            0 <= i < fields(s).len() ==> (#[trigger] fields(s)[i]).len() > 0 && forall|j: int|
                0 <= j < fields(s)[i].len() ==> !is_space(#[trigger] fields(s)[i][j]),
        s.len() > 0 && !is_space(s.last()) ==> fields(s).len() > 0,
    decreases s.len(),
{
    if s.len() > 0 {
        let init = s.drop_last();
        let f = fields(init);
        let r = fields(s);
        lemma_fields(init);
        assert forall|i: int| 0 <= i < r.len() implies (#[trigger] r[i]).len() > 0 && forall|j: int|
            0 <= j < r[i].len() ==> !is_space(#[trigger] r[i][j]) by {
            if is_space(s.last()) {
            } else if i < r.len() - 1 {
                assert(r[i] == f[i]);
            } else if init.len() == 0 || is_space(init.last()) || f.len() == 0 {
                assert(r[i] =~= seq![s.last()]);
            } else {
                let last = f[f.len() - 1];
                assert(r[i] == last.push(s.last()));
                assert forall|j: int| 0 <= j < r[i].len() implies !is_space(#[trigger] r[i][j]) by {
                    if j < last.len() {
                        assert(r[i][j] == last[j]);
                    }
                }
            }
        }
    }
}

/// `l` without the carriage return that it may end with.
pub open spec fn without_cr(l: Seq<u8>) -> Seq<u8> {
    if l.len() > 0 && l.last() == 0x0d {
        l.drop_last()
    } else {
        l
    }
}

/// The lines of `s`. A line ends at a line feed, and a carriage return just
/// before that line feed is no part of it. What follows the last line feed
/// is a line too, unless it is empty.
pub open spec fn lines(s: Seq<u8>) -> Seq<Seq<u8>>
    decreases s.len(),
{
    if s.len() == 0 {
        Seq::empty()
    } else {
        let init = s.drop_last();
        let l = lines(init);
        let fresh = init.len() == 0 || init.last() == 0x0a || l.len() == 0;
        if s.last() == 0x0a {
            if fresh {
                l.push(Seq::empty())
            } else {
                l.drop_last().push(without_cr(l.last()))
            }
        } else if fresh {
            l.push(seq![s.last()])
        } else {
            l.drop_last().push(l.last().push(s.last()))
        }
    }
}

/// Whether a byte is white space.
pub fn space(b: u8) -> (r: bool)
    ensures
        r == is_space(b),
{
    b == 0x20 || b == 0x09 || b == 0x0a || b == 0x0c || b == 0x0d
}

/// Splits `s` into its fields.
pub fn split_fields(s: &[u8]) -> (out: Vec<Vec<u8>>)
    ensures
        texts(out@) == fields(s@),
{
    let mut out: Vec<Vec<u8>> = Vec::new();
    let mut word: Vec<u8> = Vec::new();
    let mut inside = false;
    let mut i: usize = 0;
    while i < s.len()
        invariant
            i <= s.len(),
            inside ==> i > 0 && !is_space(s@[i - 1]) && word@.len() > 0,
            !inside ==> (i == 0 || is_space(s@[i - 1])) && word@.len() == 0,
            fields(s@.take(i as int)) == if inside {
                texts(out@).push(word@)
            } else {
                texts(out@)
            },
        decreases s.len() - i,
    {
        let ghost before = s@.take(i as int);
        let ghost now = s@.take(i + 1);
        proof {
            assert(now.drop_last() =~= before);
            assert(now.last() == s@[i as int]);
            if i > 0 {
                assert(before.last() == s@[i - 1]);
            }
        }
        let b = s[i];
        if space(b) {
            if inside {
                let ghost prior = texts(out@);
                out.push(word);
                assert(texts(out@) =~= prior.push(word@));
                word = Vec::new();
                inside = false;
            }
        } else {
            proof {
                if inside {
                    let f = fields(before);
                    assert(f.last() == word@);
                    assert(f.drop_last() =~= texts(out@));
                }
            }
            word.push(b);
            inside = true;
            proof {
                if before.len() == 0 || is_space(before.last()) {
                    assert(word@ =~= seq![b]);
                }
            }
        }
        i += 1;
    }
    assert(s@.take(i as int) =~= s@);
    if inside {
        let ghost prior = texts(out@);
        out.push(word);
        assert(texts(out@) =~= prior.push(word@));
    }
    out
}

/// Splits `s` into its lines.
pub fn split_lines(s: &[u8]) -> (out: Vec<Vec<u8>>)
    ensures
        texts(out@) == lines(s@),
{
    let mut out: Vec<Vec<u8>> = Vec::new();
    let mut line: Vec<u8> = Vec::new();
    let mut open = false;
    let mut i: usize = 0;
    while i < s.len()
        invariant
            i <= s.len(),
            open ==> i > 0 && s@[i - 1] != 0x0a,
            !open ==> (i == 0 || s@[i - 1] == 0x0a) && line@.len() == 0,
            lines(s@.take(i as int)) == if open {
                texts(out@).push(line@)
            } else {
                texts(out@)
            },
        decreases s.len() - i,
    {
        let ghost before = s@.take(i as int);
        let ghost now = s@.take(i + 1);
        proof {
            assert(now.drop_last() =~= before);
            assert(now.last() == s@[i as int]);
            if i > 0 {
                assert(before.last() == s@[i - 1]);
            }
            if open {
                let l = lines(before);
                assert(l.last() == line@);
                assert(l.drop_last() =~= texts(out@));
            }
        }
        let b = s[i];
        let ghost prior = texts(out@);
        let ghost was = line@;
        if b == 0x0a {
            if open {
                let n = line.len();
                if n > 0 && line[n - 1] == 0x0d {
                    line.pop();
                }
                assert(line@ =~= without_cr(was));
            }
            out.push(line);
            assert(texts(out@) =~= prior.push(line@));
            proof {
                let l = lines(before);
                if open {
                    assert(l =~= prior.push(was));
                    assert(lines(now) == l.drop_last().push(without_cr(l.last())));
                } else {
                    assert(line@ =~= Seq::<u8>::empty());
                    assert(lines(now) == l.push(Seq::empty()));
                }
            }
            line = Vec::new();
            open = false;
        } else {
            line.push(b);
            proof {
                if open {
                    assert(line@ =~= was.push(b));
                    assert(lines(now) =~= prior.push(line@));
                } else {
                    assert(line@ =~= seq![b]);
                    assert(lines(now) =~= prior.push(line@));
                }
            }
            open = true;
        }
        i += 1;
    }
    assert(s@.take(i as int) =~= s@);
    if open {
        let ghost prior = texts(out@);
        out.push(line);
        assert(texts(out@) =~= prior.push(line@));
    }
    out
}

/// Whether a byte is a decimal digit.
pub open spec fn is_digit(b: u8) -> bool {
    0x30 <= b <= 0x39
}

/// Whether `s` holds decimal digits only.
pub open spec fn all_digits(s: Seq<u8>) -> bool {
    forall|i: int| 0 <= i < s.len() ==> is_digit(#[trigger] s[i])
}

/// The number that the decimal digits of `s` write.
pub open spec fn decimal_value(s: Seq<u8>) -> nat
    decreases s.len(),
{
    if s.len() == 0 {
        0
    } else {
        decimal_value(s.drop_last()) * 10 + (s.last() - 0x30) as nat
    }
}

/// The number that `s` writes, where `s` is one or more decimal digits and
/// the number is no more than `max`.
pub open spec fn digits_value(s: Seq<u8>, max: nat) -> Option<nat> {
    if s.len() > 0 && all_digits(s) && decimal_value(s) <= max {
        Some(decimal_value(s))
    } else {
        None
    }
}

/// The unsigned number that `s` writes: decimal digits, which a plus sign
/// may stand before, and a value that fits 64 bits.
pub open spec fn number(s: Seq<u8>) -> Option<u64> {
    let d = if s.len() > 0 && s[0] == 0x2b {
        s.drop_first()
    } else {
        s
    };
    match digits_value(d, u64::MAX as nat) {
        Some(v) => Some(v as u64),
        None => None,
    }
}

/// The digits that write a number are digits, and write that number.
pub proof fn lemma_digits_value(n: nat)
    ensures
        all_digits(digits(n)),
        decimal_value(digits(n)) == n,
    decreases n,
{
    let d = digits(n);
    if n < 10 {
        assert(d.drop_last() =~= Seq::<u8>::empty());
        assert(d.last() == (48 + n) as u8);
        reveal_with_fuel(decimal_value, 2);
    } else {
        lemma_digits_value(n / 10);
        let init = digits(n / 10);
        assert(d.drop_last() =~= init);
        assert(d.last() == (48 + n % 10) as u8);
        assert forall|i: int| 0 <= i < d.len() implies is_digit(#[trigger] d[i]) by {
            if i < init.len() {
                assert(d[i] == init[i]);
            }
        }
    }
}

/// The number that digits write is no less than the number that the
/// first of them write.
pub proof fn lemma_decimal_grows(s: Seq<u8>, i: int)
    requires
        0 <= i <= s.len(),
        all_digits(s),
    ensures
        decimal_value(s.take(i)) <= decimal_value(s),
    decreases s.len() - i,
{
    if i < s.len() {
        lemma_decimal_grows(s, i + 1);
        assert(s.take(i + 1).drop_last() =~= s.take(i));
        assert(is_digit(s[i]));
    } else {
        assert(s.take(i) =~= s);
    }
}

/// Reads a run of decimal digits from `start` to the end of `s`.
pub fn parse_digits(s: &[u8], start: usize) -> (r: Option<u64>)
    requires
        start <= s.len(),
    ensures
        r == (match digits_value(s@.skip(start as int), u64::MAX as nat) {
            Some(v) => Some(v as u64),
            None => None,
        }),
{
    let ghost d = s@.skip(start as int);
    if start == s.len() {
        return None;
    }
    let mut v: u64 = 0;
    let mut i: usize = start;
    while i < s.len()
        invariant
            start <= i <= s.len(),
            d == s@.skip(start as int),
            all_digits(d.take(i - start)),
            v == decimal_value(d.take(i - start)),
        decreases s.len() - i,
    {
        let b = s[i];
        let ghost k = i - start;
        proof {
            assert(d[k] == b);
            assert(d.take(k + 1).drop_last() =~= d.take(k));
            assert(d.take(k + 1).last() == b);
        }
        if !(0x30 <= b && b <= 0x39) {
            assert(!all_digits(d)) by {
                assert(!is_digit(d[k]));
            }
            return None;
        }
        let digit = (b - 0x30) as u64;
        if v > (u64::MAX - digit) / 10 {
            proof {
                assert(decimal_value(d.take(k + 1)) > u64::MAX);
                if all_digits(d) {
                    lemma_decimal_grows(d, k + 1);
                }
            }
            return None;
        }
        v = v * 10 + digit;
        proof {
            assert forall|j: int| 0 <= j < k + 1 implies is_digit(#[trigger] d.take(k + 1)[j]) by {
                if j < k {
                    assert(d.take(k)[j] == d.take(k + 1)[j]);
                }
            }
        }
        i += 1;
    }
    assert(d.take(i - start) =~= d);
    Some(v)
}

/// Reads an unsigned number.
pub fn parse_number(s: &[u8]) -> (r: Option<u64>)
    ensures
        r == number(s@),
{
    if s.len() > 0 && s[0] == 0x2b {
        assert(s@.skip(1) =~= s@.drop_first());
        parse_digits(s, 1)
    } else {
        assert(s@.skip(0) =~= s@);
        parse_digits(s, 0)
    }
}

/// The whole number that `s` writes: decimal digits, which a sign may stand
/// before, and a value that fits 64 bits with its sign.
pub open spec fn signed(s: Seq<u8>) -> Option<i64> {
    let d = if s.len() > 0 && (s[0] == 0x2d || s[0] == 0x2b) {
        s.drop_first()
    } else {
        s
    };
    match digits_value(d, i64::MAX as nat) {
        Some(v) => Some(
            if s[0] == 0x2d {
                (-(v as int)) as i64
            } else {
                v as i64
            },
        ),
        None => None,
    }
}

/// Reads a whole number with its sign.
pub fn parse_signed(s: &[u8]) -> (r: Option<i64>)
    ensures
        r == signed(s@),
{
    if s.len() > 0 && (s[0] == 0x2d || s[0] == 0x2b) {
        assert(s@.skip(1) =~= s@.drop_first());
        match parse_digits(s, 1) {
            Some(v) => {
                if v > i64::MAX as u64 {
                    None
                } else if s[0] == 0x2d {
                    Some(-(v as i64))
                } else {
                    Some(v as i64)
                }
            },
            None => None,
        }
    } else {
        assert(s@.skip(0) =~= s@);
        match parse_digits(s, 0) {
            Some(v) => {
                if v > i64::MAX as u64 {
                    None
                } else {
                    Some(v as i64)
                }
            },
            None => None,
        }
    }
}

/// Whether `s` begins with `p`.
pub open spec fn has_prefix(s: Seq<u8>, p: Seq<u8>) -> bool {
    p.len() <= s.len() && s.take(p.len() as int) == p
}

/// Whether `p` stands in `s` at index `i`.
pub open spec fn stands_at(s: Seq<u8>, p: Seq<u8>, i: int) -> bool {
    0 <= i && i + p.len() <= s.len() && s.subrange(i, i + p.len()) == p
}

/// Whether `p` stands in `s` at index `i`.
pub fn matches_at(s: &[u8], p: &[u8], i: usize) -> (r: bool)
    ensures
        r == stands_at(s@, p@, i as int),
{
    if i > s.len() || p.len() > s.len() - i {
        return false;
    }
    let ghost w = s@.subrange(i as int, i + p.len());
    let mut j: usize = 0;
    while j < p.len()
        invariant
            j <= p.len(),
            i + p.len() <= s.len(),
            w == s@.subrange(i as int, i + p.len()),
            w.take(j as int) == p@.take(j as int),
        decreases p.len() - j,
    {
        if s[i + j] != p[j] {
            assert(w[j as int] != p@[j as int]);
            return false;
        }
        proof {
            assert(w.take(j + 1) =~= w.take(j as int).push(w[j as int]));
            assert(p@.take(j + 1) =~= p@.take(j as int).push(p@[j as int]));
        }
        j += 1;
    }
    assert(w.take(j as int) =~= w);
    assert(p@.take(j as int) =~= p@);
    true
}

/// Whether `s` begins with `p`.
pub fn starts_with(s: &[u8], p: &[u8]) -> (r: bool)
    ensures
        r == has_prefix(s@, p@),
{
    let r = matches_at(s, p, 0);
    proof {
        if p@.len() <= s@.len() {
            assert(s@.subrange(0, p@.len() as int) =~= s@.take(p@.len() as int));
        }
    }
    r
}

/// Whether `s` and `t` hold the same bytes.
pub fn same_bytes(s: &[u8], t: &[u8]) -> (r: bool)
    ensures
        r == (s@ == t@),
{
    if s.len() != t.len() {
        return false;
    }
    let r = matches_at(s, t, 0);
    proof {
        assert(s@.subrange(0, t@.len() as int) =~= s@);
    }
    r
}

/// The first index from `i` on at which `p` stands in `s`.
pub open spec fn first_match_from(s: Seq<u8>, p: Seq<u8>, i: int) -> Option<int>
    decreases s.len() + 1 - i,
{
    if i < 0 || i > s.len() {
        None
    } else if stands_at(s, p, i) {
        Some(i)
    } else {
        first_match_from(s, p, i + 1)
    }
}

/// The first index at which `p` stands in `s`.
pub open spec fn first_match(s: Seq<u8>, p: Seq<u8>) -> Option<int> {
    first_match_from(s, p, 0)
}

/// The last index up to `i` at which `p` stands in `s`.
pub open spec fn last_match_to(s: Seq<u8>, p: Seq<u8>, i: int) -> Option<int>
    decreases i + 1,
{
    if i < 0 {
        None
    } else if stands_at(s, p, i) {
        Some(i)
    } else {
        last_match_to(s, p, i - 1)
    }
}

/// The last index at which `p` stands in `s`.
pub open spec fn last_match(s: Seq<u8>, p: Seq<u8>) -> Option<int> {
    last_match_to(s, p, s.len() as int)
}

/// The first index at which `p` stands in `s`.
pub fn find_first(s: &[u8], p: &[u8]) -> (r: Option<usize>)
    ensures
        match r {
            Some(i) => first_match(s@, p@) == Some(i as int) && stands_at(s@, p@, i as int),
            None => first_match(s@, p@) is None,
        },
{
    let mut i: usize = 0;
    while i < s.len()
        invariant
            i <= s.len(),
            first_match(s@, p@) == first_match_from(s@, p@, i as int),
        decreases s.len() - i,
    {
        if matches_at(s, p, i) {
            return Some(i);
        }
        i += 1;
    }
    if matches_at(s, p, i) {
        return Some(i);
    }
    assert(first_match_from(s@, p@, i + 1) is None);
    None
}

/// The last index at which `p` stands in `s`.
pub fn find_last(s: &[u8], p: &[u8]) -> (r: Option<usize>)
    ensures
        match r {
            Some(i) => last_match(s@, p@) == Some(i as int) && stands_at(s@, p@, i as int),
            None => last_match(s@, p@) is None,
        },
{
    let mut i: usize = s.len();
    if matches_at(s, p, i) {
        return Some(i);
    }
    while i > 0
        invariant
            i <= s.len(),
            last_match(s@, p@) == last_match_to(s@, p@, i - 1),
        decreases i,
    {
        i -= 1;
        if matches_at(s, p, i) {
            return Some(i);
        }
    }
    None
}

/// A copy of the bytes of `s` from `from` up to `to`.
pub fn copy_range(s: &[u8], from: usize, to: usize) -> (out: Vec<u8>)
    requires
        from <= to <= s.len(),
    ensures
        out@ == s@.subrange(from as int, to as int),
{
    vstd::slice::slice_to_vec(vstd::slice::slice_subrange(s, from, to))
}

/// What became of a line.
pub enum Read<R> {
    /// The line makes no sense.
    Bad,
    /// The line is of no interest.
    Skip,
    /// The line says this.
    Record(R),
}

/// `s` split where `p` stands first: what is before `p`, and what is after.
pub open spec fn split_once(s: Seq<u8>, p: Seq<u8>) -> Option<(Seq<u8>, Seq<u8>)> {
    match first_match(s, p) {
        Some(i) => Some((s.take(i), s.skip(i + p.len()))),
        None => None,
    }
}

/// `s` split where `p` stands last: what is before `p`, and what is after.
pub open spec fn rsplit_once(s: Seq<u8>, p: Seq<u8>) -> Option<(Seq<u8>, Seq<u8>)> {
    match last_match(s, p) {
        Some(i) => Some((s.take(i), s.skip(i + p.len()))),
        None => None,
    }
}

/// Splits `s` where `p` stands first.
pub fn split_first<'a>(s: &'a [u8], p: &[u8]) -> (r: Option<(&'a [u8], &'a [u8])>)
    ensures
        match r {
            Some(parts) => split_once(s@, p@) == Some((parts.0@, parts.1@)),
            None => split_once(s@, p@) is None,
        },
{
    match find_first(s, p) {
        None => None,
        Some(i) => {
            let n = s.len();
            let k = p.len();
            assert(i + k <= n);
            let a = vstd::slice::slice_subrange(s, 0, i);
            let b = vstd::slice::slice_subrange(s, i + k, n);
            assert(a@ =~= s@.take(i as int));
            assert(b@ =~= s@.skip(i + p@.len()));
            Some((a, b))
        },
    }
}

/// Splits `s` where `p` stands last.
pub fn split_last<'a>(s: &'a [u8], p: &[u8]) -> (r: Option<(&'a [u8], &'a [u8])>)
    ensures
        match r {
            Some(parts) => rsplit_once(s@, p@) == Some((parts.0@, parts.1@)),
            None => rsplit_once(s@, p@) is None,
        },
{
    match find_last(s, p) {
        None => None,
        Some(i) => {
            let n = s.len();
            let k = p.len();
            assert(i + k <= n);
            let a = vstd::slice::slice_subrange(s, 0, i);
            let b = vstd::slice::slice_subrange(s, i + k, n);
            assert(a@ =~= s@.take(i as int));
            assert(b@ =~= s@.skip(i + p@.len()));
            Some((a, b))
        },
    }
}

/// `s` without the prefix `p`, where it begins with `p`.
pub open spec fn strip_prefix(s: Seq<u8>, p: Seq<u8>) -> Option<Seq<u8>> {
    if has_prefix(s, p) {
        Some(s.skip(p.len() as int))
    } else {
        None
    }
}

/// `s` without the prefix `p`.
pub fn without_prefix<'a>(s: &'a [u8], p: &[u8]) -> (r: Option<&'a [u8]>)
    ensures
        match r {
            Some(rest) => strip_prefix(s@, p@) == Some(rest@),
            None => strip_prefix(s@, p@) is None,
        },
{
    if starts_with(s, p) {
        let rest = vstd::slice::slice_subrange(s, p.len(), s.len());
        assert(rest@ =~= s@.skip(p@.len() as int));
        Some(rest)
    } else {
        None
    }
}

/// A number with digits after the point: `units / scale`, where `scale` is a
/// power of ten.
#[derive(Clone, Copy, Debug, PartialEq, Eq, Structural)]
pub struct Decimal {
    pub units: u64,
    pub scale: u64,
}

/// The index of the first point in `s`, or the length of `s` where it has
/// none.
pub open spec fn point_at(s: Seq<u8>) -> int
    decreases s.len(),
{
    if s.len() == 0 {
        0
    } else if s[0] == 0x2e {
        0
    } else {
        1 + point_at(s.drop_first())
    }
}

/// The number that `s` writes in decimal notation: digits, and after a point
/// up to seventeen more. The digits together must fit 64 bits.
pub open spec fn decimal(s: Seq<u8>) -> Option<Decimal> {
    let dot = point_at(s);
    let whole = s.take(dot);
    let frac = if dot < s.len() {
        s.skip(dot + 1)
    } else {
        Seq::empty()
    };
    if whole.len() == 0 || (dot < s.len() && frac.len() == 0) || frac.len() > MAX_PRECISION {
        None
    } else {
        match digits_value(whole + frac, u64::MAX as nat) {
            Some(v) => Some(Decimal { units: v as u64, scale: pow10(frac.len()) as u64 }),
            None => None,
        }
    }
}

/// The scale of a number in decimal notation is at least one and at most
/// ten to the power of seventeen.
pub proof fn lemma_decimal_scale(s: Seq<u8>)
    ensures
        decimal(s) matches Some(d) ==> 1 <= d.scale <= 100_000_000_000_000_000,
{
    if decimal(s) is Some {
        let dot = point_at(s);
        let k = if dot < s.len() {
            s.skip(dot + 1).len()
        } else {
            0
        };
        lemma_pow10_grows(k, MAX_PRECISION as nat);
        lemma_pow10_max();
    }
}

/// The first point stands where `point_at` says, and no point before it.
pub proof fn lemma_point_at(s: Seq<u8>)
    ensures
        0 <= point_at(s) <= s.len(),
        point_at(s) < s.len() ==> s[point_at(s)] == 0x2e,
        forall|j: int| 0 <= j < point_at(s) ==> s[j] != 0x2e,
    decreases s.len(),
{
    if s.len() > 0 && s[0] != 0x2e {
        let t = s.drop_first();
        lemma_point_at(t);
        assert forall|j: int| 0 <= j < point_at(s) implies s[j] != 0x2e by {
            if j > 0 {
                assert(s[j] == t[j - 1]);
            }
        }
    }
}

/// An index that holds a point, or is the length, and has no point before
/// it is the index of the first point.
pub proof fn lemma_point_found(s: Seq<u8>, i: int)
    requires
        0 <= i <= s.len(),
        i < s.len() ==> s[i] == 0x2e,
        forall|j: int| 0 <= j < i ==> s[j] != 0x2e,
    ensures
        point_at(s) == i,
{
    lemma_point_at(s);
}

/// Reads a number in decimal notation.
pub fn parse_decimal(s: &[u8]) -> (r: Option<Decimal>)
    ensures
        r == decimal(s@),
{
    let mut dot: usize = 0;
    while dot < s.len() && s[dot] != 0x2e
        invariant
            dot <= s.len(),
            forall|j: int| 0 <= j < dot ==> s@[j] != 0x2e,
        decreases s.len() - dot,
    {
        dot += 1;
    }
    proof {
        lemma_point_found(s@, dot as int);
    }
    let frac_len = if dot < s.len() {
        s.len() - dot - 1
    } else {
        0
    };
    if dot == 0 || (dot < s.len() && frac_len == 0) || frac_len > MAX_PRECISION {
        return None;
    }
    let mut all: Vec<u8> = copy_range(s, 0, dot);
    if dot < s.len() {
        let frac = vstd::slice::slice_subrange(s, dot + 1, s.len());
        assert(frac@ =~= s@.skip(dot + 1));
        all.extend_from_slice(frac);
        assert(all@ =~= s@.take(dot as int) + s@.skip(dot + 1));
    } else {
        assert(all@ =~= s@.take(dot as int) + Seq::<u8>::empty());
    }
    assert(all@.skip(0) =~= all@);
    match parse_digits(all.as_slice(), 0) {
        Some(units) => {
            let scale = pow10_of(frac_len);
            Some(Decimal { units, scale: scale as u64 })
        },
        None => None,
    }
}

} // verus!
