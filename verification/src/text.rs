//! Text as bytes: padding and clipping.
//!
//! Every piece of a frame is a sequence of bytes. Widths count characters, so
//! a byte that continues a UTF-8 sequence takes no room.

use vstd::prelude::*;
use vstd::string::StringSliceAdditionalSpecFns;

verus! {

/// Where a padded text stands in its field.
#[derive(Clone, Copy, Debug, PartialEq, Eq, Structural)]
pub enum Align {
    Left,
    Center,
    Right,
}

/// `n` blanks.
pub open spec fn spaces(n: nat) -> Seq<u8> {
    Seq::new(n, |i: int| 0x20u8)
}

/// True for each byte but those that continue a UTF-8 sequence.
pub open spec fn starts_char(b: u8) -> bool {
    !(0x80 <= b <= 0xbf)
}

/// The number of characters in `s`: the bytes that start one.
pub open spec fn width(s: Seq<u8>) -> nat
    decreases s.len(),
{
    if s.len() == 0 {
        0
    } else {
        width(s.drop_last()) + if starts_char(s.last()) {
            1nat
        } else {
            0nat
        }
    }
}

/// The index at or after `i` where the character after the next `n` begins,
/// or the length of `s` where it holds no more than `n` from `i` on.
pub open spec fn cut_from(s: Seq<u8>, i: int, n: nat) -> int
    decreases s.len() - i,
{
    if i < 0 || i >= s.len() {
        s.len() as int
    } else if starts_char(s[i]) {
        if n == 0 {
            i
        } else {
            cut_from(s, i + 1, (n - 1) as nat)
        }
    } else {
        cut_from(s, i + 1, n)
    }
}

/// `s` cut down to its first `n` characters.
pub open spec fn clip(s: Seq<u8>, n: nat) -> Seq<u8> {
    s.take(cut_from(s, 0, n))
}

/// `s` in a field of `w` characters: blanks fill what `s` leaves free, and a
/// longer `s` stands as it is.
pub open spec fn pad(s: Seq<u8>, w: nat, align: Align) -> Seq<u8> {
    if width(s) >= w {
        s
    } else {
        let free = (w - width(s)) as nat;
        match align {
            Align::Left => s + spaces(free),
            Align::Right => spaces(free) + s,
            Align::Center => spaces(free / 2) + s + spaces((free - free / 2) as nat),
        }
    }
}

/// `s` clipped to `p` characters where a precision is given, then padded to `w`.
pub open spec fn fit(s: Seq<u8>, w: nat, p: Option<nat>, align: Align) -> Seq<u8> {
    match p {
        Some(p) => pad(clip(s, p), w, align),
        None => pad(s, w, align),
    }
}

/// The bytes of a string literal.
pub open spec fn lit(s: &str) -> Seq<u8> {
    s.spec_bytes()
}

/// One more byte makes a text one character wider where it starts a
/// character, and no wider where it continues one.
pub proof fn lemma_width_push(s: Seq<u8>, b: u8)
    ensures
        width(s.push(b)) == width(s) + if starts_char(b) { 1nat } else { 0nat },
{
    assert(s.push(b).drop_last() =~= s);
}

/// Two texts joined are as wide as both together.
pub proof fn lemma_width_join(a: Seq<u8>, b: Seq<u8>)
    ensures
        width(a + b) == width(a) + width(b),
    decreases b.len(),
{
    if b.len() == 0 {
        assert(a + b =~= a);
    } else {
        assert((a + b).drop_last() =~= a + b.drop_last());
        lemma_width_join(a, b.drop_last());
    }
}

/// Whether every byte of `s` is a character of its own.
pub open spec fn is_plain(s: Seq<u8>) -> bool {
    forall|i: int| 0 <= i < s.len() ==> (#[trigger] s[i]) < 0x80
}

/// Text that holds one-byte characters only is as wide as it is long.
pub proof fn lemma_width_plain(s: Seq<u8>)
    requires
        is_plain(s),
    ensures
        width(s) == s.len(),
    decreases s.len(),
{
    if s.len() > 0 {
        assert(is_plain(s.drop_last())) by {
            assert forall|i: int| 0 <= i < s.drop_last().len() implies (#[trigger] s.drop_last()[i])
                < 0x80 by {
                assert(s.drop_last()[i] == s[i]);
            }
        }
        lemma_width_plain(s.drop_last());
        assert(s.last() == s[s.len() - 1]);
    }
}

/// `n` blanks are `n` characters wide.
pub proof fn lemma_width_spaces(n: nat)
    ensures
        width(spaces(n)) == n,
{
    lemma_width_plain(spaces(n));
}

/// What is cut from the index `i` on holds `n` characters, or all that
/// there are from `i` on where they are fewer.
pub proof fn lemma_cut_width(s: Seq<u8>, i: int, n: nat)
    requires
        0 <= i <= s.len(),
    ensures
        i <= cut_from(s, i, n) <= s.len(),
        width(s.subrange(i, cut_from(s, i, n))) == if width(s.subrange(i, s.len() as int)) < n {
            width(s.subrange(i, s.len() as int))
        } else {
            n
        },
    decreases s.len() - i,
{
    lemma_cut_within(s, i, n);
    let c = cut_from(s, i, n);
    let rest = s.subrange(i, s.len() as int);
    if i < s.len() {
        let head = seq![s[i]];
        assert(width(head) == if starts_char(s[i]) { 1nat } else { 0nat }) by {
            assert(head.drop_last() =~= Seq::<u8>::empty());
            reveal_with_fuel(width, 2);
        }
        assert(rest =~= head + s.subrange(i + 1, s.len() as int));
        lemma_width_join(head, s.subrange(i + 1, s.len() as int));
        if starts_char(s[i]) && n == 0 {
            assert(s.subrange(i, c) =~= Seq::<u8>::empty());
        } else {
            let m = if starts_char(s[i]) {
                (n - 1) as nat
            } else {
                n
            };
            lemma_cut_width(s, i + 1, m);
            assert(s.subrange(i, c) =~= head + s.subrange(i + 1, c));
            lemma_width_join(head, s.subrange(i + 1, c));
        }
    } else {
        assert(s.subrange(i, c) =~= Seq::<u8>::empty());
        assert(rest =~= Seq::<u8>::empty());
    }
}

/// A padded text is as wide as its field, or as it was where that is more.
pub proof fn lemma_pad_width(s: Seq<u8>, w: nat, align: Align)
    ensures
        width(pad(s, w, align)) == if width(s) >= w {
            width(s)
        } else {
            w
        },
{
    if width(s) < w {
        let free = (w - width(s)) as nat;
        lemma_width_spaces(free);
        lemma_width_spaces(free / 2);
        lemma_width_spaces((free - free / 2) as nat);
        lemma_width_join(s, spaces(free));
        lemma_width_join(spaces(free), s);
        lemma_width_join(spaces(free / 2), s);
        lemma_width_join(spaces(free / 2) + s, spaces((free - free / 2) as nat));
    }
}

/// A text clipped to the width of its field and padded fills the field
/// exactly.
pub proof fn lemma_fit_width(s: Seq<u8>, w: nat, align: Align)
    ensures
        width(fit(s, w, Some(w), align)) == w,
{
    lemma_cut_width(s, 0, w);
    assert(clip(s, w) =~= s.subrange(0, cut_from(s, 0, w)));
    lemma_pad_width(clip(s, w), w, align);
}

/// Text of one-byte characters fills its field, and takes its own length
/// where that is more.
pub proof fn lemma_pad_len(s: Seq<u8>, w: nat, align: Align)
    requires
        is_plain(s),
    ensures
        pad(s, w, align).len() == if s.len() >= w {
            s.len()
        } else {
            w
        },
{
    lemma_width_plain(s);
}

/// Whether `s` holds no line feed.
pub open spec fn flat(s: Seq<u8>) -> bool {
    forall|i: int| 0 <= i < s.len() ==> (#[trigger] s[i]) != 0x0a
}

/// Two texts without a line feed make one without.
pub proof fn lemma_flat_join(a: Seq<u8>, b: Seq<u8>)
    requires
        flat(a),
        flat(b),
    ensures
        flat(a + b),
{
    assert forall|i: int| 0 <= i < (a + b).len() implies (#[trigger] (a + b)[i]) != 0x0a by {
        if i < a.len() {
            assert((a + b)[i] == a[i]);
        } else {
            assert((a + b)[i] == b[i - a.len()]);
        }
    }
}

/// A text without a line feed, a blank and another such text hold no line
/// feed.
pub proof fn lemma_flat_next(a: Seq<u8>, c: Seq<u8>)
    requires
        flat(a),
        flat(c),
    ensures
        flat(a + seq![0x20u8] + c),
{
    lemma_flat_join(a, seq![0x20u8]);
    lemma_flat_join(a + seq![0x20u8], c);
}

/// Padding adds no line feed.
pub proof fn lemma_flat_pad(s: Seq<u8>, w: nat, align: Align)
    requires
        flat(s),
    ensures
        flat(pad(s, w, align)),
{
    if width(s) < w {
        let free = (w - width(s)) as nat;
        match align {
            Align::Left => {
                lemma_flat_join(s, spaces(free));
            },
            Align::Right => {
                lemma_flat_join(spaces(free), s);
            },
            Align::Center => {
                lemma_flat_join(spaces(free / 2), s);
                lemma_flat_join(spaces(free / 2) + s, spaces((free - free / 2) as nat));
            },
        }
    }
}

/// A text is cut within its length.
pub proof fn lemma_cut_within(s: Seq<u8>, i: int, n: nat)
    requires
        0 <= i <= s.len(),
    ensures
        i <= cut_from(s, i, n) <= s.len(),
    decreases s.len() - i,
{
    if i < s.len() {
        if starts_char(s[i]) {
            if n > 0 {
                lemma_cut_within(s, i + 1, (n - 1) as nat);
            }
        } else {
            lemma_cut_within(s, i + 1, n);
        }
    }
}

/// Clipping and padding add no line feed.
pub proof fn lemma_flat_fit(s: Seq<u8>, w: nat, p: Option<nat>, align: Align)
    requires
        flat(s),
    ensures
        flat(fit(s, w, p, align)),
{
    match p {
        Some(p) => {
            lemma_cut_within(s, 0, p);
            lemma_flat_pad(clip(s, p), w, align);
        },
        None => {
            lemma_flat_pad(s, w, align);
        },
    }
}

/// A literal of one-byte characters, none of them a line feed, holds no
/// line feed.
pub proof fn lemma_flat_lit(s: &str)
    requires
        vstd::utf8::is_ascii_chars(s@),
        forall|i: int| 0 <= i < s@.len() ==> (#[trigger] s@[i]) != '\n',
    ensures
        flat(lit(s)),
{
    vstd::utf8::is_ascii_chars_encode_utf8(s@);
    assert forall|i: int| 0 <= i < lit(s).len() implies (#[trigger] lit(s)[i]) != 0x0a by {
        assert(lit(s)[i] == s@[i] as u8);
        assert('\0' <= s@[i] <= '\u{7f}');
    }
}

/// Appends `n` blanks.
pub fn push_spaces(out: &mut Vec<u8>, n: usize)
    ensures
        final(out)@ == old(out)@ + spaces(n as nat),
{
    let mut i: usize = 0;
    while i < n
        invariant
            i <= n,
            out@ == old(out)@ + spaces(i as nat),
        decreases n - i,
    {
        out.push(0x20u8);
        i += 1;
        assert(out@ =~= old(out)@ + spaces(i as nat));
    }
}

/// Appends the bytes of `s`.
pub fn push_str(out: &mut Vec<u8>, s: &str)
    ensures
        final(out)@ == old(out)@ + lit(s),
{
    let b = s.as_bytes();
    out.extend_from_slice(b);
    assert(out@ =~= old(out)@ + lit(s));
}

/// Appends the bytes of `s`.
pub fn push_bytes(out: &mut Vec<u8>, s: &[u8])
    ensures
        final(out)@ == old(out)@ + s@,
{
    out.extend_from_slice(s);
    assert(out@ =~= old(out)@ + s@);
}

/// The number of characters in `s`.
pub fn count_chars(s: &[u8]) -> (n: usize)
    ensures
        n == width(s@),
{
    let mut n: usize = 0;
    let mut i: usize = 0;
    while i < s.len()
        invariant
            i <= s.len(),
            n == width(s@.take(i as int)),
            n <= i,
        decreases s.len() - i,
    {
        proof {
            assert(s@.take(i + 1) =~= s@.take(i as int).push(s@[i as int]));
            lemma_width_push(s@.take(i as int), s@[i as int]);
        }
        if !(0x80 <= s[i] && s[i] <= 0xbf) {
            n += 1;
        }
        i += 1;
    }
    assert(s@.take(s.len() as int) =~= s@);
    n
}

/// The length in bytes of the first `n` characters of `s`.
pub fn clip_len(s: &[u8], n: usize) -> (k: usize)
    ensures
        k == cut_from(s@, 0, n as nat),
        k <= s.len(),
{
    let mut left: usize = n;
    let mut i: usize = 0;
    while i < s.len()
        invariant
            i <= s.len(),
            cut_from(s@, 0, n as nat) == cut_from(s@, i as int, left as nat),
        decreases s.len() - i,
    {
        if !(0x80 <= s[i] && s[i] <= 0xbf) {
            if left == 0 {
                return i;
            }
            left -= 1;
        }
        i += 1;
    }
    i
}

/// Appends `s` in a field of `w` characters.
pub fn push_padded(out: &mut Vec<u8>, s: &[u8], w: usize, align: Align)
    ensures
        final(out)@ == old(out)@ + pad(s@, w as nat, align),
{
    let n = count_chars(s);
    if n >= w {
        push_bytes(out, s);
    } else {
        let free = w - n;
        match align {
            Align::Left => {
                push_bytes(out, s);
                push_spaces(out, free);
                assert(out@ =~= old(out)@ + (s@ + spaces(free as nat)));
            },
            Align::Right => {
                push_spaces(out, free);
                push_bytes(out, s);
                assert(out@ =~= old(out)@ + (spaces(free as nat) + s@));
            },
            Align::Center => {
                push_spaces(out, free / 2);
                push_bytes(out, s);
                push_spaces(out, free - free / 2);
                assert(out@ =~= old(out)@ + (spaces((free / 2) as nat) + s@ + spaces(
                    (free - free / 2) as nat,
                )));
            },
        }
    }
}

/// Appends `s`, clipped to `p` characters where a precision is given, in a
/// field of `w` characters.
pub fn push_fitted(out: &mut Vec<u8>, s: &[u8], w: usize, p: Option<usize>, align: Align)
    ensures
        final(out)@ == old(out)@ + fit(
            s@,
            w as nat,
            match p {
                Some(p) => Some(p as nat),
                None => None,
            },
            align,
        ),
{
    match p {
        Some(p) => {
            let k = clip_len(s, p);
            let head = vstd::slice::slice_subrange(s, 0, k);
            assert(head@ =~= clip(s@, p as nat));
            push_padded(out, head, w, align);
        },
        None => {
            push_padded(out, s, w, align);
        },
    }
}

/// Appends one blank.
pub fn push_blank(out: &mut Vec<u8>)
    ensures
        final(out)@ == old(out)@ + seq![0x20u8],
{
    out.push(0x20u8);
    assert(out@ =~= old(out)@ + seq![0x20u8]);
}

} // verus!
