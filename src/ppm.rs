use vstd::prelude::*;
use crate::image::{lemma_index_in_range, pixel_index, Image};
use crate::vec3::{Color, UNIT};

verus! {

/// Largest channel value written to the file.
pub const MAX_CHANNEL: u16 = 255;

/// Decimal digits of `n`, most significant first, without leading zeros.
pub open spec fn dec(n: nat) -> Seq<u8>
    decreases n,
{
    if n < 10 {
        seq![(48 + n) as u8]
    } else {
        dec(n / 10) + seq![(48 + n % 10) as u8]
    }
}

/// A colour channel scaled from `[0, UNIT]` to `[0, 255]`, rounded down;
/// values outside are clamped.
pub open spec fn channel_value(c: i64) -> nat {
    if c <= 0 {
        0
    } else if c >= UNIT {
        MAX_CHANNEL as nat
    } else {
        (c * 255 / (UNIT as int)) as nat
    }
}

/// One pixel as a line of text: `r g b` and a newline.
pub open spec fn pixel_line(c: Color) -> Seq<u8> {
    dec(channel_value(c.x)) + seq![32u8] + dec(channel_value(c.y)) + seq![32u8] + dec(
        channel_value(c.z),
    ) + seq![10u8]
}

/// The header: the plain-text format tag, width, height and largest channel value.
pub open spec fn header_text(w: nat, h: nat, m: nat) -> Seq<u8> {
    seq![80u8, 51u8, 10u8] + dec(w) + seq![32u8] + dec(h) + seq![10u8] + dec(m) + seq![10u8]
}

/// The first `j` pixels of row `i`, left to right.
pub open spec fn row_text(p: Seq<Color>, w: nat, i: nat, j: nat) -> Seq<u8>
    decreases j,
{
    if j == 0 {
        Seq::empty()
    } else {
        row_text(p, w, i, (j - 1) as nat) + pixel_line(p[pixel_index(w as int, i as int, j - 1)])
    }
}

/// Rows `h - 1` down to `i`: the file lists the top row first.
pub open spec fn rows_text(p: Seq<Color>, w: nat, h: nat, i: nat) -> Seq<u8>
    decreases h - i,
{
    if i >= h {
        Seq::empty()
    } else {
        rows_text(p, w, h, i + 1) + row_text(p, w, i, w)
    }
}

/// The whole image as plain-text PPM.
pub open spec fn ppm_text(img: Image) -> Seq<u8> {
    header_text(img.width as nat, img.height as nat, MAX_CHANNEL as nat) + rows_text(
        img@,
        img.width as nat,
        img.height as nat,
        0,
    )
}

/// Appends the decimal digits of `n`.
fn push_dec(out: &mut Vec<u8>, n: u64)
    ensures
        final(out)@ == old(out)@ + dec(n as nat),
    decreases n,
{
    if n >= 10 {
        push_dec(out, n / 10);
    }
    out.push((48 + n % 10) as u8);
    proof {
        if n >= 10 {
            assert(final(out)@ =~= old(out)@ + dec(n as nat));
        } else {
            assert(final(out)@ =~= old(out)@ + dec(n as nat));
        }
    }
}

/// The file value of a colour channel.
fn channel_byte(c: i64) -> (r: u64)
    ensures
        r == channel_value(c),
{
    if c <= 0 {
        0
    } else if c >= UNIT {
        MAX_CHANNEL as u64
    } else {
        assert(0 <= c * 255 / 1000 <= 255) by (nonlinear_arith)
            requires
                0 < c < 1000,
        ;
        (c as u64 * 255 / UNIT as u64)
    }
}

/// Appends one pixel line.
fn push_pixel(out: &mut Vec<u8>, c: Color)
    ensures
        final(out)@ == old(out)@ + pixel_line(c),
{
    let ghost start = out@;
    push_dec(out, channel_byte(c.x));
    out.push(32);
    push_dec(out, channel_byte(c.y));
    out.push(32);
    push_dec(out, channel_byte(c.z));
    out.push(10);
    assert(out@ =~= start + pixel_line(c));
}

impl Image {
    /// The image as plain-text PPM: the header, then one `r g b` line per
    /// pixel, rows from top to bottom and pixels left to right.
    pub fn ppm(&self) -> (out: Vec<u8>)
        requires
            self.wf(),
        ensures
            out@ == ppm_text(*self),
    {
        let w = self.width;
        let h = self.height;
        let mut out: Vec<u8> = Vec::new();
        out.push(80);
        out.push(51);
        out.push(10);
        push_dec(&mut out, w as u64);
        out.push(32);
        push_dec(&mut out, h as u64);
        out.push(10);
        push_dec(&mut out, MAX_CHANNEL as u64);
        out.push(10);
        let ghost header = header_text(w as nat, h as nat, MAX_CHANNEL as nat);
        assert(out@ =~= header);
        let mut i: u16 = h;
        assert(out@ =~= header + rows_text(self@, w as nat, h as nat, i as nat));
        while i > 0
            invariant
                self.wf(),
                w == self.width,
                h == self.height,
                i <= h,
                out@ == header + rows_text(self@, w as nat, h as nat, i as nat),
            decreases i,
        {
            i = i - 1;
            let ghost before = out@;
            let mut j: u16 = 0;
            assert(out@ =~= before + row_text(self@, w as nat, i as nat, 0));
            while j < w
                invariant
                    self.wf(),
                    w == self.width,
                    h == self.height,
                    i < h,
                    j <= w,
                    out@ == before + row_text(self@, w as nat, i as nat, j as nat),
                decreases w - j,
            {
                proof {
                    lemma_index_in_range(w as int, h as int, i as int, j as int);
                }
                let c = self.pixels[(i as u64 * w as u64 + j as u64) as usize];
                push_pixel(&mut out, c);
                j = j + 1;
                assert(out@ =~= before + row_text(self@, w as nat, i as nat, j as nat));
            }
            assert(out@ =~= header + rows_text(self@, w as nat, h as nat, i as nat));
        }
        out
    }
}

/// An ASCII decimal digit.
pub open spec fn is_digit(b: u8) -> bool {
    48 <= b <= 57
}

/// Number of consecutive digits of `s` from position `i` on.
pub open spec fn digit_run(s: Seq<u8>, i: int) -> nat
    decreases s.len() - i,
{
    if 0 <= i < s.len() && is_digit(s[i]) {
        1 + digit_run(s, i + 1)
    } else {
        0
    }
}

/// The value of a string of decimal digits.
pub open spec fn digits_value(d: Seq<u8>) -> nat
    decreases d.len(),
{
    if d.len() == 0 {
        0
    } else {
        digits_value(d.drop_last()) * 10 + (d.last() - 48) as nat
    }
}

pub open spec fn pow10(k: nat) -> nat
    decreases k,
{
    if k == 0 {
        1
    } else {
        10 * pow10((k - 1) as nat)
    }
}

/// Most digits a header number may have.
pub const MAX_DIGITS: usize = 5;

/// The number at position `i` of `s` and the position after it: a run of one
/// to `MAX_DIGITS` digits.
pub open spec fn number_at(s: Seq<u8>, i: int) -> Option<(nat, int)> {
    let k = digit_run(s, i);
    if k == 0 || k > MAX_DIGITS {
        None
    } else {
        Some((digits_value(s.subrange(i, i + k)), i + k))
    }
}

/// Position `i` of `s` holds byte `b`.
pub open spec fn byte_is(s: Seq<u8>, i: int, b: u8) -> bool {
    0 <= i < s.len() && s[i] == b
}

/// Width, height and largest channel value of a PPM header at the start of `s`:
/// the plain-text format tag and a newline, width, space, height, newline,
/// largest value, newline.
pub open spec fn parse_header_spec(s: Seq<u8>) -> Option<(nat, nat, nat)> {
    if !(byte_is(s, 0, 80) && byte_is(s, 1, 51) && byte_is(s, 2, 10)) {
        None
    } else {
        match number_at(s, 3) {
            None => None,
            Some((w, i1)) => if !byte_is(s, i1, 32) {
                None
            } else {
                match number_at(s, i1 + 1) {
                    None => None,
                    Some((h, i2)) => if !byte_is(s, i2, 10) {
                        None
                    } else {
                        match number_at(s, i2 + 1) {
                            None => None,
                            Some((m, i3)) => if !byte_is(s, i3, 10) {
                                None
                            } else {
                                Some((w, h, m))
                            },
                        }
                    },
                }
            },
        }
    }
}

proof fn lemma_digit_run(s: Seq<u8>, i: int, k: int)
    requires
        0 <= i <= k <= s.len(),
        forall|j: int| i <= j < k ==> is_digit(#[trigger] s[j]),
    ensures
        digit_run(s, i) == (k - i) + digit_run(s, k),
    decreases k - i,
{
    if i < k {
        lemma_digit_run(s, i + 1, k);
    }
}

/// Reads the number at position `i`, as `number_at` describes it.
fn read_number(s: &Vec<u8>, i: usize) -> (r: Option<(u32, usize)>)
    ensures
        r is None <==> number_at(s@, i as int) is None,
        r matches Some((v, e)) ==> number_at(s@, i as int) == Some((v as nat, e as int)),
{
    if i > s.len() {
        return None;
    }
    let mut k: usize = i;
    let mut val: u32 = 0;
    while k < s.len() && 48 <= s[k] && s[k] <= 57 && k - i < 6
        invariant
            i <= k <= s@.len(),
            k - i <= 6,
            forall|j: int| i <= j < k ==> is_digit(#[trigger] s@[j]),
            val == digits_value(s@.subrange(i as int, k as int)),
            val < pow10((k - i) as nat),
        decreases s@.len() - k,
    {
        let ghost prev = s@.subrange(i as int, k as int);
        assert(pow10((k - i + 1) as nat) == 10 * pow10((k - i) as nat));
        assert(pow10((k - i) as nat) <= 100_000) by {
            reveal_with_fuel(pow10, 6);
        }
        val = val * 10 + (s[k] - 48) as u32;
        k = k + 1;
        assert(s@.subrange(i as int, k as int).drop_last() =~= prev);
    }
    proof {
        lemma_digit_run(s@, i as int, k as int);
    }
    if k - i == 6 || k == i {
        None
    } else {
        Some((val, k))
    }
}

/// Width, height and largest channel value of the PPM header at the start of
/// `s`, as `parse_header_spec` describes it; `None` for anything else.
pub fn parse_header(s: &Vec<u8>) -> (r: Option<(u32, u32, u32)>)
    ensures
        r is None <==> parse_header_spec(s@) is None,
        r matches Some((w, h, m)) ==> parse_header_spec(s@) == Some(
            (w as nat, h as nat, m as nat),
        ),
{
    if s.len() < 3 || s[0] != 80 || s[1] != 51 || s[2] != 10 {
        return None;
    }
    let (w, i1) = match read_number(s, 3) {
        None => {
            return None;
        },
        Some(x) => x,
    };
    if i1 >= s.len() || s[i1] != 32 {
        return None;
    }
    let (h, i2) = match read_number(s, i1 + 1) {
        None => {
            return None;
        },
        Some(x) => x,
    };
    if i2 >= s.len() || s[i2] != 10 {
        return None;
    }
    let (m, i3) = match read_number(s, i2 + 1) {
        None => {
            return None;
        },
        Some(x) => x,
    };
    if i3 >= s.len() || s[i3] != 10 {
        return None;
    }
    Some((w, h, m))
}

proof fn lemma_dec(n: nat)
    ensures
        1 <= dec(n).len(),
        forall|j: int| 0 <= j < dec(n).len() ==> is_digit(#[trigger] dec(n)[j]),
        digits_value(dec(n)) == n,
        n < 10 ==> dec(n).len() == 1,
        n < 100 ==> dec(n).len() <= 2,
        n < 1000 ==> dec(n).len() <= 3,
        n < 10_000 ==> dec(n).len() <= 4,
        n < 100_000 ==> dec(n).len() <= 5,
    decreases n,
{
    let d = dec(n);
    if n >= 10 {
        lemma_dec(n / 10);
        assert(d.drop_last() =~= dec(n / 10));
        assert(forall|j: int| 0 <= j < dec(n / 10).len() ==> d[j] == dec(n / 10)[j]);
        assert(d.last() - 48 == n % 10);
        assert((n / 10) * 10 + n % 10 == n) by (nonlinear_arith);
        assert(digits_value(d) == digits_value(d.drop_last()) * 10 + (d.last() - 48) as nat);
    } else {
        assert(d.drop_last() =~= Seq::<u8>::empty());
        assert(d.last() - 48 == n);
        assert(digits_value(d) == digits_value(d.drop_last()) * 10 + (d.last() - 48) as nat);
        assert(digits_value(Seq::<u8>::empty()) == 0);
    }
}

/// The number written by `dec` is read back by `number_at` when a non-digit
/// follows it.
proof fn lemma_number_at_dec(pre: Seq<u8>, n: nat, post: Seq<u8>)
    requires
        n < 100_000,
        post.len() > 0,
        !is_digit(post[0]),
    ensures
        number_at(pre + dec(n) + post, pre.len() as int) == Some(
            (n, pre.len() + dec(n).len() as int),
        ),
        (pre + dec(n) + post)[pre.len() + dec(n).len() as int] == post[0],
{
    lemma_dec(n);
    let s = pre + dec(n) + post;
    let i = pre.len() as int;
    let k = i + dec(n).len();
    assert(forall|j: int| i <= j < k ==> s[j] == dec(n)[j - i]);
    lemma_digit_run(s, i, k);
    assert(s.subrange(i, k) =~= dec(n));
}

/// Reading the header of an encoded image gives back its width, its height and
/// the largest channel value.
pub proof fn lemma_header_round_trip(img: Image)
    ensures
        parse_header_spec(ppm_text(img)) == Some(
            (img.width as nat, img.height as nat, MAX_CHANNEL as nat),
        ),
{
    let w = img.width as nat;
    let h = img.height as nat;
    let m = MAX_CHANNEL as nat;
    let rows = rows_text(img@, w, h, 0);
    let s = ppm_text(img);
    let tag = seq![80u8, 51u8, 10u8];
    let post_w = seq![32u8] + dec(h) + seq![10u8] + dec(m) + seq![10u8] + rows;
    assert(s =~= tag + dec(w) + post_w);
    lemma_number_at_dec(tag, w, post_w);
    let pre_h = tag + dec(w) + seq![32u8];
    let post_h = seq![10u8] + dec(m) + seq![10u8] + rows;
    assert(s =~= pre_h + dec(h) + post_h);
    lemma_number_at_dec(pre_h, h, post_h);
    let pre_m = pre_h + dec(h) + seq![10u8];
    let post_m = seq![10u8] + rows;
    assert(s =~= pre_m + dec(m) + post_m);
    lemma_number_at_dec(pre_m, m, post_m);
}

} // verus!
