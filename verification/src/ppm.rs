//! Plain-text PPM (`P3`) encoding of an RGB image.

use vstd::prelude::*;
use crate::scene_select::{all_digits, digits_value, is_digit};

verus! {

/// The decimal digit `d` as a character.
pub open spec fn digit_char(d: int) -> char {
    (48 + d) as char
}

/// The decimal numeral of `n`, without leading zeros.
pub open spec fn decimal(n: nat) -> Seq<char>
    decreases n,
{
    if n < 10 {
        seq![digit_char(n as int)]
    } else {
        decimal(n / 10) + seq![digit_char((n % 10) as int)]
    }
}

/// Pixel `p` of the channel values: `"r g b "`.
pub open spec fn pixel_text(channels: Seq<u8>, p: int) -> Seq<char> {
    decimal(channels[3 * p] as nat) + seq![' '] + decimal(channels[3 * p + 1] as nat) + seq![' ']
        + decimal(channels[3 * p + 2] as nat) + seq![' ']
}

/// The first `n` pixels, one after the other.
pub open spec fn pixels_text(channels: Seq<u8>, n: int) -> Seq<char>
    decreases n,
{
    if n <= 0 {
        Seq::empty()
    } else {
        pixels_text(channels, n - 1) + pixel_text(channels, n - 1)
    }
}

/// A `P3` image: the magic line, the line `"width height 255"`, then every
/// complete group of three channel values as a pixel (a trailing
/// incomplete group is left out).
pub open spec fn ppm_text(width: u32, height: u32, channels: Seq<u8>) -> Seq<char> {
    seq!['P', '3', '\n'] + decimal(width as nat) + seq![' '] + decimal(height as nat) + seq![' ', '2', '5', '5', '\n']
        + pixels_text(channels, (channels.len() / 3) as int)
}

fn digit_str(d: u32) -> (s: &'static str)
    requires
        d < 10,
    ensures
        s@ == seq![digit_char(d as int)],
{
    proof {
        reveal_strlit("0");
        reveal_strlit("1");
        reveal_strlit("2");
        reveal_strlit("3");
        reveal_strlit("4");
        reveal_strlit("5");
        reveal_strlit("6");
        reveal_strlit("7");
        reveal_strlit("8");
        reveal_strlit("9");
    }
    match d {
        0 => "0",
        1 => "1",
        2 => "2",
        3 => "3",
        4 => "4",
        5 => "5",
        6 => "6",
        7 => "7",
        8 => "8",
        _ => "9",
    }
}

/// Appends the decimal numeral of `n`.
fn push_decimal(out: &mut String, n: u32)
    ensures
        final(out)@ == old(out)@ + decimal(n as nat),
    decreases n,
{
    if n >= 10 {
        push_decimal(out, n / 10);
    }
    out.append(digit_str(n % 10));
    proof {
        assert(final(out)@ =~= old(out)@ + decimal(n as nat)) by {
            if n >= 10 {
                assert(decimal(n as nat) == decimal((n / 10) as nat) + seq![digit_char((n % 10) as int)]);
            }
        }
    }
}

/// Encodes an image of `width` by `height` pixels as `P3` text, each group
/// of three channel values being one pixel.
pub fn render_ppm(width: u32, height: u32, channels: &Vec<u8>) -> (text: String)
    ensures
        text@ == ppm_text(width, height, channels@),
{
    let mut ret = String::new();
    proof {
        reveal_strlit("P3\n");
        reveal_strlit(" ");
        reveal_strlit(" 255\n");
    }
    ret.append("P3\n");
    push_decimal(&mut ret, width);
    ret.append(" ");
    push_decimal(&mut ret, height);
    ret.append(" 255\n");
    let ghost header = ret@;
    assert(header =~= seq!['P', '3', '\n'] + decimal(width as nat) + seq![' '] + decimal(height as nat) + seq![' ', '2', '5', '5', '\n']);
    let count = channels.len() / 3;
    let mut p: usize = 0;
    while p < count
        invariant
            p <= count,
            count == channels.len() / 3,
            ret@ == header + pixels_text(channels@, p as int),
        decreases count - p,
    {
        proof {
            reveal_strlit(" ");
        }
        let ghost start = ret@;
        push_decimal(&mut ret, channels[3 * p] as u32);
        ret.append(" ");
        push_decimal(&mut ret, channels[3 * p + 1] as u32);
        ret.append(" ");
        push_decimal(&mut ret, channels[3 * p + 2] as u32);
        ret.append(" ");
        proof {
            assert(pixels_text(channels@, p + 1) == pixels_text(channels@, p as int) + pixel_text(channels@, p as int));
            assert(ret@ =~= start + pixel_text(channels@, p as int));
            assert(ret@ =~= header + pixels_text(channels@, p + 1));
        }
        p = p + 1;
    }
    ret
}


/// The numeral of `n` is a non-empty run of decimal digits whose value is
/// `n`, with no leading zero unless it is the single digit `0`.
pub proof fn lemma_decimal_reads_back(n: nat)
    ensures
        decimal(n).len() >= 1,
        all_digits(decimal(n)),
        digits_value(decimal(n)) == n,
        decimal(n).len() > 1 ==> decimal(n)[0] != '0',
        decimal(n).len() == 1 <==> n < 10,
    decreases n,
{
    if n < 10 {
        let d = decimal(n);
        assert(d.drop_last() =~= Seq::<char>::empty());
        assert(digits_value(Seq::<char>::empty()) == 0);
        assert(is_digit(d[0]));
    } else {
        lemma_decimal_reads_back(n / 10);
        let d = decimal(n);
        let hi = decimal(n / 10);
        assert(d.drop_last() =~= hi);
        assert(d.last() == digit_char((n % 10) as int));
        assert(d[0] == hi[0]);
        if hi.len() == 1 {
            let m = (n / 10) as int;
            assert(1 <= m < 10);
            assert(hi[0] == digit_char(m));
            assert(digit_char(m) != '0');
        }
        assert forall|i: int| 0 <= i < d.len() implies is_digit(#[trigger] d[i]) by {
            if i < hi.len() {
                assert(d[i] == hi[i]);
            }
        }
        assert((n / 10) * 10 + n % 10 == n);
    }
}

/// The pixels of a run depend only on the channel values they are made of.
proof fn lemma_pixels_prefix(a: Seq<u8>, b: Seq<u8>, n: int)
    requires
        0 <= n,
        3 * n <= a.len(),
        3 * n <= b.len(),
        forall|k: int| 0 <= k < 3 * n ==> #[trigger] a[k] == b[k],
    ensures
        pixels_text(a, n) == pixels_text(b, n),
    decreases n,
{
    if n > 0 {
        lemma_pixels_prefix(a, b, n - 1);
        assert(a[3 * (n - 1)] == b[3 * (n - 1)]);
        assert(a[3 * (n - 1) + 1] == b[3 * (n - 1) + 1]);
        assert(a[3 * (n - 1) + 2] == b[3 * (n - 1) + 2]);
    }
}

/// An image with no complete pixel is its header alone: `P3`, then the width,
/// the height and `255` on the second line.
pub proof fn lemma_ppm_header(width: u32, height: u32, channels: Seq<u8>)
    requires
        channels.len() < 3,
    ensures
        ppm_text(width, height, channels) == seq!['P', '3', '\n'] + decimal(width as nat) + seq![' ']
            + decimal(height as nat) + seq![' ', '2', '5', '5', '\n'],
{
    assert(pixels_text(channels, 0) =~= Seq::<char>::empty());
}

/// One more complete pixel, whatever the width and height, adds exactly its
/// three values, each followed by a space, at the end of the text.
pub proof fn lemma_ppm_one_more_pixel(width: u32, height: u32, channels: Seq<u8>, r: u8, g: u8, b: u8)
    requires
        channels.len() % 3 == 0,
    ensures
        ppm_text(width, height, channels + seq![r, g, b]) == ppm_text(width, height, channels) + decimal(
            r as nat,
        ) + seq![' '] + decimal(g as nat) + seq![' '] + decimal(b as nat) + seq![' '],
{
    let more = channels + seq![r, g, b];
    let n = (channels.len() / 3) as int;
    assert(more.len() / 3 == n + 1);
    assert forall|k: int| 0 <= k < 3 * n implies #[trigger] more[k] == channels[k] by {}
    lemma_pixels_prefix(more, channels, n);
    assert(more[3 * n] == r);
    assert(more[3 * n + 1] == g);
    assert(more[3 * n + 2] == b);
    assert(ppm_text(width, height, more) =~= ppm_text(width, height, channels) + decimal(r as nat) + seq![' ']
        + decimal(g as nat) + seq![' '] + decimal(b as nat) + seq![' ']);
}

/// Channel values past the last complete pixel leave the text unchanged.
pub proof fn lemma_ppm_ignores_incomplete_pixel(width: u32, height: u32, channels: Seq<u8>)
    ensures
        ppm_text(width, height, channels) == ppm_text(
            width,
            height,
            channels.subrange(0, 3 * (channels.len() / 3) as int),
        ),
{
    let n = (channels.len() / 3) as int;
    let cut = channels.subrange(0, 3 * n);
    assert(cut.len() / 3 == n);
    assert forall|k: int| 0 <= k < 3 * n implies #[trigger] channels[k] == cut[k] by {}
    lemma_pixels_prefix(channels, cut, n);
}

} // verus!
