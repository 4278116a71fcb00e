//! Generated-icon support: compositing a badge into one corner of an icon,
//! deriving missing alpha, and encoding a multi-size .ico file. Pixels are
//! top-down straight-alpha BGRA, four bytes per pixel.
use vstd::prelude::*;
use vstd::string::*;
use crate::config::Corner;
use crate::setup::{icon_spec_of, parse_icon_spec};
use crate::text::{chars_of, eq_ignore_ascii_case, eq_ignore_case, string_of, trim_ws, trimmed, CharClass};

verus! {

/// Largest icon edge whose image size in bytes (4 per pixel) fits in an
/// `i32`, the integer type of icon edges.
pub const MAX_EDGE: i32 = 23170;

/// Byte `ch` of pixel (`r`, `c`) of a square image with edge `edge`.
pub open spec fn at(px: Seq<u8>, edge: int, r: int, c: int, ch: int) -> u8 {
    px[4 * (r * edge + c) + ch]
}

/// Offset of a badge of edge `small` in a corner of an image of edge `big`.
pub open spec fn corner_offset(corner: Corner, big: int, small: int) -> (int, int) {
    let off = big - small;
    match corner {
        Corner::TopLeft => (0, 0),
        Corner::TopRight => (off, 0),
        Corner::BottomLeft => (0, off),
        Corner::BottomRight => (off, off),
    }
}

/// Channel `ch` of source pixel `s` drawn over destination pixel `d` with
/// straight alpha: transparent sources leave `d`, opaque sources (or a
/// transparent destination) replace it, anything else is mixed.
pub open spec fn blend_ch(s: Seq<u8>, d: Seq<u8>, ch: int) -> u8 {
    let sa = s[3] as int;
    if sa == 0 {
        d[ch]
    } else if sa == 255 || d[3] == 0 {
        s[ch]
    } else if ch < 3 {
        ((s[ch] as int * sa + d[ch] as int * (255 - sa)) / 255) as u8
    } else {
        (sa + d[3] as int * (255 - sa) / 255) as u8
    }
}

/// The four bytes of pixel `p` (index in row-major order).
pub open spec fn pixel(px: Seq<u8>, p: int) -> Seq<u8> {
    seq![px[4 * p], px[4 * p + 1], px[4 * p + 2], px[4 * p + 3]]
}

proof fn lemma_index_bound(r: int, c: int, edge: int)
    requires
        0 <= r < edge,
        0 <= c < edge,
    ensures
        0 <= r * edge + c < edge * edge,
        4 * (r * edge + c) + 4 <= 4 * edge * edge,
{
    assert(r * edge + c < edge * edge) by (nonlinear_arith)
        requires
            0 <= r < edge,
            0 <= c < edge,
    ;
    assert(0 <= r * edge) by (nonlinear_arith)
        requires
            0 <= r,
            0 <= edge,
    ;
    assert(4 * (edge * edge) == 4 * edge * edge) by (nonlinear_arith);
}

proof fn lemma_index_injective(r1: int, c1: int, r2: int, c2: int, edge: int)
    requires
        0 <= c1 < edge,
        0 <= c2 < edge,
        r1 * edge + c1 == r2 * edge + c2,
    ensures
        r1 == r2,
        c1 == c2,
{
    assert(r1 == r2) by (nonlinear_arith)
        requires
            0 <= c1 < edge,
            0 <= c2 < edge,
            r1 * edge + c1 == r2 * edge + c2,
    ;
}

proof fn lemma_edge_square(edge: int)
    requires
        0 <= edge <= 23170,
    ensures
        edge * edge <= 23170 * 23170,
{
    assert(edge * edge <= 23170 * 23170) by (nonlinear_arith)
        requires
            0 <= edge <= 23170,
    ;
}

fn mix(s: u8, d: u8, sa: u8) -> (r: u8)
    requires
        0 < sa < 255,
    ensures
        r == ((s as int * sa as int + d as int * (255 - sa as int)) / 255) as u8,
{
    let a: u32 = sa as u32;
    assert(s as u32 * a <= 255 * 255) by (nonlinear_arith)
        requires
            s <= 255,
            a <= 255,
    ;
    assert(d as u32 * (255 - a) <= 255 * 255) by (nonlinear_arith)
        requires
            d <= 255,
            a <= 255,
    ;
    let v = (s as u32 * a + d as u32 * (255 - a)) / 255;
    assert(v <= 255) by (nonlinear_arith)
        requires
            v == (s as u32 * a + d as u32 * (255 - a)) / 255,
            s <= 255,
            d <= 255,
            a <= 255,
    ;
    v as u8
}

fn mix_alpha(da: u8, sa: u8) -> (r: u8)
    requires
        0 < sa < 255,
    ensures
        r == (sa as int + da as int * (255 - sa as int) / 255) as u8,
{
    let a: u32 = sa as u32;
    assert(da as u32 * (255 - a) <= 255 * 255) by (nonlinear_arith)
        requires
            da <= 255,
            a <= 255,
    ;
    let q = da as u32 * (255 - a) / 255;
    assert(q <= 255 - a) by (nonlinear_arith)
        requires
            q == da as u32 * (255 - a) / 255,
            da <= 255,
            a <= 255,
    ;
    (a + q) as u8
}

/// `dst` (edge `ds`) after the square image `src` (edge `ss`) is drawn over
/// the given corner: each pixel under the badge becomes `blend_ch` of the
/// badge pixel and the pixel that was there; every other byte stays.
pub open spec fn over_px(dst: Seq<u8>, ds: int, src: Seq<u8>, ss: int, corner: Corner) -> Seq<u8> {
    let (ox, oy) = corner_offset(corner, ds, ss);
    Seq::new(
        dst.len(),
        |k: int|
            {
                let p = k / 4;
                let r = p / ds;
                let c = p % ds;
                if k < 4 * ds * ds && oy <= r < oy + ss && ox <= c < ox + ss {
                    blend_ch(pixel(src, (r - oy) * ss + (c - ox)), pixel(dst, p), k % 4)
                } else {
                    dst[k]
                }
            },
    )
}

proof fn lemma_decompose(k: int, ds: int)
    requires
        0 < ds,
        0 <= k < 4 * ds * ds,
    ensures
        0 <= (k / 4) / ds < ds,
        0 <= (k / 4) % ds < ds,
        k / 4 == ((k / 4) / ds) * ds + (k / 4) % ds,
        k == 4 * (k / 4) + k % 4,
        0 <= k % 4 < 4,
{
    let p = k / 4;
    assert(0 <= p < ds * ds) by (nonlinear_arith)
        requires
            0 <= k < 4 * ds * ds,
            p == k / 4,
    ;
    assert(p == (p / ds) * ds + p % ds && 0 <= p % ds < ds) by (nonlinear_arith)
        requires
            0 < ds,
            0 <= p,
    ;
    assert(0 <= p / ds < ds) by (nonlinear_arith)
        requires
            0 < ds,
            0 <= p < ds * ds,
    ;
}

/// Straight-alpha "over" of the square image `src` (edge `src_size`) onto
/// one corner of the square image `dst` (edge `dst_size`).
pub fn over_at(dst: &mut Vec<u8>, dst_size: i32, src: &[u8], src_size: i32, corner: Corner)
    requires
        src_size > 0 ==> {
            &&& src_size <= dst_size <= MAX_EDGE
            &&& src@.len() >= 4 * src_size * src_size
            &&& old(dst)@.len() >= 4 * dst_size * dst_size
        },
    ensures
        final(dst)@ == over_px(old(dst)@, dst_size as int, src@, src_size as int, corner),
{
    if src_size <= 0 {
        assert(dst@ =~= over_px(dst@, dst_size as int, src@, src_size as int, corner));
        return;
    }
    let ghost old_dst = dst@;
    let ds: usize = dst_size as usize;
    let ss: usize = src_size as usize;
    let off: usize = ds - ss;
    let (ox, oy): (usize, usize) = match corner {
        Corner::TopLeft => (0, 0),
        Corner::TopRight => (off, 0),
        Corner::BottomLeft => (0, off),
        Corner::BottomRight => (off, off),
    };
    assert((ox as int, oy as int) == corner_offset(corner, ds as int, ss as int));
    proof {
        lemma_edge_square(ds as int);
    }
    let mut y: usize = 0;
    while y < ss
        invariant
            ss <= ds <= 23170,
            ds == dst_size,
            ss == src_size,
            ox + ss <= ds,
            oy + ss <= ds,
            (ox as int, oy as int) == corner_offset(corner, ds as int, ss as int),
            src@.len() >= 4 * ss * ss,
            old_dst.len() >= 4 * ds * ds,
            ds * ds <= 23170 * 23170,
            dst@.len() == old_dst.len(),
            y <= ss,
            // rows above y: done
            forall|xx: int, yy: int, ch: int|
                0 <= xx < ss && 0 <= yy < y && 0 <= ch < 4 ==> #[trigger] at(
                    dst@,
                    ds as int,
                    yy + oy,
                    xx + ox,
                    ch,
                ) == blend_ch(
                    pixel(src@, yy * ss + xx),
                    pixel(old_dst, (yy + oy) * ds + xx + ox),
                    ch,
                ),
            // everything else: untouched
            forall|r: int, c: int, ch: int|
                0 <= r < ds && 0 <= c < ds && 0 <= ch < 4 && !(oy <= r < oy + y && ox <= c < ox + ss)
                    ==> #[trigger] at(dst@, ds as int, r, c, ch) == at(old_dst, ds as int, r, c, ch),
            forall|k: int| 4 * ds * ds <= k < old_dst.len() ==> dst@[k] == old_dst[k],
        decreases ss - y,
    {
        let mut x: usize = 0;
        while x < ss
            invariant
                ss <= ds <= 23170,
                ds == dst_size,
                ss == src_size,
                ox + ss <= ds,
                oy + ss <= ds,
                src@.len() >= 4 * ss * ss,
                old_dst.len() >= 4 * ds * ds,
                ds * ds <= 23170 * 23170,
                dst@.len() == old_dst.len(),
                y < ss,
                x <= ss,
                forall|xx: int, yy: int, ch: int|
                    0 <= xx < ss && 0 <= yy < ss && 0 <= ch < 4 && (yy < y || (yy == y && xx < x))
                        ==> #[trigger] at(dst@, ds as int, yy + oy, xx + ox, ch) == blend_ch(
                        pixel(src@, yy * ss + xx),
                        pixel(old_dst, (yy + oy) * ds + xx + ox),
                        ch,
                    ),
                forall|r: int, c: int, ch: int|
                    0 <= r < ds && 0 <= c < ds && 0 <= ch < 4 && !((oy <= r < oy + y && ox <= c < ox
                        + ss) || (r == oy + y && ox <= c < ox + x)) ==> #[trigger] at(
                        dst@,
                        ds as int,
                        r,
                        c,
                        ch,
                    ) == at(old_dst, ds as int, r, c, ch),
                forall|k: int| 4 * ds * ds <= k < old_dst.len() ==> dst@[k] == old_dst[k],
            decreases ss - x,
        {
            proof {
                lemma_index_bound(y as int, x as int, ss as int);
                lemma_index_bound((y + oy) as int, (x + ox) as int, ds as int);
                lemma_edge_square(ss as int);
            }
            let si: usize = (y * ss + x) * 4;
            let sa = src[si + 3];
            let di: usize = ((y + oy) * ds + (x + ox)) * 4;
            let ghost before = dst@;
            let ghost sp = pixel(src@, y * ss + x);
            let ghost dp = pixel(old_dst, (y + oy) * ds + x + ox);
            // The destination pixel has not been written yet.
            assert forall|ch: int| 0 <= ch < 4 implies #[trigger] before[di + ch] == old_dst[di + ch] by {
                assert(at(before, ds as int, (y + oy) as int, (x + ox) as int, ch) == at(
                    old_dst,
                    ds as int,
                    (y + oy) as int,
                    (x + ox) as int,
                    ch,
                ));
            }
            if sa != 0 {
                if sa == 255 || dst[di + 3] == 0 {
                    dst.set(di, src[si]);
                    dst.set(di + 1, src[si + 1]);
                    dst.set(di + 2, src[si + 2]);
                    dst.set(di + 3, src[si + 3]);
                } else {
                    let d0 = mix(src[si], dst[di], sa);
                    let d1 = mix(src[si + 1], dst[di + 1], sa);
                    let d2 = mix(src[si + 2], dst[di + 2], sa);
                    let d3 = mix_alpha(dst[di + 3], sa);
                    dst.set(di, d0);
                    dst.set(di + 1, d1);
                    dst.set(di + 2, d2);
                    dst.set(di + 3, d3);
                }
            }
            proof {
                assert forall|ch: int| 0 <= ch < 4 implies #[trigger] dst@[di + ch] == blend_ch(sp, dp, ch) by {}
                assert forall|k: int|
                    0 <= k < dst@.len() && !(di <= k < di + 4) implies #[trigger] dst@[k] == before[k] by {}
                assert forall|xx: int, yy: int, ch: int|
                    0 <= xx < ss && 0 <= yy < ss && 0 <= ch < 4 && (yy < y || (yy == y && xx < x
                        + 1)) implies #[trigger] at(dst@, ds as int, yy + oy, xx + ox, ch)
                    == blend_ch(
                    pixel(src@, yy * ss + xx),
                    pixel(old_dst, (yy + oy) * ds + xx + ox),
                    ch,
                ) by {
                    lemma_index_bound(yy + oy, xx + ox, ds as int);
                    let p1 = (yy + oy) * ds + xx + ox;
                    if yy == y && xx == x {
                        assert(4 * p1 + ch == di + ch);
                        assert(dst@[di + ch] == blend_ch(sp, dp, ch));
                    } else {
                        let p2 = (y + oy) * ds + x + ox;
                        if p1 == p2 {
                            lemma_index_injective(yy + oy, xx + ox, (y + oy) as int, (x + ox) as int, ds as int);
                        }
                        assert(4 * p1 + ch < di || 4 * p1 + ch >= di + 4);
                        assert(dst@[4 * p1 + ch] == before[4 * p1 + ch]);
                        assert(at(before, ds as int, yy + oy, xx + ox, ch) == blend_ch(
                            pixel(src@, yy * ss + xx),
                            pixel(old_dst, (yy + oy) * ds + xx + ox),
                            ch,
                        ));
                    }
                }
                assert forall|r: int, c: int, ch: int|
                    0 <= r < ds && 0 <= c < ds && 0 <= ch < 4 && !((oy <= r < oy + y && ox <= c < ox
                        + ss) || (r == oy + y && ox <= c < ox + x + 1)) implies #[trigger] at(
                    dst@,
                    ds as int,
                    r,
                    c,
                    ch,
                ) == at(old_dst, ds as int, r, c, ch) by {
                    lemma_index_bound(r, c, ds as int);
                    let p1 = r * ds + c;
                    let p2 = (y + oy) * ds + x + ox;
                    if p1 == p2 {
                        lemma_index_injective(r, c, (y + oy) as int, (x + ox) as int, ds as int);
                    }
                    assert(4 * p1 + ch < di || 4 * p1 + ch >= di + 4);
                    assert(dst@[4 * p1 + ch] == before[4 * p1 + ch]);
                    assert(at(before, ds as int, r, c, ch) == at(old_dst, ds as int, r, c, ch));
                }
            }
            x += 1;
        }
        y += 1;
    }
    let ghost want = over_px(old_dst, ds as int, src@, ss as int, corner);
    assert forall|k: int| 0 <= k < dst@.len() implies #[trigger] dst@[k] == want[k] by {
        if k < 4 * ds * ds {
            lemma_decompose(k, ds as int);
            let p = k / 4;
            let r = p / (ds as int);
            let c = p % (ds as int);
            let ch = k % 4;
            assert(4 * (r * ds + c) + ch == k);
            if oy <= r < oy + ss && ox <= c < ox + ss {
                assert(at(dst@, ds as int, (r - oy) + oy, (c - ox) + ox, ch) == blend_ch(
                    pixel(src@, (r - oy) * ss + (c - ox)),
                    pixel(old_dst, ((r - oy) + oy) * ds + (c - ox) + ox),
                    ch,
                ));
            } else {
                assert(at(dst@, ds as int, r, c, ch) == at(old_dst, ds as int, r, c, ch));
            }
        }
    }
    assert(dst@ =~= want);
}

// ------------------------------------------------------------------ alpha

/// Alpha of an icon read back without an alpha channel (every alpha byte
/// zero): from the monochrome AND mask (white = transparent) when there is
/// one, else opaque. Pixels with some alpha are kept as they are.
pub open spec fn all_alpha_zero(px: Seq<u8>) -> bool {
    forall|p: int| 0 <= p < px.len() / 4 ==> #[trigger] px[4 * p + 3] == 0
}

pub open spec fn derived_alpha(px: Seq<u8>, mask: Option<Seq<u8>>, p: int) -> u8 {
    match mask {
        Some(m) => if p < m.len() / 4 {
            if m[4 * p] == 0 {
                255
            } else {
                0
            }
        } else {
            px[4 * p + 3]
        },
        None => 255,
    }
}

/// Fills in alpha for an icon whose color bitmap came back with all alpha
/// bytes zero (see `derived_alpha`).
pub fn fix_alpha(px: &mut Vec<u8>, mask: Option<&[u8]>)
    ensures
        final(px)@.len() == old(px)@.len(),
        !all_alpha_zero(old(px)@) ==> final(px)@ == old(px)@,
        all_alpha_zero(old(px)@) ==> forall|k: int|
            0 <= k < final(px)@.len() ==> #[trigger] final(px)@[k] == if k % 4 == 3 {
                derived_alpha(
                    old(px)@,
                    match mask {
                        Some(m) => Some(m@),
                        None => None,
                    },
                    k / 4,
                )
            } else {
                old(px)@[k]
            },
{
    let len = px.len();
    let n = len / 4;
    let mut i: usize = 0;
    while i < n
        invariant
            len == px@.len(),
            n == px@.len() / 4,
            i <= n,
            forall|p: int| 0 <= p < i ==> #[trigger] px@[4 * p + 3] == 0,
        decreases n - i,
    {
        if px[4 * i + 3] != 0 {
            assert(!all_alpha_zero(px@)) by {
                assert(px@[4 * i + 3] != 0);
            }
            return;
        }
        i += 1;
    }
    assert(all_alpha_zero(px@));
    let ghost old_px = px@;
    let mut j: usize = 0;
    while j < n
        invariant
            len == px@.len(),
            n == px@.len() / 4,
            px@.len() == old_px.len(),
            j <= n,
            forall|k: int|
                0 <= k < px@.len() ==> #[trigger] px@[k] == if k % 4 == 3 && k / 4 < j {
                    derived_alpha(
                        old_px,
                        match mask {
                            Some(m) => Some(m@),
                            None => None,
                        },
                        k / 4,
                    )
                } else {
                    old_px[k]
                },
        decreases n - j,
    {
        let a: u8 = match mask {
            Some(m) => if j < m.len() / 4 {
                if m[4 * j] == 0 {
                    255
                } else {
                    0
                }
            } else {
                px[4 * j + 3]
            },
            None => 255,
        };
        let ghost before = px@;
        px.set(4 * j + 3, a);
        assert forall|k: int| 0 <= k < px@.len() implies #[trigger] px@[k] == if k % 4 == 3 && k / 4
            < j + 1 {
            derived_alpha(
                old_px,
                match mask {
                    Some(m) => Some(m@),
                    None => None,
                },
                k / 4,
            )
        } else {
            old_px[k]
        } by {
            if k == 4 * j + 3 {
                assert(k % 4 == 3 && k / 4 == j);
            } else {
                assert(px@[k] == before[k]);
            }
        }
        j += 1;
    }
}


// ------------------------------------------------------------------ .ico

/// One square image of an icon: edge `size`, top-down straight-alpha BGRA.
pub struct Image {
    pub size: i32,
    pub px: Vec<u8>,
}

/// Little-endian bytes of the low 16 bits of `v`.
pub open spec fn le16(v: int) -> Seq<u8> {
    seq![(v % 256) as u8, ((v / 256) % 256) as u8]
}

/// Little-endian bytes of the low 32 bits of `v`.
pub open spec fn le32(v: int) -> Seq<u8> {
    seq![
        (v % 256) as u8,
        ((v / 256) % 256) as u8,
        ((v / 65536) % 256) as u8,
        ((v / 16777216) % 256) as u8,
    ]
}

/// Bytes per row of the AND mask: one bit per pixel, rows padded to 32 bits.
pub open spec fn mask_row_len(s: int) -> int {
    (s + 31) / 32 * 4
}

/// Bytes of one image's entry data: header, color rows, mask rows.
pub open spec fn dib_len(s: int) -> int {
    40 + s * s * 4 + mask_row_len(s) * s
}

/// The BITMAPINFOHEADER of an image of edge `s` (height doubled for the mask).
pub open spec fn dib_header(s: int) -> Seq<u8> {
    le32(40) + le32(s) + le32(2 * s) + le16(1) + le16(32) + le32(0) + le32(
        s * s * 4 + mask_row_len(s) * s,
    ) + Seq::new(16, |i: int| 0u8)
}

/// Row `y` (counted from the top) of the color bitmap.
pub open spec fn color_row(px: Seq<u8>, s: int, y: int) -> Seq<u8> {
    px.subrange(y * s * 4, (y + 1) * s * 4)
}

/// The last `j` rows of the color bitmap, bottom row first.
pub open spec fn color_rows(px: Seq<u8>, s: int, j: int) -> Seq<u8>
    decreases j,
{
    if j <= 0 {
        Seq::empty()
    } else {
        color_rows(px, s, j - 1) + color_row(px, s, s - j)
    }
}

/// Value of bit `b` (0 = most significant) of a mask byte.
pub open spec fn bit_weight(b: int) -> int {
    if b == 0 {
        128
    } else if b == 1 {
        64
    } else if b == 2 {
        32
    } else if b == 3 {
        16
    } else if b == 4 {
        8
    } else if b == 5 {
        4
    } else if b == 6 {
        2
    } else if b == 7 {
        1
    } else {
        0
    }
}

/// A pixel counts as transparent in the AND mask when its alpha is below 128.
pub open spec fn masked(px: Seq<u8>, s: int, y: int, x: int) -> bool {
    px[(y * s + x) * 4 + 3] < 128
}

/// Byte `j` of mask row `y`, from its first `b` bits.
pub open spec fn mask_bits(px: Seq<u8>, s: int, y: int, j: int, b: int) -> int
    decreases b,
{
    if b <= 0 {
        0
    } else {
        mask_bits(px, s, y, j, b - 1) + if 8 * j + (b - 1) < s && masked(px, s, y, 8 * j + (b - 1)) {
            bit_weight(b - 1)
        } else {
            0
        }
    }
}

/// Mask row `y`: bit `x` (most significant first) set for each transparent pixel.
pub open spec fn mask_row(px: Seq<u8>, s: int, y: int) -> Seq<u8> {
    Seq::new(mask_row_len(s) as nat, |j: int| mask_bits(px, s, y, j, 8) as u8)
}

/// The last `j` rows of the mask, bottom row first.
pub open spec fn mask_rows(px: Seq<u8>, s: int, j: int) -> Seq<u8>
    decreases j,
{
    if j <= 0 {
        Seq::empty()
    } else {
        mask_rows(px, s, j - 1) + mask_row(px, s, s - j)
    }
}

/// The data of one image: header, bottom-up color rows, bottom-up mask rows.
pub open spec fn image_block(s: int, px: Seq<u8>) -> Seq<u8> {
    dib_header(s) + color_rows(px, s, s) + mask_rows(px, s, s)
}

/// Total data length of `imgs`.
pub open spec fn blocks_len(imgs: Seq<Image>) -> int
    decreases imgs.len(),
{
    if imgs.len() == 0 {
        0
    } else {
        blocks_len(imgs.drop_last()) + dib_len(imgs.last().size as int)
    }
}

/// Concatenated data of `imgs`.
pub open spec fn blocks(imgs: Seq<Image>) -> Seq<u8>
    decreases imgs.len(),
{
    if imgs.len() == 0 {
        Seq::empty()
    } else {
        blocks(imgs.drop_last()) + image_block(imgs.last().size as int, imgs.last().px@)
    }
}

/// The 16-byte directory entry of an image of edge `s` whose data has
/// length `len` and starts at `offset`.
pub open spec fn dir_entry(s: int, len: int, offset: int) -> Seq<u8> {
    seq![(s % 256) as u8, (s % 256) as u8, 0u8, 0u8] + le16(1) + le16(32) + le32(len) + le32(offset)
}

/// Directory entries of `imgs`, data starting at `base`.
pub open spec fn dir_entries(imgs: Seq<Image>, base: int) -> Seq<u8>
    decreases imgs.len(),
{
    if imgs.len() == 0 {
        Seq::empty()
    } else {
        dir_entries(imgs.drop_last(), base) + dir_entry(
            imgs.last().size as int,
            dib_len(imgs.last().size as int),
            base + blocks_len(imgs.drop_last()),
        )
    }
}

/// Length of the .ico file of `imgs`.
pub open spec fn ico_len(imgs: Seq<Image>) -> int {
    6 + 16 * imgs.len() + blocks_len(imgs)
}

/// A 32bpp .ico file of `imgs`: header, directory, then each image's data.
pub open spec fn ico_bytes(imgs: Seq<Image>) -> Seq<u8> {
    le16(0) + le16(1) + le16(imgs.len() as int) + dir_entries(imgs, 6 + 16 * imgs.len() as int) + blocks(imgs)
}

/// Images that `encode_ico` can take: edges the .ico header can hold, with
/// the pixels of every row present.
pub open spec fn encodable(imgs: Seq<Image>) -> bool {
    &&& forall|i: int|
        0 <= i < imgs.len() ==> 0 <= #[trigger] imgs[i].size && 2 * imgs[i].size <= i32::MAX
            && imgs[i].px@.len() >= 4 * imgs[i].size * imgs[i].size
    &&& ico_len(imgs) <= usize::MAX
}

fn push_le16(out: &mut Vec<u8>, v: u64)
    ensures
        final(out)@ == old(out)@ + le16(v as int),
{
    out.push((v % 256) as u8);
    out.push(((v / 256) % 256) as u8);
    assert(final(out)@ =~= old(out)@ + le16(v as int));
}

fn push_le32(out: &mut Vec<u8>, v: u64)
    ensures
        final(out)@ == old(out)@ + le32(v as int),
{
    out.push((v % 256) as u8);
    out.push(((v / 256) % 256) as u8);
    out.push(((v / 65536) % 256) as u8);
    out.push(((v / 16777216) % 256) as u8);
    assert(final(out)@ =~= old(out)@ + le32(v as int));
}

fn push_bytes(out: &mut Vec<u8>, src: &[u8], lo: usize, hi: usize)
    requires
        lo <= hi <= src@.len(),
    ensures
        final(out)@ == old(out)@ + src@.subrange(lo as int, hi as int),
{
    let ghost start = out@;
    let mut i = lo;
    while i < hi
        invariant
            lo <= i <= hi <= src@.len(),
            out@ == start + src@.subrange(lo as int, i as int),
        decreases hi - i,
    {
        out.push(src[i]);
        i += 1;
        assert(out@ =~= start + src@.subrange(lo as int, i as int));
    }
}

proof fn lemma_dib_parts(s: int)
    requires
        0 <= s,
    ensures
        0 <= s * s * 4,
        0 <= mask_row_len(s) * s,
        mask_row_len(s) * 8 >= s,
        dib_len(s) >= 40 + s * s * 4,
{
    assert(0 <= s * s * 4) by (nonlinear_arith)
        requires
            0 <= s,
    ;
    assert(0 <= mask_row_len(s) * s) by (nonlinear_arith)
        requires
            0 <= s,
            0 <= mask_row_len(s),
    ;
}

proof fn lemma_row_bounds(y: int, s: int)
    requires
        0 <= y < s,
    ensures
        0 <= y * s * 4,
        (y + 1) * s * 4 <= s * s * 4,
        (y + 1) * s * 4 == y * s * 4 + s * 4,
{
    assert(0 <= y * s * 4) by (nonlinear_arith)
        requires
            0 <= y < s,
    ;
    assert((y + 1) * s * 4 <= s * s * 4) by (nonlinear_arith)
        requires
            0 <= y < s,
    ;
    assert((y + 1) * s * 4 == y * s * 4 + s * 4) by (nonlinear_arith);
}

proof fn lemma_mask_bits_bound(px: Seq<u8>, s: int, y: int, j: int, b: int)
    requires
        0 <= b <= 8,
    ensures
        0 <= mask_bits(px, s, y, j, b) <= 256 - 2 * bit_weight(b),
    decreases b,
{
    if b > 0 {
        lemma_mask_bits_bound(px, s, y, j, b - 1);
    }
}

/// The mask byte `j` of row `y`.
fn mask_byte(px: &[u8], s: usize, y: usize, j: usize) -> (r: u8)
    requires
        y < s,
        s * s * 4 <= px@.len(),
        8 * j + 8 <= usize::MAX,
    ensures
        r == mask_bits(px@, s as int, y as int, j as int, 8),
{
    let mut acc: u8 = 0;
    let mut w: u8 = 128;
    let mut b: usize = 0;
    let n = px.len();
    while b < 8
        invariant
            n == px@.len(),
            y < s,
            s * s * 4 <= px@.len(),
            8 * j + 8 <= usize::MAX,
            b <= 8,
            w == bit_weight(b as int),
            acc == mask_bits(px@, s as int, y as int, j as int, b as int),
        decreases 8 - b,
    {
        proof {
            lemma_mask_bits_bound(px@, s as int, y as int, j as int, b as int);
        }
        let x = 8 * j + b;
        if x < s {
            proof {
                lemma_index_bound(y as int, x as int, s as int);
                assert(4 * s * s == s * s * 4) by (nonlinear_arith);
            }
            if px[(y * s + x) * 4 + 3] < 128 {
                acc = acc + w;
            }
        }
        w = w / 2;
        b += 1;
    }
    acc
}

/// The data block of one image (see `image_block`).
fn encode_image(img: &Image) -> (r: Vec<u8>)
    requires
        0 <= img.size,
        2 * img.size <= i32::MAX,
        img.px@.len() >= 4 * img.size * img.size,
        dib_len(img.size as int) <= usize::MAX,
    ensures
        r@ == image_block(img.size as int, img.px@),
{
    let s: usize = img.size as usize;
    proof {
        lemma_dib_parts(s as int);
        assert(4 * s * s == s * s * 4) by (nonlinear_arith);
    }
    let mrow: usize = (s + 31) / 32 * 4;
    let ss4: usize = s * s * 4;
    let mlen: usize = mrow * s;
    let mut d: Vec<u8> = Vec::new();
    push_le32(&mut d, 40);
    push_le32(&mut d, img.size as u64);
    push_le32(&mut d, (img.size * 2) as u64);
    push_le16(&mut d, 1);
    push_le16(&mut d, 32);
    push_le32(&mut d, 0);
    push_le32(&mut d, (ss4 + mlen) as u64);
    let mut z: usize = 0;
    while z < 16
        invariant
            z <= 16,
            d@ == le32(40) + le32(s as int) + le32(2 * s) + le16(1) + le16(32) + le32(0) + le32(
                s * s * 4 + mask_row_len(s as int) * s,
            ) + Seq::new(z as nat, |i: int| 0u8),
        decreases 16 - z,
    {
        d.push(0);
        z += 1;
        assert(d@ =~= le32(40) + le32(s as int) + le32(2 * s) + le16(1) + le16(32) + le32(0) + le32(
            s * s * 4 + mask_row_len(s as int) * s,
        ) + Seq::new(z as nat, |i: int| 0u8));
    }
    assert(d@ == dib_header(s as int));
    let ghost hdr = d@;
    let px = img.px.as_slice();
    let n = px.len();
    let mut j: usize = 0;
    while j < s
        invariant
            j <= s,
            n == px@.len(),
            s * s * 4 <= px@.len(),
            d@ == hdr + color_rows(px@, s as int, j as int),
        decreases s - j,
    {
        let y = s - j - 1;
        proof {
            lemma_row_bounds(y as int, s as int);
        }
        let ghost before = d@;
        push_bytes(&mut d, px, y * s * 4, (y + 1) * s * 4);
        assert(color_rows(px@, s as int, j + 1) == color_rows(px@, s as int, j as int) + color_row(
            px@,
            s as int,
            y as int,
        ));
        j += 1;
        assert(d@ =~= hdr + color_rows(px@, s as int, j as int));
    }
    let ghost body = d@;
    let mut j: usize = 0;
    while j < s
        invariant
            j <= s,
            n == px@.len(),
            s * s * 4 <= px@.len(),
            mrow == mask_row_len(s as int),
            mrow * 8 <= usize::MAX,
            d@ == body + mask_rows(px@, s as int, j as int),
        decreases s - j,
    {
        let y = s - j - 1;
        let ghost before = d@;
        let mut k: usize = 0;
        while k < mrow
            invariant
                k <= mrow,
                y < s,
                s * s * 4 <= px@.len(),
                mrow == mask_row_len(s as int),
                mrow * 8 <= usize::MAX,
                d@ == before + mask_row(px@, s as int, y as int).take(k as int),
            decreases mrow - k,
        {
            let m = mask_byte(px, s, y, k);
            d.push(m);
            k += 1;
            assert(d@ =~= before + mask_row(px@, s as int, y as int).take(k as int));
        }
        assert(mask_row(px@, s as int, y as int).take(mrow as int) =~= mask_row(
            px@,
            s as int,
            y as int,
        ));
        assert(mask_rows(px@, s as int, j + 1) == mask_rows(px@, s as int, j as int) + mask_row(
            px@,
            s as int,
            y as int,
        ));
        j += 1;
        assert(d@ =~= body + mask_rows(px@, s as int, j as int));
    }
    assert(d@ =~= image_block(s as int, img.px@));
    d
}


proof fn lemma_color_rows_len(px: Seq<u8>, s: int, j: int)
    requires
        0 <= j <= s,
        px.len() >= s * s * 4,
    ensures
        color_rows(px, s, j).len() == j * s * 4,
    decreases j,
{
    if j > 0 {
        lemma_color_rows_len(px, s, j - 1);
        lemma_row_bounds(s - j, s);
        assert(j * s * 4 == (j - 1) * s * 4 + s * 4) by (nonlinear_arith);
        assert(color_row(px, s, s - j).len() == s * 4);
    } else {
        assert(j * s * 4 == 0) by (nonlinear_arith)
            requires
                j == 0,
        ;
    }
}

proof fn lemma_mask_rows_len(px: Seq<u8>, s: int, j: int)
    requires
        0 <= j <= s,
    ensures
        mask_rows(px, s, j).len() == j * mask_row_len(s),
    decreases j,
{
    if j > 0 {
        lemma_mask_rows_len(px, s, j - 1);
        assert(j * mask_row_len(s) == (j - 1) * mask_row_len(s) + mask_row_len(s)) by (nonlinear_arith);
        assert(mask_row_len(s) >= 0);
        assert(mask_row(px, s, s - j).len() == mask_row_len(s));
    } else {
        assert(j * mask_row_len(s) == 0) by (nonlinear_arith)
            requires
                j == 0,
        ;
    }
}

proof fn lemma_block_len(s: int, px: Seq<u8>)
    requires
        0 <= s,
        px.len() >= 4 * s * s,
    ensures
        image_block(s, px).len() == dib_len(s),
{
    assert(4 * s * s == s * s * 4) by (nonlinear_arith);
    lemma_color_rows_len(px, s, s);
    lemma_mask_rows_len(px, s, s);
    assert(s * mask_row_len(s) == mask_row_len(s) * s) by (nonlinear_arith);
    assert(s * s * 4 == s * s * 4);
}

proof fn lemma_blocks_prefix(imgs: Seq<Image>, i: int)
    requires
        0 <= i <= imgs.len(),
        forall|k: int| 0 <= k < imgs.len() ==> 0 <= #[trigger] imgs[k].size,
    ensures
        0 <= blocks_len(imgs.take(i)) <= blocks_len(imgs),
    decreases imgs.len(),
{
    if i == imgs.len() {
        assert(imgs.take(i) =~= imgs);
        lemma_blocks_nonneg(imgs);
    } else {
        let rest = imgs.drop_last();
        assert(forall|k: int| 0 <= k < rest.len() ==> rest[k] == imgs[k]);
        lemma_blocks_prefix(rest, i);
        assert(rest.take(i) =~= imgs.take(i));
        lemma_dib_parts(imgs.last().size as int);
    }
}

proof fn lemma_blocks_nonneg(imgs: Seq<Image>)
    requires
        forall|k: int| 0 <= k < imgs.len() ==> 0 <= #[trigger] imgs[k].size,
    ensures
        0 <= blocks_len(imgs),
    decreases imgs.len(),
{
    if imgs.len() > 0 {
        let rest = imgs.drop_last();
        assert(forall|k: int| 0 <= k < rest.len() ==> rest[k] == imgs[k]);
        lemma_blocks_nonneg(rest);
        lemma_dib_parts(imgs.last().size as int);
    }
}

proof fn lemma_take_step(imgs: Seq<Image>, i: int, base: int)
    requires
        0 <= i < imgs.len(),
    ensures
        blocks_len(imgs.take(i + 1)) == blocks_len(imgs.take(i)) + dib_len(imgs[i].size as int),
        blocks(imgs.take(i + 1)) == blocks(imgs.take(i)) + image_block(imgs[i].size as int, imgs[i].px@),
        dir_entries(imgs.take(i + 1), base) == dir_entries(imgs.take(i), base) + dir_entry(
            imgs[i].size as int,
            dib_len(imgs[i].size as int),
            base + blocks_len(imgs.take(i)),
        ),
{
    let pre = imgs.take(i + 1);
    assert(pre.drop_last() =~= imgs.take(i));
    assert(pre.last() == imgs[i]);
}

/// Encodes `images` as a 32bpp .ico file: a directory of one entry per
/// image, then each image as a BITMAPINFOHEADER, its color rows bottom-up
/// and its AND mask (set where alpha is below 128) bottom-up.
#[verifier::spinoff_prover]
pub fn encode_ico(images: &[Image]) -> (r: Vec<u8>)
    requires
        encodable(images@),
    ensures
        r@ == ico_bytes(images@),
{
    let n = images.len();
    proof {
        lemma_blocks_nonneg(images@);
    }
    let base: usize = 6 + 16 * n;
    let mut entries: Vec<u8> = Vec::new();
    let mut data: Vec<u8> = Vec::new();
    let mut offset: usize = base;
    let mut i: usize = 0;
    while i < n
        invariant
            encodable(images@),
            n == images@.len(),
            i <= n,
            base == 6 + 16 * n,
            offset == base + blocks_len(images@.take(i as int)),
            data@ == blocks(images@.take(i as int)),
            entries@ == dir_entries(images@.take(i as int), base as int),
        decreases n - i,
    {
        let img = &images[i];
        proof {
            lemma_blocks_prefix(images@, i + 1);
            lemma_take_step(images@, i as int, base as int);
            lemma_dib_parts(img.size as int);
            lemma_block_len(img.size as int, img.px@);
            lemma_blocks_nonneg(images@.take(i as int));
        }
        let d = encode_image(img);
        let s: usize = img.size as usize;
        let mut e: Vec<u8> = Vec::new();
        e.push((s % 256) as u8);
        e.push((s % 256) as u8);
        e.push(0);
        e.push(0);
        push_le16(&mut e, 1);
        push_le16(&mut e, 32);
        push_le32(&mut e, d.len() as u64);
        push_le32(&mut e, offset as u64);
        assert(e@ =~= dir_entry(s as int, dib_len(s as int), offset as int));
        push_bytes(&mut entries, e.as_slice(), 0, e.len());
        assert(e@.subrange(0, e@.len() as int) =~= e@);
        offset = offset + d.len();
        push_bytes(&mut data, d.as_slice(), 0, d.len());
        assert(d@.subrange(0, d@.len() as int) =~= d@);
        i += 1;
    }
    assert(images@.take(n as int) =~= images@);
    let mut out: Vec<u8> = Vec::new();
    push_le16(&mut out, 0);
    push_le16(&mut out, 1);
    push_le16(&mut out, n as u64);
    push_bytes(&mut out, entries.as_slice(), 0, entries.len());
    push_bytes(&mut out, data.as_slice(), 0, data.len());
    assert(entries@.subrange(0, entries@.len() as int) =~= entries@);
    assert(data@.subrange(0, data@.len() as int) =~= data@);
    assert(out@ =~= ico_bytes(images@));
    out
}

// ------------------------------------------------------------------ planning

/// Edges of the images of a generated icon, smallest first.
pub open spec fn icon_sizes_of() -> Seq<i32> {
    seq![16i32, 20i32, 24i32, 32i32, 48i32, 64i32]
}

/// Edges of the images of a generated icon, smallest first.
pub fn icon_sizes() -> (r: Vec<i32>)
    ensures
        r@ == icon_sizes_of(),
{
    let r: Vec<i32> = vec![16, 20, 24, 32, 48, 64];
    assert(r@ =~= icon_sizes_of());
    r
}

/// Where a badge comes from.
pub enum BadgeSource {
    /// The system UAC shield (spec "uac", any ASCII case).
    Shield,
    /// An icon resource: file and index.
    File { path: String, index: i32 },
}

/// The base icon and the badge of an icon to generate.
pub struct IconPlan {
    pub base: Option<(String, i32)>,
    pub badge: Option<(BadgeSource, Corner)>,
}

/// Plans an icon from its base spec (blank for none) and optional badge spec
/// and corner: the base is the trimmed spec's icon resource; the badge is the
/// shield for "uac" and the spec's icon resource otherwise. `None` when there
/// is neither a base nor a badge, which leaves nothing to draw.
pub fn plan_icon(base_spec: &str, badge: Option<(&str, Corner)>) -> (r: Option<IconPlan>)
    ensures
        r is None <==> (trim_ws(base_spec@).len() == 0 && badge is None),
        r matches Some(plan) ==> {
            &&& (plan.base is None <==> trim_ws(base_spec@).len() == 0)
            &&& (plan.base matches Some((path, index)) ==> (path@, index) == icon_spec_of(
                trim_ws(base_spec@),
            ))
            &&& (plan.badge is None <==> badge is None)
            &&& (badge matches Some((spec, corner)) ==> plan.badge matches Some((src, c)) && c == corner
                && (src is Shield <==> eq_ignore_ascii_case(spec@, "uac"@)) && (src matches BadgeSource::File {
                path,
                index,
            } ==> (path@, index) == icon_spec_of(spec@)))
        },
{
    let badge_plan = match badge {
        Some((spec, corner)) => {
            let spec_chars = chars_of(spec);
            let uac = chars_of("uac");
            if eq_ignore_case(&spec_chars, &uac) {
                Some((BadgeSource::Shield, corner))
            } else {
                let (path, index) = parse_icon_spec(spec);
                Some((BadgeSource::File { path, index }, corner))
            }
        },
        None => None,
    };
    let raw = chars_of(base_spec);
    let t = trimmed(&raw, CharClass::Whitespace);
    let base = if t.len() == 0 {
        None
    } else {
        let ts = string_of(&t);
        Some(parse_icon_spec(ts.as_str()))
    };
    if base.is_none() && badge_plan.is_none() {
        None
    } else {
        Some(IconPlan { base, badge: badge_plan })
    }
}

/// Edge of the badge drawn on an image of edge `size`: half the edge (at
/// least 8) over a base icon, the whole edge when the badge stands alone.
pub open spec fn badge_edge_of(size: int, has_canvas: bool) -> int {
    if has_canvas {
        if size / 2 > 8 {
            size / 2
        } else {
            8
        }
    } else {
        size
    }
}

/// See `badge_edge_of`.
pub fn badge_edge(size: i32, has_canvas: bool) -> (r: i32)
    requires
        0 <= size,
    ensures
        r == badge_edge_of(size as int, has_canvas),
{
    if has_canvas {
        if size / 2 > 8 {
            size / 2
        } else {
            8
        }
    } else {
        size
    }
}

pub open spec fn opt_bytes(o: Option<Vec<u8>>) -> Option<Seq<u8>> {
    match o {
        Some(v) => Some(v@),
        None => None,
    }
}

pub open spec fn opt_badge(o: Option<(Option<Vec<u8>>, Corner)>) -> Option<(Option<Seq<u8>>, Corner)> {
    match o {
        Some((b, c)) => Some((opt_bytes(b), c)),
        None => None,
    }
}

/// The pixels of the image of edge `size` of a generated icon, from the base
/// icon as extracted at that size (`canvas`, `None` when there is none or it
/// could not be loaded) and, when the icon has a badge, the badge as
/// extracted at `badge_edge_of(size, canvas is Some)` with its corner.
/// Without a base image the badge is drawn on a transparent canvas; a size
/// with neither is skipped, and so is one whose badge failed to load when
/// the icon has no base.
pub open spec fn compose_of(
    size: int,
    canvas: Option<Seq<u8>>,
    has_base: bool,
    badge: Option<(Option<Seq<u8>>, Corner)>,
) -> Option<Seq<u8>> {
    let start: Option<(Seq<u8>, int)> = match canvas {
        Some(px) => Some((px, badge_edge_of(size, true))),
        None => if badge is Some {
            Some((Seq::new((size * size * 4) as nat, |i: int| 0u8), size))
        } else {
            None
        },
    };
    match start {
        None => None,
        Some((px, bs)) => match badge {
            Some((Some(b), corner)) => Some(over_px(px, size, b, bs, corner)),
            Some((None, _)) => if has_base {
                Some(px)
            } else {
                None
            },
            None => Some(px),
        },
    }
}

fn zeros(n: usize) -> (r: Vec<u8>)
    ensures
        r@ == Seq::new(n as nat, |i: int| 0u8),
{
    let mut r: Vec<u8> = Vec::new();
    let mut i: usize = 0;
    while i < n
        invariant
            i <= n,
            r@ == Seq::new(i as nat, |k: int| 0u8),
        decreases n - i,
    {
        r.push(0);
        i += 1;
        assert(r@ =~= Seq::new(i as nat, |k: int| 0u8));
    }
    r
}

/// The image of edge `size` of a generated icon (see `compose_of`).
pub fn compose_size(
    size: i32,
    canvas: Option<Vec<u8>>,
    has_base: bool,
    badge: Option<(Option<Vec<u8>>, Corner)>,
) -> (r: Option<Image>)
    requires
        0 <= size <= MAX_EDGE,
        (canvas is Some && (badge matches Some((Some(_), _)))) ==> 8 <= size,
        canvas matches Some(px) ==> px@.len() >= 4 * size * size,
        badge matches Some((Some(b), _)) ==> b@.len() >= 4 * badge_edge_of(size as int, canvas is Some)
            * badge_edge_of(size as int, canvas is Some),
    ensures
        opt_bytes(
            match r {
                Some(img) => Some(img.px),
                None => None,
            },
        ) == compose_of(size as int, opt_bytes(canvas), has_base, opt_badge(badge)),
        r matches Some(img) ==> img.size == size,
{
    let has_canvas = canvas.is_some();
    let bs = badge_edge(size, has_canvas);
    let mut px = match canvas {
        Some(px) => px,
        None => {
            if badge.is_none() {
                return None;
            }
            proof {
                assert(0 <= size * size * 4) by (nonlinear_arith)
                    requires
                        0 <= size,
                ;
                assert(size * size * 4 <= 23170 * 23170 * 4) by (nonlinear_arith)
                    requires
                        0 <= size <= 23170,
                ;
            }
            zeros((size * size * 4) as usize)
        },
    };
    proof {
        assert(4 * size * size == size * size * 4) by (nonlinear_arith);
    }
    match badge {
        Some((Some(b), corner)) => {
            over_at(&mut px, size, b.as_slice(), bs, corner);
        },
        Some((None, _)) => {
            if !has_base {
                return None;
            }
        },
        None => {},
    }
    Some(Image { size, px })
}

/// The .ico file of the images that came out of `compose_size`; `None` when
/// there are none, for an empty icon is not written.
pub fn icon_file(images: &[Image]) -> (r: Option<Vec<u8>>)
    requires
        encodable(images@),
    ensures
        r is None <==> images@.len() == 0,
        r matches Some(bytes) ==> bytes@ == ico_bytes(images@),
{
    if images.len() == 0 {
        None
    } else {
        Some(encode_ico(images))
    }
}


proof fn lemma_icon_sizes()
    ensures
        icon_sizes_of().len() == 6,
        forall|k: int| 0 <= k < 6 ==> 16 <= #[trigger] icon_sizes_of()[k] <= 64,
{
    assert forall|k: int| 0 <= k < 6 implies 16 <= #[trigger] icon_sizes_of()[k] <= 64 by {
        if k == 0 {
        } else if k == 1 {
        } else if k == 2 {
        } else if k == 3 {
        } else if k == 4 {
        } else {
        }
    }
}

proof fn lemma_compose_len(
    size: int,
    canvas: Option<Seq<u8>>,
    has_base: bool,
    badge: Option<(Option<Seq<u8>>, Corner)>,
)
    requires
        0 <= size,
        canvas matches Some(px) ==> px.len() >= 4 * size * size,
    ensures
        compose_of(size, canvas, has_base, badge) matches Some(px) ==> px.len() >= 4 * size * size,
{
    assert(4 * size * size == size * size * 4) by (nonlinear_arith);
    assert(0 <= size * size * 4) by (nonlinear_arith)
        requires
            0 <= size,
    ;
}

proof fn lemma_small_blocks(imgs: Seq<Image>)
    requires
        forall|k: int| 0 <= k < imgs.len() ==> 0 <= #[trigger] imgs[k].size <= 64,
    ensures
        blocks_len(imgs) <= 16936 * imgs.len(),
    decreases imgs.len(),
{
    if imgs.len() > 0 {
        let rest = imgs.drop_last();
        assert(forall|k: int| 0 <= k < rest.len() ==> rest[k] == imgs[k]);
        lemma_small_blocks(rest);
        let sz = imgs.last().size as int;
        assert(0 <= sz <= 64);
        assert(sz * sz * 4 <= 16384) by (nonlinear_arith)
            requires
                0 <= sz <= 64,
        ;
        assert(mask_row_len(sz) <= 8);
        assert(mask_row_len(sz) * sz <= 512) by (nonlinear_arith)
            requires
                0 <= sz <= 64,
                0 <= mask_row_len(sz) <= 8,
        ;
    }
}

proof fn lemma_sizes_encodable(imgs: Seq<Image>)
    requires
        imgs.len() <= 6,
        forall|k: int|
            0 <= k < imgs.len() ==> 16 <= #[trigger] imgs[k].size <= 64 && imgs[k].px@.len() >= 4
                * imgs[k].size * imgs[k].size,
    ensures
        encodable(imgs),
{
    lemma_small_blocks(imgs);
}

/// What a load at edge `size` gives once a result of the wrong length is set
/// aside: the pixels, when there are `4 * size * size` of them.
pub open spec fn checked_of(o: Option<Vec<u8>>, size: int) -> Option<Seq<u8>> {
    match o {
        Some(v) => if v@.len() == 4 * size * size {
            Some(v@)
        } else {
            None
        },
        None => None,
    }
}

/// Pixels from an extraction at edge `size`, kept only when they have the
/// length of a `size` x `size` BGRA image.
fn checked_pixels(px: Option<Vec<u8>>, size: i32) -> (r: Option<Vec<u8>>)
    requires
        0 <= size <= MAX_EDGE,
    ensures
        opt_bytes(r) == checked_of(px, size as int),
{
    proof {
        lemma_edge_square(size as int);
        assert(4 * size * size == 4 * (size * size)) by (nonlinear_arith);
    }
    match px {
        Some(v) => if v.len() == 4 * (size as usize) * (size as usize) {
            Some(v)
        } else {
            None
        },
        None => None,
    }
}

/// Whether `extract` always loads an image of the edge asked for, for the
/// edges of icons (up to 64).
pub open spec fn always_extracts<E>(extract: E) -> bool where E: Fn(&str, i32, i32) -> Option<Vec<u8>> {
    forall|p: &str, i: i32, s: i32, o: Option<Vec<u8>>|
        0 <= s <= 64 && #[trigger] call_ensures(extract, (p, i, s), o) ==> (o matches Some(v) && v@.len()
            == 4 * s * s)
}

/// Whether `shield` always locates the shield icon.
pub open spec fn always_locates<S>(shield: S) -> bool where S: Fn() -> Option<(String, i32)> {
    forall|o: Option<(String, i32)>| #[trigger] call_ensures(shield, (), o) ==> o is Some
}

/// Whether `shield` may fail to locate the shield icon.
pub open spec fn shield_may_fail<S>(shield: S) -> bool where S: Fn() -> Option<(String, i32)> {
    exists|o: Option<(String, i32)>| #[trigger] call_ensures(shield, (), o) && o is None
}

/// The edges of `imgs`, in order.
pub open spec fn image_sizes(imgs: Seq<Image>) -> Seq<i32> {
    imgs.map_values(|im: Image| im.size)
}

/// Edge and pixels of each of `imgs`, in order.
pub open spec fn image_views(imgs: Seq<Image>) -> Seq<(i32, Seq<u8>)> {
    imgs.map_values(|im: Image| (im.size, im.px@))
}

/// The file and index of the base icon of `base_spec`; `None` when the spec
/// is blank.
pub open spec fn base_loc(base_spec: Seq<char>) -> Option<(Seq<char>, i32)> {
    if trim_ws(base_spec).len() == 0 {
        None
    } else {
        Some(icon_spec_of(trim_ws(base_spec)))
    }
}

/// Whether the badge is the system UAC shield.
pub open spec fn is_shield(badge: Option<(&str, Corner)>) -> bool {
    badge matches Some((b, _)) && eq_ignore_ascii_case(b@, "uac"@)
}

/// The file, index and corner of the badge, where `so` is the shield's
/// location (read for the shield badge only); `None` without a badge, or
/// for the shield badge when the shield was not located.
pub open spec fn badge_loc(badge: Option<(&str, Corner)>, so: Option<(String, i32)>) -> Option<
    (Seq<char>, i32, Corner),
> {
    match badge {
        None => None,
        Some((b, c)) => if eq_ignore_ascii_case(b@, "uac"@) {
            match so {
                Some((p, i)) => Some((p@, i, c)),
                None => None,
            }
        } else {
            Some((icon_spec_of(b@).0, icon_spec_of(b@).1, c))
        },
    }
}

/// Whether `o` is a possible result of `extract` for the icon at `path`,
/// `index`, extracted at edge `size`.
pub open spec fn loaded<E>(extract: E, path: Seq<char>, index: i32, size: i32, o: Option<Vec<u8>>) -> bool where
    E: Fn(&str, i32, i32) -> Option<Vec<u8>>,
 {
    exists|p: &str| p@ == path && #[trigger] call_ensures(extract, (p, index, size), o)
}

/// The base pixels of the image of edge `size`, from the base load `out.0`.
pub open spec fn size_canvas(
    base: Option<(Seq<char>, i32)>,
    size: i32,
    out: (Option<Vec<u8>>, Option<Vec<u8>>),
) -> Option<Seq<u8>> {
    if base is Some {
        checked_of(out.0, size as int)
    } else {
        None
    }
}

/// Whether `out` holds the loads made for the image of edge `size`: the base
/// icon (when there is one) at `size`, then the badge (when there is one) at
/// `badge_edge_of(size, ..)`, half size over a loaded base.
pub open spec fn size_loaded<E>(
    extract: E,
    base: Option<(Seq<char>, i32)>,
    bdg: Option<(Seq<char>, i32, Corner)>,
    size: i32,
    out: (Option<Vec<u8>>, Option<Vec<u8>>),
) -> bool where E: Fn(&str, i32, i32) -> Option<Vec<u8>> {
    let edge = badge_edge_of(size as int, size_canvas(base, size, out) is Some) as i32;
    &&& match base {
        Some((p, i)) => loaded(extract, p, i, size, out.0),
        None => out.0 is None,
    }
    &&& match bdg {
        Some((p, i, _)) => loaded(extract, p, i, edge, out.1),
        None => out.1 is None,
    }
}

/// The pixels of the image of edge `size` made from the loads `out`
/// (see `compose_of`).
pub open spec fn size_image(
    base: Option<(Seq<char>, i32)>,
    bdg: Option<(Seq<char>, i32, Corner)>,
    size: i32,
    out: (Option<Vec<u8>>, Option<Vec<u8>>),
) -> Option<Seq<u8>> {
    let canvas = size_canvas(base, size, out);
    let badge = match bdg {
        Some((_, _, c)) => Some((checked_of(out.1, badge_edge_of(size as int, canvas is Some)), c)),
        None => None,
    };
    compose_of(size as int, canvas, base is Some, badge)
}

/// The images (edge and pixels) made for `sizes` from the loads `outs`, one
/// per size, in the order of `sizes`; a size that makes no image is left out.
pub open spec fn made_images(
    base: Option<(Seq<char>, i32)>,
    bdg: Option<(Seq<char>, i32, Corner)>,
    sizes: Seq<i32>,
    outs: Seq<(Option<Vec<u8>>, Option<Vec<u8>>)>,
) -> Seq<(i32, Seq<u8>)>
    decreases sizes.len(),
{
    if sizes.len() == 0 {
        Seq::empty()
    } else {
        let prev = made_images(base, bdg, sizes.drop_last(), outs.drop_last());
        match size_image(base, bdg, sizes.last(), outs.last()) {
            Some(px) => prev.push((sizes.last(), px)),
            None => prev,
        }
    }
}

/// Whether `so` and `outs` are one run of the loads of an icon: the shield's
/// location (asked for the shield badge only, and found), and for each of
/// `icon_sizes_of()` the base and badge loads of `size_loaded`.
pub open spec fn icon_loads<S, E>(
    base_spec: &str,
    badge: Option<(&str, Corner)>,
    shield: S,
    extract: E,
    so: Option<(String, i32)>,
    outs: Seq<(Option<Vec<u8>>, Option<Vec<u8>>)>,
) -> bool where S: Fn() -> Option<(String, i32)>, E: Fn(&str, i32, i32) -> Option<Vec<u8>> {
    &&& is_shield(badge) ==> call_ensures(shield, (), so) && so is Some
    &&& outs.len() == icon_sizes_of().len()
    &&& forall|k: int|
        0 <= k < outs.len() ==> size_loaded(
            extract,
            base_loc(base_spec@),
            badge_loc(badge, so),
            icon_sizes_of()[k],
            #[trigger] outs[k],
        )
}

/// The images that the loads `so`, `outs` make, smallest first.
pub open spec fn loads_images(
    base_spec: &str,
    badge: Option<(&str, Corner)>,
    so: Option<(String, i32)>,
    outs: Seq<(Option<Vec<u8>>, Option<Vec<u8>>)>,
) -> Seq<(i32, Seq<u8>)> {
    made_images(base_loc(base_spec@), badge_loc(badge, so), icon_sizes_of(), outs)
}

/// Whether `imgs` are the images, ready to encode, that one run `so`, `outs`
/// of the loads of an icon makes.
pub open spec fn built_from<S, E>(
    base_spec: &str,
    badge: Option<(&str, Corner)>,
    shield: S,
    extract: E,
    so: Option<(String, i32)>,
    outs: Seq<(Option<Vec<u8>>, Option<Vec<u8>>)>,
    imgs: Seq<Image>,
) -> bool where S: Fn() -> Option<(String, i32)>, E: Fn(&str, i32, i32) -> Option<Vec<u8>> {
    &&& icon_loads(base_spec, badge, shield, extract, so, outs)
    &&& image_views(imgs) == loads_images(base_spec, badge, so, outs)
    &&& encodable(imgs)
}

pub open spec fn loc_view(o: Option<(String, i32)>) -> Option<(Seq<char>, i32)> {
    match o {
        Some((p, i)) => Some((p@, i)),
        None => None,
    }
}

pub open spec fn badge_at_view(o: Option<(String, i32, Corner)>) -> Option<(Seq<char>, i32, Corner)> {
    match o {
        Some((p, i, c)) => Some((p@, i, c)),
        None => None,
    }
}

/// Builds the .ico file of the icon `base_spec` ("path,index", blank for
/// none) with an optional badge (spec and corner). `shield` locates the
/// system UAC shield; `extract` loads the icon at a file and index at an
/// edge as top-down straight-alpha BGRA, `None` when it cannot (a result of
/// the wrong length counts as such). Following `plan_icon`, for each of
/// `icon_sizes()` the base is extracted at that size and the badge at
/// `badge_edge`, and `compose_size` makes the image. The file holds the
/// images that one run of these loads made; `None` when there is nothing to
/// draw, the shield cannot be located, or no size made an image. When there
/// is something to draw and every load succeeds, the file holds an image of
/// every size.
pub fn generate_icon<S, E>(base_spec: &str, badge: Option<(&str, Corner)>, shield: S, extract: E) -> (r:
    Option<Vec<u8>>) where S: Fn() -> Option<(String, i32)>, E: Fn(&str, i32, i32) -> Option<Vec<u8>>
    requires
        shield.requires(()),
        forall|p: &str, i: i32, s: i32| #[trigger] extract.requires((p, i, s)),
    ensures
        trim_ws(base_spec@).len() == 0 && badge is None ==> r is None,
        r matches Some(bytes) ==> exists|
            so: Option<(String, i32)>,
            outs: Seq<(Option<Vec<u8>>, Option<Vec<u8>>)>,
            imgs: Seq<Image>,
        |
            #[trigger] built_from(base_spec, badge, shield, extract, so, outs, imgs) && 0 < imgs.len()
                && bytes@ == ico_bytes(imgs),
        r is None ==> {
            ||| trim_ws(base_spec@).len() == 0 && badge is None
            ||| is_shield(badge) && shield_may_fail(shield)
            ||| exists|so: Option<(String, i32)>, outs: Seq<(Option<Vec<u8>>, Option<Vec<u8>>)>|
                #[trigger] icon_loads(base_spec, badge, shield, extract, so, outs) && loads_images(
                    base_spec,
                    badge,
                    so,
                    outs,
                ).len() == 0
        },
        ({
            &&& (trim_ws(base_spec@).len() != 0 || badge is Some)
            &&& always_extracts(extract)
            &&& is_shield(badge) ==> always_locates(shield)
        }) ==> (r matches Some(bytes) && exists|imgs: Seq<Image>|
            encodable(imgs) && image_sizes(imgs) == icon_sizes_of() && bytes@ == #[trigger] ico_bytes(imgs)),
{
    let ghost full = {
        &&& (trim_ws(base_spec@).len() != 0 || badge is Some)
        &&& always_extracts(extract)
        &&& is_shield(badge) ==> always_locates(shield)
    };
    let plan = match plan_icon(base_spec, badge) {
        Some(p) => p,
        None => return None,
    };
    let ghost bl = base_loc(base_spec@);
    assert(bl == loc_view(plan.base));
    let ghost mut so: Option<(String, i32)> = None;
    let badge_at: Option<(String, i32, Corner)> = match plan.badge {
        Some((BadgeSource::Shield, corner)) => {
            let located = shield();
            proof {
                so = located;
            }
            match located {
                Some((path, index)) => Some((path, index, corner)),
                None => {
                    assert(call_ensures(shield, (), located) && located is None);
                    return None;
                },
            }
        },
        Some((BadgeSource::File { path, index }, corner)) => Some((path, index, corner)),
        None => None,
    };
    let ghost bdl = badge_loc(badge, so);
    assert(bdl == badge_at_view(badge_at));
    assert(is_shield(badge) ==> call_ensures(shield, (), so) && so is Some);
    assert(full ==> (plan.base is Some || badge_at is Some));
    let sizes = icon_sizes();
    let mut images: Vec<Image> = Vec::new();
    let ghost mut outs: Seq<(Option<Vec<u8>>, Option<Vec<u8>>)> = Seq::empty();
    let mut i: usize = 0;
    while i < sizes.len()
        invariant
            sizes@ == icon_sizes_of(),
            i <= sizes@.len(),
            images@.len() <= i,
            forall|p: &str, ix: i32, sz: i32| #[trigger] extract.requires((p, ix, sz)),
            forall|k: int|
                0 <= k < images@.len() ==> icon_sizes_of().contains(#[trigger] images@[k].size)
                    && 16 <= images@[k].size <= 64 && images@[k].px@.len() >= 4 * images@[k].size
                    * images@[k].size,
            full ==> always_extracts(extract),
            full ==> (plan.base is Some || badge_at is Some),
            full ==> image_sizes(images@) == icon_sizes_of().take(i as int),
            bl == loc_view(plan.base),
            bdl == badge_at_view(badge_at),
            outs.len() == i,
            forall|k: int|
                0 <= k < i ==> size_loaded(extract, bl, bdl, icon_sizes_of()[k], #[trigger] outs[k]),
            image_views(images@) == made_images(bl, bdl, icon_sizes_of().take(i as int), outs),
        decreases sizes@.len() - i,
    {
        let size = sizes[i];
        proof {
            lemma_icon_sizes();
        }
        assert(icon_sizes_of().contains(size)) by {
            assert(icon_sizes_of()[i as int] == size);
        }
        assert(16 <= size <= 64);
        let ghost mut o0: Option<Vec<u8>> = None;
        let canvas = match &plan.base {
            Some((path, index)) => {
                let p = path.as_str();
                let got = extract(p, *index, size);
                proof {
                    o0 = got;
                    assert(loaded(extract, path@, *index, size, o0));
                }
                checked_pixels(got, size)
            },
            None => None,
        };
        assert(opt_bytes(canvas) == size_canvas(bl, size, (o0, None)));
        assert(full ==> (canvas is Some <==> plan.base is Some));
        let bs = badge_edge(size, canvas.is_some());
        let ghost mut o1: Option<Vec<u8>> = None;
        let badge_px = match &badge_at {
            Some((path, index, corner)) => {
                let p = path.as_str();
                let got = extract(p, *index, bs);
                proof {
                    o1 = got;
                    assert(loaded(extract, path@, *index, bs, o1));
                }
                Some((checked_pixels(got, bs), *corner))
            },
            None => None,
        };
        let ghost out = (o0, o1);
        assert(size_canvas(bl, size, out) == size_canvas(bl, size, (o0, None)));
        assert(size_loaded(extract, bl, bdl, size, out));
        assert(full ==> (badge_px matches Some((b, _)) ==> b is Some));
        proof {
            assert(4 * size * size == 4 * (size * size)) by (nonlinear_arith);
        }
        let ghost before = images@;
        let made = compose_size(size, canvas, plan.base.is_some(), badge_px);
        assert(opt_bytes(
            match made {
                Some(img) => Some(img.px),
                None => None,
            },
        ) == size_image(bl, bdl, size, out));
        match made {
            Some(img) => {
                proof {
                    lemma_compose_len(size as int, opt_bytes(canvas), plan.base is Some, opt_badge(badge_px));
                }
                images.push(img);
                assert(image_sizes(images@) =~= image_sizes(before).push(size));
                assert(image_views(images@) =~= image_views(before).push((size, img.px@)));
            },
            None => {
                assert(!full);
            },
        }
        proof {
            let ghost prev_outs = outs;
            outs = outs.push(out);
            assert(outs.drop_last() =~= prev_outs);
            assert(icon_sizes_of().take(i + 1).drop_last() =~= icon_sizes_of().take(i as int));
            assert(icon_sizes_of().take(i + 1).last() == size);
            assert(outs.last() == out);
        }
        assert(icon_sizes_of().take(i + 1) =~= icon_sizes_of().take(i as int).push(size));
        i += 1;
    }
    proof {
        lemma_sizes_encodable(images@);
        assert(icon_sizes_of().take(6) =~= icon_sizes_of());
        assert(icon_loads(base_spec, badge, shield, extract, so, outs));
    }
    match icon_file(images.as_slice()) {
        Some(bytes) => {
            assert(bytes@ == ico_bytes(images@));
            assert(built_from(base_spec, badge, shield, extract, so, outs, images@));
            Some(bytes)
        },
        None => {
            assert(image_views(images@).len() == 0);
            None
        },
    }
}


// ------------------------------------------------------------------ laws

proof fn lemma_made_images_increase(
    base: Option<(Seq<char>, i32)>,
    bdg: Option<(Seq<char>, i32, Corner)>,
    sizes: Seq<i32>,
    outs: Seq<(Option<Vec<u8>>, Option<Vec<u8>>)>,
)
    requires
        forall|i: int, j: int| 0 <= i < j < sizes.len() ==> sizes[i] < sizes[j],
    ensures
        forall|k: int|
            0 <= k < made_images(base, bdg, sizes, outs).len() ==> sizes.contains(
                #[trigger] made_images(base, bdg, sizes, outs)[k].0,
            ),
        forall|i: int, j: int|
            0 <= i < j < made_images(base, bdg, sizes, outs).len() ==> made_images(
                base,
                bdg,
                sizes,
                outs,
            )[i].0 < made_images(base, bdg, sizes, outs)[j].0,
    decreases sizes.len(),
{
    if sizes.len() > 0 {
        let pre = sizes.drop_last();
        let prev = made_images(base, bdg, pre, outs.drop_last());
        assert forall|i: int, j: int| 0 <= i < j < pre.len() implies pre[i] < pre[j] by {
            assert(pre[i] == sizes[i] && pre[j] == sizes[j]);
        }
        lemma_made_images_increase(base, bdg, pre, outs.drop_last());
        assert forall|k: int| 0 <= k < prev.len() implies #[trigger] prev[k].0 < sizes.last()
            && sizes.contains(prev[k].0) by {
            assert(pre.contains(prev[k].0));
            let x = choose|x: int| 0 <= x < pre.len() && pre[x] == prev[k].0;
            assert(sizes[x] == pre[x]);
        }
        assert(sizes.contains(sizes.last())) by {
            assert(sizes[sizes.len() - 1] == sizes.last());
        }
    }
}

/// The images of a generated icon come out smallest first, each of one of
/// the icon sizes, and no size twice.
pub proof fn icon_images_increase(
    base_spec: &str,
    badge: Option<(&str, Corner)>,
    so: Option<(String, i32)>,
    outs: Seq<(Option<Vec<u8>>, Option<Vec<u8>>)>,
)
    ensures
        forall|k: int|
            0 <= k < loads_images(base_spec, badge, so, outs).len() ==> icon_sizes_of().contains(
                #[trigger] loads_images(base_spec, badge, so, outs)[k].0,
            ),
        forall|i: int, j: int|
            0 <= i < j < loads_images(base_spec, badge, so, outs).len() ==> loads_images(
                base_spec,
                badge,
                so,
                outs,
            )[i].0 < loads_images(base_spec, badge, so, outs)[j].0,
{
    let sizes = icon_sizes_of();
    assert forall|i: int, j: int| 0 <= i < j < sizes.len() implies sizes[i] < sizes[j] by {
        assert(sizes[0] == 16 && sizes[1] == 20 && sizes[2] == 24 && sizes[3] == 32 && sizes[4] == 48
            && sizes[5] == 64);
    }
    lemma_made_images_increase(base_loc(base_spec@), badge_loc(badge, so), sizes, outs);
}


/// A fully transparent badge changes nothing.
pub proof fn transparent_badge_changes_nothing(
    dst: Seq<u8>,
    ds: int,
    src: Seq<u8>,
    ss: int,
    corner: Corner,
)
    requires
        0 <= ss <= ds,
        src.len() >= 4 * ss * ss,
        forall|p: int| 0 <= p < ss * ss ==> #[trigger] src[4 * p + 3] == 0,
    ensures
        over_px(dst, ds, src, ss, corner) == dst,
{
    let (ox, oy) = corner_offset(corner, ds, ss);
    let out = over_px(dst, ds, src, ss, corner);
    assert forall|k: int| 0 <= k < dst.len() implies #[trigger] out[k] == dst[k] by {
        let p = k / 4;
        let r = p / ds;
        let c = p % ds;
        if k < 4 * ds * ds && oy <= r < oy + ss && ox <= c < ox + ss {
            let q = (r - oy) * ss + (c - ox);
            lemma_index_bound(r - oy, c - ox, ss);
            assert(src[4 * q + 3] == 0);
            lemma_decompose(k, ds);
        }
    }
    assert(out =~= dst);
}

/// Under an opaque badge pixel the result is the badge pixel.
pub proof fn opaque_badge_pixel_covers(
    dst: Seq<u8>,
    ds: int,
    src: Seq<u8>,
    ss: int,
    corner: Corner,
    x: int,
    y: int,
    ch: int,
)
    requires
        0 <= ss <= ds,
        src.len() >= 4 * ss * ss,
        dst.len() >= 4 * ds * ds,
        0 <= x < ss,
        0 <= y < ss,
        0 <= ch < 4,
        src[4 * (y * ss + x) + 3] == 255,
    ensures
        ({
            let (ox, oy) = corner_offset(corner, ds, ss);
            over_px(dst, ds, src, ss, corner)[4 * ((y + oy) * ds + (x + ox)) + ch] == src[4 * (y * ss
                + x) + ch]
        }),
{
    let (ox, oy) = corner_offset(corner, ds, ss);
    let p = (y + oy) * ds + (x + ox);
    let k = 4 * p + ch;
    lemma_index_bound(y + oy, x + ox, ds);
    assert(k / 4 == p);
    assert(k % 4 == ch);
    assert(p / ds == y + oy && p % ds == x + ox) by (nonlinear_arith)
        requires
            p == (y + oy) * ds + (x + ox),
            0 <= x + ox < ds,
            0 <= y + oy,
    ;
}

/// The .ico file of images with all their pixels has the length that its
/// directory promises: a 6-byte header, 16 bytes per entry, and each
/// image's data.
pub proof fn ico_length(imgs: Seq<Image>)
    requires
        forall|i: int|
            0 <= i < imgs.len() ==> 0 <= #[trigger] imgs[i].size && imgs[i].px@.len() >= 4
                * imgs[i].size * imgs[i].size,
    ensures
        ico_bytes(imgs).len() == ico_len(imgs),
{
    lemma_blocks_length(imgs);
    lemma_entries_length(imgs, 6 + 16 * imgs.len() as int);
}

proof fn lemma_blocks_length(imgs: Seq<Image>)
    requires
        forall|i: int|
            0 <= i < imgs.len() ==> 0 <= #[trigger] imgs[i].size && imgs[i].px@.len() >= 4
                * imgs[i].size * imgs[i].size,
    ensures
        blocks(imgs).len() == blocks_len(imgs),
    decreases imgs.len(),
{
    if imgs.len() > 0 {
        let rest = imgs.drop_last();
        assert(forall|k: int| 0 <= k < rest.len() ==> rest[k] == imgs[k]);
        lemma_blocks_length(rest);
        let last = imgs[imgs.len() - 1];
        assert(imgs.last() == last);
        lemma_block_len(last.size as int, last.px@);
    }
}

proof fn lemma_entries_length(imgs: Seq<Image>, base: int)
    ensures
        dir_entries(imgs, base).len() == 16 * imgs.len(),
    decreases imgs.len(),
{
    if imgs.len() > 0 {
        lemma_entries_length(imgs.drop_last(), base);
    }
}

/// With no base icon the badge stands alone at full size: where the badge
/// is transparent the image is transparent black, elsewhere it is the
/// badge's pixel.
pub proof fn lone_badge_is_the_badge(size: int, b: Seq<u8>, corner: Corner)
    requires
        0 < size,
        b.len() == 4 * size * size,
    ensures
        compose_of(size, None, false, Some((Some(b), corner))) matches Some(px) && px.len() == b.len()
            && forall|k: int|
            0 <= k < b.len() ==> #[trigger] px[k] == if b[4 * (k / 4) + 3] == 0 {
                0u8
            } else {
                b[k]
            },
{
    let zeros = Seq::new((size * size * 4) as nat, |i: int| 0u8);
    assert(4 * size * size == size * size * 4) by (nonlinear_arith);
    let out = over_px(zeros, size, b, size, corner);
    assert(corner_offset(corner, size, size) == (0int, 0int));
    assert forall|k: int| 0 <= k < b.len() implies #[trigger] out[k] == if b[4 * (k / 4) + 3] == 0 {
        0u8
    } else {
        b[k]
    } by {
        lemma_decompose(k, size);
        let p = k / 4;
        assert(p == (p / size) * size + p % size);
    }
}


} // verus!
