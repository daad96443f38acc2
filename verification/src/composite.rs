//! The composite image: its planes as stored, and their combination into
//! RGBA pixels.

use crate::additional_info::byte_or;
use crate::types::{ColorMode, PixelData};
use vstd::prelude::*;

verus! {

/// The 8-bit sample `index` of a plane at 8 or 16 bits: the byte itself,
/// or the high byte of a 16-bit sample; 0 past the plane's end or at other
/// depths.
pub open spec fn plane_sample(plane: Seq<u8>, index: int, depth: u16) -> u8 {
    if depth == 8 {
        byte_or(plane, index, 0)
    } else if depth == 16 {
        byte_or(plane, 2 * index, 0)
    } else {
        0
    }
}

/// The 8-bit value of sample `index` of a plane at an integer depth.
/// 32-bit planes hold floating-point samples and are not taken here.
pub fn sample_to_u8(channel: &[u8], index: usize, depth: u16) -> (r: u8)
    requires
        depth != 32,
        2 * index <= usize::MAX,
    ensures
        r == plane_sample(channel@, index as int, depth),
{
    if depth == 8 {
        if index < channel.len() {
            channel[index]
        } else {
            0
        }
    } else if depth == 16 {
        let start = index * 2;
        if start < channel.len() {
            channel[start]
        } else {
            0
        }
    } else {
        0
    }
}

/// The 8-bit samples of the first `n` pixels of a plane at 8 or 16 bits.
pub open spec fn plane_samples(plane: Seq<u8>, n: int, depth: u16) -> Seq<u8> {
    Seq::new(n as nat, |i: int| plane_sample(plane, i, depth))
}

/// The 8-bit samples of the first `n` pixels of a plane at 8 or 16 bits.
pub fn samples_of_plane(plane: &[u8], n: usize, depth: u16) -> (r: Vec<u8>)
    requires
        depth != 32,
        2 * n <= usize::MAX,
    ensures
        r@ == plane_samples(plane@, n as int, depth),
{
    let mut out: Vec<u8> = Vec::new();
    let mut i: usize = 0;
    while i < n
        invariant
            depth != 32,
            2 * n <= usize::MAX,
            i <= n,
            out@ == plane_samples(plane@, i as int, depth),
        decreases n - i,
    {
        out.push(sample_to_u8(plane, i, depth));
        i += 1;
        assert(out@ =~= plane_samples(plane@, i as int, depth));
    }
    out
}

/// The RGB value of a CMYK ink and black pair: 255 scaled by the white
/// left by both.
pub open spec fn cmyk_to_rgb(ink: int, black: int) -> int {
    (255 * (255 - ink) * (255 - black)) / 65025int
}

/// Plane `c`, or no bytes when there are fewer planes.
pub open spec fn plane_or_none(planes: Seq<Seq<u8>>, c: int) -> Seq<u8> {
    if 0 <= c < planes.len() {
        planes[c]
    } else {
        Seq::<u8>::empty()
    }
}

/// Component `k` of pixel `i` of the composite: CMYK converted to RGB with
/// inverted extra alpha, gray into red, other modes' first four channels
/// in order; alpha is opaque when there is no alpha channel.
pub open spec fn composite_component(
    samples: Seq<Seq<u8>>,
    planes: Seq<Seq<u8>>,
    mode: ColorMode,
    total: int,
    i: int,
    k: int,
) -> u8 {
    if mode == ColorMode::CMYK {
        if k < 3 {
            cmyk_to_rgb(
                byte_or(plane_or_none(planes, k), i, 0) as int,
                byte_or(plane_or_none(planes, 3), i, 0) as int,
            ) as u8
        } else if total <= 4 {
            255
        } else {
            (255 - samples[4][i]) as u8
        }
    } else if mode == ColorMode::Grayscale {
        if k == 0 {
            samples[0][i]
        } else if k == 3 {
            if total <= 3 {
                255
            } else {
                samples[1][i]
            }
        } else {
            0
        }
    } else {
        if k == 3 && total <= 3 {
            255
        } else if k < total {
            samples[k][i]
        } else {
            0
        }
    }
}

/// The RGBA bytes of `n` composite pixels.
///
/// What the combination means for each color mode is stated by
/// `law_cmyk_pixels`, `law_rgb_pixels` and `law_gray_pixels`.
pub open spec fn composite_rgba(
    samples: Seq<Seq<u8>>,
    planes: Seq<Seq<u8>>,
    mode: ColorMode,
    total: int,
    n: int,
) -> Seq<u8> {
    Seq::new((4 * n) as nat, |j: int| composite_component(samples, planes, mode, total, j / 4, j % 4))
}

/// The red samples copied into green and blue, as a gray image shows.
pub open spec fn gray_spread(data: Seq<u8>, n: int) -> Seq<u8> {
    Seq::new(
        data.len(),
        |j: int|
            if j < 4 * n && (j % 4 == 1 || j % 4 == 2) {
                data[j - j % 4]
            } else {
                data[j]
            },
    )
}

/// Copies the red sample of each of `n` pixels into green and blue.
pub fn spread_gray(data: &mut Vec<u8>, n: usize)
    requires
        4 * n <= old(data)@.len(),
    ensures
        final(data)@ == gray_spread(old(data)@, n as int),
{
    let ghost orig = old(data)@;
    let len = data.len();
    let mut i: usize = 0;
    while i < n
        invariant
            len == orig.len(),
            4 * n <= orig.len(),
            i <= n,
            data@.len() == orig.len(),
            forall|j: int|
                0 <= j < data@.len() ==> #[trigger] data@[j] == (if j < 4 * i && (j % 4 == 1 || j
                    % 4 == 2) {
                    orig[j - j % 4]
                } else {
                    orig[j]
                }),
        decreases n - i,
    {
        let v = data[4 * i];
        data.set(4 * i + 1, v);
        data.set(4 * i + 2, v);
        i += 1;
    }
    assert(data@ =~= gray_spread(orig, n as int));
}

/// Combines the composite planes into RGBA: `samples[c]` holds the 8-bit
/// samples of channel `c`, `planes[c]` its stored bytes, from which CMYK
/// takes its inks.
pub fn compose_rgba(
    samples: &Vec<Vec<u8>>,
    planes: &Vec<Vec<u8>>,
    mode: ColorMode,
    total: usize,
    n: usize,
) -> (r: Vec<u8>)
    requires
        4 * n <= usize::MAX,
        samples@.len() == total,
        planes@.len() == total,
        forall|c: int| 0 <= c < total ==> #[trigger] samples@[c]@.len() == n,
        mode == ColorMode::Grayscale ==> total >= 1,
    ensures
        r@ == composite_rgba(samples.deep_view(), planes.deep_view(), mode, total as int, n as int),
{
    let ghost ss = samples.deep_view();
    let ghost ps = planes.deep_view();
    let mut rgba: Vec<u8> = Vec::new();
    let mut i: usize = 0;
    while i < n
        invariant
            4 * n <= usize::MAX,
            i <= n,
            samples@.len() == total,
            planes@.len() == total,
            ss == samples.deep_view(),
            ps == planes.deep_view(),
            forall|c: int| 0 <= c < total ==> #[trigger] samples@[c]@.len() == n,
            mode == ColorMode::Grayscale ==> total >= 1,
            rgba@ == composite_rgba(ss, ps, mode, total as int, i as int),
        decreases n - i,
    {
        let mut px: [u8; 4] = [0, 0, 0, 0];
        let mut k: usize = 0;
        while k < 4
            invariant
                k <= 4,
                i < n,
                samples@.len() == total,
                planes@.len() == total,
                ss == samples.deep_view(),
                ps == planes.deep_view(),
                forall|c: int| 0 <= c < total ==> #[trigger] samples@[c]@.len() == n,
                mode == ColorMode::Grayscale ==> total >= 1,
                forall|q: int| 0 <= q < k ==> px@[q] == composite_component(
                    ss,
                    ps,
                    mode,
                    total as int,
                    i as int,
                    q,
                ),
            decreases 4 - k,
        {
            let v: u8 = if mode == ColorMode::CMYK {
                if k < 3 {
                    let ink = if k < total && i < planes[k].len() {
                        planes[k][i] as u32
                    } else {
                        0
                    };
                    let black = if 3 < total && i < planes[3].len() {
                        planes[3][i] as u32
                    } else {
                        0
                    };
                    let a = 255 - ink;
                    let b = 255 - black;
                    assert(255 * a * b <= 255 * 65025) by (nonlinear_arith)
                        requires
                            a <= 255,
                            b <= 255,
                    ;
                    assert((255 * a * b) / 65025 <= 255) by (nonlinear_arith)
                        requires
                            255 * a * b <= 255 * 65025,
                            a >= 0,
                            b >= 0,
                    ;
                    ((255 * a * b) / 65025) as u8
                } else if total <= 4 {
                    255
                } else {
                    255 - samples[4][i]
                }
            } else if mode == ColorMode::Grayscale {
                if k == 0 {
                    samples[0][i]
                } else if k == 3 {
                    if total <= 3 {
                        255
                    } else {
                        samples[1][i]
                    }
                } else {
                    0
                }
            } else {
                if k == 3 && total <= 3 {
                    255
                } else if k < total {
                    samples[k][i]
                } else {
                    0
                }
            };
            proof {
                if mode == ColorMode::CMYK && k < 3 {
                    if k < total {
                        assert(ps[k as int] == planes@[k as int]@);
                    }
                    if 3 < total {
                        assert(ps[3] == planes@[3]@);
                    }
                }
                if k < total {
                    assert(ss[k as int] == samples@[k as int]@);
                }
                if total > 4 {
                    assert(ss[4] == samples@[4]@);
                }
                if total > 1 {
                    assert(ss[1] == samples@[1]@);
                }
                if total > 0 {
                    assert(ss[0] == samples@[0]@);
                }
            }
            px[k] = v;
            k += 1;
        }
        let ghost before = rgba@;
        rgba.push(px[0]);
        rgba.push(px[1]);
        rgba.push(px[2]);
        rgba.push(px[3]);
        i += 1;
        assert(rgba@ =~= composite_rgba(ss, ps, mode, total as int, i as int)) by {
            assert forall|j: int| 0 <= j < 4 * i implies #[trigger] rgba@[j] == composite_rgba(
                ss,
                ps,
                mode,
                total as int,
                i as int,
            )[j] by {
                if j < 4 * (i - 1) {
                    assert(rgba@[j] == before[j]);
                } else {
                    assert(j / 4 == i - 1);
                }
            }
        }
    }
    rgba
}

/// Builds the composite's pixel data from its channels' samples and
/// stored planes; a gray image shows its gray in red, green and blue.
pub fn composite_pixels(
    samples: &Vec<Vec<u8>>,
    planes: &Vec<Vec<u8>>,
    mode: ColorMode,
    total: usize,
    width: usize,
    height: usize,
) -> (r: PixelData)
    requires
        4 * width * height <= usize::MAX,
        samples@.len() == total,
        planes@.len() == total,
        forall|c: int| 0 <= c < total ==> #[trigger] samples@[c]@.len() == width * height,
        mode == ColorMode::Grayscale ==> total >= 1,
    ensures
        r.width == width,
        r.height == height,
        r.data@ == (if mode == ColorMode::Grayscale {
            gray_spread(
                composite_rgba(
                    samples.deep_view(),
                    planes.deep_view(),
                    mode,
                    total as int,
                    width * height,
                ),
                width * height,
            )
        } else {
            composite_rgba(
                samples.deep_view(),
                planes.deep_view(),
                mode,
                total as int,
                width * height,
            )
        }),
{
    assert(width * height <= 4 * width * height) by (nonlinear_arith);
    let n = width * height;
    assert(4 * n <= usize::MAX) by (nonlinear_arith)
        requires
            n == width * height,
            4 * width * height <= usize::MAX,
    ;
    let mut data = compose_rgba(samples, planes, mode, total, n);
    if mode == ColorMode::Grayscale {
        spread_gray(&mut data, n);
    }
    PixelData { data, width, height }
}

/// A CMYK composite pixel: red, green and blue are each 255 scaled by the
/// white left by the pixel's cyan, magenta or yellow ink and by its black
/// ink (plane 3); full black ink gives a black pixel.  Alpha is opaque
/// unless a fifth (alpha) channel is present, whose value is inverted.
pub proof fn law_cmyk_pixels(
    samples: Seq<Seq<u8>>,
    planes: Seq<Seq<u8>>,
    total: int,
    n: int,
    i: int,
    k: int,
)
    requires
        0 <= i < n,
        0 <= k < 3,
        4 <= total,
        planes.len() >= 4,
        i < planes[k].len(),
        i < planes[3].len(),
    ensures
        composite_rgba(samples, planes, ColorMode::CMYK, total, n)[4 * i + k] as int == (255 * (255
            - planes[k][i]) * (255 - planes[3][i])) / 65025,
        planes[3][i] == 255 ==> composite_rgba(samples, planes, ColorMode::CMYK, total, n)[4 * i
            + k] == 0,
        planes[k][i] == 0 && planes[3][i] == 0 ==> composite_rgba(
            samples,
            planes,
            ColorMode::CMYK,
            total,
            n,
        )[4 * i + k] == 255,
        total == 4 ==> composite_rgba(samples, planes, ColorMode::CMYK, total, n)[4 * i + 3] == 255,
        total > 4 && samples.len() > 4 && i < samples[4].len() ==> composite_rgba(
            samples,
            planes,
            ColorMode::CMYK,
            total,
            n,
        )[4 * i + 3] == 255 - samples[4][i],
{
    let ink = planes[k][i] as int;
    let black = planes[3][i] as int;
    assert((4 * i + k) / 4 == i && (4 * i + k) % 4 == k);
    assert((4 * i + 3) / 4 == i && (4 * i + 3) % 4 == 3);
    let v = (255 * (255 - ink) * (255 - black)) / 65025;
    assert(0 <= v <= 255) by (nonlinear_arith)
        requires
            0 <= ink <= 255,
            0 <= black <= 255,
            v == (255 * (255 - ink) * (255 - black)) / 65025,
    ;
    assert(black == 255 ==> v == 0) by (nonlinear_arith)
        requires
            v == (255 * (255 - ink) * (255 - black)) / 65025,
    ;
    assert(ink == 0 && black == 0 ==> v == 255) by (nonlinear_arith)
        requires
            v == (255 * (255 - ink) * (255 - black)) / 65025,
    ;
}

/// An RGB composite pixel (and one of any mode other than CMYK and
/// grayscale) takes red, green and blue from the first three channels and
/// alpha from the fourth, opaque without one.
pub proof fn law_rgb_pixels(
    samples: Seq<Seq<u8>>,
    planes: Seq<Seq<u8>>,
    mode: ColorMode,
    total: int,
    n: int,
    i: int,
)
    requires
        mode != ColorMode::CMYK,
        mode != ColorMode::Grayscale,
        0 <= i < n,
        3 <= total,
        samples.len() >= total,
        forall|c: int| 0 <= c < total ==> i < #[trigger] samples[c].len(),
    ensures
        composite_rgba(samples, planes, mode, total, n)[4 * i] == samples[0][i],
        composite_rgba(samples, planes, mode, total, n)[4 * i + 1] == samples[1][i],
        composite_rgba(samples, planes, mode, total, n)[4 * i + 2] == samples[2][i],
        composite_rgba(samples, planes, mode, total, n)[4 * i + 3] == (if total == 3 {
            255
        } else {
            samples[3][i]
        }),
{
    assert((4 * i) / 4 == i && (4 * i) % 4 == 0);
    assert((4 * i + 1) / 4 == i && (4 * i + 1) % 4 == 1);
    assert((4 * i + 2) / 4 == i && (4 * i + 2) % 4 == 2);
    assert((4 * i + 3) / 4 == i && (4 * i + 3) % 4 == 3);
}

/// A gray composite pixel, once its gray is spread, shows the gray sample
/// in red, green and blue, with the second channel as alpha, opaque
/// without one.
pub proof fn law_gray_pixels(samples: Seq<Seq<u8>>, planes: Seq<Seq<u8>>, total: int, n: int, i: int)
    requires
        0 <= i < n,
        1 <= total,
        samples.len() >= total,
        forall|c: int| 0 <= c < total ==> i < #[trigger] samples[c].len(),
    ensures
        ({
            let px = gray_spread(composite_rgba(samples, planes, ColorMode::Grayscale, total, n), n);
            &&& px[4 * i] == samples[0][i]
            &&& px[4 * i + 1] == samples[0][i]
            &&& px[4 * i + 2] == samples[0][i]
            &&& px[4 * i + 3] == (if total <= 3 {
                255
            } else {
                samples[1][i]
            })
        }),
{
    assert((4 * i) / 4 == i && (4 * i) % 4 == 0);
    assert((4 * i + 1) / 4 == i && (4 * i + 1) % 4 == 1);
    assert((4 * i + 2) / 4 == i && (4 * i + 2) % 4 == 2);
    assert((4 * i + 3) / 4 == i && (4 * i + 3) % 4 == 3);
    assert((4 * i + 1) - (4 * i + 1) % 4 == 4 * i);
    assert((4 * i + 2) - (4 * i + 2) % 4 == 4 * i);
}

} // verus!
