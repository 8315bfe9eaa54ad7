//! Order-statistic (median) filtering over a sliding spatial window: each
//! output sample is the histogram-scan median of the square neighborhood
//! around its pixel, clamped at the buffer edges, computed independently per
//! channel. The rank threshold is taken from the nominal full window area
//! even where the window is clamped — a deliberate compatibility quirk of the
//! border policy, kept as is.

use vstd::prelude::*;

use crate::image_handler::{
    narrow_samples, seq8_to16, widen_samples, ColorType, Image, ImageError, Pixels,
};

verus! {

/// How many samples of `s` are at most `v`.
pub open spec fn count_le(s: Seq<u16>, v: int) -> int
    decreases s.len(),
{
    if s.len() == 0 {
        0
    } else {
        count_le(s.drop_last(), v) + if s.last() as int <= v {
            1int
        } else {
            0int
        }
    }
}

/// How many samples of `s` equal `v`.
pub open spec fn count_eq(s: Seq<u16>, v: int) -> int
    decreases s.len(),
{
    if s.len() == 0 {
        0
    } else {
        count_eq(s.drop_last(), v) + if s.last() as int == v {
            1int
        } else {
            0int
        }
    }
}

/// Both counts lie between 0 and the number of samples.
pub proof fn lemma_count_bounds(s: Seq<u16>, v: int)
    ensures
        0 <= count_le(s, v) <= s.len(),
        0 <= count_eq(s, v) <= s.len(),
    decreases s.len(),
{
    if s.len() > 0 {
        lemma_count_bounds(s.drop_last(), v);
    }
}

/// Counting up to `v` adds the samples equal to `v` to the count up to
/// `v - 1`.
pub proof fn lemma_count_le_step(s: Seq<u16>, v: int)
    ensures
        count_le(s, v) == count_le(s, v - 1) + count_eq(s, v),
    decreases s.len(),
{
    if s.len() > 0 {
        lemma_count_le_step(s.drop_last(), v);
    }
}

/// No sample is at most a negative bound.
pub proof fn lemma_count_le_negative(s: Seq<u16>, v: int)
    requires
        v < 0,
    ensures
        count_le(s, v) == 0,
    decreases s.len(),
{
    if s.len() > 0 {
        lemma_count_le_negative(s.drop_last(), v);
    }
}

/// Appending one sample raises the matching count by one.
pub proof fn lemma_count_eq_push(s: Seq<u16>, x: u16, v: int)
    ensures
        count_eq(s.push(x), v) == count_eq(s, v) + if x as int == v {
            1int
        } else {
            0int
        },
{
    assert(s.push(x).drop_last() =~= s);
}

/// Counts distribute over concatenation.
pub proof fn lemma_count_eq_concat(a: Seq<u16>, b: Seq<u16>, v: int)
    ensures
        count_eq(a + b, v) == count_eq(a, v) + count_eq(b, v),
    decreases b.len(),
{
    if b.len() == 0 {
        assert(a + b =~= a);
    } else {
        assert((a + b).drop_last() =~= a + b.drop_last());
        assert((a + b).last() == b.last());
        lemma_count_eq_concat(a, b.drop_last(), v);
    }
}

/// The flat position of the sample for channel `c` of pixel `(x, y)` in an
/// interleaved row-major buffer.
pub open spec fn sample_index(width: int, channels: int, x: int, y: int, c: int) -> int {
    (y * width + x) * channels + c
}

/// The samples of channel `c` in row `y`, columns `x_lo ..= x_hi`, in
/// ascending column order.
pub open spec fn row_window(
    data: Seq<u16>,
    width: int,
    channels: int,
    c: int,
    y: int,
    x_lo: int,
    x_hi: int,
) -> Seq<u16>
    decreases x_hi + 1 - x_lo,
{
    if x_lo > x_hi {
        Seq::empty()
    } else {
        row_window(data, width, channels, c, y, x_lo, x_hi - 1).push(
            data[sample_index(width, channels, x_hi, y, c)],
        )
    }
}

/// The samples of channel `c` in the window `[x_lo, x_hi] × [y_lo, y_hi]`,
/// row by row in ascending order.
pub open spec fn window_samples(
    data: Seq<u16>,
    width: int,
    channels: int,
    c: int,
    x_lo: int,
    x_hi: int,
    y_lo: int,
    y_hi: int,
) -> Seq<u16>
    decreases y_hi + 1 - y_lo,
{
    if y_lo > y_hi {
        Seq::empty()
    } else {
        window_samples(data, width, channels, c, x_lo, x_hi, y_lo, y_hi - 1) + row_window(
            data,
            width,
            channels,
            c,
            y_hi,
            x_lo,
            x_hi,
        )
    }
}

/// A row window holds one sample per column.
pub proof fn lemma_row_window_len(
    data: Seq<u16>,
    width: int,
    channels: int,
    c: int,
    y: int,
    x_lo: int,
    x_hi: int,
)
    requires
        x_lo <= x_hi + 1,
    ensures
        row_window(data, width, channels, c, y, x_lo, x_hi).len() == x_hi + 1 - x_lo,
    decreases x_hi + 1 - x_lo,
{
    if x_lo <= x_hi {
        lemma_row_window_len(data, width, channels, c, y, x_lo, x_hi - 1);
    }
}

/// A window holds one sample per covered pixel.
pub proof fn lemma_window_samples_len(
    data: Seq<u16>,
    width: int,
    channels: int,
    c: int,
    x_lo: int,
    x_hi: int,
    y_lo: int,
    y_hi: int,
)
    requires
        x_lo <= x_hi + 1,
        y_lo <= y_hi + 1,
    ensures
        window_samples(data, width, channels, c, x_lo, x_hi, y_lo, y_hi).len() == (y_hi + 1 - y_lo)
            * (x_hi + 1 - x_lo),
    decreases y_hi + 1 - y_lo,
{
    if y_lo <= y_hi {
        lemma_window_samples_len(data, width, channels, c, x_lo, x_hi, y_lo, y_hi - 1);
        lemma_row_window_len(data, width, channels, c, y_hi, x_lo, x_hi);
        let rest = window_samples(data, width, channels, c, x_lo, x_hi, y_lo, y_hi - 1);
        let row = row_window(data, width, channels, c, y_hi, x_lo, x_hi);
        assert(window_samples(data, width, channels, c, x_lo, x_hi, y_lo, y_hi) == rest + row);
        assert((rest + row).len() == rest.len() + row.len());
        assert((y_hi + 1 - y_lo) * (x_hi + 1 - x_lo) == (y_hi - y_lo) * (x_hi + 1 - x_lo) + (x_hi
            + 1 - x_lo)) by (nonlinear_arith);
    } else {
        assert((y_hi + 1 - y_lo) * (x_hi + 1 - x_lo) == 0) by (nonlinear_arith)
            requires
                y_lo == y_hi + 1,
        ;
    }
}

/// Every sample a window draws from a well-formed buffer respects the
/// buffer's value bound.
pub proof fn lemma_window_samples_in_bounds(
    data: Seq<u16>,
    width: int,
    height: int,
    channels: int,
    c: int,
    x_lo: int,
    x_hi: int,
    y_lo: int,
    y_hi: int,
    bound: int,
)
    requires
        data.len() == width * height * channels,
        0 <= c < channels,
        0 <= x_lo,
        x_hi < width,
        0 <= y_lo,
        y_hi < height,
        forall|i: int| 0 <= i < data.len() ==> (data[i] as int) < bound,
    ensures
        forall|i: int|
            0 <= i < window_samples(data, width, channels, c, x_lo, x_hi, y_lo, y_hi).len()
                ==> (window_samples(data, width, channels, c, x_lo, x_hi, y_lo, y_hi)[i] as int)
                < bound,
    decreases y_hi + 1 - y_lo,
{
    if y_lo <= y_hi {
        lemma_window_samples_in_bounds(
            data,
            width,
            height,
            channels,
            c,
            x_lo,
            x_hi,
            y_lo,
            y_hi - 1,
            bound,
        );
        lemma_row_window_in_bounds(data, width, height, channels, c, y_hi, x_lo, x_hi, bound);
        let rest = window_samples(data, width, channels, c, x_lo, x_hi, y_lo, y_hi - 1);
        let row = row_window(data, width, channels, c, y_hi, x_lo, x_hi);
        let win = window_samples(data, width, channels, c, x_lo, x_hi, y_lo, y_hi);
        assert(win == rest + row);
        assert forall|i: int| 0 <= i < win.len() implies (win[i] as int) < bound by {
            if i < rest.len() {
                assert(win[i] == rest[i]);
            } else {
                assert(win[i] == row[i - rest.len()]);
            }
        }
    }
}

/// Every sample a row window draws from a well-formed buffer respects the
/// buffer's value bound.
pub proof fn lemma_row_window_in_bounds(
    data: Seq<u16>,
    width: int,
    height: int,
    channels: int,
    c: int,
    y: int,
    x_lo: int,
    x_hi: int,
    bound: int,
)
    requires
        data.len() == width * height * channels,
        0 <= c < channels,
        0 <= x_lo,
        x_hi < width,
        0 <= y < height,
        forall|i: int| 0 <= i < data.len() ==> (data[i] as int) < bound,
    ensures
        forall|i: int|
            0 <= i < row_window(data, width, channels, c, y, x_lo, x_hi).len() ==> (row_window(
                data,
                width,
                channels,
                c,
                y,
                x_lo,
                x_hi,
            )[i] as int) < bound,
    decreases x_hi + 1 - x_lo,
{
    if x_lo <= x_hi {
        lemma_row_window_in_bounds(data, width, height, channels, c, y, x_lo, x_hi - 1, bound);
        lemma_sample_index_in_range(width, height, channels, x_hi, y, c);
        let rest = row_window(data, width, channels, c, y, x_lo, x_hi - 1);
        let row = row_window(data, width, channels, c, y, x_lo, x_hi);
        assert(row == rest.push(data[sample_index(width, channels, x_hi, y, c)]));
        assert forall|i: int| 0 <= i < row.len() implies (row[i] as int) < bound by {
            if i < rest.len() {
                assert(row[i] == rest[i]);
            } else {
                assert(row[i] == data[sample_index(width, channels, x_hi, y, c)]);
            }
        }
    }
}

/// A sample index computed from in-range coordinates lies inside the buffer.
pub proof fn lemma_sample_index_in_range(
    width: int,
    height: int,
    channels: int,
    x: int,
    y: int,
    c: int,
)
    requires
        0 <= x < width,
        0 <= y < height,
        0 <= c < channels,
    ensures
        0 <= sample_index(width, channels, x, y, c) < width * height * channels,
        sample_index(width, channels, x, y, c) == (y * width + x) * channels + c,
{
    assert(0 <= (y * width + x) * channels + c < width * height * channels) by (nonlinear_arith)
        requires
            0 <= x < width,
            0 <= y < height,
            0 <= c < channels,
    ;
}

/// The first bucket value at which the running count of samples at most that
/// value reaches `mid`, scanning buckets `i ..= max_value` in ascending
/// order; 0 when the total count never reaches `mid`.
pub open spec fn scan_from(s: Seq<u16>, mid: int, i: int, max_value: int) -> int
    decreases max_value + 1 - i,
{
    if i < 0 || i > max_value {
        0
    } else if count_le(s, i) >= mid {
        i
    } else {
        scan_from(s, mid, i + 1, max_value)
    }
}

/// The rank the median scan must reach: half the nominal full window area,
/// plus one. The area is taken from the unclamped `(2r+1) × (2r+1)` window
/// whatever the window's actual clamped size.
pub open spec fn window_rank(radius: int) -> int {
    ((2 * radius + 1) * (2 * radius + 1)) / 2 + 1
}

/// The median the filter writes for channel `c` of pixel `(x, y)`: the
/// histogram-scan median of the clamped window around the pixel, under the
/// nominal full-window rank threshold.
pub open spec fn median_at(
    data: Seq<u16>,
    width: int,
    height: int,
    channels: int,
    x: int,
    y: int,
    c: int,
    radius: int,
    max_value: int,
) -> int {
    let x_lo = if x >= radius {
        x - radius
    } else {
        0
    };
    let x_hi = if x + radius <= width - 1 {
        x + radius
    } else {
        width - 1
    };
    let y_lo = if y >= radius {
        y - radius
    } else {
        0
    };
    let y_hi = if y + radius <= height - 1 {
        y + radius
    } else {
        height - 1
    };
    scan_from(
        window_samples(data, width, channels, c, x_lo, x_hi, y_lo, y_hi),
        window_rank(radius),
        0,
        max_value,
    )
}

/// Builds the occurrence histogram of channel `c` over the window
/// `[x_lo, x_hi] × [y_lo, y_hi]`: bucket `v` counts the window samples equal
/// to `v`.
#[verifier::loop_isolation(false)]
fn build_histogram(
    data: &Vec<u16>,
    width: usize,
    height: usize,
    channels: usize,
    c: usize,
    x_lo: usize,
    x_hi: usize,
    y_lo: usize,
    y_hi: usize,
    bucket_count: usize,
) -> (hist: Vec<usize>)
    requires
        1 <= channels,
        c < channels,
        data@.len() == width as int * height as int * channels as int,
        x_lo <= x_hi < width,
        y_lo <= y_hi < height,
        forall|i: int| 0 <= i < data@.len() ==> (data@[i] as int) < bucket_count,
        bucket_count >= 1,
    ensures
        hist@.len() == bucket_count,
        forall|v: int|
            0 <= v < bucket_count ==> hist@[v] == count_eq(
                window_samples(
                    data@,
                    width as int,
                    channels as int,
                    c as int,
                    x_lo as int,
                    x_hi as int,
                    y_lo as int,
                    y_hi as int,
                ),
                v,
            ),
{
    let ghost wd = width as int;
    let ghost ch = channels as int;
    let ghost cc = c as int;
    let ghost xl = x_lo as int;
    let ghost xh = x_hi as int;
    let ghost yl = y_lo as int;

    let mut hist: Vec<usize> = Vec::new();
    let mut i: usize = 0;
    while i < bucket_count
        invariant
            i <= bucket_count,
            hist@.len() == i,
            forall|v: int| 0 <= v < i ==> hist@[v] == 0,
        decreases bucket_count - i,
    {
        hist.push(0);
        i = i + 1;
    }
    proof {
        assert(window_samples(data@, wd, ch, cc, xl, xh, yl, yl - 1) =~= Seq::empty());
    }

    let mut ky: usize = y_lo;
    while ky <= y_hi
        invariant
            y_lo <= ky <= y_hi + 1,
            hist@.len() == bucket_count,
            forall|v: int|
                0 <= v < bucket_count ==> hist@[v] == count_eq(
                    window_samples(data@, wd, ch, cc, xl, xh, yl, ky as int - 1),
                    v,
                ),
        decreases y_hi + 1 - ky,
    {
        let ghost rows = window_samples(data@, wd, ch, cc, xl, xh, yl, ky as int - 1);
        proof {
            lemma_window_samples_len(data@, wd, ch, cc, xl, xh, yl, ky as int - 1);
            assert(row_window(data@, wd, ch, cc, ky as int, xl, xl - 1) =~= Seq::empty());
            assert(rows + row_window(data@, wd, ch, cc, ky as int, xl, xl - 1) =~= rows);
            assert forall|v: int| 0 <= v < bucket_count implies hist@[v] == count_eq(
                rows + row_window(data@, wd, ch, cc, ky as int, xl, xl - 1),
                v,
            ) by {
                lemma_count_eq_concat(
                    rows,
                    row_window(data@, wd, ch, cc, ky as int, xl, xl - 1),
                    v,
                );
            }
        }
        let mut kx: usize = x_lo;
        while kx <= x_hi
            invariant
                x_lo <= kx <= x_hi + 1,
                y_lo <= ky <= y_hi,
                hist@.len() == bucket_count,
                forall|v: int|
                    0 <= v < bucket_count ==> hist@[v] == count_eq(
                        window_samples(data@, wd, ch, cc, xl, xh, yl, ky as int - 1) + row_window(
                            data@,
                            wd,
                            ch,
                            cc,
                            ky as int,
                            xl,
                            kx as int - 1,
                        ),
                        v,
                    ),
            decreases x_hi + 1 - kx,
        {
            let ghost partial = window_samples(data@, wd, ch, cc, xl, xh, yl, ky as int - 1)
                + row_window(data@, wd, ch, cc, ky as int, xl, kx as int - 1);
            proof {
                lemma_window_samples_len(data@, wd, ch, cc, xl, xh, yl, ky as int - 1);
                lemma_row_window_len(data@, wd, ch, cc, ky as int, xl, kx as int - 1);
                lemma_sample_index_in_range(
                    wd,
                    height as int,
                    ch,
                    kx as int,
                    ky as int,
                    cc,
                );
                assert((ky as int * wd + kx as int) * ch + cc < data@.len());
                assert(data@.len() <= usize::MAX) by {
                    assert(data.len() == data@.len());
                }
                assert(ky as int * wd + kx as int >= 0 && ky as int * wd >= 0) by (nonlinear_arith)
                    requires
                        ky as int >= 0,
                        wd >= 0,
                        kx as int >= 0,
                ;
                assert(ky as int * wd + kx as int <= data@.len() && (ky as int * wd + kx as int)
                    * ch <= data@.len()) by (nonlinear_arith)
                    requires
                        0 <= (ky as int * wd + kx as int) * ch + cc < data@.len(),
                        0 <= ky as int * wd + kx as int,
                        ch >= 1,
                        cc >= 0,
                ;
            }
            let pos: usize = (ky * width + kx) * channels + c;
            let val = data[pos];
            let prev = hist[val as usize];
            proof {
                // The partial window is strictly smaller than the image, so
                // the bucket count cannot overflow.
                lemma_count_bounds(partial, val as int);
                assert(partial.len() == (ky as int - yl) * (xh + 1 - xl) + (kx as int - xl));
                assert((ky as int - yl) * (xh + 1 - xl) + (kx as int - xl) < (height as int) * (xh
                    + 1 - xl)) by (nonlinear_arith)
                    requires
                        0 <= yl,
                        0 <= ky as int - yl,
                        (ky as int) < (height as int),
                        0 <= kx as int - xl <= xh - xl,
                        xh + 1 - xl >= 1,
                ;
                assert((height as int) * (xh + 1 - xl) <= (height as int) * wd) by (nonlinear_arith)
                    requires
                        xh + 1 - xl <= wd,
                        height as int >= 0,
                ;
                assert((height as int) * wd <= wd * (height as int) * ch) by (nonlinear_arith)
                    requires
                        ch >= 1,
                        wd >= 0,
                        height as int >= 0,
                ;
                assert(prev < data@.len());
            }
            hist.set(val as usize, prev + 1);
            proof {
                let row_prev = row_window(data@, wd, ch, cc, ky as int, xl, kx as int - 1);
                let row_now = row_window(data@, wd, ch, cc, ky as int, xl, kx as int);
                let rows_done = window_samples(data@, wd, ch, cc, xl, xh, yl, ky as int - 1);
                assert(row_now == row_prev.push(data@[(ky as int * wd + kx as int) * ch + cc]));
                assert(rows_done + row_now =~= partial.push(
                    data@[(ky as int * wd + kx as int) * ch + cc],
                ));
                assert forall|v: int| 0 <= v < bucket_count implies hist@[v] == count_eq(
                    rows_done + row_now,
                    v,
                ) by {
                    lemma_count_eq_push(partial, data@[(ky as int * wd + kx as int) * ch + cc], v);
                }
            }
            kx = kx + 1;
        }
        proof {
            let rows_done = window_samples(data@, wd, ch, cc, xl, xh, yl, ky as int - 1);
            let row_full = row_window(data@, wd, ch, cc, ky as int, xl, xh);
            assert(window_samples(data@, wd, ch, cc, xl, xh, yl, ky as int) == rows_done
                + row_full);
        }
        ky = ky + 1;
    }
    hist
}

/// Scans the histogram buckets in ascending value order, accumulating
/// counts, and returns the first bucket at which the running count reaches
/// `mid`; 0 when it never does.
#[verifier::loop_isolation(false)]
fn median_from_histogram(hist: &Vec<usize>, mid: u128, win: Ghost<Seq<u16>>) -> (r: usize)
    requires
        hist@.len() >= 1,
        mid >= 1,
        win@.len() <= usize::MAX,
        forall|v: int| 0 <= v < hist@.len() ==> hist@[v] == count_eq(win@, v),
    ensures
        r as int == scan_from(win@, mid as int, 0, hist@.len() - 1),
        r < hist@.len(),
{
    let ghost maxv = hist@.len() - 1;
    proof {
        lemma_count_le_negative(win@, -1);
    }
    let mut count: usize = 0;
    let mut i: usize = 0;
    while i < hist.len()
        invariant
            i <= hist@.len(),
            count == count_le(win@, i as int - 1),
            0 <= count_le(win@, i as int - 1) <= win@.len(),
            scan_from(win@, mid as int, 0, maxv) == scan_from(win@, mid as int, i as int, maxv),
        decreases hist@.len() - i,
    {
        proof {
            lemma_count_le_step(win@, i as int);
            lemma_count_bounds(win@, i as int);
        }
        let c = hist[i];
        count = count + c;
        if (count as u128) >= mid {
            proof {
                assert(scan_from(win@, mid as int, i as int, maxv) == i as int);
            }
            return i;
        }
        proof {
            assert(scan_from(win@, mid as int, i as int, maxv) == scan_from(
                win@,
                mid as int,
                i as int + 1,
                maxv,
            ));
        }
        i = i + 1;
    }
    proof {
        assert(scan_from(win@, mid as int, i as int, maxv) == 0);
    }
    0
}

/// Flat positions grow with lexicographic pixel-then-channel order.
proof fn lemma_sample_index_lex(
    width: int,
    channels: int,
    x1: int,
    y1: int,
    c1: int,
    x2: int,
    y2: int,
    c2: int,
)
    requires
        0 <= x1 < width,
        0 <= x2 < width,
        0 <= c1 < channels,
        0 <= c2 < channels,
        0 <= y1,
        0 <= y2,
        (y1 < y2) || (y1 == y2 && x1 < x2) || (y1 == y2 && x1 == x2 && c1 < c2),
    ensures
        sample_index(width, channels, x1, y1, c1) < sample_index(width, channels, x2, y2, c2),
{
    assert((y1 * width + x1) * channels + c1 < (y2 * width + x2) * channels + c2)
        by (nonlinear_arith)
        requires
            0 <= x1 < width,
            0 <= x2 < width,
            0 <= c1 < channels,
            0 <= c2 < channels,
            0 <= y1,
            0 <= y2,
            (y1 < y2) || (y1 == y2 && x1 < x2) || (y1 == y2 && x1 == x2 && c1 < c2),
    ;
}

/// The median for one channel of one pixel: builds the clamped-window
/// histogram and scans it under the nominal full-window rank threshold.
fn median_at_pixel(
    data: &Vec<u16>,
    width: usize,
    height: usize,
    channels: usize,
    c: usize,
    x: usize,
    y: usize,
    radius: u32,
    bucket_count: usize,
    mid: u128,
) -> (r: u16)
    requires
        1 <= channels,
        c < channels,
        x < width,
        y < height,
        data@.len() == width as int * height as int * channels as int,
        forall|i: int| 0 <= i < data@.len() ==> (data@[i] as int) < bucket_count,
        1 <= bucket_count <= 65536,
        radius >= 1,
        mid == window_rank(radius as int),
        mid >= 1,
    ensures
        r as int == median_at(
            data@,
            width as int,
            height as int,
            channels as int,
            x as int,
            y as int,
            c as int,
            radius as int,
            bucket_count - 1,
        ),
        (r as int) < bucket_count,
{
    let rx = radius as usize;
    let x_lo = if x >= rx {
        x - rx
    } else {
        0
    };
    let x_hi = if rx <= width - 1 - x {
        x + rx
    } else {
        width - 1
    };
    let y_lo = if y >= rx {
        y - rx
    } else {
        0
    };
    let y_hi = if rx <= height - 1 - y {
        y + rx
    } else {
        height - 1
    };
    let ghost win = window_samples(
        data@,
        width as int,
        channels as int,
        c as int,
        x_lo as int,
        x_hi as int,
        y_lo as int,
        y_hi as int,
    );
    proof {
        lemma_window_samples_len(
            data@,
            width as int,
            channels as int,
            c as int,
            x_lo as int,
            x_hi as int,
            y_lo as int,
            y_hi as int,
        );
        lemma_window_samples_in_bounds(
            data@,
            width as int,
            height as int,
            channels as int,
            c as int,
            x_lo as int,
            x_hi as int,
            y_lo as int,
            y_hi as int,
            bucket_count as int,
        );
        assert(win.len() <= width as int * height as int * channels as int) by (nonlinear_arith)
            requires
                win.len() == (y_hi as int + 1 - y_lo as int) * (x_hi as int + 1 - x_lo as int),
                0 <= y_hi as int + 1 - y_lo as int <= height as int,
                0 <= x_hi as int + 1 - x_lo as int <= width as int,
                channels as int >= 1,
                width as int >= 0,
                height as int >= 0,
        ;
        assert(data@.len() <= usize::MAX) by {
            assert(data.len() == data@.len());
        }
    }
    let hist = build_histogram(data, width, height, channels, c, x_lo, x_hi, y_lo, y_hi, bucket_count);
    let m = median_from_histogram(&hist, mid, Ghost(win));
    m as u16
}

/// Runs the median filter over every channel of every pixel, reading only
/// the input buffer and writing a freshly allocated output of the same
/// shape.
#[verifier::loop_isolation(false)]
fn median_filter_core(
    data: &Vec<u16>,
    width: usize,
    height: usize,
    channels: usize,
    radius: u32,
    bucket_count: usize,
) -> (out: Vec<u16>)
    requires
        1 <= channels <= 3,
        data@.len() == width as int * height as int * channels as int,
        forall|i: int| 0 <= i < data@.len() ==> (data@[i] as int) < bucket_count,
        1 <= bucket_count <= 65536,
        radius >= 1,
    ensures
        out@.len() == data@.len(),
        forall|i: int| 0 <= i < out@.len() ==> (out@[i] as int) < bucket_count,
        forall|xx: int, yy: int, cc: int|
            0 <= xx < width && 0 <= yy < height && 0 <= cc < channels
                ==> out@[#[trigger] sample_index(width as int, channels as int, xx, yy, cc)] as int
                == median_at(
                data@,
                width as int,
                height as int,
                channels as int,
                xx,
                yy,
                cc,
                radius as int,
                bucket_count - 1,
            ),
{
    let ghost wd = width as int;
    let ghost hd = height as int;
    let ghost ch = channels as int;
    let ghost bk = bucket_count as int;

    let rr: u128 = radius as u128;
    proof {
        assert((2 * rr + 1) * (2 * rr + 1) <= 0x2_0000_0000u128 * 0x2_0000_0000u128)
            by (nonlinear_arith)
            requires
                0 < 2 * rr + 1 <= 0x2_0000_0000u128,
        ;
    }
    let ws: u128 = (2 * rr + 1) * (2 * rr + 1);
    let mid: u128 = ws / 2 + 1;
    proof {
        assert(mid == window_rank(radius as int));
    }

    let mut out: Vec<u16> = Vec::new();
    let mut y: usize = 0;
    proof {
        assert(sample_index(wd, ch, 0, 0, 0) == 0) by (nonlinear_arith);
    }
    while y < height
        invariant
            y <= height,
            out@.len() == sample_index(wd, ch, 0, y as int, 0),
            forall|i: int| 0 <= i < out@.len() ==> (out@[i] as int) < bucket_count,
            forall|xx: int, yy: int, cc: int|
                0 <= xx < width && 0 <= yy < y && 0 <= cc < channels
                    ==> out@[#[trigger] sample_index(wd, ch, xx, yy, cc)] as int == median_at(
                    data@,
                    wd,
                    hd,
                    ch,
                    xx,
                    yy,
                    cc,
                    radius as int,
                    bk - 1,
                ),
        decreases height - y,
    {
        let mut x: usize = 0;
        while x < width
            invariant
                y < height,
                x <= width,
                out@.len() == sample_index(wd, ch, x as int, y as int, 0),
                forall|i: int| 0 <= i < out@.len() ==> (out@[i] as int) < bucket_count,
                forall|xx: int, yy: int, cc: int|
                    0 <= xx < width && 0 <= yy < y && 0 <= cc < channels
                        ==> out@[#[trigger] sample_index(wd, ch, xx, yy, cc)] as int == median_at(
                        data@,
                        wd,
                        hd,
                        ch,
                        xx,
                        yy,
                        cc,
                        radius as int,
                        bk - 1,
                    ),
                forall|xx: int, cc: int|
                    0 <= xx < x && 0 <= cc < channels
                        ==> out@[#[trigger] sample_index(wd, ch, xx, y as int, cc)] as int
                        == median_at(
                        data@,
                        wd,
                        hd,
                        ch,
                        xx,
                        y as int,
                        cc,
                        radius as int,
                        bk - 1,
                    ),
            decreases width - x,
        {
            let mut c: usize = 0;
            while c < channels
                invariant
                    y < height,
                    x < width,
                    c <= channels,
                    out@.len() == sample_index(wd, ch, x as int, y as int, c as int),
                    forall|i: int| 0 <= i < out@.len() ==> (out@[i] as int) < bucket_count,
                    forall|xx: int, yy: int, cc: int|
                        0 <= xx < width && 0 <= yy < y && 0 <= cc < channels
                            ==> out@[#[trigger] sample_index(wd, ch, xx, yy, cc)] as int
                            == median_at(
                            data@,
                            wd,
                            hd,
                            ch,
                            xx,
                            yy,
                            cc,
                            radius as int,
                            bk - 1,
                        ),
                    forall|xx: int, cc: int|
                        0 <= xx < x && 0 <= cc < channels
                            ==> out@[#[trigger] sample_index(wd, ch, xx, y as int, cc)] as int
                            == median_at(
                            data@,
                            wd,
                            hd,
                            ch,
                            xx,
                            y as int,
                            cc,
                            radius as int,
                            bk - 1,
                        ),
                    forall|cc: int|
                        0 <= cc < c
                            ==> out@[#[trigger] sample_index(wd, ch, x as int, y as int, cc)] as int
                            == median_at(
                            data@,
                            wd,
                            hd,
                            ch,
                            x as int,
                            y as int,
                            cc,
                            radius as int,
                            bk - 1,
                        ),
                decreases channels - c,
            {
                proof {
                    lemma_sample_index_in_range(wd, hd, ch, x as int, y as int, c as int);
                    assert(data@.len() <= usize::MAX) by {
                        assert(data.len() == data@.len());
                    }
                }
                let m = median_at_pixel(
                    data,
                    width,
                    height,
                    channels,
                    c,
                    x,
                    y,
                    radius,
                    bucket_count,
                    mid,
                );
                let ghost before = out@;
                out.push(m);
                proof {
                    assert forall|xx: int, yy: int, cc: int|
                        0 <= xx < width && 0 <= yy < y && 0 <= cc < channels implies out@[
                        #[trigger] sample_index(wd, ch, xx, yy, cc)] as int == median_at(
                        data@,
                        wd,
                        hd,
                        ch,
                        xx,
                        yy,
                        cc,
                        radius as int,
                        bk - 1,
                    ) by {
                        lemma_sample_index_lex(wd, ch, xx, yy, cc, x as int, y as int, c as int);
                        lemma_sample_index_in_range(wd, hd, ch, xx, yy, cc);
                        assert(out@[sample_index(wd, ch, xx, yy, cc)] == before[sample_index(
                            wd,
                            ch,
                            xx,
                            yy,
                            cc,
                        )]);
                    }
                    assert forall|xx: int, cc: int|
                        0 <= xx < x && 0 <= cc < channels implies out@[#[trigger] sample_index(
                        wd,
                        ch,
                        xx,
                        y as int,
                        cc,
                    )] as int == median_at(
                        data@,
                        wd,
                        hd,
                        ch,
                        xx,
                        y as int,
                        cc,
                        radius as int,
                        bk - 1,
                    ) by {
                        lemma_sample_index_lex(
                            wd,
                            ch,
                            xx,
                            y as int,
                            cc,
                            x as int,
                            y as int,
                            c as int,
                        );
                        lemma_sample_index_in_range(wd, hd, ch, xx, y as int, cc);
                        assert(out@[sample_index(wd, ch, xx, y as int, cc)] == before[sample_index(
                            wd,
                            ch,
                            xx,
                            y as int,
                            cc,
                        )]);
                    }
                    assert forall|cc: int| 0 <= cc < c + 1 implies out@[#[trigger] sample_index(
                        wd,
                        ch,
                        x as int,
                        y as int,
                        cc,
                    )] as int == median_at(
                        data@,
                        wd,
                        hd,
                        ch,
                        x as int,
                        y as int,
                        cc,
                        radius as int,
                        bk - 1,
                    ) by {
                        if cc < c {
                            lemma_sample_index_lex(
                                wd,
                                ch,
                                x as int,
                                y as int,
                                cc,
                                x as int,
                                y as int,
                                c as int,
                            );
                            lemma_sample_index_in_range(wd, hd, ch, x as int, y as int, cc);
                            assert(out@[sample_index(wd, ch, x as int, y as int, cc)]
                                == before[sample_index(wd, ch, x as int, y as int, cc)]);
                        } else {
                            assert(out@[sample_index(wd, ch, x as int, y as int, cc)] == m);
                        }
                    }
                }
                c = c + 1;
            }
            proof {
                assert(sample_index(wd, ch, x as int, y as int, ch) == sample_index(
                    wd,
                    ch,
                    x as int + 1,
                    y as int,
                    0,
                )) by (nonlinear_arith);
            }
            x = x + 1;
        }
        proof {
            assert(sample_index(wd, ch, wd, y as int, 0) == sample_index(
                wd,
                ch,
                0,
                y as int + 1,
                0,
            )) by (nonlinear_arith);
        }
        y = y + 1;
    }
    proof {
        assert(sample_index(wd, ch, 0, hd, 0) == wd * hd * ch) by (nonlinear_arith);
    }
    out
}

/// How many channels the layout tag implies for addressing.
pub open spec fn layout_channels(color_type: ColorType) -> int {
    match color_type {
        ColorType::Rgb8 => 3,
        ColorType::Luma8 => 1,
        ColorType::Luma16 => 1,
    }
}

/// The depth/layout combinations the filter can process: 8-bit samples
/// tagged Luma8 or Rgb8, and 16-bit samples tagged Luma16.
pub open spec fn layout_supported(img: &Image) -> bool {
    match img.pixels {
        Pixels::U8(_) => img.color_type == ColorType::Luma8 || img.color_type == ColorType::Rgb8,
        Pixels::U16(_) => img.color_type == ColorType::Luma16,
    }
}

/// The sample count matches the declared dimensions under the layout tag's
/// channel count, so the filter's typed view of the buffer is coherent.
pub open spec fn median_dims_ok(img: &Image) -> bool {
    img.pixels.spec_len() == img.horizontal_length as int * img.vertical_length as int
        * layout_channels(img.color_type)
}

/// What the filter writes: every sample of the new buffer is the clamped
/// window median of the old buffer at its coordinates, at the same depth.
pub open spec fn median_output(o: &Image, n: &Image, radius: int) -> bool {
    let w = o.horizontal_length as int;
    let h = o.vertical_length as int;
    let ch = layout_channels(o.color_type);
    match (&o.pixels, &n.pixels) {
        (Pixels::U8(od), Pixels::U8(nd)) => {
            &&& nd@.len() == od@.len()
            &&& forall|xx: int, yy: int, cc: int|
                0 <= xx < w && 0 <= yy < h && 0 <= cc < ch
                    ==> nd@[#[trigger] sample_index(w, ch, xx, yy, cc)] as int == median_at(
                    seq8_to16(od@),
                    w,
                    h,
                    ch,
                    xx,
                    yy,
                    cc,
                    radius,
                    255,
                )
        },
        (Pixels::U16(od), Pixels::U16(nd)) => {
            &&& nd@.len() == od@.len()
            &&& forall|xx: int, yy: int, cc: int|
                0 <= xx < w && 0 <= yy < h && 0 <= cc < ch
                    ==> nd@[#[trigger] sample_index(w, ch, xx, yy, cc)] as int == median_at(
                    od@,
                    w,
                    h,
                    ch,
                    xx,
                    yy,
                    cc,
                    radius,
                    65535,
                )
        },
        _ => false,
    }
}

/// Decides whether a sample count matches the declared dimensions.
fn dims_match(width: u32, height: u32, channels: u32, len: usize) -> (b: bool)
    ensures
        b <==> (len as int == width as int * height as int * channels as int),
{
    let w: u128 = width as u128;
    let h: u128 = height as u128;
    let ch: u128 = channels as u128;
    proof {
        assert(w * h <= 0xFFFF_FFFFu128 * 0xFFFF_FFFFu128 && w * h >= 0) by (nonlinear_arith)
            requires
                0 <= w <= 0xFFFF_FFFFu128,
                0 <= h <= 0xFFFF_FFFFu128,
        ;
        assert((w * h) * ch <= 0xFFFF_FFFF_FFFF_FFFF_FFFF_FFFF_FFFF_FFFFu128 / 2)
            by (nonlinear_arith)
            requires
                0 <= w * h <= 0xFFFF_FFFFu128 * 0xFFFF_FFFFu128,
                0 <= ch <= 0xFFFF_FFFFu128,
        ;
    }
    let product: u128 = w * h * ch;
    product == (len as u128)
}

/// Replaces every sample with the median of the square window of
/// `kernel_radius` around its pixel, per channel, computing the whole output
/// from the pre-call buffer and swapping it in whole. The rank threshold
/// always reflects the nominal `(2r+1)²` window area, also at clamped
/// borders.
pub fn median_blur_image(img: &mut Image, kernel_radius: u32) -> (r: Result<(), ImageError>)
    ensures
        r == Err::<(), ImageError>(ImageError::InvalidArgument) <==> kernel_radius == 0,
        r == Err::<(), ImageError>(ImageError::UnsupportedLayout) <==> kernel_radius >= 1
            && !layout_supported(old(img)),
        r == Err::<(), ImageError>(ImageError::BufferConstructionFailure) <==> kernel_radius >= 1
            && layout_supported(old(img)) && !median_dims_ok(old(img)),
        r is Err ==> final(img).same_image(old(img)),
        r is Ok <==> kernel_radius >= 1 && layout_supported(old(img)) && median_dims_ok(old(img)),
        r is Ok ==> final(img).same_shape(old(img)) && median_output(
            old(img),
            final(img),
            kernel_radius as int,
        ),
{
    if kernel_radius == 0 {
        return Err(ImageError::InvalidArgument);
    }
    let width = img.horizontal_length;
    let height = img.vertical_length;
    match (&img.pixels, img.color_type) {
        (Pixels::U8(data), ColorType::Luma8) => {
            if !dims_match(width, height, 1, data.len()) {
                return Err(ImageError::BufferConstructionFailure);
            }
            let ghost od = data@;
            let wide = widen_samples(data);
            proof {
                assert(forall|i: int|
                    0 <= i < wide@.len() ==> (#[trigger] wide@[i] as int) < 256);
            }
            let out = median_filter_core(
                &wide,
                width as usize,
                height as usize,
                1,
                kernel_radius,
                256,
            );
            let out8 = narrow_samples(&out);
            img.pixels = Pixels::U8(out8);
            proof {
                assert forall|xx: int, yy: int, cc: int|
                    0 <= xx < width as int && 0 <= yy < height as int && 0 <= cc < 1 implies out8@[
                    #[trigger] sample_index(width as int, 1, xx, yy, cc)] as int == median_at(
                    seq8_to16(od),
                    width as int,
                    height as int,
                    1,
                    xx,
                    yy,
                    cc,
                    kernel_radius as int,
                    255,
                ) by {
                    lemma_sample_index_in_range(width as int, height as int, 1, xx, yy, cc);
                }
            }
            Ok(())
        },
        (Pixels::U8(data), ColorType::Rgb8) => {
            if !dims_match(width, height, 3, data.len()) {
                return Err(ImageError::BufferConstructionFailure);
            }
            let ghost od = data@;
            let wide = widen_samples(data);
            proof {
                assert(forall|i: int|
                    0 <= i < wide@.len() ==> (#[trigger] wide@[i] as int) < 256);
            }
            let out = median_filter_core(
                &wide,
                width as usize,
                height as usize,
                3,
                kernel_radius,
                256,
            );
            let out8 = narrow_samples(&out);
            img.pixels = Pixels::U8(out8);
            proof {
                assert forall|xx: int, yy: int, cc: int|
                    0 <= xx < width as int && 0 <= yy < height as int && 0 <= cc < 3 implies out8@[
                    #[trigger] sample_index(width as int, 3, xx, yy, cc)] as int == median_at(
                    seq8_to16(od),
                    width as int,
                    height as int,
                    3,
                    xx,
                    yy,
                    cc,
                    kernel_radius as int,
                    255,
                ) by {
                    lemma_sample_index_in_range(width as int, height as int, 3, xx, yy, cc);
                }
            }
            Ok(())
        },
        (Pixels::U16(data), ColorType::Luma16) => {
            if !dims_match(width, height, 1, data.len()) {
                return Err(ImageError::BufferConstructionFailure);
            }
            let ghost od = data@;
            proof {
                assert(forall|i: int|
                    0 <= i < data@.len() ==> (#[trigger] data@[i] as int) < 65536);
            }
            let out = median_filter_core(
                data,
                width as usize,
                height as usize,
                1,
                kernel_radius,
                65536,
            );
            img.pixels = Pixels::U16(out);
            Ok(())
        },
        _ => Err(ImageError::UnsupportedLayout),
    }
}

} // verus!
