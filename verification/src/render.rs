//! The frame renderer: once per tick it clears the buffer to the palette's
//! background, advances every drop, rasterizes each drop as a filled
//! rectangle of foreground pixels, and recycles drops that left the screen.

use vstd::prelude::*;

use crate::particle::{advanced, all_fit, box_width, fits, Drop};
use crate::{HEIGHT, WIDTH};
use rand::Rng;

verus! {

/// Background color of the blue theme, as one RGBA pixel.
pub const BLUE_BACKGROUND: [u8; 4] = [0x8f, 0xbe, 0xeb, 0xff];

/// Rain color of the blue theme, as one RGBA pixel.
pub const BLUE_RAIN: [u8; 4] = [0x3e, 0x9f, 0xfa, 0xff];

/// Background color of the purple theme, as one RGBA pixel.
pub const PURPLE_BACKGROUND: [u8; 4] = [0xd3, 0xb7, 0xf7, 0xff];

/// Rain color of the purple theme, as one RGBA pixel.
pub const PURPLE_RAIN: [u8; 4] = [207, 100, 219, 0xff];

/// The fixed color pair of one visual theme: every pixel the renderer
/// writes is one of these two 4-byte RGBA quadruples.
pub struct Palette {
    pub background: [u8; 4],
    pub foreground: [u8; 4],
}

/// Pixel `k` of the frame holds the 4-byte color `color`: the buffer is
/// row-major with 4 bytes per pixel, so pixel `k` is bytes `4k .. 4k+4`.
pub open spec fn pixel_eq(frame: Seq<u8>, k: int, color: Seq<u8>) -> bool {
    forall|j: int| 0 <= j < 4 ==> frame[4 * k + j] == #[trigger] color[j]
}

/// Copy the 4-byte `color` into pixel `k` of the frame, leaving every
/// other byte as it was.
fn set_pixel(frame: &mut Vec<u8>, k: usize, color: &[u8; 4])
    requires
        4 * k + 4 <= old(frame).len(),
    ensures
        final(frame).len() == old(frame).len(),
        pixel_eq(final(frame)@, k as int, color@),
        forall|m: int|
            0 <= m < final(frame)@.len() && !(4 * k <= m < 4 * k + 4) ==> final(frame)@[m]
                == old(frame)@[m],
{
    let base: usize = 4 * k;
    frame[base] = color[0];
    frame[base + 1] = color[1];
    frame[base + 2] = color[2];
    frame[base + 3] = color[3];
}

/// Clear step of a tick: set every pixel of the frame to `background`.
/// The buffer length must be an exact multiple of 4, so that it splits
/// into whole pixels.
pub fn clear(frame: &mut Vec<u8>, background: &[u8; 4])
    requires
        old(frame).len() % 4 == 0,
    ensures
        final(frame).len() == old(frame).len(),
        forall|k: int|
            0 <= k < final(frame)@.len() / 4 ==> pixel_eq(final(frame)@, k, background@),
{
    let npix: usize = frame.len() / 4;
    let mut k: usize = 0;
    while k < npix
        invariant
            k <= npix,
            frame.len() == old(frame).len(),
            npix == frame@.len() / 4,
            frame@.len() % 4 == 0,
            forall|t: int| 0 <= t < k ==> pixel_eq(frame@, t, background@),
        decreases npix - k,
    {
        let ghost prev: Seq<u8> = frame@;
        set_pixel(frame, k, background);
        assert forall|t: int| 0 <= t < k + 1 implies pixel_eq(frame@, t, background@) by {
            if t < k {
                assert(pixel_eq(prev, t, background@));
                assert forall|j: int| 0 <= j < 4 implies frame@[4 * t + j] == background@[j] by {
                    assert(prev[4 * t + j] == background@[j]);
                    assert(frame@[4 * t + j] == prev[4 * t + j]);
                }
            }
        }
        k = k + 1;
    }
}

/// Linear pixel index that row `r`, column `c` of drop `p`'s bounding box
/// lands on: the buffer is addressed as `(y * width + x)`, with no
/// per-row clipping, so a box that sticks out on the right wraps into the
/// next row rather than being cut at the edge.
pub open spec fn cell(p: Drop, width: int, r: int, c: int) -> int {
    (p.y + r) * width + (p.x + c)
}

/// Some cell of drop `p`'s bounding box lands on linear pixel index `k`.
pub open spec fn hits(p: Drop, width: int, k: int) -> bool {
    exists|r: int, c: int|
        0 <= r < p.z && 0 <= c < box_width(p.z as int) && k == #[trigger] cell(p, width, r, c)
}

/// `hits`, restricted to the part of the bounding box that a row-major
/// scan has passed: all rows before `r`, and row `r` before column `c`.
pub open spec fn hits_before(p: Drop, width: int, r: int, c: int, k: int) -> bool {
    exists|a: int, b: int|
        0 <= a < p.z && 0 <= b < box_width(p.z as int) && (a < r || (a == r && b < c)) && k
            == #[trigger] cell(p, width, a, b)
}

/// Drop `p` puts at least one cell of its bounding box inside the buffer
/// of `npix` pixels; a drop that does not is recycled.
pub open spec fn visible(p: Drop, width: int, npix: int) -> bool {
    exists|k: int| 0 <= k < npix && #[trigger] hits(p, width, k)
}

/// `visible`, restricted as `hits_before` is.
pub open spec fn visible_before(p: Drop, width: int, npix: int, r: int, c: int) -> bool {
    exists|k: int| 0 <= k < npix && #[trigger] hits_before(p, width, r, c, k)
}

/// Pixel `k` is painted by one of the first `n` drops of `ps`, each taken
/// after its per-tick advance.
pub open spec fn covered_until(ps: Seq<Drop>, n: int, width: int, k: int) -> bool {
    exists|i: int| 0 <= i < n && hits(advanced(#[trigger] ps[i]), width, k)
}

/// Pixel `k` is painted by some drop of `ps`, each taken after its
/// per-tick advance.
pub open spec fn covered(ps: Seq<Drop>, width: int, k: int) -> bool {
    exists|i: int| 0 <= i < ps.len() && hits(advanced(#[trigger] ps[i]), width, k)
}

/// A row-major scan that has consumed cell `(r, c)` has seen exactly the
/// cells it had seen before plus that one.
proof fn lemma_hits_step(p: Drop, width: int, r: int, c: int, k: int)
    requires
        0 <= r < p.z,
        0 <= c < box_width(p.z as int),
    ensures
        hits_before(p, width, r, c + 1, k) <==> (hits_before(p, width, r, c, k) || k == cell(
            p,
            width,
            r,
            c,
        )),
{
    if hits_before(p, width, r, c + 1, k) {
        let (a, b) = choose|a: int, b: int|
            0 <= a < p.z && 0 <= b < box_width(p.z as int) && (a < r || (a == r && b < c + 1)) && k
                == #[trigger] cell(p, width, a, b);
        if a < r || (a == r && b < c) {
            assert(hits_before(p, width, r, c, k));
        } else {
            assert(k == cell(p, width, r, c));
        }
    }
    if hits_before(p, width, r, c, k) {
        let (a, b) = choose|a: int, b: int|
            0 <= a < p.z && 0 <= b < box_width(p.z as int) && (a < r || (a == r && b < c)) && k
                == #[trigger] cell(p, width, a, b);
        assert(hits_before(p, width, r, c + 1, k));
    }
    if k == cell(p, width, r, c) {
        assert(hits_before(p, width, r, c + 1, k));
    }
}

/// Finishing one row of the scan and standing at the start of the next
/// covers the same set of cells.
proof fn lemma_hits_row(p: Drop, width: int, r: int, k: int)
    ensures
        hits_before(p, width, r, box_width(p.z as int), k) <==> hits_before(p, width, r + 1, 0, k),
{
    if hits_before(p, width, r, box_width(p.z as int), k) {
        let (a, b) = choose|a: int, b: int|
            0 <= a < p.z && 0 <= b < box_width(p.z as int) && (a < r || (a == r && b < box_width(
                p.z as int,
            ))) && k == #[trigger] cell(p, width, a, b);
        assert(hits_before(p, width, r + 1, 0, k));
    }
    if hits_before(p, width, r + 1, 0, k) {
        let (a, b) = choose|a: int, b: int|
            0 <= a < p.z && 0 <= b < box_width(p.z as int) && (a < r + 1 || (a == r + 1 && b < 0))
                && k == #[trigger] cell(p, width, a, b);
        assert(hits_before(p, width, r, box_width(p.z as int), k));
    }
}

/// A scan that stands past the last row has seen the whole bounding box.
proof fn lemma_hits_full(p: Drop, width: int, rows: int, k: int)
    requires
        rows == if p.z > 0 {
            p.z as int
        } else {
            0
        },
    ensures
        hits_before(p, width, rows, 0, k) <==> hits(p, width, k),
{
    if hits_before(p, width, rows, 0, k) {
        let (a, b) = choose|a: int, b: int|
            0 <= a < p.z && 0 <= b < box_width(p.z as int) && (a < rows || (a == rows && b < 0)) && k
                == #[trigger] cell(p, width, a, b);
        assert(hits(p, width, k));
    }
    if hits(p, width, k) {
        let (a, b) = choose|a: int, b: int|
            0 <= a < p.z && 0 <= b < box_width(p.z as int) && k == #[trigger] cell(p, width, a, b);
        assert(hits_before(p, width, rows, 0, k));
    }
}

/// Nothing at all is covered before the scan of a bounding box begins.
proof fn lemma_hits_none(p: Drop, width: int, k: int)
    ensures
        !hits_before(p, width, 0, 0, k),
{
}

/// Consuming cell `(r, c)` makes the scan's part of the box visible
/// exactly when it was visible before, or that cell lies in the buffer.
proof fn lemma_visible_step(p: Drop, width: int, npix: int, r: int, c: int)
    requires
        0 <= r < p.z,
        0 <= c < box_width(p.z as int),
    ensures
        visible_before(p, width, npix, r, c + 1) <==> (visible_before(p, width, npix, r, c) || (0
            <= cell(p, width, r, c) < npix)),
{
    assert forall|k: int|
        hits_before(p, width, r, c + 1, k) <==> (hits_before(p, width, r, c, k) || k == cell(
            p,
            width,
            r,
            c,
        )) by {
        lemma_hits_step(p, width, r, c, k);
    }
    if visible_before(p, width, npix, r, c + 1) {
        let k = choose|k: int| 0 <= k < npix && #[trigger] hits_before(p, width, r, c + 1, k);
        if hits_before(p, width, r, c, k) {
            assert(visible_before(p, width, npix, r, c));
        }
    }
    if visible_before(p, width, npix, r, c) {
        let k = choose|k: int| 0 <= k < npix && #[trigger] hits_before(p, width, r, c, k);
        assert(hits_before(p, width, r, c + 1, k));
        assert(visible_before(p, width, npix, r, c + 1));
    }
    if 0 <= cell(p, width, r, c) < npix {
        assert(hits_before(p, width, r, c + 1, cell(p, width, r, c)));
        assert(visible_before(p, width, npix, r, c + 1));
    }
}

/// Finishing one row of the scan and standing at the start of the next
/// makes the same part of the box visible.
proof fn lemma_visible_row(p: Drop, width: int, npix: int, r: int)
    ensures
        visible_before(p, width, npix, r, box_width(p.z as int)) <==> visible_before(
            p,
            width,
            npix,
            r + 1,
            0,
        ),
{
    assert forall|k: int|
        hits_before(p, width, r, box_width(p.z as int), k) <==> hits_before(
            p,
            width,
            r + 1,
            0,
            k,
        ) by {
        lemma_hits_row(p, width, r, k);
    }
    if visible_before(p, width, npix, r, box_width(p.z as int)) {
        let k = choose|k: int|
            0 <= k < npix && #[trigger] hits_before(p, width, r, box_width(p.z as int), k);
        assert(hits_before(p, width, r + 1, 0, k));
        assert(visible_before(p, width, npix, r + 1, 0));
    }
    if visible_before(p, width, npix, r + 1, 0) {
        let k = choose|k: int| 0 <= k < npix && #[trigger] hits_before(p, width, r + 1, 0, k);
        assert(hits_before(p, width, r, box_width(p.z as int), k));
        assert(visible_before(p, width, npix, r, box_width(p.z as int)));
    }
}

/// A scan that stands past the last row has decided the drop's
/// visibility.
proof fn lemma_visible_full(p: Drop, width: int, npix: int, rows: int)
    requires
        rows == if p.z > 0 {
            p.z as int
        } else {
            0
        },
    ensures
        visible_before(p, width, npix, rows, 0) <==> visible(p, width, npix),
{
    assert forall|k: int| hits_before(p, width, rows, 0, k) <==> hits(p, width, k) by {
        lemma_hits_full(p, width, rows, k);
    }
    if visible_before(p, width, npix, rows, 0) {
        let k = choose|k: int| 0 <= k < npix && #[trigger] hits_before(p, width, rows, 0, k);
        assert(hits(p, width, k));
        assert(visible(p, width, npix));
    }
    if visible(p, width, npix) {
        let k = choose|k: int| 0 <= k < npix && #[trigger] hits(p, width, k);
        assert(hits_before(p, width, rows, 0, k));
        assert(visible_before(p, width, npix, rows, 0));
    }
}

/// Taking one more drop into account covers exactly the pixels covered
/// before plus those of that drop's bounding box.
proof fn lemma_covered_until_step(ps: Seq<Drop>, n: int, width: int, k: int)
    requires
        0 <= n < ps.len(),
    ensures
        covered_until(ps, n + 1, width, k) <==> (covered_until(ps, n, width, k) || hits(
            advanced(ps[n]),
            width,
            k,
        )),
{
    if covered_until(ps, n + 1, width, k) {
        let i = choose|i: int| 0 <= i < n + 1 && hits(advanced(#[trigger] ps[i]), width, k);
        if i < n {
            assert(covered_until(ps, n, width, k));
        }
    }
    if covered_until(ps, n, width, k) {
        let i = choose|i: int| 0 <= i < n && hits(advanced(#[trigger] ps[i]), width, k);
        assert(covered_until(ps, n + 1, width, k));
    }
    if hits(advanced(ps[n]), width, k) {
        assert(covered_until(ps, n + 1, width, k));
    }
}

/// Looking at every drop of the sequence covers the same pixels as
/// having exhausted the prefix scan.
proof fn lemma_covered_all(ps: Seq<Drop>, width: int, k: int)
    ensures
        covered_until(ps, ps.len() as int, width, k) <==> covered(ps, width, k),
{
    if covered_until(ps, ps.len() as int, width, k) {
        let i = choose|i: int| 0 <= i < ps.len() && hits(advanced(#[trigger] ps[i]), width, k);
        assert(covered(ps, width, k));
    }
    if covered(ps, width, k) {
        let i = choose|i: int| 0 <= i < ps.len() && hits(advanced(#[trigger] ps[i]), width, k);
        assert(covered_until(ps, ps.len() as int, width, k));
    }
}

/// A pixel whose four bytes were not touched shows its old color.
proof fn lemma_pixel_unchanged(prev: Seq<u8>, cur: Seq<u8>, k: int, color: Seq<u8>)
    requires
        pixel_eq(prev, k, color),
        forall|m: int| 4 * k <= m < 4 * k + 4 ==> cur[m] == #[trigger] prev[m],
    ensures
        pixel_eq(cur, k, color),
{
    assert forall|j: int| 0 <= j < 4 implies cur[4 * k + j] == color[j] by {
        assert(prev[4 * k + j] == color[j]);
        assert(cur[4 * k + j] == prev[4 * k + j]);
    }
}

/// Every pixel of the frame shows what one tick paints: the foreground
/// on each pixel that some advanced drop's bounding box covers, the
/// background on every other.
pub open spec fn rendered_frame(
    frame: Seq<u8>,
    ps: Seq<Drop>,
    width: int,
    npix: int,
    bg: Seq<u8>,
    fg: Seq<u8>,
) -> bool {
    forall|k: int|
        0 <= k < npix ==> if #[trigger] covered(ps, width, k) {
            pixel_eq(frame, k, fg)
        } else {
            pixel_eq(frame, k, bg)
        }
}

/// The frame as it stands after the first `n` drops of the tick were
/// rasterized.
spec fn prefix_ok(
    frame: Seq<u8>,
    ps: Seq<Drop>,
    n: int,
    width: int,
    npix: int,
    bg: Seq<u8>,
    fg: Seq<u8>,
) -> bool {
    forall|k: int|
        0 <= k < npix ==> if #[trigger] covered_until(ps, n, width, k) {
            pixel_eq(frame, k, fg)
        } else {
            pixel_eq(frame, k, bg)
        }
}

/// The frame as it stands in the middle of rasterizing the `n`th drop
/// `p`, with the row-major scan of its bounding box standing at `(r, c)`.
spec fn scan_ok(
    frame: Seq<u8>,
    ps: Seq<Drop>,
    n: int,
    p: Drop,
    width: int,
    npix: int,
    r: int,
    c: int,
    bg: Seq<u8>,
    fg: Seq<u8>,
) -> bool {
    forall|k: int|
        0 <= k < npix ==> if (#[trigger] covered_until(ps, n, width, k)) || hits_before(
            p,
            width,
            r,
            c,
            k,
        ) {
            pixel_eq(frame, k, fg)
        } else {
            pixel_eq(frame, k, bg)
        }
}

/// What `scan_ok` says of one pixel.
proof fn lemma_scan_at(
    frame: Seq<u8>,
    ps: Seq<Drop>,
    n: int,
    p: Drop,
    width: int,
    npix: int,
    r: int,
    c: int,
    bg: Seq<u8>,
    fg: Seq<u8>,
    k: int,
)
    requires
        scan_ok(frame, ps, n, p, width, npix, r, c, bg, fg),
        0 <= k < npix,
    ensures
        covered_until(ps, n, width, k) || hits_before(p, width, r, c, k) ==> pixel_eq(
            frame,
            k,
            fg,
        ),
        !(covered_until(ps, n, width, k) || hits_before(p, width, r, c, k)) ==> pixel_eq(
            frame,
            k,
            bg,
        ),
{
}

/// What `prefix_ok` says of one pixel.
proof fn lemma_prefix_at(
    frame: Seq<u8>,
    ps: Seq<Drop>,
    n: int,
    width: int,
    npix: int,
    bg: Seq<u8>,
    fg: Seq<u8>,
    k: int,
)
    requires
        prefix_ok(frame, ps, n, width, npix, bg, fg),
        0 <= k < npix,
    ensures
        covered_until(ps, n, width, k) ==> pixel_eq(frame, k, fg),
        !covered_until(ps, n, width, k) ==> pixel_eq(frame, k, bg),
{
}

/// A scan cell that lies outside the buffer paints nothing: consuming
/// it leaves the frame's description unchanged.
proof fn lemma_scan_skip_cell(
    frame: Seq<u8>,
    ps: Seq<Drop>,
    n: int,
    p: Drop,
    width: int,
    npix: int,
    r: int,
    c: int,
    bg: Seq<u8>,
    fg: Seq<u8>,
)
    requires
        scan_ok(frame, ps, n, p, width, npix, r, c, bg, fg),
        0 <= r < p.z,
        0 <= c < box_width(p.z as int),
        !(0 <= cell(p, width, r, c) < npix),
    ensures
        scan_ok(frame, ps, n, p, width, npix, r, c + 1, bg, fg),
{
    assert forall|k: int| 0 <= k < npix implies (if (#[trigger] covered_until(ps, n, width, k))
        || hits_before(p, width, r, c + 1, k) {
        pixel_eq(frame, k, fg)
    } else {
        pixel_eq(frame, k, bg)
    }) by {
        lemma_hits_step(p, width, r, c, k);
        lemma_scan_at(frame, ps, n, p, width, npix, r, c, bg, fg, k);
    }
}

/// How one tick leaves a drop, given how it entered it. A drop whose
/// advanced bounding box put at least one pixel into the buffer is simply
/// the advanced drop; one that painted nothing is recycled: moved to just
/// above the screen (`y == -z`, so it falls back into view) at a fresh
/// column somewhere on the screen, its size kept.
pub open spec fn rendered_drop(p: Drop, q: Drop, width: int, npix: int) -> bool {
    if visible(advanced(p), width, npix) {
        q == advanced(p)
    } else {
        q.y == -p.z && q.z == p.z && 0 <= q.x < width
    }
}

/// How one tick leaves the whole drop sequence: element by element as
/// `rendered_drop` says, its length unchanged.
pub open spec fn rendered_drops(ps: Seq<Drop>, qs: Seq<Drop>, width: int, npix: int) -> bool {
    &&& qs.len() == ps.len()
    &&& forall|t: int| 0 <= t < ps.len() ==> rendered_drop(#[trigger] ps[t], qs[t], width, npix)
}

/// Relies on rand::Rng::gen_range on rand's thread-local generator: a
/// draw from the range `0 .. width`, which is nonempty here and always
/// lands inside it.
#[verifier::external_body]
fn random_column(width: u32) -> (r: i32)
    requires
        1 <= width <= i32::MAX,
    ensures
        0 <= r < width,
{
    rand::thread_rng().gen_range(0..(width as i32))
}

/// One tick of the animation: clear the frame to the palette background,
/// advance every drop, rasterize each advanced drop's bounding box in
/// foreground pixels — silently skipping every cell whose linear index
/// falls outside the buffer — and recycle each drop that painted nothing.
///
/// The buffer holds `width * height` pixels of 4 bytes each; drops are
/// clipped against the linear byte range only, so a box crossing the
/// right edge wraps into the next row instead of being cut at the edge.
#[verifier::rlimit(60)]
#[verifier::loop_isolation(false)]
pub fn render(
    drops: &mut Vec<Drop>,
    frame: &mut Vec<u8>,
    width: u32,
    height: u32,
    palette: &Palette,
)
    requires
        1 <= width <= i32::MAX,
        old(frame).len() == width * height * 4,
        all_fit(old(drops)@),
    ensures
        final(frame).len() == old(frame).len(),
        rendered_frame(
            final(frame)@,
            old(drops)@,
            width as int,
            width * height,
            palette.background@,
            palette.foreground@,
        ),
        rendered_drops(old(drops)@, final(drops)@, width as int, width * height),
{
    let ghost ps0: Seq<Drop> = drops@;
    let ghost w: int = width as int;
    let ghost bgs: Seq<u8> = palette.background@;
    let ghost fgs: Seq<u8> = palette.foreground@;
    let ghost npix_g: int = width * height;

    let len: usize = frame.len();
    let npix: usize = len / 4;
    assert(npix == npix_g);

    clear(frame, &palette.background);

    let n: usize = drops.len();
    let mut i: usize = 0;
    while i < n
        invariant
            i <= n,
            drops.len() == n,
            forall|t: int| 0 <= t < i ==> drops@[t] == advanced(ps0[t]),
            forall|t: int| i <= t < n ==> drops@[t] == ps0[t],
        decreases n - i,
    {
        proof {
            assert(all_fit(ps0));
            assert(fits(ps0[i as int]));
        }
        drops[i].update();
        i = i + 1;
    }

    assert forall|k: int| 0 <= k < npix_g implies (if #[trigger] covered_until(ps0, 0, w, k) {
        pixel_eq(frame@, k, fgs)
    } else {
        pixel_eq(frame@, k, bgs)
    }) by {
        assert(!covered_until(ps0, 0, w, k));
        assert(pixel_eq(frame@, k, bgs));
    }
    assert(prefix_ok(frame@, ps0, 0, w, npix_g, bgs, fgs));

    let mut i: usize = 0;
    while i < n
        invariant
            i <= n,
            drops.len() == n,
            frame.len() == len,
            forall|t: int| i <= t < n ==> drops@[t] == advanced(ps0[t]),
            forall|t: int|
                0 <= t < i ==> rendered_drop(ps0[t], #[trigger] drops@[t], w, npix_g as int),
            prefix_ok(frame@, ps0, i as int, w, npix_g, bgs, fgs),
        decreases n - i,
    {
        let ghost ii: int = i as int;
        let p: Drop = drops[i];
        assert(p == advanced(ps0[ii]));
        proof {
            assert(all_fit(ps0));
            assert(fits(ps0[ii]));
        }
        let rows: i32 = if p.z > 0 {
            p.z
        } else {
            0
        };
        let cols: i32 = if p.z >= 4 {
            ((p.z as u32) / 4) as i32
        } else {
            0
        };
        assert(cols == box_width(p.z as int));

        let mut drawn: bool = false;
        let mut r: i32 = 0;

        assert forall|k: int| 0 <= k < npix_g implies (if (#[trigger] covered_until(
            ps0,
            ii,
            w,
            k,
        )) || hits_before(p, w, 0, 0, k) {
            pixel_eq(frame@, k, fgs)
        } else {
            pixel_eq(frame@, k, bgs)
        }) by {
            lemma_hits_none(p, w, k);
            lemma_prefix_at(frame@, ps0, ii, w, npix_g, bgs, fgs, k);
        }
        assert(scan_ok(frame@, ps0, ii, p, w, npix_g, 0, 0, bgs, fgs));
        assert(!visible_before(p, w, npix_g as int, 0, 0)) by {
            if visible_before(p, w, npix_g as int, 0, 0) {
                let k = choose|k: int| 0 <= k < npix_g && #[trigger] hits_before(p, w, 0, 0, k);
                lemma_hits_none(p, w, k);
            }
        }

        while r < rows
            invariant
                0 <= r <= rows,
                frame.len() == len,
                drawn == visible_before(p, w, npix_g as int, r as int, 0),
                scan_ok(frame@, ps0, ii, p, w, npix_g, r as int, 0, bgs, fgs),
            decreases rows - r,
        {
            let mut c: i32 = 0;
            while c < cols
                invariant
                    0 <= c <= cols,
                    frame.len() == len,
                    drawn == visible_before(p, w, npix_g as int, r as int, c as int),
                    scan_ok(frame@, ps0, ii, p, w, npix_g, r as int, c as int, bgs, fgs),
                decreases cols - c,
            {
                assert((p.y as int + r as int) * (width as int) <= 0x1_0000_0000_0000_0000
                    && -0x1_0000_0000_0000_0000 <= (p.y as int + r as int) * (width as int))
                    by (nonlinear_arith)
                    requires
                        -0x1_0000_0000 <= p.y as int + r as int <= 0x1_0000_0000,
                        0 <= width as int <= 0x1_0000_0000,
                ;
                let lin: i128 = (p.y as i128 + r as i128) * (width as i128) + (p.x as i128
                    + c as i128);
                assert(lin == cell(p, w, r as int, c as int));
                let ghost kw: int = cell(p, w, r as int, c as int);
                let ghost prev: Seq<u8> = frame@;
                let ghost cnew: int = c as int + 1;

                if 0 <= lin && lin < npix as i128 {
                    let kx: usize = lin as usize;
                    set_pixel(frame, kx, &palette.foreground);
                    drawn = true;

                    assert forall|k: int| 0 <= k < npix_g implies (if (#[trigger] covered_until(
                        ps0,
                        ii,
                        w,
                        k,
                    )) || hits_before(p, w, r as int, cnew, k) {
                        pixel_eq(frame@, k, fgs)
                    } else {
                        pixel_eq(frame@, k, bgs)
                    }) by {
                        lemma_hits_step(p, w, r as int, c as int, k);
                        lemma_scan_at(prev, ps0, ii, p, w, npix_g, r as int, c as int, bgs, fgs, k);
                        if k == kw {
                            assert(pixel_eq(frame@, k, fgs));
                        } else {
                            assert forall|m: int| 4 * k <= m < 4 * k + 4 implies frame@[m]
                                == prev[m] by {
                                assert(!(4 * kw <= m < 4 * kw + 4));
                            }
                            if covered_until(ps0, ii, w, k) || hits_before(
                                p,
                                w,
                                r as int,
                                c as int,
                                k,
                            ) {
                                lemma_pixel_unchanged(prev, frame@, k, fgs);
                            } else {
                                lemma_pixel_unchanged(prev, frame@, k, bgs);
                            }
                        }
                    }
                    assert(scan_ok(frame@, ps0, ii, p, w, npix_g, r as int, cnew, bgs, fgs));
                } else {
                    proof {
                        lemma_scan_skip_cell(
                            frame@,
                            ps0,
                            ii,
                            p,
                            w,
                            npix_g,
                            r as int,
                            c as int,
                            bgs,
                            fgs,
                        );
                    }
                    assert(scan_ok(frame@, ps0, ii, p, w, npix_g, r as int, cnew, bgs, fgs));
                }
                proof {
                    lemma_visible_step(p, w, npix_g as int, r as int, c as int);
                }
                c = c + 1;
            }
            let ghost rnew: int = r as int + 1;
            assert(c == cols);
            assert forall|k: int| 0 <= k < npix_g implies (if (#[trigger] covered_until(
                ps0,
                ii,
                w,
                k,
            )) || hits_before(p, w, rnew, 0, k) {
                pixel_eq(frame@, k, fgs)
            } else {
                pixel_eq(frame@, k, bgs)
            }) by {
                lemma_hits_row(p, w, r as int, k);
                lemma_scan_at(frame@, ps0, ii, p, w, npix_g, r as int, c as int, bgs, fgs, k);
            }
            assert(scan_ok(frame@, ps0, ii, p, w, npix_g, rnew, 0, bgs, fgs));
            proof {
                lemma_visible_row(p, w, npix_g as int, r as int);
            }
            r = r + 1;
        }

        proof {
            lemma_visible_full(p, w, npix_g as int, rows as int);
            assert(drawn == visible(p, w, npix_g as int));
        }
        let ghost i1: int = ii + 1;
        assert forall|k: int| 0 <= k < npix_g implies (if #[trigger] covered_until(
            ps0,
            i1,
            w,
            k,
        ) {
            pixel_eq(frame@, k, fgs)
        } else {
            pixel_eq(frame@, k, bgs)
        }) by {
            lemma_hits_full(p, w, rows as int, k);
            lemma_covered_until_step(ps0, ii, w, k);
            lemma_scan_at(frame@, ps0, ii, p, w, npix_g, rows as int, 0, bgs, fgs, k);
        }
        assert(prefix_ok(frame@, ps0, i1, w, npix_g, bgs, fgs));

        if !drawn {
            let mut d: Drop = p;
            d.y = -p.z;
            d.x = random_column(width);
            drops[i] = d;
        }
        assert(rendered_drop(ps0[ii], drops@[ii], w, npix_g as int));
        i = i + 1;
    }

    assert forall|t: int| 0 <= t < ps0.len() implies rendered_drop(
        #[trigger] ps0[t],
        drops@[t],
        w,
        npix_g as int,
    ) by {
        assert(rendered_drop(ps0[t], drops@[t], w, npix_g as int));
    }
    assert(rendered_drops(ps0, drops@, w, npix_g));

    assert forall|k: int| 0 <= k < npix_g implies (if #[trigger] covered(ps0, w, k) {
        pixel_eq(frame@, k, fgs)
    } else {
        pixel_eq(frame@, k, bgs)
    }) by {
        lemma_covered_all(ps0, w, k);
        lemma_prefix_at(frame@, ps0, n as int, w, npix_g, bgs, fgs, k);
    }
    assert(rendered_frame(frame@, ps0, w, npix_g, bgs, fgs));
}

/// With no drops at all no pixel is covered, so a tick into any buffer
/// leaves every pixel at the background color: a tick without particles
/// paints a fully-background frame.
pub proof fn lemma_empty_tick_background(
    frame: Seq<u8>,
    ps: Seq<Drop>,
    width: int,
    npix: int,
    bg: Seq<u8>,
    fg: Seq<u8>,
    k: int,
)
    requires
        ps.len() == 0,
        rendered_frame(frame, ps, width, npix, bg, fg),
        0 <= k < npix,
    ensures
        pixel_eq(frame, k, bg),
{
    assert(!covered(ps, width, k));
}

impl Drop {
    /// One tick at the fixed logical resolution, in the blue theme:
    /// clear, advance, rasterize and recycle, as `render` does.
    pub fn draw(drops: &mut Vec<Drop>, frame: &mut Vec<u8>)
        requires
            old(frame).len() == WIDTH * HEIGHT * 4,
            all_fit(old(drops)@),
        ensures
            final(frame).len() == old(frame).len(),
            rendered_frame(
                final(frame)@,
                old(drops)@,
                WIDTH as int,
                WIDTH * HEIGHT,
                BLUE_BACKGROUND@,
                BLUE_RAIN@,
            ),
            rendered_drops(old(drops)@, final(drops)@, WIDTH as int, WIDTH * HEIGHT),
    {
        let palette = Palette { background: BLUE_BACKGROUND, foreground: BLUE_RAIN };
        render(drops, frame, WIDTH, HEIGHT, &palette);
    }
}

} // verus!
