//! Per-pixel colour operations and their meaning on pixels and whole images.
use crate::image::PlanarView;
use vstd::prelude::*;

verus! {

/// A per-pixel operation that the pipeline can defer and fuse.
pub enum PixelOp {
    GrayScale,
    Monochrome { r_offset: u8, g_offset: u8, b_offset: u8 },
    Invert,
    AlterChannels { r: i16, g: i16, b: i16 },
}

/// The operation can be applied to pixel `px` without overflowing the `i16`
/// sum of a channel value and its shift.
pub open spec fn op_fits(op: PixelOp, px: (u8, u8, u8)) -> bool {
    match op {
        PixelOp::AlterChannels { r, g, b } => {
            &&& px.0 + r <= i16::MAX
            &&& px.1 + g <= i16::MAX
            &&& px.2 + b <= i16::MAX
        },
        _ => true,
    }
}

/// The integer mean of the three colour channels, rounded down.
pub open spec fn avg3(r: u8, g: u8, b: u8) -> int {
    (r + g + b) / 3
}

/// `v` limited to the byte range.
pub open spec fn clamp_u8(v: int) -> u8 {
    if v < 0 {
        0
    } else if v > 255 {
        255
    } else {
        v as u8
    }
}

/// What `op` does to one (R, G, B) pixel.
pub open spec fn op_pixel(op: PixelOp, px: (u8, u8, u8)) -> (u8, u8, u8) {
    match op {
        PixelOp::GrayScale => {
            let m = avg3(px.0, px.1, px.2) as u8;
            (m, m, m)
        },
        PixelOp::Monochrome { r_offset, g_offset, b_offset } => {
            let m = avg3(px.0, px.1, px.2);
            (clamp_u8(m + r_offset), clamp_u8(m + g_offset), clamp_u8(m + b_offset))
        },
        PixelOp::Invert => ((255 - px.0) as u8, (255 - px.1) as u8, (255 - px.2) as u8),
        PixelOp::AlterChannels { r, g, b } => (
            clamp_u8(px.0 + r),
            clamp_u8(px.1 + g),
            clamp_u8(px.2 + b),
        ),
    }
}

/// What the operations do to one pixel, applied first to last.
pub open spec fn ops_pixel(ops: Seq<PixelOp>, px: (u8, u8, u8)) -> (u8, u8, u8)
    decreases ops.len(),
{
    if ops.len() == 0 {
        px
    } else {
        op_pixel(ops.last(), ops_pixel(ops.drop_last(), px))
    }
}

/// The colour channels of pixel `i`.
pub open spec fn pixel_at(img: PlanarView, i: int) -> (u8, u8, u8) {
    (img.r[i], img.g[i], img.b[i])
}

/// The operation can be applied to every pixel of the image.
pub open spec fn op_fits_image(op: PixelOp, img: PlanarView) -> bool {
    forall|i: int| 0 <= i < img.r.len() ==> op_fits(op, #[trigger] pixel_at(img, i))
}

/// Every operation can be applied to every pixel as it stands when that
/// operation's turn comes.
pub open spec fn ops_fit(ops: Seq<PixelOp>, img: PlanarView) -> bool {
    forall|j: int, i: int|
        #![trigger ops[j], pixel_at(img, i)]
        0 <= j < ops.len() && 0 <= i < img.r.len() ==> op_fits(
            ops[j],
            ops_pixel(ops.take(j), pixel_at(img, i)),
        )
}

/// `op` applied to every pixel of the image; alpha and dimensions stay.
pub open spec fn op_image(op: PixelOp, img: PlanarView) -> PlanarView {
    PlanarView {
        r: Seq::new(img.r.len(), |i: int| op_pixel(op, pixel_at(img, i)).0),
        g: Seq::new(img.r.len(), |i: int| op_pixel(op, pixel_at(img, i)).1),
        b: Seq::new(img.r.len(), |i: int| op_pixel(op, pixel_at(img, i)).2),
        a: img.a,
        width: img.width,
        height: img.height,
    }
}

/// The operations applied one after another, each to the whole image.
pub open spec fn ops_image(ops: Seq<PixelOp>, img: PlanarView) -> PlanarView
    decreases ops.len(),
{
    if ops.len() == 0 {
        img
    } else {
        op_image(ops.last(), ops_image(ops.drop_last(), img))
    }
}

/// The operations applied in a single pass: each pixel goes through all of them.
pub open spec fn fused_image(ops: Seq<PixelOp>, img: PlanarView) -> PlanarView {
    PlanarView {
        r: Seq::new(img.r.len(), |i: int| ops_pixel(ops, pixel_at(img, i)).0),
        g: Seq::new(img.r.len(), |i: int| ops_pixel(ops, pixel_at(img, i)).1),
        b: Seq::new(img.r.len(), |i: int| ops_pixel(ops, pixel_at(img, i)).2),
        a: img.a,
        width: img.width,
        height: img.height,
    }
}

/// Applies one operation to the colour channels of a single pixel.
pub fn apply_pixel_op_scalar(op: &PixelOp, r: &mut u8, g: &mut u8, b: &mut u8)
    requires
        op_fits(*op, (*old(r), *old(g), *old(b))),
    ensures
        (*final(r), *final(g), *final(b)) == op_pixel(*op, (*old(r), *old(g), *old(b))),
{
    match op {
        PixelOp::GrayScale => {
            let avg = ((*r as u32 + *g as u32 + *b as u32) / 3) as u8;
            *r = avg;
            *g = avg;
            *b = avg;
        },
        PixelOp::Monochrome { r_offset, g_offset, b_offset } => {
            let avg = (*r as u32 + *g as u32 + *b as u32) / 3;
            *r = min_255(avg + *r_offset as u32);
            *g = min_255(avg + *g_offset as u32);
            *b = min_255(avg + *b_offset as u32);
        },
        PixelOp::Invert => {
            *r = 255 - *r;
            *g = 255 - *g;
            *b = 255 - *b;
        },
        PixelOp::AlterChannels { r: dr, g: dg, b: db } => {
            *r = clamp_to_byte(*r as i16 + *dr);
            *g = clamp_to_byte(*g as i16 + *dg);
            *b = clamp_to_byte(*b as i16 + *db);
        },
    }
}

fn min_255(v: u32) -> (res: u8)
    ensures
        res == clamp_u8(v as int),
{
    if v > 255 {
        255
    } else {
        v as u8
    }
}

fn clamp_to_byte(v: i16) -> (res: u8)
    ensures
        res == clamp_u8(v as int),
{
    if v < 0 {
        0
    } else if v > 255 {
        255
    } else {
        v as u8
    }
}

/// Running the operations in one fused pass over the pixels gives the same image
/// as applying them one after another to the whole image.
pub proof fn lemma_fused_matches_sequential(ops: Seq<PixelOp>, img: PlanarView)
    requires
        img.wf(),
    ensures
        fused_image(ops, img) == ops_image(ops, img),
    decreases ops.len(),
{
    if ops.len() == 0 {
        let f = fused_image(ops, img);
        assert(f.r =~= img.r);
        assert(f.g =~= img.g);
        assert(f.b =~= img.b);
    } else {
        let prev = ops.drop_last();
        lemma_fused_matches_sequential(prev, img);
        let f = fused_image(ops, img);
        let s = ops_image(ops, img);
        assert(f.r =~= s.r);
        assert(f.g =~= s.g);
        assert(f.b =~= s.b);
    }
}

/// Colour operations keep the alpha plane, the plane lengths and the dimensions.
pub proof fn lemma_ops_keep_alpha_and_shape(ops: Seq<PixelOp>, img: PlanarView)
    requires
        img.wf(),
    ensures
        ops_image(ops, img).wf(),
        ops_image(ops, img).r.len() == img.r.len(),
        ops_image(ops, img).a == img.a,
        ops_image(ops, img).width == img.width,
        ops_image(ops, img).height == img.height,
    decreases ops.len(),
{
    if ops.len() > 0 {
        lemma_ops_keep_alpha_and_shape(ops.drop_last(), img);
    }
}

/// Inverting twice gives the image back.
pub proof fn lemma_invert_involution(img: PlanarView)
    requires
        img.wf(),
    ensures
        op_image(PixelOp::Invert, op_image(PixelOp::Invert, img)) == img,
{
    let twice = op_image(PixelOp::Invert, op_image(PixelOp::Invert, img));
    assert(twice.r =~= img.r);
    assert(twice.g =~= img.g);
    assert(twice.b =~= img.b);
}

/// Gray-scaling leaves the three colour channels equal, and a second gray-scale
/// changes nothing.
pub proof fn lemma_gray_scale_idempotent(img: PlanarView)
    requires
        img.wf(),
    ensures
        op_image(PixelOp::GrayScale, img).r == op_image(PixelOp::GrayScale, img).g,
        op_image(PixelOp::GrayScale, img).g == op_image(PixelOp::GrayScale, img).b,
        op_image(PixelOp::GrayScale, op_image(PixelOp::GrayScale, img)) == op_image(
            PixelOp::GrayScale,
            img,
        ),
{
    let once = op_image(PixelOp::GrayScale, img);
    let twice = op_image(PixelOp::GrayScale, once);
    assert(once.r =~= once.g);
    assert(once.g =~= once.b);
    assert(twice.r =~= once.r);
    assert(twice.g =~= once.g);
    assert(twice.b =~= once.b);
}

/// Monochrome with no offsets is gray-scale.
pub proof fn lemma_monochrome_zero_is_gray_scale(img: PlanarView)
    requires
        img.wf(),
    ensures
        op_image(PixelOp::Monochrome { r_offset: 0, g_offset: 0, b_offset: 0 }, img) == op_image(
            PixelOp::GrayScale,
            img,
        ),
{
    let m = op_image(PixelOp::Monochrome { r_offset: 0, g_offset: 0, b_offset: 0 }, img);
    let gs = op_image(PixelOp::GrayScale, img);
    assert(m.r =~= gs.r);
    assert(m.g =~= gs.g);
    assert(m.b =~= gs.b);
}

/// Shifting the channels by nothing changes nothing.
pub proof fn lemma_alter_channels_zero_is_identity(img: PlanarView)
    requires
        img.wf(),
    ensures
        op_image(PixelOp::AlterChannels { r: 0, g: 0, b: 0 }, img) == img,
{
    let m = op_image(PixelOp::AlterChannels { r: 0, g: 0, b: 0 }, img);
    assert(m.r =~= img.r);
    assert(m.g =~= img.g);
    assert(m.b =~= img.b);
}

/// Applying a sequence of operations in two parts, first `a` and then `b`, is
/// applying `a + b`; applying no operation leaves the image as it is.
pub proof fn lemma_ops_image_split(a: Seq<PixelOp>, b: Seq<PixelOp>, img: PlanarView)
    ensures
        ops_image(a + b, img) == ops_image(b, ops_image(a, img)),
        ops_image(Seq::<PixelOp>::empty(), img) == img,
    decreases b.len(),
{
    if b.len() == 0 {
        assert(a + b =~= a);
    } else {
        lemma_ops_image_split(a, b.drop_last(), img);
        assert((a + b).drop_last() =~= a + b.drop_last());
        assert((a + b).last() == b.last());
    }
}

/// Pixel `i` of an image after a colour operation is the operation applied to
/// pixel `i` of the image before it; alpha, plane lengths and dimensions stay.
pub proof fn lemma_op_image_pixel(op: PixelOp, img: PlanarView, i: int)
    requires
        img.wf(),
        0 <= i < img.r.len(),
    ensures
        op_image(op, img).wf(),
        op_image(op, img).r.len() == img.r.len(),
        op_image(op, img).a == img.a,
        op_image(op, img).width == img.width,
        op_image(op, img).height == img.height,
        (op_image(op, img).r[i], op_image(op, img).g[i], op_image(op, img).b[i]) == op_pixel(
            op,
            (img.r[i], img.g[i], img.b[i]),
        ),
{
}

/// Gray-scale gives all three colour channels the mean of the pixel's three
/// channels, rounded down: three times the new value is at most their sum and
/// more than the sum minus three.
pub proof fn lemma_gray_scale_pixel(r: u8, g: u8, b: u8)
    ensures
        op_pixel(PixelOp::GrayScale, (r, g, b)).0 == op_pixel(PixelOp::GrayScale, (r, g, b)).1,
        op_pixel(PixelOp::GrayScale, (r, g, b)).1 == op_pixel(PixelOp::GrayScale, (r, g, b)).2,
        3 * op_pixel(PixelOp::GrayScale, (r, g, b)).0 <= r + g + b,
        r + g + b < 3 * op_pixel(PixelOp::GrayScale, (r, g, b)).0 + 3,
{
}

/// Monochrome gives each colour channel the rounded-down mean of the pixel's
/// three channels plus that channel's own offset, limited to 255.
pub proof fn lemma_monochrome_pixel(r: u8, g: u8, b: u8, r_offset: u8, g_offset: u8, b_offset: u8)
    ensures
        ({
            let out = op_pixel(PixelOp::Monochrome { r_offset, g_offset, b_offset }, (r, g, b));
            let mean = (r + g + b) / 3;
            &&& out.0 == (if mean + r_offset > 255 { 255 } else { mean + r_offset })
            &&& out.1 == (if mean + g_offset > 255 { 255 } else { mean + g_offset })
            &&& out.2 == (if mean + b_offset > 255 { 255 } else { mean + b_offset })
        }),
{
}

/// Monochrome is gray-scale followed by shifting each channel by its offset.
pub proof fn lemma_monochrome_is_shifted_gray_scale(
    r: u8,
    g: u8,
    b: u8,
    r_offset: u8,
    g_offset: u8,
    b_offset: u8,
)
    ensures
        op_pixel(PixelOp::Monochrome { r_offset, g_offset, b_offset }, (r, g, b)) == op_pixel(
            PixelOp::AlterChannels { r: r_offset as i16, g: g_offset as i16, b: b_offset as i16 },
            op_pixel(PixelOp::GrayScale, (r, g, b)),
        ),
{
}

/// Inverting maps each colour channel `v` to `255 - v`.
pub proof fn lemma_invert_pixel(r: u8, g: u8, b: u8)
    ensures
        op_pixel(PixelOp::Invert, (r, g, b)).0 == 255 - r,
        op_pixel(PixelOp::Invert, (r, g, b)).1 == 255 - g,
        op_pixel(PixelOp::Invert, (r, g, b)).2 == 255 - b,
{
}

/// Shifting the channels adds to each channel its own shift and limits the
/// sum to `0..=255`; a channel's result depends on its value and shift alone.
pub proof fn lemma_alter_channels_pixel(r: u8, g: u8, b: u8, dr: i16, dg: i16, db: i16)
    ensures
        ({
            let out = op_pixel(PixelOp::AlterChannels { r: dr, g: dg, b: db }, (r, g, b));
            &&& out.0 == (if r + dr < 0 { 0 } else if r + dr > 255 { 255 } else { r + dr })
            &&& out.1 == (if g + dg < 0 { 0 } else if g + dg > 255 { 255 } else { g + dg })
            &&& out.2 == (if b + db < 0 { 0 } else if b + db > 255 { 255 } else { b + db })
        }),
{
}

} // verus!
