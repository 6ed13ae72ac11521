//! A builder that defers per-pixel operations and applies them in one pass.
use crate::image::{photon_of, planar_of, PhotonImage, PlanarImage, PlanarView};
use crate::ops::{
    apply_pixel_op_scalar, fused_image, lemma_fused_matches_sequential,
    lemma_ops_image_split, lemma_ops_keep_alpha_and_shape, op_fits, op_fits_image, op_image, ops_fit, ops_image, ops_pixel, pixel_at, PixelOp,
};
use vstd::prelude::*;

verus! {

broadcast use crate::image::lemma_planar_view_fields;

/// The channel index that ends up at position `c` when channels `c1` and `c2`
/// trade places.
pub open spec fn swapped_index(c: int, c1: int, c2: int) -> int {
    if c == c1 {
        c2
    } else if c == c2 {
        c1
    } else {
        c
    }
}

/// The image with colour planes `c1` and `c2` exchanged (0 = R, 1 = G, 2 = B).
pub open spec fn swap_image(img: PlanarView, c1: int, c2: int) -> PlanarView {
    PlanarView {
        r: img.plane(swapped_index(0, c1, c2)),
        g: img.plane(swapped_index(1, c1, c2)),
        b: img.plane(swapped_index(2, c1, c2)),
        a: img.a,
        width: img.width,
        height: img.height,
    }
}

/// A planar image together with the colour operations not yet applied to it.
///
/// Its value (`@`) is the image as it stands once the pending operations have run.
pub struct Pipeline {
    image: PlanarImage,
    pending: Vec<PixelOp>,
}

impl View for Pipeline {
    type V = PlanarView;

    closed spec fn view(&self) -> PlanarView {
        ops_image(self.pending@, self.image@)
    }
}

impl Pipeline {
    /// The planes have equal length and every pending operation can be applied
    /// to every pixel when its turn comes.
    pub closed spec fn wf(&self) -> bool {
        &&& self.image@.wf()
        &&& ops_fit(self.pending@, self.image@)
    }

    /// The colour operations queued and not yet applied, first to last.
    pub closed spec fn pending_ops(&self) -> Seq<PixelOp> {
        self.pending@
    }

    /// The image the queued operations have not yet been applied to.
    pub closed spec fn base_image(&self) -> PlanarView {
        self.image@
    }

    /// The value of a pipeline is its image after the queued operations, so
    /// whatever acts on the value (a filter, a channel swap, `finish`) sees the
    /// queued operations applied first.
    pub proof fn lemma_pending_ops_run_first(&self)
        ensures
            self@ == ops_image(self.pending_ops(), self.base_image()),
    {
    }

    /// Queuing further operations onto a pipeline is applying them, in order,
    /// to its current value.
    pub proof fn lemma_chain_is_sequential(&self, more: Seq<PixelOp>)
        ensures
            ops_image(self.pending_ops() + more, self.base_image()) == ops_image(more, self@),
    {
        lemma_ops_image_split(self.pending@, more, self.image@);
    }

    /// A well-formed pipeline stands for an image whose planes have equal length.
    pub proof fn lemma_view_wf(&self)
        requires
            self.wf(),
        ensures
            self@.wf(),
    {
        lemma_ops_keep_alpha_and_shape(self.pending@, self.image@);
    }

    /// Starts a pipeline on the planes of `img`.
    pub fn from_photon_image(img: &PhotonImage) -> (p: Pipeline)
        requires
            img@.width * img@.height <= u32::MAX,
        ensures
            p.wf(),
            p@ == planar_of(img@),
            p.pending_ops().len() == 0,
            p.base_image() == planar_of(img@),
    {
        let planar_image = PlanarImage::from_photon_image(img);
        let p = Pipeline { image: planar_image, pending: Vec::new() };
        assert(p.pending@.len() == 0);
        p
    }

    /// Starts a pipeline on a planar image whose planes have equal length;
    /// `None` when they do not.
    pub fn from_planar_image(image: PlanarImage) -> (p: Option<Pipeline>)
        ensures
            p is Some <==> image@.wf(),
            p matches Some(p) ==> {
                &&& p.wf()
                &&& p@ == image@
                &&& p.pending_ops().len() == 0
                &&& p.base_image() == image@
            },
    {
        let n = image.r.len();
        if image.g.len() == n && image.b.len() == n && image.a.len() == n {
            let p = Pipeline { image, pending: Vec::new() };
            assert(p.pending@.len() == 0);
            Some(p)
        } else {
            None
        }
    }

    /// Starts a pipeline on a planar image whose planes have equal length.
    pub(crate) fn from_wf_image(image: PlanarImage) -> (p: Pipeline)
        requires
            image@.wf(),
        ensures
            p.wf(),
            p@ == image@,
            p.pending_ops().len() == 0,
            p.base_image() == image@,
    {
        let p = Pipeline { image, pending: Vec::new() };
        assert(p.pending@.len() == 0);
        p
    }

    /// Applies the pending operations and hands out the resulting planar image.
    pub fn into_planar_image(self) -> (image: PlanarImage)
        requires
            self.wf(),
        ensures
            image@ == self@,
            image@.wf(),
    {
        let mut p = self;
        p.flush_pixel_ops();
        p.image
    }

    /// Applies the pending operations and interleaves the result.
    pub fn finish(self) -> (img: PhotonImage)
        requires
            self.wf(),
            self@.area() <= u32::MAX,
            self@.covers_area(),
        ensures
            img@ == photon_of(self@),
    {
        let mut p = self;
        p.flush_pixel_ops();
        p.image.to_photon_image()
    }

    /// Sets each colour channel to the mean of the three.
    pub fn gray_scale(self) -> (p: Self)
        requires
            self.wf(),
        ensures
            p.wf(),
            p@ == op_image(PixelOp::GrayScale, self@),
    {
        let mut p = self;
        p.push_op(PixelOp::GrayScale);
        p
    }

    /// Sets each colour channel to the mean of the three plus its offset,
    /// limited to 255.
    pub fn monochrome(self, r_offset: u8, g_offset: u8, b_offset: u8) -> (p: Self)
        requires
            self.wf(),
        ensures
            p.wf(),
            p@ == op_image(PixelOp::Monochrome { r_offset, g_offset, b_offset }, self@),
    {
        let mut p = self;
        p.push_op(PixelOp::Monochrome { r_offset, g_offset, b_offset });
        p
    }

    /// Replaces each colour value `v` by `255 - v`.
    pub fn invert(self) -> (p: Self)
        requires
            self.wf(),
        ensures
            p.wf(),
            p@ == op_image(PixelOp::Invert, self@),
    {
        let mut p = self;
        p.push_op(PixelOp::Invert);
        p
    }

    /// Adds the given amounts to the colour channels, limited to `0..=255`.
    pub fn alter_channels(self, r: i16, g: i16, b: i16) -> (p: Self)
        requires
            self.wf(),
            op_fits_image(PixelOp::AlterChannels { r, g, b }, self@),
        ensures
            p.wf(),
            p@ == op_image(PixelOp::AlterChannels { r, g, b }, self@),
    {
        let mut p = self;
        p.push_op(PixelOp::AlterChannels { r, g, b });
        p
    }

    /// Exchanges two colour planes (0 = R, 1 = G, 2 = B).
    pub fn swap_channels(self, channel1: usize, channel2: usize) -> (p: Self)
        requires
            self.wf(),
            channel1 <= 2,
            channel2 <= 2,
        ensures
            p.wf(),
            p@ == swap_image(self@, channel1 as int, channel2 as int),
            p.pending_ops().len() == 0,
            p.base_image() == p@,
    {
        let mut channel1 = channel1;
        let mut channel2 = channel2;
        let mut p = self;
        p.flush_pixel_ops();
        let ghost before = p.image@;
        assert(p@ == before);

        if channel1 == channel2 {
            assert(swap_image(before, channel1 as int, channel2 as int) =~= before);
            return p;
        }
        if channel1 > channel2 {
            std::mem::swap(&mut channel1, &mut channel2);
        }
        if channel1 == 0 && channel2 == 1 {
            std::mem::swap(&mut p.image.r, &mut p.image.g);
        } else if channel1 == 0 && channel2 == 2 {
            std::mem::swap(&mut p.image.r, &mut p.image.b);
        } else {
            std::mem::swap(&mut p.image.g, &mut p.image.b);
        }
        assert(p.pending@.len() == 0);
        assert(p@ == p.image@);
        p
    }

    fn push_op(&mut self, op: PixelOp)
        requires
            old(self).wf(),
            op_fits_image(op, old(self)@),
        ensures
            final(self).wf(),
            final(self)@ == op_image(op, old(self)@),
    {
        let ghost before = self.pending@;
        let ghost img = self.image@;
        proof {
            lemma_fused_matches_sequential(before, img);
            lemma_ops_keep_alpha_and_shape(before, img);
        }
        self.pending.push(op);
        let ghost after = self.pending@;
        assert(after.drop_last() =~= before);
        assert forall|j: int, i: int|
            0 <= j < after.len() && 0 <= i < img.r.len() implies #[trigger] op_fits(
            after[j],
            ops_pixel(after.take(j), #[trigger] pixel_at(img, i)),
        ) by {
            if j < before.len() {
                assert(after.take(j) =~= before.take(j));
                assert(after[j] == before[j]);
            } else {
                assert(after.take(j) =~= before);
                assert(pixel_at(fused_image(before, img), i) == ops_pixel(before, pixel_at(img, i)));
                assert(op_fits(op, pixel_at(ops_image(before, img), i)));
            }
        }
    }

    /// Runs every pending operation over every pixel in a single pass.
    fn flush_pixel_ops(&mut self)
        requires
            old(self).wf(),
        ensures
            final(self).wf(),
            final(self)@ == old(self)@,
            final(self).pending@.len() == 0,
            final(self).image@ == ops_image(old(self).pending@, old(self).image@),
    {
        if self.pending.is_empty() {
            return;
        }
        let ghost orig = self.image@;
        let ghost ops = self.pending@;
        let n = self.image.r.len();
        let mut i: usize = 0;
        while i < n
            invariant
                orig.wf(),
                n == orig.r.len(),
                i <= n,
                self.pending@ == ops,
                ops_fit(ops, orig),
                self.image@.wf(),
                self.image@.r.len() == n,
                self.image@.a == orig.a,
                self.image@.width == orig.width,
                self.image@.height == orig.height,
                forall|k: int|
                    0 <= k < i ==> #[trigger] pixel_at(self.image@, k) == ops_pixel(
                        ops,
                        pixel_at(orig, k),
                    ),
                forall|k: int| i <= k < n ==> #[trigger] pixel_at(self.image@, k) == pixel_at(orig, k),
            decreases n - i,
        {
            let mut r = self.image.r[i];
            let mut g = self.image.g[i];
            let mut b = self.image.b[i];
            assert(pixel_at(self.image@, i as int) == pixel_at(orig, i as int));
            assert((r, g, b) == pixel_at(orig, i as int));
            assert(ops.take(0) =~= Seq::<PixelOp>::empty());
            let m = self.pending.len();
            let mut j: usize = 0;
            while j < m
                invariant
                    m == ops.len(),
                    j <= m,
                    self.pending@ == ops,
                    ops_fit(ops, orig),
                    i < n,
                    n == orig.r.len(),
                    (r, g, b) == ops_pixel(ops.take(j as int), pixel_at(orig, i as int)),
                decreases m - j,
            {
                apply_pixel_op_scalar(&self.pending[j], &mut r, &mut g, &mut b);
                assert(ops.take(j + 1).drop_last() =~= ops.take(j as int));
                j = j + 1;
            }
            assert(ops.take(m as int) =~= ops);
            let ghost before = self.image@;
            self.image.r.set(i, r);
            self.image.g.set(i, g);
            self.image.b.set(i, b);
            assert forall|k: int| 0 <= k < n && k != i implies #[trigger] pixel_at(self.image@, k)
                == pixel_at(before, k) by {}
            i = i + 1;
        }
        self.pending.clear();
        proof {
            let f = fused_image(ops, orig);
            assert forall|k: int| 0 <= k < n implies #[trigger] pixel_at(self.image@, k) == pixel_at(
                f,
                k,
            ) by {
                assert(pixel_at(self.image@, k) == ops_pixel(ops, pixel_at(orig, k)));
            }
            assert forall|k: int| 0 <= k < n implies #[trigger] self.image@.g[k] == f.g[k] by {
                assert(pixel_at(self.image@, k) == pixel_at(f, k));
            }
            assert forall|k: int| 0 <= k < n implies #[trigger] self.image@.b[k] == f.b[k] by {
                assert(pixel_at(self.image@, k) == pixel_at(f, k));
            }
            assert forall|k: int| 0 <= k < n implies #[trigger] self.image@.r[k] == f.r[k] by {
                assert(pixel_at(self.image@, k) == pixel_at(f, k));
            }
            assert(self.image@.r =~= f.r);
            assert(self.image@.g =~= f.g);
            assert(self.image@.b =~= f.b);
            assert(self.image@ == f);
            lemma_fused_matches_sequential(ops, orig);
            lemma_ops_keep_alpha_and_shape(ops, orig);
        }
    }
}

/// Exchanging the same two colour planes twice gives the image back, and the
/// order in which the two planes are named does not matter.
pub proof fn lemma_swap_channels_involution(img: PlanarView, c1: int, c2: int)
    requires
        0 <= c1 <= 2,
        0 <= c2 <= 2,
    ensures
        swap_image(swap_image(img, c1, c2), c1, c2) == img,
        swap_image(img, c1, c2) == swap_image(img, c2, c1),
{
}

/// Swapping channels `c1` and `c2` puts plane `c2` of the image where plane `c1`
/// was and plane `c1` where plane `c2` was; the third colour plane, the alpha
/// plane and the dimensions stay as they were.
pub proof fn lemma_swap_channels_exchanges(img: PlanarView, c1: int, c2: int)
    requires
        0 <= c1 <= 2,
        0 <= c2 <= 2,
    ensures
        swap_image(img, c1, c2).plane(c1) == img.plane(c2),
        swap_image(img, c1, c2).plane(c2) == img.plane(c1),
        forall|c: int|
            0 <= c <= 2 && c != c1 && c != c2 ==> #[trigger] swap_image(img, c1, c2).plane(c)
                == img.plane(c),
        swap_image(img, c1, c2).a == img.a,
        swap_image(img, c1, c2).width == img.width,
        swap_image(img, c1, c2).height == img.height,
{
}

} // verus!
