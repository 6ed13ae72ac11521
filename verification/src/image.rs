//! Interleaved (`PhotonImage`) and planar (`PlanarImage`) RGBA images and the
//! conversions between them.
use vstd::prelude::*;

verus! {

/// Abstract value of an interleaved image: four bytes per pixel (R, G, B, A).
pub struct PhotonView {
    pub raw: Seq<u8>,
    pub width: u32,
    pub height: u32,
}

/// Abstract value of a planar image: one byte sequence per channel.
pub struct PlanarView {
    pub r: Seq<u8>,
    pub g: Seq<u8>,
    pub b: Seq<u8>,
    pub a: Seq<u8>,
    pub width: u32,
    pub height: u32,
}

impl PlanarView {
    /// All four planes hold the same number of pixels.
    pub open spec fn wf(self) -> bool {
        &&& self.g.len() == self.r.len()
        &&& self.b.len() == self.r.len()
        &&& self.a.len() == self.r.len()
    }

    /// The number of pixels that `width * height` names.
    pub open spec fn area(self) -> int {
        self.width * self.height
    }

    /// Every plane holds at least `width * height` pixels.
    pub open spec fn covers_area(self) -> bool {
        &&& self.area() <= self.r.len()
        &&& self.area() <= self.g.len()
        &&& self.area() <= self.b.len()
        &&& self.area() <= self.a.len()
    }

    /// The plane with the given channel index (0 = R, 1 = G, 2 = B, otherwise A).
    pub open spec fn plane(self, c: int) -> Seq<u8> {
        if c == 0 {
            self.r
        } else if c == 1 {
            self.g
        } else if c == 2 {
            self.b
        } else {
            self.a
        }
    }
}

/// Splits an interleaved image into planes: pixel `i` is bytes `4i..4i+4`;
/// trailing bytes that do not form a whole pixel are dropped.
pub open spec fn planar_of(img: PhotonView) -> PlanarView {
    let n = img.raw.len() / 4;
    PlanarView {
        r: Seq::new(n, |i: int| img.raw[4 * i]),
        g: Seq::new(n, |i: int| img.raw[4 * i + 1]),
        b: Seq::new(n, |i: int| img.raw[4 * i + 2]),
        a: Seq::new(n, |i: int| img.raw[4 * i + 3]),
        width: img.width,
        height: img.height,
    }
}

/// Interleaves the first `width * height` pixels of the planes.
pub open spec fn photon_of(img: PlanarView) -> PhotonView {
    PhotonView {
        raw: Seq::new((4 * img.area()) as nat, |j: int| img.plane(j % 4)[j / 4]),
        width: img.width,
        height: img.height,
    }
}

/// An RGBA image stored as interleaved bytes, four per pixel.
#[derive(Clone, Debug)]
pub struct PhotonImage {
    raw_pixels: Vec<u8>,
    width: u32,
    height: u32,
}

impl View for PhotonImage {
    type V = PhotonView;

    closed spec fn view(&self) -> PhotonView {
        PhotonView { raw: self.raw_pixels@, width: self.width, height: self.height }
    }
}

impl PhotonImage {
    /// Wraps interleaved RGBA bytes; the dimensions are taken as given.
    pub fn new(raw_pixels: Vec<u8>, width: u32, height: u32) -> (img: PhotonImage)
        ensures
            img@ == (PhotonView { raw: raw_pixels@, width, height }),
    {
        PhotonImage { raw_pixels, width, height }
    }

    /// A copy of the interleaved bytes.
    pub fn get_raw_pixels(&self) -> (raw: Vec<u8>)
        ensures
            raw@ == self@.raw,
    {
        let raw = self.raw_pixels.clone();
        assert(raw@ =~= self.raw_pixels@);
        raw
    }

    pub fn get_width(&self) -> (w: u32)
        ensures
            w == self@.width,
    {
        self.width
    }

    pub fn get_height(&self) -> (h: u32)
        ensures
            h == self@.height,
    {
        self.height
    }
}

/// An RGBA image stored as four separate channel planes.
#[derive(Clone, Debug)]
pub struct PlanarImage {
    pub(crate) r: Vec<u8>,
    pub(crate) g: Vec<u8>,
    pub(crate) b: Vec<u8>,
    pub(crate) a: Vec<u8>,
    pub(crate) width: u32,
    pub(crate) height: u32,
}

impl View for PlanarImage {
    type V = PlanarView;

    closed spec fn view(&self) -> PlanarView {
        PlanarView {
            r: self.r@,
            g: self.g@,
            b: self.b@,
            a: self.a@,
            width: self.width,
            height: self.height,
        }
    }
}

impl PlanarImage {
    /// Builds a planar image from its parts, taken as given.
    pub fn from_planes(
        r: Vec<u8>,
        g: Vec<u8>,
        b: Vec<u8>,
        a: Vec<u8>,
        width: u32,
        height: u32,
    ) -> (img: PlanarImage)
        ensures
            img@ == (PlanarView { r: r@, g: g@, b: b@, a: a@, width, height }),
    {
        PlanarImage { r, g, b, a, width, height }
    }

    /// Splits the interleaved bytes of `img` into four planes.
    pub fn from_photon_image(img: &PhotonImage) -> (planar: PlanarImage)
        requires
            img@.width * img@.height <= u32::MAX,
        ensures
            planar@ == planar_of(img@),
            planar@.wf(),
    {
        let capacity = (img.width * img.height) as usize;
        let mut r: Vec<u8> = Vec::with_capacity(capacity);
        let mut g: Vec<u8> = Vec::with_capacity(capacity);
        let mut b: Vec<u8> = Vec::with_capacity(capacity);
        let mut a: Vec<u8> = Vec::with_capacity(capacity);
        let len = img.raw_pixels.len();
        let n = len / 4;
        let ghost raw = img.raw_pixels@;
        let mut i: usize = 0;
        while i < n
            invariant
                raw == img.raw_pixels@,
                len == raw.len(),
                n == len / 4,
                i <= n,
                r@.len() == i,
                g@.len() == i,
                b@.len() == i,
                a@.len() == i,
                forall|k: int| 0 <= k < i ==> #[trigger] r@[k] == raw[4 * k],
                forall|k: int| 0 <= k < i ==> #[trigger] g@[k] == raw[4 * k + 1],
                forall|k: int| 0 <= k < i ==> #[trigger] b@[k] == raw[4 * k + 2],
                forall|k: int| 0 <= k < i ==> #[trigger] a@[k] == raw[4 * k + 3],
            decreases n - i,
        {
            assert(4 * i + 3 < raw.len()) by (nonlinear_arith)
                requires
                    i < n,
                    n == len / 4,
                    len == raw.len(),
            ;
            let base = 4 * i;
            r.push(img.raw_pixels[base]);
            g.push(img.raw_pixels[base + 1]);
            b.push(img.raw_pixels[base + 2]);
            a.push(img.raw_pixels[base + 3]);
            i = i + 1;
        }
        let planar = PlanarImage { r, g, b, a, width: img.width, height: img.height };
        assert(planar@.r =~= planar_of(img@).r);
        assert(planar@.g =~= planar_of(img@).g);
        assert(planar@.b =~= planar_of(img@).b);
        assert(planar@.a =~= planar_of(img@).a);
        planar
    }

    /// Interleaves the first `width * height` pixels of the planes.
    pub fn to_photon_image(&self) -> (img: PhotonImage)
        requires
            self@.area() <= u32::MAX,
            self@.covers_area(),
        ensures
            img@ == photon_of(self@),
    {
        let mut raw_pixels: Vec<u8> = Vec::new();
        let n = (self.width * self.height) as usize;
        let mut i: usize = 0;
        while i < n
            invariant
                n == self@.area(),
                self@.covers_area(),
                i <= n,
                raw_pixels@.len() == 4 * i,
                forall|j: int|
                    0 <= j < 4 * i ==> #[trigger] raw_pixels@[j] == self@.plane(j % 4)[j / 4],
            decreases n - i,
        {
            let ghost before = raw_pixels@;
            raw_pixels.push(self.r[i]);
            raw_pixels.push(self.g[i]);
            raw_pixels.push(self.b[i]);
            raw_pixels.push(self.a[i]);
            assert forall|j: int| 0 <= j < 4 * (i + 1) implies #[trigger] raw_pixels@[j]
                == self@.plane(j % 4)[j / 4] by {
                if j >= 4 * i {
                    assert(j / 4 == i);
                    assert(j % 4 == j - 4 * i);
                } else {
                    assert(raw_pixels@[j] == before[j]);
                }
            }
            i = i + 1;
        }
        let img = PhotonImage { raw_pixels, width: self.width, height: self.height };
        assert(img@.raw =~= photon_of(self@).raw);
        img
    }

    pub fn width(&self) -> (w: u32)
        ensures
            w == self@.width,
    {
        self.width
    }

    pub fn height(&self) -> (h: u32)
        ensures
            h == self@.height,
    {
        self.height
    }

    pub fn r(&self) -> (plane: &Vec<u8>)
        ensures
            plane@ == self@.r,
    {
        &self.r
    }

    pub fn g(&self) -> (plane: &Vec<u8>)
        ensures
            plane@ == self@.g,
    {
        &self.g
    }

    pub fn b(&self) -> (plane: &Vec<u8>)
        ensures
            plane@ == self@.b,
    {
        &self.b
    }

    pub fn a(&self) -> (plane: &Vec<u8>)
        ensures
            plane@ == self@.a,
    {
        &self.a
    }
}

/// Inside the crate, the value of a planar image is read off its fields.
pub(crate) broadcast proof fn lemma_planar_view_fields(img: PlanarImage)
    ensures
        #[trigger] img@ == (PlanarView {
            r: img.r@,
            g: img.g@,
            b: img.b@,
            a: img.a@,
            width: img.width,
            height: img.height,
        }),
{
}

/// Splitting an interleaved image into planes and interleaving them again gives
/// the image back, when it holds exactly `width * height` whole pixels.
pub proof fn lemma_photon_planar_roundtrip(img: PhotonView)
    requires
        img.raw.len() == 4 * (img.width * img.height),
    ensures
        photon_of(planar_of(img)) == img,
{
    let p = planar_of(img);
    let q = photon_of(p);
    assert(p.area() == img.width * img.height);
    assert forall|j: int| 0 <= j < q.raw.len() implies #[trigger] q.raw[j] == img.raw[j] by {
        let i = j / 4;
        let c = j % 4;
        assert(j == 4 * i + c);
        assert(0 <= i < img.raw.len() / 4);
    }
    assert(q.raw =~= img.raw);
}

/// Interleaving planes of exactly `width * height` pixels and splitting the result
/// gives the planes back.
pub proof fn lemma_planar_photon_roundtrip(img: PlanarView)
    requires
        img.wf(),
        img.r.len() == img.area(),
    ensures
        planar_of(photon_of(img)) == img,
{
    let q = photon_of(img);
    let p = planar_of(q);
    assert(q.raw.len() / 4 == img.area());
    assert forall|i: int| 0 <= i < img.area() implies #[trigger] p.r[i] == img.r[i] && p.g[i]
        == img.g[i] && p.b[i] == img.b[i] && p.a[i] == img.a[i] by {
        assert((4 * i) / 4 == i && (4 * i) % 4 == 0);
        assert((4 * i + 1) / 4 == i && (4 * i + 1) % 4 == 1);
        assert((4 * i + 2) / 4 == i && (4 * i + 2) % 4 == 2);
        assert((4 * i + 3) / 4 == i && (4 * i + 3) % 4 == 3);
    }
    assert(p.r =~= img.r);
    assert(p.g =~= img.g);
    assert(p.b =~= img.b);
    assert(p.a =~= img.a);
}

/// Pixel `i` of an interleaved image is bytes `4i`, `4i + 1`, `4i + 2` and
/// `4i + 3`, red, green, blue and alpha in that order, both when the bytes are
/// split into planes and when planes are interleaved.
pub proof fn lemma_pixel_layout(photon: PhotonView, planar: PlanarView, i: int)
    requires
        0 <= i,
    ensures
        4 * i + 3 < photon.raw.len() ==> {
            &&& planar_of(photon).r[i] == photon.raw[4 * i]
            &&& planar_of(photon).g[i] == photon.raw[4 * i + 1]
            &&& planar_of(photon).b[i] == photon.raw[4 * i + 2]
            &&& planar_of(photon).a[i] == photon.raw[4 * i + 3]
        },
        i < planar.area() ==> {
            &&& photon_of(planar).raw[4 * i] == planar.r[i]
            &&& photon_of(planar).raw[4 * i + 1] == planar.g[i]
            &&& photon_of(planar).raw[4 * i + 2] == planar.b[i]
            &&& photon_of(planar).raw[4 * i + 3] == planar.a[i]
        },
{
    assert((4 * i) / 4 == i && (4 * i) % 4 == 0);
    assert((4 * i + 1) / 4 == i && (4 * i + 1) % 4 == 1);
    assert((4 * i + 2) / 4 == i && (4 * i + 2) % 4 == 2);
    assert((4 * i + 3) / 4 == i && (4 * i + 3) % 4 == 3);
}

} // verus!
