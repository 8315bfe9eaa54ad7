use vstd::prelude::*;

verus! {

/// Tag naming the sample depth and channel arrangement a buffer claims to
/// hold: 8-bit grayscale, 8-bit interleaved RGB, or 16-bit grayscale.
#[derive(Clone, Copy, PartialEq, Eq, Structural, Debug)]
pub enum ColorType {
    Luma8,
    Rgb8,
    Luma16,
}

/// The error kinds the buffer operations report. Every error reflects a
/// caller contract violation; no operation mutates the buffer when it fails.
#[derive(Clone, Copy, PartialEq, Eq, Structural, Debug)]
pub enum ImageError {
    /// A parameter is out of range or nonsensical (bad percentile bounds,
    /// percentile ordering violation, zero kernel radius).
    InvalidArgument,
    /// The operation requires non-empty sample data.
    EmptyBuffer,
    /// The depth/channel/layout combination cannot be processed.
    UnsupportedLayout,
    /// The raw sample count does not match the declared dimensions.
    BufferConstructionFailure,
}

/// Depth-polymorphic sample storage: a flat sequence of unsigned integers
/// whose width is fixed at construction.
pub enum Pixels {
    U8(Vec<u8>),
    U16(Vec<u16>),
}

/// A decoded raster image: dimensions, channel count, sample depth, a layout
/// tag, and the flat sample sequence.
pub struct Image {
    pub horizontal_length: u32,
    pub vertical_length: u32,
    pub channels: u8,
    pub bits_per_sample: u16,
    pub color_type: ColorType,
    pub pixels: Pixels,
}

impl Pixels {
    /// Number of samples held, whatever the depth.
    pub open spec fn spec_len(&self) -> int {
        match self {
            Pixels::U8(data) => data@.len() as int,
            Pixels::U16(data) => data@.len() as int,
        }
    }

    /// Both stores have the same depth and hold the same samples.
    pub open spec fn same_data(&self, other: &Pixels) -> bool {
        match (self, other) {
            (Pixels::U8(a), Pixels::U8(b)) => a@ == b@,
            (Pixels::U16(a), Pixels::U16(b)) => a@ == b@,
            _ => false,
        }
    }
}

impl Image {
    /// The buffer invariant: the flat sample count matches the declared
    /// dimensions and channel count.
    pub open spec fn well_formed(&self) -> bool {
        self.pixels.spec_len() == self.horizontal_length as int * self.vertical_length as int
            * self.channels as int
    }

    /// Dimensions, channel count, depth and layout tag agree.
    pub open spec fn same_shape(&self, other: &Image) -> bool {
        &&& self.horizontal_length == other.horizontal_length
        &&& self.vertical_length == other.vertical_length
        &&& self.channels == other.channels
        &&& self.bits_per_sample == other.bits_per_sample
        &&& self.color_type == other.color_type
    }

    /// The two images are indistinguishable: same shape and same samples.
    pub open spec fn same_image(&self, other: &Image) -> bool {
        self.same_shape(other) && self.pixels.same_data(&other.pixels)
    }

    /// Width of the image.
    pub fn horizontal_length(&self) -> (r: u32)
        ensures
            r == self.horizontal_length,
    {
        self.horizontal_length
    }

    /// Height of the image.
    pub fn vertical_length(&self) -> (r: u32)
        ensures
            r == self.vertical_length,
    {
        self.vertical_length
    }

    /// Number of channels (1 = grayscale, 3 = RGB).
    pub fn channels(&self) -> (r: u8)
        ensures
            r == self.channels,
    {
        self.channels
    }

    /// Bits per sample (8 or 16).
    pub fn bits_per_sample(&self) -> (r: u16)
        ensures
            r == self.bits_per_sample,
    {
        self.bits_per_sample
    }

    /// The layout tag.
    pub fn color_type(&self) -> (r: ColorType)
        ensures
            r == self.color_type,
    {
        self.color_type
    }

    /// A copy of the samples, if this is an 8-bit image.
    pub fn pixels_u8(&self) -> (r: Option<Vec<u8>>)
        ensures
            match r {
                Some(data) => self.pixels matches Pixels::U8(d) && data@ == d@,
                None => !(self.pixels matches Pixels::U8(_)),
            },
    {
        match &self.pixels {
            Pixels::U8(data) => Some(copy_vec_u8(data)),
            _ => None,
        }
    }

    /// A copy of the samples, if this is a 16-bit image.
    pub fn pixels_u16(&self) -> (r: Option<Vec<u16>>)
        ensures
            match r {
                Some(data) => self.pixels matches Pixels::U16(d) && data@ == d@,
                None => !(self.pixels matches Pixels::U16(_)),
            },
    {
        match &self.pixels {
            Pixels::U16(data) => Some(copy_vec_u16(data)),
            _ => None,
        }
    }

    /// Builds an 8-bit image. The sample count must match the declared
    /// dimensions; the buffer invariant is established here, once, and the
    /// operations preserve it.
    pub fn new_u8(
        horizontal_length: u32,
        vertical_length: u32,
        channels: u8,
        bits_per_sample: u16,
        color_type: ColorType,
        pixels: Vec<u8>,
    ) -> (r: Image)
        requires
            pixels@.len() == horizontal_length as int * vertical_length as int * channels as int,
        ensures
            r.horizontal_length == horizontal_length,
            r.vertical_length == vertical_length,
            r.channels == channels,
            r.bits_per_sample == bits_per_sample,
            r.color_type == color_type,
            r.pixels matches Pixels::U8(d) && d@ == pixels@,
            r.well_formed(),
    {
        Image {
            horizontal_length,
            vertical_length,
            channels,
            bits_per_sample,
            color_type,
            pixels: Pixels::U8(pixels),
        }
    }

    /// Builds a 16-bit image; see `new_u8`.
    pub fn new_u16(
        horizontal_length: u32,
        vertical_length: u32,
        channels: u8,
        bits_per_sample: u16,
        color_type: ColorType,
        pixels: Vec<u16>,
    ) -> (r: Image)
        requires
            pixels@.len() == horizontal_length as int * vertical_length as int * channels as int,
        ensures
            r.horizontal_length == horizontal_length,
            r.vertical_length == vertical_length,
            r.channels == channels,
            r.bits_per_sample == bits_per_sample,
            r.color_type == color_type,
            r.pixels matches Pixels::U16(d) && d@ == pixels@,
            r.well_formed(),
    {
        Image {
            horizontal_length,
            vertical_length,
            channels,
            bits_per_sample,
            color_type,
            pixels: Pixels::U16(pixels),
        }
    }
}

/// The 8-bit samples reread at 16-bit width, value for value.
pub open spec fn seq8_to16(s: Seq<u8>) -> Seq<u16> {
    s.map_values(|v: u8| v as u16)
}

/// Widens 8-bit samples to 16-bit storage, value for value.
pub fn widen_samples(v: &Vec<u8>) -> (r: Vec<u16>)
    ensures
        r@ == seq8_to16(v@),
{
    let mut r: Vec<u16> = Vec::new();
    let mut i: usize = 0;
    while i < v.len()
        invariant
            i <= v.len(),
            r@.len() == i,
            forall|j: int| 0 <= j < i ==> r@[j] == v@[j] as u16,
        decreases v.len() - i,
    {
        r.push(v[i] as u16);
        i = i + 1;
    }
    proof {
        assert(r@ =~= seq8_to16(v@));
    }
    r
}

/// Narrows 16-bit samples that all fit in 8 bits back to 8-bit storage,
/// value for value.
pub fn narrow_samples(v: &Vec<u16>) -> (r: Vec<u8>)
    requires
        forall|i: int| 0 <= i < v@.len() ==> v@[i] < 256,
    ensures
        r@.len() == v@.len(),
        forall|i: int| 0 <= i < v@.len() ==> r@[i] as u16 == v@[i],
        seq8_to16(r@) == v@,
{
    let mut r: Vec<u8> = Vec::new();
    let mut i: usize = 0;
    while i < v.len()
        invariant
            i <= v.len(),
            r@.len() == i,
            forall|j: int| 0 <= j < v@.len() ==> v@[j] < 256,
            forall|j: int| 0 <= j < i ==> r@[j] as u16 == v@[j],
        decreases v.len() - i,
    {
        r.push(v[i] as u8);
        i = i + 1;
    }
    proof {
        assert(seq8_to16(r@) =~= v@);
    }
    r
}

/// An element-for-element copy of an 8-bit sample vector.
pub fn copy_vec_u8(v: &Vec<u8>) -> (r: Vec<u8>)
    ensures
        r@ == v@,
{
    let mut r: Vec<u8> = Vec::new();
    let mut i: usize = 0;
    while i < v.len()
        invariant
            i <= v.len(),
            r@ == v@.subrange(0, i as int),
        decreases v.len() - i,
    {
        r.push(v[i]);
        i = i + 1;
        proof {
            assert(r@ =~= v@.subrange(0, i as int));
        }
    }
    proof {
        assert(r@ =~= v@);
    }
    r
}

/// An element-for-element copy of a 16-bit sample vector.
pub fn copy_vec_u16(v: &Vec<u16>) -> (r: Vec<u16>)
    ensures
        r@ == v@,
{
    let mut r: Vec<u16> = Vec::new();
    let mut i: usize = 0;
    while i < v.len()
        invariant
            i <= v.len(),
            r@ == v@.subrange(0, i as int),
        decreases v.len() - i,
    {
        r.push(v[i]);
        i = i + 1;
        proof {
            assert(r@ =~= v@.subrange(0, i as int));
        }
    }
    proof {
        assert(r@ =~= v@);
    }
    r
}

} // verus!
