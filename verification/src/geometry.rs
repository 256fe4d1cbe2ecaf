use vstd::prelude::*;
use crate::error::StegoError;

verus! {

/// Bytes that framing adds to a payload: start marker, end marker and checksum.
pub const FRAME_OVERHEAD: u64 = 12;

/// The colour model of a carrier image.
#[derive(Clone, Copy, Debug, PartialEq, Eq, Structural)]
pub enum ColorModel {
    Grayscale,
    GrayscaleAlpha,
    Rgb,
    Rgba,
    Indexed,
}

impl ColorModel {
    /// Samples per pixel.
    pub open spec fn spec_channels(self) -> u8 {
        match self {
            ColorModel::Grayscale => 1,
            ColorModel::Indexed => 1,
            ColorModel::GrayscaleAlpha => 2,
            ColorModel::Rgb => 3,
            ColorModel::Rgba => 4,
        }
    }

    /// Samples per pixel.
    pub fn channels(&self) -> (n: u8)
        ensures
            n == self.spec_channels(),
            1 <= n <= 4,
    {
        match self {
            ColorModel::Grayscale => 1,
            ColorModel::Indexed => 1,
            ColorModel::GrayscaleAlpha => 2,
            ColorModel::Rgb => 3,
            ColorModel::Rgba => 4,
        }
    }
}

/// What a carrier image's header says of it, as plain values.
#[derive(Clone, Copy, Debug, PartialEq, Eq, Structural)]
pub struct CarrierHeader {
    pub width: u32,
    pub height: u32,
    pub color: ColorModel,
    pub bit_depth: u8,
    pub has_palette: bool,
    pub interlaced: bool,
}

impl CarrierHeader {
    /// A carrier can be used when it has no palette, is not interlaced, and
    /// stores each sample in one or two whole bytes.
    pub open spec fn supported(self) -> bool {
        &&& !self.has_palette
        &&& !self.interlaced
        &&& (self.bit_depth == 8 || self.bit_depth == 16)
        &&& self.color != ColorModel::Indexed
    }
}

/// Size and sample layout of a carrier image.
#[derive(Clone, Copy, Debug, PartialEq, Eq, Structural)]
pub struct ImageGeometry {
    pub width: u32,
    pub height: u32,
    pub channels: u8,
    pub bit_depth: u8,
}

impl ImageGeometry {
    /// One to four channels, and samples of 8 or 16 bits.
    pub open spec fn wf(self) -> bool {
        &&& 1 <= self.channels <= 4
        &&& (self.bit_depth == 8 || self.bit_depth == 16)
    }

    /// The number of samples in the image: one per pixel and channel.
    pub open spec fn sample_count(self) -> nat {
        (self.width as nat) * (self.height as nat) * (self.channels as nat)
    }

    /// Bytes that one sample takes in the buffer.
    pub open spec fn sample_bytes(self) -> nat {
        if self.bit_depth == 16 {
            2
        } else {
            1
        }
    }

    /// The length of the flat sample buffer of such an image.
    pub open spec fn buffer_len(self) -> nat {
        self.sample_count() * self.sample_bytes()
    }

    /// The most bytes that fit at one bit per sample, framing included.
    pub open spec fn spec_capacity(self) -> nat {
        self.sample_count() / 8
    }

    /// Whether a payload of `payload_len` bytes fits together with its framing.
    pub open spec fn fits(self, payload_len: nat) -> bool {
        payload_len + FRAME_OVERHEAD <= self.spec_capacity()
    }

    /// The geometry that a header describes. Indexed colour counts as one channel.
    pub open spec fn spec_from_header(header: CarrierHeader) -> ImageGeometry {
        ImageGeometry {
            width: header.width,
            height: header.height,
            channels: header.color.spec_channels(),
            bit_depth: header.bit_depth,
        }
    }

    /// The geometry that a header describes, whether or not the carrier is supported.
    pub fn from_header(header: &CarrierHeader) -> (geometry: ImageGeometry)
        ensures
            geometry == Self::spec_from_header(*header),
            1 <= geometry.channels <= 4,
            header.supported() ==> geometry.wf(),
    {
        ImageGeometry {
            width: header.width,
            height: header.height,
            channels: header.color.channels(),
            bit_depth: header.bit_depth,
        }
    }

    /// Whether the geometry has one to four channels and samples of 8 or 16 bits.
    pub fn is_wf(&self) -> (ok: bool)
        ensures
            ok == self.wf(),
    {
        1 <= self.channels && self.channels <= 4 && (self.bit_depth == 8 || self.bit_depth == 16)
    }

    /// The length of the flat sample buffer of such an image.
    pub fn buffer_size(&self) -> (n: u128)
        requires
            self.wf(),
        ensures
            n == self.buffer_len(),
    {
        let samples: u128 = self.count_samples();
        proof {
            lemma_sample_count_bound(*self);
            lemma_buffer_len(*self);
        }
        if self.bit_depth == 16 {
            2 * samples
        } else {
            samples
        }
    }

    /// The number of samples in the image.
    pub fn count_samples(&self) -> (n: u128)
        requires
            self.wf(),
        ensures
            n == self.sample_count(),
    {
        let w: u128 = self.width as u128;
        let h: u128 = self.height as u128;
        let c: u128 = self.channels as u128;
        proof {
            lemma_sample_count_bound(*self);
        }
        assert(w * h <= 0xFFFF_FFFF * 0xFFFF_FFFF) by (nonlinear_arith)
            requires
                w <= 0xFFFF_FFFF,
                h <= 0xFFFF_FFFF,
        ;
        w * h * c
    }
}

/// An image has fewer than 2^66 samples, so its capacity fits in 64 bits.
pub proof fn lemma_sample_count_bound(geometry: ImageGeometry)
    requires
        geometry.wf(),
    ensures
        geometry.sample_count() <= 4 * 0xFFFF_FFFF * 0xFFFF_FFFF,
        geometry.spec_capacity() <= u64::MAX,
{
    let w = geometry.width as nat;
    let h = geometry.height as nat;
    let c = geometry.channels as nat;
    assert(w * h * c <= 4 * 0xFFFF_FFFF * 0xFFFF_FFFF) by (nonlinear_arith)
        requires
            w <= 0xFFFF_FFFF,
            h <= 0xFFFF_FFFF,
            c <= 4,
    ;
}

/// The buffer has one or two bytes for every sample.
pub proof fn lemma_buffer_len(geometry: ImageGeometry)
    ensures
        geometry.bit_depth == 16 ==> geometry.buffer_len() == 2 * geometry.sample_count(),
        geometry.bit_depth != 16 ==> geometry.buffer_len() == geometry.sample_count(),
        geometry.sample_count() <= geometry.buffer_len(),
{
    let n: nat = geometry.sample_count();
    assert(n * 2 == 2 * n) by (nonlinear_arith);
    assert(n * 1 == n) by (nonlinear_arith);
}

/// Capacity boundary: of a carrier that the framing fits into, the largest
/// payload that fits is twelve bytes shorter than the capacity.
pub proof fn lemma_capacity_boundary(geometry: ImageGeometry)
    requires
        geometry.spec_capacity() >= FRAME_OVERHEAD,
    ensures
        geometry.fits((geometry.spec_capacity() - 12) as nat),
        !geometry.fits((geometry.spec_capacity() - 11) as nat),
        forall|len: nat| geometry.fits(len) <==> len <= geometry.spec_capacity() - 12,
{
}

/// Checks that a carrier can be used, and gives its geometry.
pub fn check_info(header: &CarrierHeader) -> (r: Result<ImageGeometry, StegoError>)
    ensures
        header.supported() ==> r == Ok::<ImageGeometry, StegoError>(
            ImageGeometry::spec_from_header(*header),
        ),
        !header.supported() ==> r == Err::<ImageGeometry, StegoError>(
            StegoError::UnsupportedCarrierFormat,
        ),
        r is Ok ==> r->Ok_0.wf(),
{
    if header.has_palette {
        return Err(StegoError::UnsupportedCarrierFormat);
    }
    if header.interlaced {
        return Err(StegoError::UnsupportedCarrierFormat);
    }
    if header.bit_depth != 8 && header.bit_depth != 16 {
        return Err(StegoError::UnsupportedCarrierFormat);
    }
    match header.color {
        ColorModel::Indexed => Err(StegoError::UnsupportedCarrierFormat),
        _ => Ok(ImageGeometry::from_header(header)),
    }
}

/// The most bytes that the carrier can hold at one bit per sample:
/// `width * height * channels / 8`, rounded down.
pub fn capacity(geometry: &ImageGeometry) -> (c: u64)
    requires
        geometry.wf(),
    ensures
        c == geometry.spec_capacity(),
{
    let samples: u128 = geometry.count_samples();
    proof {
        lemma_sample_count_bound(*geometry);
    }
    (samples / 8) as u64
}

/// Checks that a payload of `payload_len` bytes fits into the carrier
/// together with its twelve bytes of framing.
pub fn validate(payload_len: u64, geometry: &ImageGeometry) -> (r: Result<(), StegoError>)
    requires
        geometry.wf(),
    ensures
        geometry.fits(payload_len as nat) ==> r == Ok::<(), StegoError>(()),
        !geometry.fits(payload_len as nat) ==> r == Err::<(), StegoError>(
            StegoError::CapacityExceeded,
        ),
{
    let limit: u64 = capacity(geometry);
    if limit < FRAME_OVERHEAD || payload_len > limit - FRAME_OVERHEAD {
        Err(StegoError::CapacityExceeded)
    } else {
        Ok(())
    }
}

} // verus!
