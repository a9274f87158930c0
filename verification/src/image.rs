//! Image assets and the texture payload that processing installs in them.

use vstd::prelude::*;

verus! {

/// How the four 8-bit channels of a texel are interpreted.
#[derive(Clone, Copy, PartialEq, Eq, Structural, Debug)]
pub enum PixelFormat {
    Rgba8Unorm,
    Rgba8UnormSrgb,
}

/// How the bytes of a mipmap level are laid out.
#[derive(Clone, Copy, PartialEq, Eq, Structural, Debug)]
pub enum Encoding {
    /// Four bytes per texel, row by row.
    Raw,
    /// 4x4 blocks of 8 bytes, no alpha.
    Bc1,
    /// 4x4 blocks of 16 bytes, with alpha.
    Bc3,
}

impl PixelFormat {
    /// The byte that stands for this format in digests.
    pub open spec fn spec_tag(self) -> u8 {
        match self {
            PixelFormat::Rgba8Unorm => 0,
            PixelFormat::Rgba8UnormSrgb => 1,
        }
    }

    /// Computes the byte that stands for this value.
    #[verifier::when_used_as_spec(spec_tag)]
    pub fn tag(self) -> (t: u8)
        ensures
            t == self.spec_tag(),
    {
        match self {
            PixelFormat::Rgba8Unorm => 0,
            PixelFormat::Rgba8UnormSrgb => 1,
        }
    }
}

impl Encoding {
    /// The byte that stands for this layout in a cache entry.
    pub open spec fn spec_tag(self) -> u8 {
        match self {
            Encoding::Raw => 0,
            Encoding::Bc1 => 1,
            Encoding::Bc3 => 2,
        }
    }

    /// The layout that `tag` stands for, if any.
    pub open spec fn of_tag(tag: u8) -> Option<Encoding> {
        if tag == 0 {
            Some(Encoding::Raw)
        } else if tag == 1 {
            Some(Encoding::Bc1)
        } else if tag == 2 {
            Some(Encoding::Bc3)
        } else {
            None
        }
    }

    /// Computes the byte that stands for this value.
    #[verifier::when_used_as_spec(spec_tag)]
    pub fn tag(self) -> (t: u8)
        ensures
            t == self.spec_tag(),
    {
        match self {
            Encoding::Raw => 0,
            Encoding::Bc1 => 1,
            Encoding::Bc3 => 2,
        }
    }

    /// Reads the layout that `tag` stands for, if any.
    pub fn from_tag(tag: u8) -> (encoding: Option<Encoding>)
        ensures
            encoding == Encoding::of_tag(tag),
    {
        if tag == 0 {
            Some(Encoding::Raw)
        } else if tag == 1 {
            Some(Encoding::Bc1)
        } else if tag == 2 {
            Some(Encoding::Bc3)
        } else {
            None
        }
    }
}

/// The mathematical value of a [`MipLevel`].
pub struct LevelModel {
    pub width: int,
    pub height: int,
    pub data: Seq<u8>,
}

impl LevelModel {
    /// A non-empty grid of RGBA texels, four bytes each, row by row.
    pub open spec fn is_raw(self) -> bool {
        &&& 1 <= self.width <= u32::MAX
        &&& 1 <= self.height <= u32::MAX
        &&& self.data.len() == self.width * self.height * 4
    }

    /// Channel `c` of the texel in column `x` of row `y`.
    pub open spec fn texel(self, x: int, y: int, c: int) -> int {
        self.data[(y * self.width + x) * 4 + c] as int
    }
}

/// One level of a mipmap chain.
#[derive(Debug, PartialEq, Eq)]
pub struct MipLevel {
    pub width: u32,
    pub height: u32,
    pub data: Vec<u8>,
}

impl View for MipLevel {
    type V = LevelModel;

    open spec fn view(&self) -> LevelModel {
        LevelModel { width: self.width as int, height: self.height as int, data: self.data@ }
    }
}

impl MipLevel {
    /// Whether two levels have the same size and bytes.
    pub fn same_content(&self, other: &MipLevel) -> (same: bool)
        ensures
            same == (self@ == other@),
    {
        self.width == other.width && self.height == other.height && crate::bytes::same_bytes(
            &self.data,
            &other.data,
        )
    }

    /// A copy of this level.
    pub fn duplicate(&self) -> (copy: MipLevel)
        ensures
            copy@ == self@,
    {
        MipLevel { width: self.width, height: self.height, data: self.data.clone() }
    }
}

/// The mathematical value of a [`TexturePayload`].
pub struct PayloadModel {
    pub encoding: Encoding,
    pub levels: Seq<LevelModel>,
}

/// What the renderer samples: the levels of a chain and their byte layout.
#[derive(Debug, PartialEq, Eq)]
pub struct TexturePayload {
    pub encoding: Encoding,
    pub levels: Vec<MipLevel>,
}

/// The values of a run of levels.
pub open spec fn level_models(levels: Seq<MipLevel>) -> Seq<LevelModel> {
    Seq::new(levels.len(), |i: int| levels[i]@)
}

impl View for TexturePayload {
    type V = PayloadModel;

    open spec fn view(&self) -> PayloadModel {
        PayloadModel { encoding: self.encoding, levels: level_models(self.levels@) }
    }
}

impl TexturePayload {
    /// Whether two payloads have the same layout and the same levels.
    pub fn same_content(&self, other: &TexturePayload) -> (same: bool)
        ensures
            same == (self@ == other@),
    {
        if self.encoding != other.encoding || self.levels.len() != other.levels.len() {
            assert(self@.levels.len() == self.levels.len());
            assert(other@.levels.len() == other.levels.len());
            return false;
        }
        let mut k: usize = 0;
        while k < self.levels.len()
            invariant
                self.levels.len() == other.levels.len(),
                k <= self.levels.len(),
                forall|j: int| 0 <= j < k ==> (#[trigger] self.levels[j])@ == other.levels[j]@,
            decreases self.levels.len() - k,
        {
            if !self.levels[k].same_content(&other.levels[k]) {
                assert(self@.levels[k as int] == self.levels[k as int]@);
                assert(other@.levels[k as int] == other.levels[k as int]@);
                return false;
            }
            k += 1;
        }
        assert(self@.levels =~= other@.levels);
        true
    }

    /// The payload of an image that has not been processed: no levels.
    pub fn empty() -> (p: TexturePayload)
        ensures
            p@ == (PayloadModel { encoding: Encoding::Raw, levels: Seq::empty() }),
    {
        let p = TexturePayload { encoding: Encoding::Raw, levels: Vec::new() };
        assert(p@.levels =~= Seq::empty());
        p
    }
}

/// The mathematical value of an [`ImageAsset`].
pub struct ImageModel {
    pub width: int,
    pub height: int,
    pub format: PixelFormat,
    pub data: Seq<u8>,
    pub processed: bool,
    pub anisotropy: Option<u16>,
    pub payload: PayloadModel,
}

impl ImageModel {
    /// The source buffer holds exactly `width * height` RGBA texels.
    pub open spec fn wf(self) -> bool {
        &&& 0 <= self.width <= u32::MAX
        &&& 0 <= self.height <= u32::MAX
        &&& self.data.len() == self.width * self.height * 4
    }

    /// The number of texels of the source.
    pub open spec fn area(self) -> int {
        self.width * self.height
    }

    /// The source buffer seen as the first level of a chain.
    pub open spec fn base_level(self) -> LevelModel {
        LevelModel { width: self.width, height: self.height, data: self.data }
    }

    /// This image after processing has installed `payload` and `anisotropy`.
    pub open spec fn installed(self, payload: PayloadModel, anisotropy: u16) -> ImageModel {
        ImageModel { processed: true, anisotropy: Some(anisotropy), payload, ..self }
    }
}

/// A texture held by the asset store: the source texels, and what processing
/// made of them.
#[derive(Debug)]
pub struct ImageAsset {
    width: u32,
    height: u32,
    format: PixelFormat,
    data: Vec<u8>,
    processed: bool,
    anisotropy: Option<u16>,
    payload: TexturePayload,
}

impl View for ImageAsset {
    type V = ImageModel;

    closed spec fn view(&self) -> ImageModel {
        ImageModel {
            width: self.width as int,
            height: self.height as int,
            format: self.format,
            data: self.data@,
            processed: self.processed,
            anisotropy: self.anisotropy,
            payload: self.payload@,
        }
    }
}

impl ImageAsset {
    #[verifier::type_invariant]
    spec fn inv(self) -> bool {
        self.data.len() == self.width * self.height * 4
    }

    /// An unprocessed image over `data`, or `None` where `data` is not
    /// `width * height` texels of four bytes.
    pub fn new(width: u32, height: u32, format: PixelFormat, data: Vec<u8>) -> (image: Option<
        ImageAsset,
    >)
        ensures
            image.is_some() <==> data.len() == width * height * 4,
            image.is_some() ==> image.unwrap()@ == (ImageModel {
                width: width as int,
                height: height as int,
                format,
                data: data@,
                processed: false,
                anisotropy: None,
                payload: PayloadModel { encoding: Encoding::Raw, levels: Seq::empty() },
            }),
    {
        assert(width * height <= 0xffff_ffff * 0xffff_ffff) by (nonlinear_arith)
            requires
                0 <= width <= 0xffff_ffff,
                0 <= height <= 0xffff_ffff,
        ;
        let area: u64 = (width as u64) * (height as u64);
        if (data.len() as u128) == (area as u128) * 4 {
            Some(
                ImageAsset {
                    width,
                    height,
                    format,
                    data,
                    processed: false,
                    anisotropy: None,
                    payload: TexturePayload::empty(),
                },
            )
        } else {
            None
        }
    }

    /// The width of the source, in texels.
    pub fn width(&self) -> (w: u32)
        ensures
            w == self@.width,
    {
        self.width
    }

    /// The height of the source, in texels.
    pub fn height(&self) -> (h: u32)
        ensures
            h == self@.height,
    {
        self.height
    }

    /// How the source texels are interpreted.
    pub fn format(&self) -> (f: PixelFormat)
        ensures
            f == self@.format,
    {
        self.format
    }

    /// The source texels. Their number always matches the dimensions.
    pub fn data(&self) -> (d: &Vec<u8>)
        ensures
            d@ == self@.data,
            self@.wf(),
    {
        proof {
            use_type_invariant(self);
        }
        &self.data
    }

    /// Whether processing has run: mipmaps generated, and compression applied or passed over.
    pub fn is_processed(&self) -> (p: bool)
        ensures
            p == self@.processed,
    {
        self.processed
    }

    /// The anisotropy stored for the renderer, once processing has run.
    pub fn anisotropy(&self) -> (a: Option<u16>)
        ensures
            a == self@.anisotropy,
    {
        self.anisotropy
    }

    /// What the renderer samples. No levels before processing.
    pub fn payload(&self) -> (p: &TexturePayload)
        ensures
            p@ == self@.payload,
    {
        &self.payload
    }

    /// Whether two images are alike in everything: size, format, source
    /// texels, and what processing has made of them so far.
    pub fn same_content(&self, other: &ImageAsset) -> (same: bool)
        ensures
            same == (self@ == other@),
    {
        let same_anisotropy = match (self.anisotropy, other.anisotropy) {
            (Some(a), Some(b)) => a == b,
            (None, None) => true,
            _ => false,
        };
        self.width == other.width && self.height == other.height && self.format == other.format
            && self.processed == other.processed && same_anisotropy && crate::bytes::same_bytes(
            &self.data,
            &other.data,
        ) && self.payload.same_content(&other.payload)
    }

    /// Replaces the texture payload, records the anisotropy and marks the
    /// image processed. The source texels stay as they are.
    pub(crate) fn install(&mut self, payload: TexturePayload, anisotropy: u16)
        ensures
            final(self)@ == old(self)@.installed(payload@, anisotropy),
    {
        proof {
            use_type_invariant(&*self);
        }
        self.payload = payload;
        self.anisotropy = Some(anisotropy);
        self.processed = true;
    }
}

} // verus!
