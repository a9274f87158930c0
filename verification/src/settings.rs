//! What the pipeline is configured with.

use vstd::prelude::*;
use vstd::string::StringExecFns;

verus! {

/// How much time the block encoder may spend on each block.
#[derive(Clone, Copy, PartialEq, Eq, Structural, Debug)]
pub enum CompressionSpeed {
    UltraFast,
    VeryFast,
    Fast,
    Basic,
    Slow,
}

impl CompressionSpeed {
    /// The position of this setting, fastest first.
    pub open spec fn spec_rank(self) -> u8 {
        match self {
            CompressionSpeed::UltraFast => 1,
            CompressionSpeed::VeryFast => 2,
            CompressionSpeed::Fast => 3,
            CompressionSpeed::Basic => 4,
            CompressionSpeed::Slow => 5,
        }
    }

    /// Computes the position of this setting, fastest first.
    #[verifier::when_used_as_spec(spec_rank)]
    pub fn rank(self) -> (r: u8)
        ensures
            r == self.spec_rank(),
    {
        match self {
            CompressionSpeed::UltraFast => 1,
            CompressionSpeed::VeryFast => 2,
            CompressionSpeed::Fast => 3,
            CompressionSpeed::Basic => 4,
            CompressionSpeed::Slow => 5,
        }
    }
}

impl Default for CompressionSpeed {
    fn default() -> (speed: CompressionSpeed)
        ensures
            speed == CompressionSpeed::UltraFast,
    {
        CompressionSpeed::UltraFast
    }
}

/// The smallest anisotropy the renderer accepts.
pub const MIN_ANISOTROPY: u16 = 1;

/// The largest anisotropy the renderer accepts.
pub const MAX_ANISOTROPY: u16 = 16;

/// `requested`, brought into the range that the renderer accepts.
pub open spec fn clamped_anisotropy(requested: u16) -> u16 {
    if requested < MIN_ANISOTROPY {
        MIN_ANISOTROPY
    } else if requested > MAX_ANISOTROPY {
        MAX_ANISOTROPY
    } else {
        requested
    }
}

/// Brings an anisotropy setting into the range 1 to 16.
pub fn clamp_anisotropy(requested: u16) -> (level: u16)
    ensures
        level == clamped_anisotropy(requested),
        MIN_ANISOTROPY <= level <= MAX_ANISOTROPY,
{
    if requested < MIN_ANISOTROPY {
        MIN_ANISOTROPY
    } else if requested > MAX_ANISOTROPY {
        MAX_ANISOTROPY
    } else {
        requested
    }
}

/// The settings of the texture pipeline.
#[derive(Clone, Debug)]
pub struct MipmapGeneratorSettings {
    /// Stored on each processed image for the renderer, clamped to 1..=16.
    pub anisotropic_filtering: u16,
    /// The most levels a chain may have.
    pub level_limit: u32,
    /// `Some` turns block compression on.
    pub compression: Option<CompressionSpeed>,
    /// Encode every block without searching for better endpoints.
    pub low_quality: bool,
    /// Where compressed textures are kept between runs. `None` turns the
    /// cache off.
    pub compressed_image_data_cache_path: Option<String>,
}

impl MipmapGeneratorSettings {
    /// How many endpoint candidates beyond the first the encoder tries for
    /// each block: none under the low-quality policy, else by speed, the
    /// slower the more.
    pub open spec fn spec_search_steps(&self) -> u8 {
        if self.low_quality {
            0
        } else {
            match self.compression {
                Some(speed) => speed.rank(),
                None => 0,
            }
        }
    }

    /// Computes how many endpoint candidates beyond the first the encoder
    /// tries for each block.
    #[verifier::when_used_as_spec(spec_search_steps)]
    pub fn search_steps(&self) -> (steps: u8)
        ensures
            steps == self.spec_search_steps(),
    {
        if self.low_quality {
            0
        } else {
            match self.compression {
                Some(speed) => speed.rank(),
                None => 0,
            }
        }
    }
}

impl Default for MipmapGeneratorSettings {
    fn default() -> (settings: MipmapGeneratorSettings)
        ensures
            settings.anisotropic_filtering == 8,
            settings.level_limit == u32::MAX,
            settings.compression.is_none(),
            !settings.low_quality,
            settings.compressed_image_data_cache_path.is_none(),
    {
        MipmapGeneratorSettings {
            anisotropic_filtering: 8,
            level_limit: u32::MAX,
            compression: None,
            low_quality: false,
            compressed_image_data_cache_path: None,
        }
    }
}

/// The directory that the viewer keeps its compressed textures in.
pub open spec fn cache_directory() -> Seq<char> {
    "compressed_texture_cache"@
}

/// The command line of the viewer.
#[derive(Clone, Copy, Debug, Default)]
pub struct Args {
    /// Convert the scene's textures offline before starting.
    pub convert: bool,
    /// Run without bloom, ambient occlusion, anti-aliasing and shadows.
    pub minimal: bool,
    /// Keep every mesh in view of the renderer.
    pub no_frustum_culling: bool,
    /// Open the window at 1280x720 rather than 1920x1080.
    pub p720: bool,
    /// Compress textures.
    pub compress: bool,
    /// Compress without the endpoint search.
    pub low_quality_compression: bool,
    /// Keep compressed textures between runs.
    pub cache: bool,
}

impl Args {
    /// The pipeline settings that this command line asks for.
    pub fn settings(&self) -> (settings: MipmapGeneratorSettings)
        ensures
            settings.anisotropic_filtering == 16,
            settings.level_limit == u32::MAX,
            settings.compression == if self.compress {
                Some(CompressionSpeed::UltraFast)
            } else {
                None
            },
            settings.low_quality == self.low_quality_compression,
            self.cache ==> settings.compressed_image_data_cache_path.is_some()
                && settings.compressed_image_data_cache_path.unwrap()@ == cache_directory(),
            !self.cache ==> settings.compressed_image_data_cache_path.is_none(),
    {
        MipmapGeneratorSettings {
            anisotropic_filtering: 16,
            level_limit: u32::MAX,
            compression: if self.compress {
                Some(CompressionSpeed::default())
            } else {
                None
            },
            low_quality: self.low_quality_compression,
            compressed_image_data_cache_path: if self.cache {
                Some(String::from_str("compressed_texture_cache"))
            } else {
                None
            },
        }
    }

    /// The size of the window, in pixels.
    pub fn window_resolution(&self) -> (size: (u32, u32))
        ensures
            size == if self.p720 {
                (1280u32, 720u32)
            } else {
                (1920u32, 1080u32)
            },
    {
        if self.p720 {
            (1280, 720)
        } else {
            (1920, 1080)
        }
    }
}

} // verus!
