use vstd::prelude::*;

verus! {

/// Settings of document and image generation.
#[derive(Debug, Clone, Copy)]
pub struct PerformanceConfig {
    pub enable_parallel_rendering: bool,
    pub enable_gpu_acceleration: bool,
    pub max_image_size: (u32, u32),
    pub compression_quality: u8,
    pub enable_caching: bool,
}

/// Above this many elements GPU acceleration is worth it, when enabled.
pub const GPU_ELEMENTS_THRESHOLD: usize = 100;

impl Default for PerformanceConfig {
    /// Parallel rendering and caching on, GPU off, 1200 x 900 images,
    /// quality 85.
    fn default() -> (c: Self)
        ensures
            c.enable_parallel_rendering,
            !c.enable_gpu_acceleration,
            c.max_image_size == (1200u32, 900u32),
            c.compression_quality == 85,
            c.enable_caching,
    {
        PerformanceConfig {
            enable_parallel_rendering: true,
            enable_gpu_acceleration: false,
            max_image_size: (1200, 900),
            compression_quality: 85,
            enable_caching: true,
        }
    }
}

impl PerformanceConfig {
    /// Whether images are rendered in parallel.
    pub fn should_use_parallel_rendering(&self) -> (r: bool)
        ensures
            r == self.enable_parallel_rendering,
    {
        self.enable_parallel_rendering
    }

    /// Whether the GPU renders: only when enabled and for more than
    /// `GPU_ELEMENTS_THRESHOLD` elements.
    pub fn should_use_gpu_acceleration(&self, elements_count: usize) -> (r: bool)
        ensures
            r == (self.enable_gpu_acceleration && elements_count > GPU_ELEMENTS_THRESHOLD),
    {
        self.enable_gpu_acceleration && elements_count > GPU_ELEMENTS_THRESHOLD
    }
}

} // verus!
