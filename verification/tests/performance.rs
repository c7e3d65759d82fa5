use lira_analyzer::performance::{PerformanceConfig, GPU_ELEMENTS_THRESHOLD};
use lira_analyzer::render::{determine_render_method, RenderMethod};

#[test]
fn test_performance_config() {
    let config = PerformanceConfig {
        enable_parallel_rendering: true,
        enable_gpu_acceleration: false,
        max_image_size: (2500, 2000),
        compression_quality: 80,
        enable_caching: true,
    };

    assert!(config.enable_parallel_rendering);
    assert!(!config.enable_gpu_acceleration);
    assert_eq!(config.compression_quality, 80);
}

#[test]
fn test_default_performance_config() {
    let config = PerformanceConfig::default();
    assert!(config.enable_parallel_rendering);
    assert!(!config.enable_gpu_acceleration);
    assert_eq!(config.max_image_size, (1200, 900));
    assert_eq!(config.compression_quality, 85);
    assert!(config.enable_caching);
    assert!(config.should_use_parallel_rendering());
}

#[test]
fn test_should_use_gpu_acceleration() {
    let mut config = PerformanceConfig::default();
    assert!(!config.should_use_gpu_acceleration(1000));
    config.enable_gpu_acceleration = true;
    assert!(!config.should_use_gpu_acceleration(GPU_ELEMENTS_THRESHOLD));
    assert!(config.should_use_gpu_acceleration(GPU_ELEMENTS_THRESHOLD + 1));
}

#[test]
fn test_determine_render_method() {
    // four 3000 x 3000 images with 300 lines each: all thresholds reached
    let big = vec![(3000u32, 3000u32, 300usize); 4];
    assert_eq!(determine_render_method(&big), RenderMethod::Gpu);
    // four 1000 x 1000 images: the estimated buffer stays under 100 MiB
    let medium = vec![(1000u32, 1000u32, 300usize); 4];
    assert_eq!(determine_render_method(&medium), RenderMethod::Cpu);
    // three images are too few
    let three = vec![(1000u32, 1000u32, 400usize); 3];
    assert_eq!(determine_render_method(&three), RenderMethod::Cpu);
    // too few lines
    let few_lines = vec![(1000u32, 1000u32, 10usize); 4];
    assert_eq!(determine_render_method(&few_lines), RenderMethod::Cpu);
    // 4 x 100 x 100 pixels: buffer and pixels too small
    let small = vec![(100u32, 100u32, 300usize); 4];
    assert_eq!(determine_render_method(&small), RenderMethod::Cpu);
    assert_eq!(determine_render_method(&[]), RenderMethod::Cpu);
}
