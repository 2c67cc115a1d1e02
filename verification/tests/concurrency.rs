//! How many encodes run at once, and with which encoder.

use tripviewer::timelapse::concurrency::{
    apply_ram_cap, clamp_concurrency, classify_nvidia_gpu, detect_libx265_concurrency,
    detect_nvenc_concurrency, detect_recommended_concurrency, mem_total_kb, parse_first_gpu_name,
    total_ram_bytes, MAX_CONCURRENCY,
};
use tripviewer::timelapse::ffmpeg::Encoder;
use tripviewer::timelapse::types::FfmpegCapabilities;


#[test]
fn all_consumer_nvidia_gets_two() {
    // VRAM (not session count) is the binding constraint, so every
    // consumer card collapses to the same conservative number.
    assert_eq!(classify_nvidia_gpu("NVIDIA GeForce RTX 3080 Ti"), 2);
    assert_eq!(classify_nvidia_gpu("NVIDIA GeForce RTX 3060"), 2);
    assert_eq!(classify_nvidia_gpu("NVIDIA GeForce RTX 4090"), 2);
    assert_eq!(classify_nvidia_gpu("NVIDIA GeForce RTX 4070 Ti"), 2);
    assert_eq!(classify_nvidia_gpu("NVIDIA GeForce GTX 1660 Ti"), 2);
    assert_eq!(classify_nvidia_gpu("NVIDIA GeForce GTX 1080"), 2);
    assert_eq!(classify_nvidia_gpu("NVIDIA GeForce RTX 2070 SUPER"), 2);
}

#[test]
fn classifies_pro_cards() {
    assert_eq!(classify_nvidia_gpu("NVIDIA RTX A6000"), MAX_CONCURRENCY);
    assert_eq!(classify_nvidia_gpu("Quadro RTX 8000"), MAX_CONCURRENCY);
    assert_eq!(classify_nvidia_gpu("Tesla T4"), MAX_CONCURRENCY);
}

#[test]
fn unknown_gpu_falls_back_to_two() {
    assert_eq!(classify_nvidia_gpu("Some Unknown GPU"), 2);
    assert_eq!(classify_nvidia_gpu(""), 2);
}

#[test]
fn parses_standard_nvidia_smi_line() {
    let sample = "GPU 0: NVIDIA GeForce RTX 3080 Ti (UUID: GPU-abc123)\n";
    assert_eq!(
        parse_first_gpu_name(sample).as_deref(),
        Some("NVIDIA GeForce RTX 3080 Ti")
    );
}

#[test]
fn parses_first_of_multiple_gpus() {
    let sample = "GPU 0: NVIDIA GeForce RTX 4090 (UUID: GPU-aaa)\n\
                  GPU 1: NVIDIA GeForce RTX 4090 (UUID: GPU-bbb)\n";
    assert_eq!(
        parse_first_gpu_name(sample).as_deref(),
        Some("NVIDIA GeForce RTX 4090")
    );
}

#[test]
fn rejects_garbage_output() {
    assert!(parse_first_gpu_name("").is_none());
    assert!(parse_first_gpu_name("totally not nvidia-smi output").is_none());
}

#[test]
fn encoder_picks_nvenc_when_available() {
    let caps = FfmpegCapabilities {
        version: "ffmpeg version 7.0".into(),
        nvenc_hevc: true,
    };
    assert!(matches!(Encoder::pick(&caps), Encoder::HevcNvenc));
    let caps = FfmpegCapabilities {
        version: "ffmpeg version 7.0".into(),
        nvenc_hevc: false,
    };
    assert!(matches!(Encoder::pick(&caps), Encoder::LibX265));
}
#[test]
fn cards_are_told_apart_in_upper_case_too() {
    assert_eq!(classify_nvidia_gpu("TESLA T4"), MAX_CONCURRENCY);
    assert_eq!(detect_nvenc_concurrency(&None), 2);
    assert_eq!(detect_nvenc_concurrency(&Some("QUADRO P400".to_string())), MAX_CONCURRENCY);
}

#[test]
fn the_number_of_encodes_is_kept_in_bounds() {
    assert_eq!(clamp_concurrency(0), 1);
    assert_eq!(clamp_concurrency(1), 1);
    assert_eq!(clamp_concurrency(1_000_000), MAX_CONCURRENCY);
    assert_eq!(detect_libx265_concurrency(2), 1);
    assert_eq!(detect_libx265_concurrency(16), 4);
}

#[test]
fn memory_bounds_the_number_of_encodes() {
    assert_eq!(apply_ram_cap(3, None), 3);
    assert_eq!(apply_ram_cap(8, Some(0)), 1);
    assert!(apply_ram_cap(1, Some(u64::MAX)) == 1);
}

#[test]
fn memory_is_read_from_its_line() {
    let text = "MemFree:  12 kB\nMemTotal:       16384 kB\n";
    assert_eq!(mem_total_kb(text), Some(16384));
    assert_eq!(total_ram_bytes(text), Some(16384 * 1024));
    assert_eq!(mem_total_kb("nothing"), None);
}

#[test]
fn recommendations_follow_the_encoder() {
    let gpu = Some("Tesla T4".to_string());
    let all = Some(u64::MAX);
    assert_eq!(detect_recommended_concurrency(Encoder::HevcNvenc, &gpu, 1, all), MAX_CONCURRENCY);
    assert_eq!(detect_recommended_concurrency(Encoder::LibX265, &gpu, 8, all), 2);
    assert_eq!(Encoder::HevcNvenc.as_str(), "hevc_nvenc");
    assert_eq!(Encoder::LibX265.as_str(), "libx265");
    assert!(Encoder::HevcNvenc.needs_cuda_hwaccel());
    assert!(!Encoder::LibX265.needs_cuda_hwaccel());
}
