use std::path::PathBuf;

use dehaze::cli::{self, BackendArg, CommonArgs, ParamArgs, Preset, SimdArg};
use dehaze::config::{
    check_sequence_outputs, choose_pipeline, validate_neural_backend, NeuralSetupError, Pipeline,
    SequenceOptionError, backend_name, ensure_method_backend, method_name, Backend, CommonConfig, ConfigError,
    DehazeParams, Method, MetricsConfig, NeuralConfig, SimdMode, TemporalParams,
};
use dehaze::evaluation::{
    ensure_same_dims, first_size_mismatch, kept_count, metrics_dirs, plan_neural_batch, select_leading, BatchFrame,
    DimensionMismatch, FrameJob, MetricsError, SelectionError,
};
use dehaze::temporal::{temporal_step, TemporalStep};
use dehaze::files::{group_by_scene, is_image, is_png};
use dehaze::rgb8::{fit_to_max_side, Rgb8Frame};

fn neural() -> NeuralConfig {
    NeuralConfig {
        script: PathBuf::from("scripts/neural/infer_neural_dehazer.py"),
        model: PathBuf::from("models/neural_dehazer.pt"),
        debug_dir: None,
    }
}

fn args(method: cli::Method, backend: BackendArg, preset: Preset, aggressiveness: f32) -> CommonArgs {
    CommonArgs {
        method,
        backend,
        neural_script: PathBuf::from("script.py"),
        model: PathBuf::from("model.pt"),
        debug_dir: Some(PathBuf::from("debug")),
        preset,
        simd: SimdArg::Scalar,
        sky_protect: true,
        highlight_protect: true,
        params: ParamArgs {
            patch_size: 15,
            omega: 0.96f32.to_bits(),
            t_min: 0.1f32.to_bits(),
            refine_radius: 12,
            guided_eps: 0.001f32.to_bits(),
            aggressiveness: aggressiveness.to_bits(),
        },
    }
}

#[test]
fn names_of_methods_and_backends() {
    assert_eq!(method_name(Method::OriginalDcp), "original-dcp");
    assert_eq!(method_name(Method::ImprovedDcp), "improved-dcp");
    assert_eq!(method_name(Method::Neural), "neural");
    assert_eq!(backend_name(Backend::Cpu), "cpu");
    assert_eq!(backend_name(Backend::PythonCuda), "python-cuda");
}

#[test]
fn dcp_methods_refuse_the_python_backend() {
    let cfg = |method, backend| CommonConfig { method, backend, params: DehazeParams::default(), neural: neural() };
    assert_eq!(ensure_method_backend(&cfg(Method::OriginalDcp, Backend::Cpu)), Ok(()));
    assert_eq!(
        ensure_method_backend(&cfg(Method::ImprovedDcp, Backend::PythonCuda)),
        Err(ConfigError::CpuOnlyMethod(Method::ImprovedDcp))
    );
    assert_eq!(ensure_method_backend(&cfg(Method::Neural, Backend::PythonCuda)), Ok(()));
    assert_eq!(ensure_method_backend(&cfg(Method::Neural, Backend::Cpu)), Ok(()));
}

#[test]
fn default_parameters() {
    let p = DehazeParams::default();
    assert_eq!(p.patch_size, 15);
    assert_eq!(f32::from_bits(p.omega), 0.96);
    assert_eq!(f32::from_bits(p.t_min), 0.10);
    assert_eq!(p.refine_radius, 12);
    assert_eq!(f32::from_bits(p.guided_eps), 1e-3);
    assert_eq!(f32::from_bits(p.aggressiveness), 0.20);
    assert!(p.sky_protect && p.highlight_protect);
    assert_eq!(p.simd, SimdMode::Auto);
    let b = p.baseline();
    assert_eq!(f32::from_bits(b.aggressiveness), 0.0);
    assert!(!b.sky_protect && !b.highlight_protect);
    assert_eq!(b.patch_size, 15);
    let t = TemporalParams::default();
    assert_eq!(f32::from_bits(t.temporal_weight), 0.65);
    assert_eq!(f32::from_bits(t.occlusion_threshold), 0.18);
}

#[test]
fn simd_mode_uses_avx2_only_when_available_and_allowed() {
    assert!(SimdMode::Auto.allow_avx2(true));
    assert!(SimdMode::Avx2.allow_avx2(true));
    assert!(!SimdMode::Scalar.allow_avx2(true));
    assert!(!SimdMode::Auto.allow_avx2(false));
}

#[test]
fn presets_bound_the_refinement_radius() {
    assert_eq!(cli::preset_refine_radius(Preset::Fast, 12), 6);
    assert_eq!(cli::preset_refine_radius(Preset::Fast, 3), 3);
    assert_eq!(cli::preset_refine_radius(Preset::Balanced, 12), 12);
    assert_eq!(cli::preset_refine_radius(Preset::Quality, 12), 16);
    assert_eq!(cli::preset_refine_radius(Preset::Quality, 20), 20);
}

#[test]
fn command_line_options_become_runtime_settings() {
    let cfg = CommonConfig::from(args(cli::Method::ImprovedDcp, BackendArg::Gpu, Preset::Quality, 1.5));
    assert_eq!(cfg.method, Method::ImprovedDcp);
    assert_eq!(cfg.backend, Backend::PythonCuda);
    assert_eq!(cfg.params.refine_radius, 16);
    assert_eq!(f32::from_bits(cfg.params.aggressiveness), 1.0);
    assert!(cfg.params.sky_protect && cfg.params.highlight_protect);
    assert_eq!(cfg.params.simd, SimdMode::Scalar);
    assert_eq!(cfg.neural.script, PathBuf::from("script.py"));
    assert_eq!(cfg.neural.debug_dir, Some(PathBuf::from("debug")));

    let cfg = CommonConfig::from(args(cli::Method::OriginalDcp, BackendArg::Cpu, Preset::Fast, 0.4));
    assert_eq!(cfg.method, Method::OriginalDcp);
    assert_eq!(cfg.backend, Backend::Cpu);
    assert_eq!(cfg.params.refine_radius, 6);
    assert_eq!(f32::from_bits(cfg.params.aggressiveness), 0.0);
    assert!(!cfg.params.sky_protect && !cfg.params.highlight_protect);

    let cfg = CommonConfig::from(args(cli::Method::Neural, BackendArg::PythonCuda, Preset::Balanced, -0.3));
    assert_eq!(cfg.backend, Backend::PythonCuda);
    assert_eq!(f32::from_bits(cfg.params.aggressiveness), 0.0);
}

#[test]
fn metrics_plan_pairs_frames_in_order() {
    let plan = metrics_dirs(3, 3).unwrap();
    assert_eq!(
        plan.jobs,
        vec![
            FrameJob { frame: 1, pred: 0, gt: 0, previous: None },
            FrameJob { frame: 2, pred: 1, gt: 1, previous: Some(0) },
            FrameJob { frame: 3, pred: 2, gt: 2, previous: Some(1) },
        ]
    );
    assert_eq!(plan.average_divisor, 3);
    let empty = metrics_dirs(0, 0).unwrap();
    assert!(empty.jobs.is_empty());
    assert_eq!(empty.average_divisor, 1);
    assert!(matches!(
        metrics_dirs(2, 3),
        Err(MetricsError::FrameCountMismatch { pred: 2, gt: 3 })
    ));
    let _cfg = MetricsConfig { pred_dir: PathBuf::from("p"), gt_dir: PathBuf::from("g"), csv: PathBuf::from("m.csv") };
}

#[test]
fn images_of_different_sizes_are_refused() {
    assert_eq!(ensure_same_dims(4, 3, 4, 3), Ok(()));
    assert_eq!(
        ensure_same_dims(4, 3, 3, 4),
        Err(DimensionMismatch { first_width: 4, first_height: 3, second_width: 3, second_height: 4 })
    );
}

#[test]
fn image_extensions_follow_path_rules() {
    assert!(is_image(b"frame.png"));
    assert!(is_image(b"frame.JPG"));
    assert!(is_image(b"a.b.JpEg"));
    assert!(!is_image(b"frame.gif"));
    assert!(!is_image(b".png"));
    assert!(!is_image(b"png"));
    assert!(!is_image(b".."));
    assert!(!is_image(b"frame."));
    assert!(is_png(b"x.PNG"));
    assert!(!is_png(b"x.jpg"));
    assert!(!is_png(b"x.pngx"));
    for name in [&b"a.png"[..], b"b.jpeg", b".jpg", b"c"] {
        assert!(!is_png(name) || is_image(name));
    }
}

#[test]
fn frames_are_grouped_by_sorted_scene() {
    let keys: Vec<Vec<u8>> = vec![b"s2".to_vec(), b"s1".to_vec(), b"s2".to_vec(), b"".to_vec(), b"s1".to_vec()];
    let (scenes, members) = group_by_scene(&keys);
    assert_eq!(scenes, vec![b"".to_vec(), b"s1".to_vec(), b"s2".to_vec()]);
    assert_eq!(members, vec![vec![3], vec![1, 4], vec![0, 2]]);
    let (scenes, members) = group_by_scene(&Vec::new());
    assert!(scenes.is_empty() && members.is_empty());
}

#[test]
fn large_frames_are_downscaled() {
    let raw: Vec<u8> = (0..4 * 4 * 3).map(|i| (i * 5) as u8).collect();
    let frame = Rgb8Frame { width: 4, height: 4, raw: raw.clone() };
    let out = fit_to_max_side(frame, Some(2), 2, 2);
    assert_eq!((out.width, out.height), (2, 2));
    assert_eq!(out.raw.len(), 12);

    let frame = Rgb8Frame { width: 4, height: 4, raw: raw.clone() };
    let out = fit_to_max_side(frame, Some(4), 2, 2);
    assert_eq!((out.width, out.height), (4, 4));
    assert_eq!(out.raw, raw);

    let frame = Rgb8Frame { width: 4, height: 4, raw: vec![200; 48] };
    let out = fit_to_max_side(frame, None, 1, 1);
    assert_eq!(out.raw, vec![200; 48]);

    let frame = Rgb8Frame { width: 4, height: 4, raw: vec![200; 48] };
    let out = fit_to_max_side(frame, Some(3), 3, 3);
    assert_eq!(out.raw, vec![200; 27]);
}

#[test]
fn neural_files_are_checked_script_first() {
    assert_eq!(validate_neural_backend(false, false), Err(NeuralSetupError::ScriptMissing));
    assert_eq!(validate_neural_backend(false, true), Err(NeuralSetupError::ScriptMissing));
    assert_eq!(validate_neural_backend(true, false), Err(NeuralSetupError::ModelMissing));
    assert_eq!(validate_neural_backend(true, true), Ok(()));
}

#[test]
fn pipeline_follows_method_and_temporal_state() {
    assert_eq!(choose_pipeline(Method::OriginalDcp, true), Pipeline::OriginalDcp);
    assert_eq!(choose_pipeline(Method::ImprovedDcp, true), Pipeline::ImprovedTemporal);
    assert_eq!(choose_pipeline(Method::ImprovedDcp, false), Pipeline::ImprovedDcp);
    assert_eq!(choose_pipeline(Method::Neural, true), Pipeline::Neural);
}

#[test]
fn video_dir_needs_output_dir() {
    assert_eq!(check_sequence_outputs(false, true), Err(SequenceOptionError::VideoDirWithoutOutputDir));
    assert_eq!(check_sequence_outputs(true, true), Ok(()));
    assert_eq!(check_sequence_outputs(false, false), Ok(()));
}

#[test]
fn select_leading_truncates_and_refuses_nothing() {
    assert_eq!(select_leading(5, Some(3)), Ok(3));
    assert_eq!(select_leading(5, Some(9)), Ok(5));
    assert_eq!(select_leading(5, None), Ok(5));
    assert_eq!(select_leading(0, None), Err(SelectionError::NothingSelected));
    assert_eq!(select_leading(4, Some(0)), Err(SelectionError::NothingSelected));
    assert_eq!(kept_count(0, Some(2)), 0);
    assert_eq!(kept_count(7, Some(2)), 2);
}

#[test]
fn neural_batch_keeps_leading_frames_of_each_scene() {
    let plan = plan_neural_batch(&vec![3, 0, 2], Some(2)).unwrap();
    let row = |scene, index, number, previous| BatchFrame { scene, index, number, previous };
    assert_eq!(
        plan.frames,
        vec![
            row(0, 0, 1, None),
            row(0, 1, 2, Some(0)),
            row(2, 0, 1, None),
            row(2, 1, 2, Some(2)),
        ]
    );
    assert_eq!(plan.scenes, vec![0, 2]);
}

#[test]
fn neural_batch_without_limit_takes_every_frame() {
    let plan = plan_neural_batch(&vec![1, 3], None).unwrap();
    assert_eq!(plan.frames.len(), 4);
    assert_eq!(plan.frames[3], BatchFrame { scene: 1, index: 2, number: 3, previous: Some(2) });
    assert_eq!(plan.scenes, vec![0, 1]);
}

#[test]
fn neural_batch_refuses_when_no_frame_is_selected() {
    assert!(matches!(plan_neural_batch(&vec![0, 0], None), Err(SelectionError::NothingSelected)));
    assert!(matches!(plan_neural_batch(&vec![4], Some(0)), Err(SelectionError::NothingSelected)));
    assert!(matches!(plan_neural_batch(&vec![], Some(3)), Err(SelectionError::NothingSelected)));
}

#[test]
fn temporal_step_counts_frames_and_blends_only_within_a_scene() {
    assert_eq!(temporal_step(0, false, None, 12), TemporalStep { frame_index: 1, blend: false });
    assert_eq!(temporal_step(1, false, Some(12), 12), TemporalStep { frame_index: 2, blend: true });
    assert_eq!(temporal_step(2, true, Some(12), 12), TemporalStep { frame_index: 3, blend: false });
    assert_eq!(temporal_step(3, false, Some(6), 12), TemporalStep { frame_index: 4, blend: false });
}

#[test]
fn first_size_mismatch_names_the_first_differing_frame() {
    let pred = vec![(4, 3), (4, 3), (5, 3), (2, 2)];
    let gt = vec![(4, 3), (4, 3), (4, 3), (2, 1)];
    assert_eq!(first_size_mismatch(&pred, &gt), Err(MetricsError::DimensionMismatch { frame: 3 }));
    assert_eq!(first_size_mismatch(&pred[..2].to_vec(), &gt[..2].to_vec()), Ok(()));
    assert_eq!(first_size_mismatch(&vec![(1, 7)], &vec![(1, 8)]), Err(MetricsError::DimensionMismatch { frame: 1 }));
    assert_eq!(first_size_mismatch(&vec![], &vec![]), Ok(()));
}

#[test]
fn temporal_counter_is_never_reset_by_scene_changes() {
    let mut frame_index = 0;
    let mut previous = None;
    let frames = [(false, 12), (true, 12), (false, 12), (true, 6), (false, 6)];
    for (k, &(scene_reset, len)) in frames.iter().enumerate() {
        let step = temporal_step(frame_index, scene_reset, previous, len);
        assert_eq!(step.frame_index, k + 1);
        frame_index = step.frame_index;
        previous = Some(len);
    }
    assert_eq!(frame_index, frames.len());
}
