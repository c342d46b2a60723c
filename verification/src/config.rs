//! Parameters of the dehazing pipeline and of the command-line runtime.
//!
//! Real-valued parameters are held as the bit patterns of their binary32
//! values (see [`crate::float_bits`]).
use vstd::prelude::*;
use crate::float_bits::F32Bits;

verus! {

/// `std::path::PathBuf`, declared so that settings can hold paths. Nothing
/// is claimed of it: the library only moves paths from one setting to another.
#[verifier::external_type_specification]
#[verifier::external_body]
pub struct ExPathBuf(std::path::PathBuf);

/// Which implementation of the vectorised kernels to use.
#[derive(Clone, Copy, Debug, PartialEq, Eq, Structural)]
pub enum SimdMode {
    Auto,
    Scalar,
    Avx2,
}

impl SimdMode {
    /// Whether the AVX2 kernels run, given whether the processor has AVX2:
    /// any mode but `Scalar` uses them when they are available.
    pub fn allow_avx2(self, cpu_has_avx2: bool) -> (r: bool)
        ensures
            r == (self != SimdMode::Scalar && cpu_has_avx2),
    {
        match self {
            SimdMode::Auto => cpu_has_avx2,
            SimdMode::Scalar => false,
            SimdMode::Avx2 => cpu_has_avx2,
        }
    }
}

/// `0.96`
pub const DEFAULT_OMEGA: F32Bits = 0x3F75_C28F;

/// `0.10`
pub const DEFAULT_T_MIN: F32Bits = 0x3DCC_CCCD;

/// `0.001`
pub const DEFAULT_GUIDED_EPS: F32Bits = 0x3A83_126F;

/// `0.20`
pub const DEFAULT_AGGRESSIVENESS: F32Bits = 0x3E4C_CCCD;

/// `0.65`
pub const DEFAULT_TEMPORAL_WEIGHT: F32Bits = 0x3F26_6666;

/// `0.18`
pub const DEFAULT_OCCLUSION_THRESHOLD: F32Bits = 0x3E38_51EC;

/// Parameters of one dark-channel-prior dehazing pass.
#[derive(Clone, Copy, Debug)]
pub struct DehazeParams {
    pub patch_size: usize,
    pub omega: F32Bits,
    pub t_min: F32Bits,
    pub refine_radius: usize,
    pub guided_eps: F32Bits,
    pub aggressiveness: F32Bits,
    pub sky_protect: bool,
    pub highlight_protect: bool,
    pub simd: SimdMode,
}

impl Default for DehazeParams {
    fn default() -> (p: Self)
        ensures
            p.patch_size == 15,
            p.omega == DEFAULT_OMEGA,
            p.t_min == DEFAULT_T_MIN,
            p.refine_radius == 12,
            p.guided_eps == DEFAULT_GUIDED_EPS,
            p.aggressiveness == DEFAULT_AGGRESSIVENESS,
            p.sky_protect,
            p.highlight_protect,
            p.simd == SimdMode::Auto,
    {
        DehazeParams {
            patch_size: 15,
            omega: DEFAULT_OMEGA,
            t_min: DEFAULT_T_MIN,
            refine_radius: 12,
            guided_eps: DEFAULT_GUIDED_EPS,
            aggressiveness: DEFAULT_AGGRESSIVENESS,
            sky_protect: true,
            highlight_protect: true,
            simd: SimdMode::Auto,
        }
    }
}

impl DehazeParams {
    /// The parameters of the plain dark channel prior: the same values with
    /// aggressiveness zero and sky and highlight protection switched off.
    pub fn baseline(&self) -> (p: DehazeParams)
        ensures
            p == (DehazeParams {
                aggressiveness: 0,
                sky_protect: false,
                highlight_protect: false,
                ..*self
            }),
    {
        DehazeParams { aggressiveness: 0, sky_protect: false, highlight_protect: false, ..*self }
    }
}

/// Block-matching parameters of the temporal stabiliser.
#[derive(Clone, Copy, Debug)]
pub struct MotionParams {
    pub search_radius: usize,
    pub block_size: usize,
    pub pyramid_levels: usize,
}

impl Default for MotionParams {
    fn default() -> (p: Self)
        ensures
            p.search_radius == 6,
            p.block_size == 12,
            p.pyramid_levels == 2,
    {
        MotionParams { search_radius: 6, block_size: 12, pyramid_levels: 2 }
    }
}

/// Blending parameters of the temporal stabiliser.
#[derive(Clone, Copy, Debug)]
pub struct TemporalParams {
    pub temporal_weight: F32Bits,
    pub occlusion_threshold: F32Bits,
}

impl Default for TemporalParams {
    fn default() -> (p: Self)
        ensures
            p.temporal_weight == DEFAULT_TEMPORAL_WEIGHT,
            p.occlusion_threshold == DEFAULT_OCCLUSION_THRESHOLD,
    {
        TemporalParams {
            temporal_weight: DEFAULT_TEMPORAL_WEIGHT,
            occlusion_threshold: DEFAULT_OCCLUSION_THRESHOLD,
        }
    }
}

/// The dehazing method of a run.
#[derive(Clone, Copy, Debug, PartialEq, Eq, Structural)]
pub enum Method {
    OriginalDcp,
    ImprovedDcp,
    Neural,
}

/// Where the work of a run is done.
#[derive(Clone, Copy, Debug, PartialEq, Eq, Structural)]
pub enum Backend {
    Cpu,
    PythonCuda,
}

/// Locations of the neural inference script and model.
pub struct NeuralConfig {
    pub script: std::path::PathBuf,
    pub model: std::path::PathBuf,
    pub debug_dir: Option<std::path::PathBuf>,
}

/// Settings shared by every command of the runtime.
pub struct CommonConfig {
    pub method: Method,
    pub backend: Backend,
    pub params: DehazeParams,
    pub neural: NeuralConfig,
}

/// Settings of the metrics command: predicted frames, reference frames and
/// the CSV report.
pub struct MetricsConfig {
    pub pred_dir: std::path::PathBuf,
    pub gt_dir: std::path::PathBuf,
    pub csv: std::path::PathBuf,
}

/// A run refused before any work is done.
#[derive(Clone, Copy, Debug, PartialEq, Eq, Structural)]
pub enum ConfigError {
    /// The method runs on the CPU in Rust only; the Python/CUDA backend was
    /// asked for.
    CpuOnlyMethod(Method),
}

/// Whether the method can run on the backend: the two dark-channel methods
/// only on the CPU, the neural method on either.
pub fn ensure_method_backend(cfg: &CommonConfig) -> (r: Result<(), ConfigError>)
    ensures
        r is Err <==> (cfg.method != Method::Neural && cfg.backend == Backend::PythonCuda),
        r is Err ==> r == Err::<(), ConfigError>(ConfigError::CpuOnlyMethod(cfg.method)),
{
    match (cfg.method, cfg.backend) {
        (Method::Neural, _) => Ok(()),
        (_, Backend::Cpu) => Ok(()),
        (m, Backend::PythonCuda) => Err(ConfigError::CpuOnlyMethod(m)),
    }
}

/// Name of a method as the command line and the reports spell it.
pub fn method_name(method: Method) -> (name: &'static str)
    ensures
        method == Method::OriginalDcp ==> name@ == "original-dcp"@,
        method == Method::ImprovedDcp ==> name@ == "improved-dcp"@,
        method == Method::Neural ==> name@ == "neural"@,
{
    match method {
        Method::OriginalDcp => "original-dcp",
        Method::ImprovedDcp => "improved-dcp",
        Method::Neural => "neural",
    }
}

/// Name of a backend as the reports spell it.
pub fn backend_name(backend: Backend) -> (name: &'static str)
    ensures
        backend == Backend::Cpu ==> name@ == "cpu"@,
        backend == Backend::PythonCuda ==> name@ == "python-cuda"@,
{
    match backend {
        Backend::Cpu => "cpu",
        Backend::PythonCuda => "python-cuda",
    }
}

/// The neural backend cannot start.
#[derive(Clone, Copy, Debug, PartialEq, Eq, Structural)]
pub enum NeuralSetupError {
    /// The inference script is missing (checked first).
    ScriptMissing,
    /// The model checkpoint is missing.
    ModelMissing,
}

/// Whether the neural backend can start, given whether its script and its
/// model exist: the script is checked before the model.
pub fn validate_neural_backend(script_exists: bool, model_exists: bool) -> (r: Result<(), NeuralSetupError>)
    ensures
        !script_exists ==> r == Err::<(), NeuralSetupError>(NeuralSetupError::ScriptMissing),
        script_exists && !model_exists ==> r == Err::<(), NeuralSetupError>(NeuralSetupError::ModelMissing),
        script_exists && model_exists ==> r is Ok,
{
    if !script_exists {
        Err(NeuralSetupError::ScriptMissing)
    } else if !model_exists {
        Err(NeuralSetupError::ModelMissing)
    } else {
        Ok(())
    }
}

/// How one frame is dehazed.
#[derive(Clone, Copy, Debug, PartialEq, Eq, Structural)]
pub enum Pipeline {
    /// The plain dark channel prior.
    OriginalDcp,
    /// The improved prior on a single frame.
    ImprovedDcp,
    /// The improved prior with temporal stabilisation across frames.
    ImprovedTemporal,
    /// The Python neural backend.
    Neural,
}

/// The pipeline of a frame: the improved method is stabilised across frames
/// whenever a temporal processor is available; the other methods ignore it.
pub fn choose_pipeline(method: Method, has_temporal: bool) -> (p: Pipeline)
    ensures
        method == Method::OriginalDcp ==> p == Pipeline::OriginalDcp,
        method == Method::ImprovedDcp && has_temporal ==> p == Pipeline::ImprovedTemporal,
        method == Method::ImprovedDcp && !has_temporal ==> p == Pipeline::ImprovedDcp,
        method == Method::Neural ==> p == Pipeline::Neural,
{
    match method {
        Method::OriginalDcp => Pipeline::OriginalDcp,
        Method::ImprovedDcp => if has_temporal {
            Pipeline::ImprovedTemporal
        } else {
            Pipeline::ImprovedDcp
        },
        Method::Neural => Pipeline::Neural,
    }
}

/// Sequence evaluation options that cannot go together.
#[derive(Clone, Copy, Debug, PartialEq, Eq, Structural)]
pub enum SequenceOptionError {
    /// Videos are encoded from the written frames, so a video directory
    /// needs an output directory.
    VideoDirWithoutOutputDir,
}

/// Checks the output options of the sequence evaluation.
pub fn check_sequence_outputs(has_output_dir: bool, has_video_dir: bool) -> (r: Result<(), SequenceOptionError>)
    ensures
        r is Err <==> (has_video_dir && !has_output_dir),
        r is Err ==> r == Err::<(), SequenceOptionError>(SequenceOptionError::VideoDirWithoutOutputDir),
{
    if has_video_dir && !has_output_dir {
        Err(SequenceOptionError::VideoDirWithoutOutputDir)
    } else {
        Ok(())
    }
}

} // verus!
