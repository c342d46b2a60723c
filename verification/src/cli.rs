//! Command-line choices and how they become runtime settings.
use vstd::prelude::*;
use crate::float_bits::{F32Bits, clamp, spec_is_nan, spec_le, spec_lt, ZERO_BITS, ONE_BITS};
use crate::config::{self, Backend, CommonConfig, DehazeParams, NeuralConfig, SimdMode};

verus! {

/// Dehazing method as chosen on the command line.
#[derive(Clone, Copy, Debug, PartialEq, Eq, Structural)]
pub enum Method {
    OriginalDcp,
    ImprovedDcp,
    Neural,
}

/// Backend as chosen on the command line (`gpu` and `python-cuda` are the
/// same backend).
#[derive(Clone, Copy, Debug, PartialEq, Eq, Structural)]
pub enum BackendArg {
    Cpu,
    Gpu,
    PythonCuda,
}

/// Speed/quality preset of the guided-filter refinement.
#[derive(Clone, Copy, Debug, PartialEq, Eq, Structural)]
pub enum Preset {
    Fast,
    Balanced,
    Quality,
}

/// Kernel selection as chosen on the command line.
#[derive(Clone, Copy, Debug, PartialEq, Eq, Structural)]
pub enum SimdArg {
    Auto,
    Scalar,
    Avx2,
}

/// Numeric dehazing options of the command line.
#[derive(Clone, Copy, Debug)]
pub struct ParamArgs {
    pub patch_size: usize,
    pub omega: F32Bits,
    pub t_min: F32Bits,
    pub refine_radius: usize,
    pub guided_eps: F32Bits,
    pub aggressiveness: F32Bits,
}

/// Options shared by every dehazing command.
pub struct CommonArgs {
    pub method: Method,
    pub backend: BackendArg,
    pub neural_script: std::path::PathBuf,
    pub model: std::path::PathBuf,
    pub debug_dir: Option<std::path::PathBuf>,
    pub preset: Preset,
    pub simd: SimdArg,
    pub sky_protect: bool,
    pub highlight_protect: bool,
    pub params: ParamArgs,
}

/// Refinement radius of a preset: at most 6 when fast, at least 16 for
/// quality, unchanged when balanced.
pub open spec fn spec_preset_refine_radius(preset: Preset, value: int) -> int {
    match preset {
        Preset::Fast => if value < 6 {
            value
        } else {
            6
        },
        Preset::Balanced => value,
        Preset::Quality => if value > 16 {
            value
        } else {
            16
        },
    }
}

/// See [`spec_preset_refine_radius`].
pub fn preset_refine_radius(preset: Preset, value: usize) -> (r: usize)
    ensures
        r == spec_preset_refine_radius(preset, value as int),
{
    match preset {
        Preset::Fast => if value < 6 {
            value
        } else {
            6
        },
        Preset::Balanced => value,
        Preset::Quality => if value > 16 {
            value
        } else {
            16
        },
    }
}

/// `x.clamp(0.0, 1.0)` on a binary32 bit pattern.
pub open spec fn spec_clamp_unit(x: F32Bits) -> F32Bits {
    if spec_lt(x, ZERO_BITS) {
        ZERO_BITS
    } else if spec_lt(ONE_BITS, x) {
        ONE_BITS
    } else {
        x
    }
}

/// The runtime method of a command-line method.
pub open spec fn spec_method(m: Method) -> config::Method {
    match m {
        Method::OriginalDcp => config::Method::OriginalDcp,
        Method::ImprovedDcp => config::Method::ImprovedDcp,
        Method::Neural => config::Method::Neural,
    }
}

/// The runtime backend of a command-line backend.
pub open spec fn spec_backend(b: BackendArg) -> Backend {
    match b {
        BackendArg::Cpu => Backend::Cpu,
        _ => Backend::PythonCuda,
    }
}

/// The kernel mode of a command-line choice.
pub open spec fn spec_simd(s: SimdArg) -> SimdMode {
    match s {
        SimdArg::Auto => SimdMode::Auto,
        SimdArg::Scalar => SimdMode::Scalar,
        SimdArg::Avx2 => SimdMode::Avx2,
    }
}

/// Dehazing parameters of the command line: the refinement radius follows
/// the preset, aggressiveness is clamped to `[0, 1]`, and the plain DCP method
/// runs without protection and with zero aggressiveness.
pub open spec fn spec_params(args: CommonArgs) -> DehazeParams {
    let plain = args.method == Method::OriginalDcp;
    DehazeParams {
        patch_size: args.params.patch_size,
        omega: args.params.omega,
        t_min: args.params.t_min,
        refine_radius: spec_preset_refine_radius(args.preset, args.params.refine_radius as int) as usize,
        guided_eps: args.params.guided_eps,
        aggressiveness: if plain {
            ZERO_BITS
        } else {
            spec_clamp_unit(args.params.aggressiveness)
        },
        sky_protect: !plain && args.sky_protect,
        highlight_protect: !plain && args.highlight_protect,
        simd: spec_simd(args.simd),
    }
}

/// How the command line sets the dehazing parameters: patch size, omega,
/// `t_min` and the guided-filter epsilon are taken as given; the refinement
/// radius is capped at 6 by the fast preset, raised to at least 16 by the
/// quality preset and kept by the balanced one; every method but the plain
/// DCP keeps the sky and highlight switches as given (each to its own
/// field) and clamps aggressiveness to `[0, 1]`, while the plain DCP turns
/// both switches off and uses zero aggressiveness.
pub proof fn lemma_params_follow_args(args: CommonArgs)
    ensures
        ({
            let p = spec_params(args);
            let v = args.params.refine_radius;
            let a = args.params.aggressiveness;
            &&& p.patch_size == args.params.patch_size
            &&& p.omega == args.params.omega
            &&& p.t_min == args.params.t_min
            &&& p.guided_eps == args.params.guided_eps
            &&& args.preset == Preset::Fast ==> p.refine_radius <= 6 && (v <= 6 ==> p.refine_radius == v)
                && (v >= 6 ==> p.refine_radius == 6)
            &&& args.preset == Preset::Balanced ==> p.refine_radius == v
            &&& args.preset == Preset::Quality ==> p.refine_radius >= 16 && (v >= 16 ==> p.refine_radius == v)
                && (v <= 16 ==> p.refine_radius == 16)
            &&& args.method != Method::OriginalDcp ==> {
                &&& p.sky_protect == args.sky_protect
                &&& p.highlight_protect == args.highlight_protect
                &&& (spec_le(ZERO_BITS, a) && spec_le(a, ONE_BITS)) ==> p.aggressiveness == a
                &&& !spec_is_nan(a) ==> spec_le(ZERO_BITS, p.aggressiveness) && spec_le(p.aggressiveness, ONE_BITS)
                &&& spec_lt(a, ZERO_BITS) ==> p.aggressiveness == ZERO_BITS
                &&& spec_lt(ONE_BITS, a) ==> p.aggressiveness == ONE_BITS
            }
            &&& args.method == Method::OriginalDcp ==> !p.sky_protect && !p.highlight_protect
                && p.aggressiveness == ZERO_BITS
            &&& args.simd == SimdArg::Auto ==> p.simd == SimdMode::Auto
            &&& args.simd == SimdArg::Scalar ==> p.simd == SimdMode::Scalar
            &&& args.simd == SimdArg::Avx2 ==> p.simd == SimdMode::Avx2
        }),
{
}

/// The runtime method is the one named on the command line, and the CPU
/// backend stays the CPU while `gpu` and `python-cuda` both select the
/// Python CUDA backend.
pub proof fn lemma_method_and_backend_follow_args(m: Method, b: BackendArg)
    ensures
        (spec_method(m) == config::Method::OriginalDcp) <==> (m == Method::OriginalDcp),
        (spec_method(m) == config::Method::ImprovedDcp) <==> (m == Method::ImprovedDcp),
        (spec_method(m) == config::Method::Neural) <==> (m == Method::Neural),
        (spec_backend(b) == Backend::Cpu) <==> (b == BackendArg::Cpu),
        (spec_backend(b) == Backend::PythonCuda) <==> (b == BackendArg::Gpu || b == BackendArg::PythonCuda),
{
}

impl CommonConfig {
    /// The runtime settings of the command-line options (see
    /// [`spec_params`] for the dehazing parameters).
    pub fn from(args: CommonArgs) -> (cfg: CommonConfig)
        ensures
            cfg.method == spec_method(args.method),
            cfg.backend == spec_backend(args.backend),
            cfg.params == spec_params(args),
            cfg.neural.script == args.neural_script,
            cfg.neural.model == args.model,
            cfg.neural.debug_dir == args.debug_dir,
    {
        let ghost a = args;
        let mut params = DehazeParams {
            patch_size: args.params.patch_size,
            omega: args.params.omega,
            t_min: args.params.t_min,
            refine_radius: preset_refine_radius(args.preset, args.params.refine_radius),
            guided_eps: args.params.guided_eps,
            aggressiveness: clamp(args.params.aggressiveness, ZERO_BITS, ONE_BITS),
            sky_protect: args.sky_protect,
            highlight_protect: args.highlight_protect,
            simd: match args.simd {
                SimdArg::Auto => SimdMode::Auto,
                SimdArg::Scalar => SimdMode::Scalar,
                SimdArg::Avx2 => SimdMode::Avx2,
            },
        };
        if args.method == Method::OriginalDcp {
            params.sky_protect = false;
            params.highlight_protect = false;
            params.aggressiveness = ZERO_BITS;
        }
        CommonConfig {
            method: match args.method {
                Method::OriginalDcp => config::Method::OriginalDcp,
                Method::ImprovedDcp => config::Method::ImprovedDcp,
                Method::Neural => config::Method::Neural,
            },
            backend: match args.backend {
                BackendArg::Cpu => Backend::Cpu,
                BackendArg::Gpu | BackendArg::PythonCuda => Backend::PythonCuda,
            },
            params,
            neural: NeuralConfig {
                script: args.neural_script,
                model: args.model,
                debug_dir: args.debug_dir,
            },
        }
    }
}

} // verus!
