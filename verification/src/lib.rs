//! Evaluation of electromagnetic-compatibility (EMC) emission limits.
//!
//! Given a limit mask (a piecewise function from frequency to the maximum
//! permitted emission amplitude, per detector) and a measured frequency, the
//! library returns the allowed ceiling for the average, quasi-peak and peak
//! detectors, checks measured amplitudes for compliance, summarises a batch of
//! measurements statistically, and generates log-spaced mask curves for
//! plotting.
//!
//! All quantities are fixed-point integers: frequencies are in hertz (`u64`)
//! and amplitudes in dBµV scaled by [`units::DB_SCALE`] (`i64`). The
//! log-frequency axis used for interpolation and sampling is the piecewise
//! linear base-two logarithm of [`logq`], in 32-bit fixed point.

pub mod codec;
pub mod compliance;
pub mod frequency_helpers;
pub mod interp;
pub mod logq;
pub mod mask;
pub mod sampler;
pub mod stats;
pub mod units;

pub use codec::decode_standard;
pub use codec::encode_standard;
pub use compliance::ComplianceResult;
pub use compliance::Detector;
pub use compliance::EmcError;
pub use compliance::check_emc_compliance;
pub use compliance::parse_detector;
pub use interp::InterpMode;
pub use interp::interpolate;
pub use mask::EMCLimitResult;
pub use mask::EMCStandard;
pub use mask::StandardClass;
pub use sampler::EMCMask;
pub use sampler::MaskPoint;
pub use sampler::create_log_range;
pub use sampler::generate_emc_mask;
pub use stats::EMCStatistics;
pub use stats::sort_ascending;
pub use units::DB_SCALE;
pub use units::KHZ;
pub use units::MHZ;
pub use units::GHZ;
pub use units::MAX_BATCH;
pub use units::MAX_DB;
