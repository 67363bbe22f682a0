//! Objective speech and audio quality measurement.
//!
//! A degraded signal is compared with its reference in two halves. On the
//! signals themselves, [`visqol_manager::VisqolManager::run`] validates the
//! pair and aligns the degraded signal to the reference in time. On the
//! quantised spectrograms of the reference and of the aligned degraded
//! signal, [`visqol_manager::VisqolManager::compute_results`] cuts the
//! reference into patches, finds for each the most similar patch of the
//! degraded spectrogram nearby, and gathers their similarities.
//!
//! Samples are integers, in quantisation steps; levels of a spectrogram are
//! integers of sixteen bits; similarities are integers in units of
//! `1 / SCORE_SCALE`. Everything is computed exactly. The analysis of a
//! signal into its spectrogram and the mapping of the mean similarity to a
//! quality score work on real numbers and are left to the caller.

pub mod alignment;
pub mod alignment_laws;
pub mod audio_signal;
pub mod comparison_patches_selector;
pub mod constants;
pub mod nsim;
pub mod patch;
pub mod patch_creator;
pub mod similarity_to_quality_mapper;
pub mod variant;
pub mod visqol_error;
pub mod visqol_manager;
