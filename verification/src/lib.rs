//! Verified core of a watermarking tool for images and PDFs.
pub mod cli;
pub mod filigrane;
pub mod output;
pub mod pdf;
pub mod perturb;
pub mod pixmap;
pub mod placement;
mod random;
pub mod saliency;
pub mod text;
pub mod update;
