//! Text in images: where it stands and what it says.
//!
//! The library holds what lies between the two neural networks of an OCR
//! pipeline and their caller. From the probability map of a detection model
//! it makes text regions (`det`, `boxes`, `merge`), it cuts the regions out
//! of the image (`efficient_cropping`, `raster`, `region`), from the class
//! scores of a recognition model it makes text (`rec`, `decode`), and it
//! holds the rules by which an engine serves its callers (`engine`, `capi`).

pub mod boxes;
pub mod capi;
pub mod decode;
pub mod det;
pub mod efficient_cropping;
pub mod engine;
pub mod error;
pub mod merge;
pub mod raster;
pub mod rec;
pub mod region;

pub use capi::RocrStatus;
pub use det::Det;
pub use efficient_cropping::{EfficientCropper, ImageRef};
pub use engine::OcrEngineManager;
pub use error::{OcrError, OcrResult};
pub use rec::Rec;
