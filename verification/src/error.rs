use vstd::prelude::*;
use vstd::string::StringExecFns;

verus! {

/// What can go wrong while locating and reading text. Each variant carries a
/// description of the failure.
#[derive(Debug)]
pub enum OcrError {
    /// A file or a byte buffer could not be read.
    IOError(String),
    /// An image could not be decoded or processed.
    ImageError(String),
    /// A command line argument was wrong.
    ArgError(String),
    /// A value could not be written as JSON or read from it.
    JsonError(String),
    /// The inference backend failed.
    MNNError(String),
    /// A tensor did not have the expected shape.
    ShapeError(String),
    /// The data handed to a stage was malformed.
    InputError(String),
    /// The data produced by a stage was malformed.
    OutputError(String),
    /// The model could not be run.
    InferenceError(String),
    /// The engine is not available: its worker has ended or its lock could
    /// not be taken.
    EngineError(String),
    /// A thread could not be joined.
    ThreadError(String),
}

/// Result of an operation that may fail with an [`OcrError`].
pub type OcrResult<T> = Result<T, OcrError>;

impl OcrError {
    /// The description carried by the error.
    pub open spec fn detail(self) -> Seq<char> {
        match self {
            OcrError::IOError(s) => s@,
            OcrError::ImageError(s) => s@,
            OcrError::ArgError(s) => s@,
            OcrError::JsonError(s) => s@,
            OcrError::MNNError(s) => s@,
            OcrError::ShapeError(s) => s@,
            OcrError::InputError(s) => s@,
            OcrError::OutputError(s) => s@,
            OcrError::InferenceError(s) => s@,
            OcrError::EngineError(s) => s@,
            OcrError::ThreadError(s) => s@,
        }
    }

    /// The words that introduce the description in the error's message.
    pub open spec fn prefix(self) -> Seq<char> {
        match self {
            OcrError::IOError(_) => "IO error: "@,
            OcrError::ImageError(_) => "Image processing error: "@,
            OcrError::ArgError(_) => "Command line argument error: "@,
            OcrError::JsonError(_) => "JSON error: "@,
            OcrError::MNNError(_) => "MNN error: "@,
            OcrError::ShapeError(_) => "Shape error: "@,
            OcrError::InputError(_) => "Input tensor data error: "@,
            OcrError::OutputError(_) => "Output tensor data error: "@,
            OcrError::InferenceError(_) => "Model inference error: "@,
            OcrError::EngineError(_) => "Engine error: "@,
            OcrError::ThreadError(_) => "Thread error: "@,
        }
    }

    /// The error as a line of text: the kind of failure, then its
    /// description.
    pub fn message(&self) -> (text: String)
        ensures
            text@ == self.prefix() + self.detail(),
    {
        match self {
            OcrError::IOError(s) => String::from_str("IO error: ").concat(s.as_str()),
            OcrError::ImageError(s) => String::from_str("Image processing error: ").concat(
                s.as_str(),
            ),
            OcrError::ArgError(s) => String::from_str("Command line argument error: ").concat(
                s.as_str(),
            ),
            OcrError::JsonError(s) => String::from_str("JSON error: ").concat(s.as_str()),
            OcrError::MNNError(s) => String::from_str("MNN error: ").concat(s.as_str()),
            OcrError::ShapeError(s) => String::from_str("Shape error: ").concat(s.as_str()),
            OcrError::InputError(s) => String::from_str("Input tensor data error: ").concat(
                s.as_str(),
            ),
            OcrError::OutputError(s) => String::from_str("Output tensor data error: ").concat(
                s.as_str(),
            ),
            OcrError::InferenceError(s) => String::from_str("Model inference error: ").concat(
                s.as_str(),
            ),
            OcrError::EngineError(s) => String::from_str("Engine error: ").concat(s.as_str()),
            OcrError::ThreadError(s) => String::from_str("Thread error: ").concat(s.as_str()),
        }
    }
}

} // verus!
