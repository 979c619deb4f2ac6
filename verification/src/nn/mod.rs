pub mod encoding;
pub mod policy_map;

use vstd::prelude::*;

verus! {

/// Errors of the neural-network evaluator.
#[derive(Debug, Clone, PartialEq, Eq)]
pub enum NNError {
    OrtError(String),
    ModelLoad(String),
    ShapeError(String),
    NoOutput(String),
}

/// The text that describes an evaluator error.
pub open spec fn nn_error_text(e: NNError) -> Seq<char> {
    match e {
        NNError::OrtError(s) => "ONNX Runtime error: "@ + s@,
        NNError::ModelLoad(s) => "Failed to load ONNX model: "@ + s@,
        NNError::ShapeError(s) => "Tensor shape error: "@ + s@,
        NNError::NoOutput(s) => "Missing model output: "@ + s@,
    }
}

impl NNError {
    /// The human-readable description of the error.
    pub fn message(&self) -> (r: String)
        ensures
            r@ == nn_error_text(*self),
    {
        match self {
            NNError::OrtError(e) => {
                let mut r = String::from_str("ONNX Runtime error: ");
                r.append(e.as_str());
                r
            },
            NNError::ModelLoad(e) => {
                let mut r = String::from_str("Failed to load ONNX model: ");
                r.append(e.as_str());
                r
            },
            NNError::ShapeError(e) => {
                let mut r = String::from_str("Tensor shape error: ");
                r.append(e.as_str());
                r
            },
            NNError::NoOutput(e) => {
                let mut r = String::from_str("Missing model output: ");
                r.append(e.as_str());
                r
            },
        }
    }
}

} // verus!
