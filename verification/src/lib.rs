//! Export of a solved preflop strategy table into a canonical, quantized,
//! deterministically ordered textual document.
//!
//! The pipeline has four verified parts: clamping scaled probabilities to
//! basis points (`quant`), canonicalizing information-set keys into strings
//! (`keys`), assembling the ordered state table (`model`), and encoding the
//! final document as text (`encode`). `parse` reads the run parameters out
//! of an input file name stem, and `order` holds the lexicographic order the
//! state table is sorted by.

pub mod encode;
pub mod keys;
pub mod model;
pub mod order;
pub mod parse;
pub mod quant;
pub mod text;

pub use encode::encode_model;
pub use keys::to_state_key;
pub use model::assemble_model;
pub use model::ExportMeta;
pub use model::ExportModel;
pub use model::StateEntry;
pub use parse::parse_stack_and_iterations;
pub use parse::parse_usize;
pub use parse::split_dash_exec;
pub use quant::quantize_scaled;
pub use quant::quantize_tensor;
