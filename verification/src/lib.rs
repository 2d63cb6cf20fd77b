//! A small MIPS32-inspired workbench: instruction codec, two-pass assembler, sequential
//! reference machine, five-stage pipeline model and a set-associative cache model.

pub mod assembler;
pub mod cache;
pub mod command;
pub mod isa;
pub mod json;
pub mod machine;
pub mod pipeline;
pub mod refinement;
pub mod round_trip;
pub mod syntax;
pub mod text;

pub use assembler::{assemble, AssemblerError, Program};
pub use cache::{CacheConfig, CacheError, CacheStats, SetAssociativeCache};
pub use isa::{register_name, DecodeError, Instruction, REGISTER_NAMES};
pub use machine::{ExecutionError, Machine, RunSummary};
pub use pipeline::{PipelineCycle, PipelineError, PipelineResult, PipelineSimulator};
