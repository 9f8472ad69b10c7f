//! Loader, control-flow resolver and statement lifter for a register-based
//! bytecode dump format.
//!
//! The pipeline is strictly one-way: bytes are decoded into a dump made of
//! prototypes, each prototype's instruction stream is partitioned into basic
//! blocks joined by typed branch edges, and every block is finally lifted
//! into a sequence of structured statements.

pub mod bytecode_reader;
pub mod disasm;
pub mod error;
pub mod graph;
pub mod ir;
pub mod lifting;
pub mod op;
pub mod resolver;
pub mod types;
pub mod utils;

pub use bytecode_reader::read_bytecode_dump;
pub use bytecode_reader::read_uleb128;
pub use bytecode_reader::ByteCodeDump;
pub use bytecode_reader::ByteCodeProto;
pub use disasm::disasm;
pub use error::DecompileError;
pub use graph::Graph;
pub use lifting::Lifter;
pub use op::Op;
pub use resolver::resolve_basic_blocks;
