//! Hyperdimensional binary vectors and the wave-cube memory built on them.

pub mod bits;
pub mod text;
pub mod args;
pub mod entropy;
pub mod hypervector;
pub mod wave_cube;
pub mod cube_file;
pub mod information_triangle;
pub mod engine;
pub mod token_bridge;
pub mod vocab;
pub mod synthesizer;
pub mod layers;
pub mod corpus;
pub mod lexer;
pub mod gguf;
pub mod pentagon;
pub mod tensor_phase;
pub mod refactor;
pub mod agent;
pub mod gpu;
