//! Near-miss password candidates: every string within a small edit budget of
//! a password, plus swaps of characters a few positions apart.

pub mod config;
pub mod generator;
pub mod input;
pub mod order;
pub mod output;
pub mod ranking;
pub mod text;

pub use config::Config;
pub use generator::{
    generate_distance_1_variations, generate_transposition_variations, generate_variations,
};
pub use input::passwords_from_lines;
pub use output::{output_lines, total_count, Source};
pub use ranking::count_typeable_chars;
