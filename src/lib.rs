pub mod grid;
pub mod instruction;
pub mod text;
pub mod keyboard;
pub mod synthesis;
pub mod laws;

pub use grid::{find_position, KeyboardLayout, Position, HEIGHT, KEYS, WIDTH};
pub use instruction::Instruction;
pub use keyboard::Keyboard;
