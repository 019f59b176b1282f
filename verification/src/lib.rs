pub mod buffer;
pub mod movement;
pub mod rebase;
pub mod selection;
pub mod state;
pub mod text_buffer;

pub use buffer::Buffer;
pub use movement::{LinePosition, Movement};
pub use rebase::{EditDelta, InsertDrift};
pub use selection::{ColPosition, SelRegion, Selection};
pub use state::Mode;
pub use text_buffer::TextBuffer;
