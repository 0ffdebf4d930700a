pub mod content_type;
pub mod field;
pub mod length_type;

pub use content_type::ContentType;
pub use field::{Field, ValueError};
pub use length_type::LengthType;
