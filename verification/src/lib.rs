pub mod field_laws;
pub mod gf;
pub mod poly_laws;
pub mod versions;
pub mod bits;
pub mod encode;
pub mod message;
pub mod layout;
pub mod grid;
pub mod score;
pub mod version_info;
pub mod capacity;
