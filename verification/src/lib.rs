pub mod decode;
pub mod image;
pub mod model;
pub mod text;
pub mod util;
