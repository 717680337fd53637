pub mod assoc;
pub mod line;
pub mod model;
pub mod order;
pub mod pack;
pub mod text;

pub use line::parse_line;
pub use pack::LangPack;
