pub mod analysis;
pub mod bullets;
pub mod cjk;
pub mod display;
pub mod editor;
pub mod embed;
pub mod escapes;
pub mod event;
pub mod fencing;
pub mod formatting;
pub mod parser;
pub mod references;
pub mod shapes;
pub mod spelling;
pub mod state;
pub mod strings;
pub mod syntax;
pub mod text;
pub mod words;
