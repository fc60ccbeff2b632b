pub mod convert;
pub mod datagen;
pub mod edit;
pub mod error;
pub mod patch;
pub mod path;
pub mod recipe;
pub mod tags;
pub mod text;
pub mod value;
