pub mod cli;
pub mod entry;
pub mod env_file;
pub mod laws;
pub mod text;

pub use cli::ArgError;
pub use cli::ListMode;
pub use cli::Target;
pub use entry::Entry;
pub use entry::ParseError;
pub use env_file::EnvFile;
