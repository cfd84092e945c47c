pub mod file_path;
pub mod set_index;
pub mod file_comparable;
pub mod directory_comparable;
pub mod directory_files;
