//! Mach-O: the images of a task, the symbols of the shared cache, and the identity
//! of files.

pub mod dyld_cache;
pub mod dyld_images;
pub mod file_uuid;
