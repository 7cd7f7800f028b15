//! Turns a list of native library artifact paths into linker directives.
//!
//! Each path of the list is classified: the directory that holds the
//! library, the name the linker knows it by, and whether it is static, a
//! framework, or installed with the system. From that follow one or two
//! directives for each library, in the order of the list.

pub mod artifact;
pub mod classify;
pub mod emit;
pub mod laws;
pub mod path;
pub mod path_lemmas;
pub mod text;
pub mod token_lemmas;
pub mod tokens;

pub use classify::{
    parse_lib_path_dir_and_name, parse_lib_path_with_system_root, Classification, ClassifyError,
    DEFAULT_SYSTEM_ROOT,
};
pub use emit::{
    read_cmake_generated_to_output, read_cmake_generated_with_system_root, EmitError, LinkKind,
};
