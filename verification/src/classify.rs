//! What one artifact path says of the library it points to.

use crate::artifact::{
    framework_marker, has_archive_extension, is_archive_name, lib_prefix_len, link_name,
    split_file_at_dot,
};
use crate::path::{
    file_name, find_file_name, find_parent, parent, path_starts_with, starts_with,
};
use crate::text::{chars_of, has_suffix};
use vstd::prelude::*;
use vstd::slice::slice_subrange;
use vstd::string::StrSliceExecFns;

verus! {

/// The directory under which libraries count as installed with the
/// system, unless another one is given.
pub const DEFAULT_SYSTEM_ROOT: &'static str = "/usr/lib/";

/// What is known of a library from the path of its file or bundle.
#[derive(Debug, PartialEq, Eq)]
pub struct Classification {
    /// The directory that holds the artifact.
    pub directory: String,
    /// The name under which the linker finds the library.
    pub link_name: String,
    /// The artifact is an archive, to be linked statically.
    pub is_static: bool,
    /// The artifact lies under the system library root.
    pub is_system: bool,
    /// The artifact is a framework bundle.
    pub is_framework: bool,
}

/// A [`Classification`] as a mathematical value.
pub struct ClassificationView {
    pub directory: Seq<char>,
    pub link_name: Seq<char>,
    pub is_static: bool,
    pub is_system: bool,
    pub is_framework: bool,
}

impl View for Classification {
    type V = ClassificationView;

    open spec fn view(&self) -> ClassificationView {
        ClassificationView {
            directory: self.directory@,
            link_name: self.link_name@,
            is_static: self.is_static,
            is_system: self.is_system,
            is_framework: self.is_framework,
        }
    }
}

impl Clone for Classification {
    fn clone(&self) -> (c: Self)
        ensures
            c@ == self@,
    {
        Classification {
            directory: self.directory.clone(),
            link_name: self.link_name.clone(),
            is_static: self.is_static,
            is_system: self.is_system,
            is_framework: self.is_framework,
        }
    }
}

/// Why a path could not be classified.
#[derive(Debug, Clone, Copy, PartialEq, Eq)]
pub enum ClassifyError {
    /// The path does not end in the name of a file or bundle: it is empty,
    /// it ends at its root or at a `.`, or it ends in `..`.
    NoFileName,
}

/// The path is that of a framework bundle.
pub open spec fn is_framework_path(p: Seq<char>) -> bool {
    framework_marker().is_suffix_of(p)
}

/// The classification of the path `p`, with `root` as the system library
/// root. A path without a file name has none.
///
/// The link name is read from the file name in one way for every kind of
/// library, a framework too: the stem before the first inner dot, without
/// a leading `lib`. So the bundle `Foo.framework` is known as `Foo`, and
/// so are `libFoo.framework` and `Foo.Bar.framework`.
pub open spec fn classify(p: Seq<char>, root: Seq<char>) -> Option<ClassificationView> {
    match file_name(p) {
        None => None,
        Some(name) => Some(
            ClassificationView {
                directory: parent(p).unwrap(),
                link_name: link_name(name),
                is_static: has_archive_extension(name) && !is_framework_path(p),
                is_system: starts_with(parent(p).unwrap(), root),
                is_framework: is_framework_path(p),
            },
        ),
    }
}

/// `r` is what classifying `p` gives.
pub open spec fn is_outcome(
    p: Seq<char>,
    root: Seq<char>,
    r: Result<Classification, ClassifyError>,
) -> bool {
    match r {
        Ok(c) => classify(p, root) == Some(c@),
        Err(_) => classify(p, root) is None,
    }
}

/// Classifies `path`, whose characters are `chars`, with the characters
/// of the system library root in `root`.
pub(crate) fn classify_chars(path: &str, chars: &[char], root: &[char]) -> (r: Result<
    Classification,
    ClassifyError,
>)
    requires
        chars@ == path@,
    ensures
        is_outcome(path@, root@, r),
{
    let (s, e) = match find_file_name(chars) {
        Some(span) => span,
        None => {
            return Err(ClassifyError::NoFileName);
        },
    };
    let dir_len = find_parent(chars).unwrap();
    let name = slice_subrange(chars, s, e);
    let stem_end = split_file_at_dot(name);
    let skipped = lib_prefix_len(slice_subrange(name, 0, stem_end));
    let marker = chars_of(".framework");
    let is_framework = has_suffix(chars, marker.as_slice());
    let is_static = is_archive_name(name) && !is_framework;
    let is_system = path_starts_with(slice_subrange(chars, 0, dir_len), root);
    let directory = path.substring_char(0, dir_len);
    let link = path.substring_char(s + skipped, s + stem_end);
    assert(link@ =~= link_name(name@));
    Ok(
        Classification {
            directory: directory.to_owned(),
            link_name: link.to_owned(),
            is_static,
            is_system,
            is_framework,
        },
    )
}

/// Classifies `path`, with `system_root` as the system library root.
pub fn parse_lib_path_with_system_root(path: &str, system_root: &str) -> (r: Result<
    Classification,
    ClassifyError,
>)
    ensures
        is_outcome(path@, system_root@, r),
{
    let chars = chars_of(path);
    let root = chars_of(system_root);
    classify_chars(path, chars.as_slice(), root.as_slice())
}

/// Classifies `path`, with [`DEFAULT_SYSTEM_ROOT`] as the system library
/// root.
pub fn parse_lib_path_dir_and_name(path: &str) -> (r: Result<Classification, ClassifyError>)
    ensures
        is_outcome(path@, DEFAULT_SYSTEM_ROOT@, r),
{
    parse_lib_path_with_system_root(path, DEFAULT_SYSTEM_ROOT)
}

} // verus!
