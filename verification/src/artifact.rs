//! The parts of a library file name: the stem before its first inner dot,
//! the extension from that dot on, and the name the linker knows it by.

use crate::path::is_parent_ref;
use crate::text::{chars_of, has_prefix};
use vstd::prelude::*;
use vstd::slice::slice_subrange;

verus! {

/// The prefix that library file names carry by convention.
pub open spec fn lib_prefix() -> Seq<char> {
    "lib"@
}

/// The beginning of the extension of an archive.
pub open spec fn archive_extension() -> Seq<char> {
    ".a"@
}

/// The end of the path of a framework bundle.
pub open spec fn framework_marker() -> Seq<char> {
    ".framework"@
}

/// The first position at or after `from` that holds a dot, or the length
/// of the name if there is none.
pub open spec fn first_dot(name: Seq<char>, from: int) -> int
    decreases name.len() - from,
{
    if from >= name.len() {
        name.len() as int
    } else if name[from] == '.' {
        from
    } else {
        first_dot(name, from + 1)
    }
}

/// The length of the stem: the position of the first dot that is not the
/// first character, or the length of the name if it has no such dot. The
/// name `..` is not split: it is all stem.
pub open spec fn stem_len(name: Seq<char>) -> int {
    if is_parent_ref(name) {
        name.len() as int
    } else {
        first_dot(name, 1)
    }
}

/// The name up to its first inner dot. A dot in first place belongs to
/// the stem, and so does all of the name `..`.
pub open spec fn file_stem(name: Seq<char>) -> Seq<char> {
    name.take(stem_len(name))
}

/// The name from its first inner dot on, with that dot: all the
/// extensions and version numbers together. Empty if there is no such dot.
pub open spec fn full_extension(name: Seq<char>) -> Seq<char> {
    name.skip(stem_len(name))
}

/// The stem without one leading `lib`.
pub open spec fn strip_lib(stem: Seq<char>) -> Seq<char> {
    if lib_prefix().is_prefix_of(stem) {
        stem.skip(lib_prefix().len() as int)
    } else {
        stem
    }
}

/// The name under which the linker finds the library in a file of this
/// name.
pub open spec fn link_name(name: Seq<char>) -> Seq<char> {
    strip_lib(file_stem(name))
}

/// The extension of the file is that of an archive.
pub open spec fn has_archive_extension(name: Seq<char>) -> bool {
    archive_extension().is_prefix_of(full_extension(name))
}

/// A stem has no dot but, perhaps, in first place.
pub open spec fn has_no_inner_dot(stem: Seq<char>) -> bool {
    forall|i: int| 1 <= i < stem.len() ==> #[trigger] stem[i] != '.'
}

/// Splits a file name at its first inner dot: returns the length of the
/// stem. The name `..` is not split.
pub fn split_file_at_dot(name: &[char]) -> (n: usize)
    ensures
        n == stem_len(name@),
        n <= name.len(),
        name.len() > 0 ==> n > 0,
{
    if name.len() == 0 {
        return 0;
    }
    if name.len() == 2 && name[0] == '.' && name[1] == '.' {
        return 2;
    }
    let mut i: usize = 1;
    while i < name.len() && name[i] != '.'
        invariant
            1 <= i <= name.len(),
            first_dot(name@, 1) == first_dot(name@, i as int),
        decreases name.len() - i,
    {
        i += 1;
    }
    i
}

/// Measures what [`strip_lib`] takes from the front of a stem.
pub fn lib_prefix_len(stem: &[char]) -> (n: usize)
    ensures
        n <= stem.len(),
        strip_lib(stem@) == stem@.skip(n as int),
{
    let lib = chars_of("lib");
    if has_prefix(stem, lib.as_slice()) {
        lib.len()
    } else {
        assert(stem@.skip(0) =~= stem@);
        0
    }
}

/// Decides [`has_archive_extension`].
pub fn is_archive_name(name: &[char]) -> (r: bool)
    ensures
        r == has_archive_extension(name@),
{
    let n = split_file_at_dot(name);
    let ext = slice_subrange(name, n, name.len());
    let dot_a = chars_of(".a");
    has_prefix(ext, dot_a.as_slice())
}

/// The first dot at or after `from` is at `k` if no dot comes before `k`
/// and `k` holds one or is the end of the name.
pub proof fn lemma_first_dot_is(name: Seq<char>, from: int, k: int)
    requires
        0 <= from <= k <= name.len(),
        forall|i: int| from <= i < k ==> #[trigger] name[i] != '.',
        k == name.len() || name[k] == '.',
    ensures
        first_dot(name, from) == k,
    decreases k - from,
{
    if from < k {
        lemma_first_dot_is(name, from + 1, k);
    }
}

/// A name made of a stem and of an extension that begins with a dot, or
/// of a stem alone, splits into the two, unless the name is `..`.
pub proof fn lemma_split_of_joined(stem: Seq<char>, ext: Seq<char>)
    requires
        stem.len() > 0,
        has_no_inner_dot(stem),
        ext.len() == 0 || ext[0] == '.',
        !is_parent_ref(stem + ext),
    ensures
        file_stem(stem + ext) == stem,
        full_extension(stem + ext) == ext,
{
    let name = stem + ext;
    let k = stem.len() as int;
    assert forall|i: int| 1 <= i < k implies #[trigger] name[i] != '.' by {
        assert(name[i] == stem[i]);
    }
    if ext.len() > 0 {
        assert(name[k] == ext[0]);
    }
    lemma_first_dot_is(name, 1, k);
    assert(name.take(k) =~= stem);
    assert(name.skip(k) =~= ext);
}

/// No dot comes before the first dot.
pub proof fn lemma_no_dot_before_first(name: Seq<char>, from: int)
    requires
        0 <= from <= name.len(),
    ensures
        from <= first_dot(name, from) <= name.len(),
        forall|i: int| from <= i < first_dot(name, from) ==> #[trigger] name[i] != '.',
    decreases name.len() - from,
{
    if from < name.len() && name[from] != '.' {
        lemma_no_dot_before_first(name, from + 1);
    }
}

/// The stem of a name other than `..` has no dot but, perhaps, in first
/// place.
pub proof fn lemma_stem_has_no_inner_dot(name: Seq<char>)
    requires
        !is_parent_ref(name),
    ensures
        has_no_inner_dot(file_stem(name)),
{
    if name.len() >= 1 {
        lemma_no_dot_before_first(name, 1);
    }
}

/// A name has no extension exactly when it is `..` or holds no dot after
/// its first character, and then the name is all stem. Otherwise the
/// extension begins at the first such dot.
pub proof fn lemma_extension_of_name(name: Seq<char>)
    ensures
        full_extension(name).len() == 0 <==> is_parent_ref(name) || has_no_inner_dot(name),
        full_extension(name).len() == 0 ==> file_stem(name) == name,
        full_extension(name).len() > 0 ==> {
            &&& 1 <= stem_len(name) < name.len()
            &&& name[stem_len(name)] == '.'
            &&& has_no_inner_dot(file_stem(name))
        },
{
    if name.len() >= 1 && !is_parent_ref(name) {
        lemma_no_dot_before_first(name, 1);
        lemma_stem_has_no_inner_dot(name);
        let k = first_dot(name, 1);
        if k < name.len() {
            lemma_first_dot_holds_dot(name, 1);
        }
    }
    if full_extension(name).len() == 0 {
        assert(name.take(name.len() as int) =~= name);
    }
}

/// The first dot, if it lies within the name, is a dot.
pub proof fn lemma_first_dot_holds_dot(name: Seq<char>, from: int)
    requires
        0 <= from,
        first_dot(name, from) < name.len(),
    ensures
        name[first_dot(name, from)] == '.',
    decreases name.len() - from,
{
    if from < name.len() && name[from] != '.' {
        lemma_first_dot_holds_dot(name, from + 1);
    }
}

/// A name without dots after `lib` is a stem, and [`strip_lib`] gives the
/// name back.
pub proof fn lemma_lib_stem(name: Seq<char>)
    requires
        forall|i: int| 0 <= i < name.len() ==> #[trigger] name[i] != '.',
    ensures
        has_no_inner_dot("lib"@ + name),
        ("lib"@ + name).len() > 0,
        strip_lib("lib"@ + name) == name,
{
    reveal_strlit("lib");
    let stem = "lib"@ + name;
    assert forall|i: int| 1 <= i < stem.len() implies #[trigger] stem[i] != '.' by {
        if i >= 3 {
            assert(stem[i] == name[i - 3]);
        }
    }
    assert(stem.subrange(0, 3) =~= "lib"@);
    assert(stem.skip(3) =~= name);
}

} // verus!
