//! What holds of every classification and of every list of directives.

use crate::artifact::{
    archive_extension, file_stem, framework_marker, has_archive_extension, has_no_inner_dot,
    lemma_lib_stem, lemma_split_of_joined, lemma_stem_has_no_inner_dot, lib_prefix, link_name,
    strip_lib,
};
use crate::classify::{
    classify, is_framework_path, is_outcome, Classification, ClassificationView, ClassifyError,
};
use crate::emit::{
    directives, link_kind, link_line, list_directives, needs_search_path, path_directives,
    search_line, LinkKind,
};
use crate::path::{
    body_start, components, file_name, file_name_span, is_plain_name, is_separator, parent,
    starts_with, without_blank_end,
};
use crate::path_lemmas::{
    lemma_file_name_at_end, lemma_file_name_of_joined, lemma_file_name_span, lemma_last_segment,
    lemma_last_segment_start_skips, lemma_parent_of_joined, lemma_starts_with_joined,
    lemma_starts_with_parent_below,
};
use crate::token_lemmas::{lemma_tokens_of_joined, lemma_tokens_of_one};
use crate::tokens::{is_delimiter, tokens};
use vstd::prelude::*;

verus! {

/// Classifying a path twice gives the same record twice, or fails twice.
pub proof fn lemma_classification_is_repeatable(
    p: Seq<char>,
    root: Seq<char>,
    first: Result<Classification, ClassifyError>,
    second: Result<Classification, ClassifyError>,
)
    requires
        is_outcome(p, root, first),
        is_outcome(p, root, second),
    ensures
        first is Ok <==> second is Ok,
        first is Ok ==> first->Ok_0@ == second->Ok_0@,
        first is Err ==> first->Err_0 == second->Err_0,
{
}

/// The parent of a path made of the directory `dir`, a separator and a
/// plain name: the root if `dir` is empty, else `dir` without the blank
/// segments at its end.
pub open spec fn joined_parent(dir: Seq<char>) -> Seq<char> {
    if dir.len() == 0 {
        seq!['/']
    } else {
        without_blank_end(dir)
    }
}

/// The classification of a path made of a directory, a separator and a
/// plain name. The directory is kept as it is written, but for blank
/// segments at its end; the rest is read from the name.
pub proof fn lemma_classification_of_joined(dir: Seq<char>, name: Seq<char>, root: Seq<char>)
    requires
        is_plain_name(name),
    ensures
        classify(dir + seq!['/'] + name, root) == Some(
            (ClassificationView {
                directory: joined_parent(dir),
                link_name: link_name(name),
                is_static: has_archive_extension(name) && !framework_marker().is_suffix_of(name),
                is_system: starts_with(joined_parent(dir), root),
                is_framework: framework_marker().is_suffix_of(name),
            }),
        ),
{
    let p = dir + seq!['/'] + name;
    let marker = framework_marker();
    lemma_file_name_of_joined(dir, name);
    lemma_parent_of_joined(dir, name);
    reveal_strlit(".framework");
    let n = p.len() as int;
    let k = n - name.len();
    assert(forall|i: int| 0 <= i < name.len() ==> p[k + i] == name[i]);
    if marker.is_suffix_of(name) {
        assert(p.subrange(n - 10, n) =~= name.subrange(name.len() - 10, name.len() as int));
    }
    if marker.is_suffix_of(p) {
        if name.len() < 10 {
            let j = k - 1 - (n - 10);
            assert(p.subrange(n - 10, n)[j] == p[k - 1]);
            assert(p[k - 1] == '/');
        } else {
            assert(name.subrange(name.len() - 10, name.len() as int) =~= p.subrange(n - 10, n));
        }
    }
}

/// A file name made of a stem and of an extension that begins with a dot
/// gives the stem, without a leading `lib`, as the link name; and the
/// library is static exactly when the extension begins with `.a` and the
/// path is not that of a framework.
pub proof fn lemma_classification_of_split_name(
    p: Seq<char>,
    root: Seq<char>,
    stem: Seq<char>,
    ext: Seq<char>,
)
    requires
        file_name(p) == Some(stem + ext),
        stem.len() > 0,
        has_no_inner_dot(stem),
        ext.len() == 0 || ext[0] == '.',
    ensures
        classify(p, root) is Some,
        classify(p, root)->0.link_name == strip_lib(stem),
        classify(p, root)->0.is_static == (archive_extension().is_prefix_of(ext)
            && !is_framework_path(p)),
{
    lemma_split_of_joined(stem, ext);
}

/// A link name holds no extension and no version number: it has no dot
/// but, perhaps, in first place.
pub proof fn lemma_link_name_has_no_extension(p: Seq<char>, root: Seq<char>)
    requires
        classify(p, root) is Some,
    ensures
        has_no_inner_dot(classify(p, root)->0.link_name),
{
    let name = file_name(p)->0;
    let stem = file_stem(name);
    let link = strip_lib(stem);
    lemma_stem_has_no_inner_dot(name);
    assert forall|i: int| 1 <= i < link.len() implies #[trigger] link[i] != '.' by {
        if lib_prefix().is_prefix_of(stem) {
            assert(link[i] == stem[i + lib_prefix().len()]);
        }
    }
}

/// A file named `lib`, a name without dots, a dot and anything more is
/// known to the linker by that name.
pub proof fn lemma_lib_prefix_is_stripped(
    p: Seq<char>,
    root: Seq<char>,
    name: Seq<char>,
    ext: Seq<char>,
)
    requires
        file_name(p) == Some("lib"@ + name + "."@ + ext),
        forall|i: int| 0 <= i < name.len() ==> #[trigger] name[i] != '.',
    ensures
        classify(p, root) is Some,
        classify(p, root)->0.link_name == name,
{
    reveal_strlit(".");
    let stem = "lib"@ + name;
    assert("lib"@ + name + "."@ + ext =~= stem + ("."@ + ext));
    lemma_lib_stem(name);
    lemma_split_of_joined(stem, "."@ + ext);
}

/// A file whose name does not begin with `lib` is known to the linker by
/// its stem as it is.
pub proof fn lemma_name_without_lib_prefix_is_kept(
    p: Seq<char>,
    root: Seq<char>,
    stem: Seq<char>,
    ext: Seq<char>,
)
    requires
        file_name(p) == Some(stem + "."@ + ext),
        stem.len() > 0,
        has_no_inner_dot(stem),
        !"lib"@.is_prefix_of(stem),
    ensures
        classify(p, root) is Some,
        classify(p, root)->0.link_name == stem,
{
    reveal_strlit(".");
    assert(stem + "."@ + ext =~= stem + ("."@ + ext));
    lemma_split_of_joined(stem, "."@ + ext);
}

/// A shared library whose file name carries three version numbers after
/// `.so` is known to the linker by the name between `lib` and `.so`, and
/// is not static.
pub proof fn lemma_versioned_shared_library(
    p: Seq<char>,
    root: Seq<char>,
    name: Seq<char>,
    v1: Seq<char>,
    v2: Seq<char>,
    v3: Seq<char>,
)
    requires
        file_name(p) == Some("lib"@ + name + ".so."@ + v1 + "."@ + v2 + "."@ + v3),
        forall|i: int| 0 <= i < name.len() ==> #[trigger] name[i] != '.',
    ensures
        classify(p, root) is Some,
        classify(p, root)->0.link_name == name,
        !classify(p, root)->0.is_static,
{
    reveal_strlit(".so.");
    reveal_strlit(".a");
    let stem = "lib"@ + name;
    let ext = ".so."@ + v1 + "."@ + v2 + "."@ + v3;
    assert("lib"@ + name + ".so."@ + v1 + "."@ + v2 + "."@ + v3 =~= stem + ext);
    assert(ext[0] == '.');
    assert(ext[1] == 's');
    lemma_lib_stem(name);
    lemma_split_of_joined(stem, ext);
    if ".a"@.is_prefix_of(ext) {
        assert(ext.subrange(0, 2)[1] == ".a"@[1]);
    }
}

/// A file whose whole extension is `.a` is static.
pub proof fn lemma_archive_is_static(p: Seq<char>, root: Seq<char>, stem: Seq<char>)
    requires
        file_name(p) == Some(stem + ".a"@),
        stem.len() > 0,
        has_no_inner_dot(stem),
    ensures
        classify(p, root) is Some,
        classify(p, root)->0.is_static,
{
    reveal_strlit(".a");
    reveal_strlit(".framework");
    let name = stem + ".a"@;
    lemma_classification_of_split_name(p, root, stem, ".a"@);
    assert(".a"@.subrange(0, 2) =~= ".a"@);
    lemma_file_name_span(p);
    let (s, e) = file_name_span(p)->0;
    if is_framework_path(p) {
        let n = p.len() as int;
        assert(p.subrange(n - 10, n)[9] == 'k');
        assert(e == n);
        assert(p.subrange(s, e) == name);
        assert(name[name.len() - 1] == 'a');
        assert(p.subrange(s, e)[e - s - 1] == p[n - 1]);
    }
}

/// No library is both a framework and static.
pub proof fn lemma_framework_is_not_static(p: Seq<char>, root: Seq<char>)
    requires
        classify(p, root) is Some,
    ensures
        !(classify(p, root)->0.is_framework && classify(p, root)->0.is_static),
{
}

/// A path that ends in `.framework` is classified as a framework that is
/// not static, in the directory that holds the bundle; and the name of
/// the bundle ends in `.framework`.
pub proof fn lemma_framework_bundle(p: Seq<char>, root: Seq<char>)
    requires
        is_framework_path(p),
    ensures
        classify(p, root) is Some,
        classify(p, root)->0.is_framework,
        !classify(p, root)->0.is_static,
        parent(p) == Some(classify(p, root)->0.directory),
        framework_marker().is_suffix_of(file_name(p)->0),
{
    reveal_strlit(".framework");
    let n = p.len() as int;
    let m = n - 10;
    let marker = framework_marker();
    assert forall|i: int| m <= i < n implies #[trigger] p[i] == marker[i - m] by {
        assert(p.subrange(m, n)[i - m] == p[i]);
    }
    assert(p.last() == 'k');
    lemma_file_name_at_end(p);
    let lo = body_start(p);
    let (s, e) = file_name_span(p)->0;
    if m == 0 {
        assert(p[0] == '.');
        assert(p[1] == 'f');
    }
    assert(lo <= m);
    lemma_last_segment_start_skips(p, lo, m, n);
    lemma_last_segment(p, lo, m);
    assert(s <= m);
    let name = p.subrange(s, e);
    assert(name.subrange(name.len() - 10, name.len() as int) =~= marker);
}

/// The bundle of a framework is known to the linker by what comes before
/// `.framework` in its name, without a leading `lib`, if that has no dot
/// but, perhaps, in first place.
pub proof fn lemma_framework_link_name(p: Seq<char>, root: Seq<char>, base: Seq<char>)
    requires
        is_framework_path(p),
        file_name(p) == Some(base + ".framework"@),
        base.len() > 0,
        has_no_inner_dot(base),
    ensures
        classify(p, root) is Some,
        classify(p, root)->0.link_name == strip_lib(base),
        !lib_prefix().is_prefix_of(base) ==> classify(p, root)->0.link_name == base,
{
    reveal_strlit(".framework");
    lemma_classification_of_split_name(p, root, base, ".framework"@);
}

/// A library counts as installed with the system exactly when the system
/// library root leads to its directory.
pub proof fn lemma_system_flag(p: Seq<char>, root: Seq<char>)
    requires
        file_name(p) is Some,
    ensures
        classify(p, root) is Some,
        classify(p, root)->0.is_system == starts_with(classify(p, root)->0.directory, root),
{
}

/// A library counts as installed with the system if its path is made of
/// the system library root, of any directories below it, each closed by a
/// separator, and of the name of the file. The root is taken to end in a
/// separator.
pub proof fn lemma_library_below_root_is_system(
    root: Seq<char>,
    below: Seq<char>,
    name: Seq<char>,
)
    requires
        root.len() > 0,
        is_separator(root.last()),
        below.len() == 0 || is_separator(below.last()),
        is_plain_name(name),
    ensures
        classify(root + below + name, root) is Some,
        classify(root + below + name, root)->0.is_system,
{
    lemma_starts_with_parent_below(root, below, name);
}

/// The same for a root that is written without a separator at its end:
/// a library counts as installed with the system if its path is made of
/// the root, a separator, any directories below, each closed by a
/// separator, and the name of the file.
pub proof fn lemma_library_below_open_root_is_system(
    root: Seq<char>,
    below: Seq<char>,
    name: Seq<char>,
)
    requires
        below.len() == 0 || is_separator(below.last()),
        is_plain_name(name),
    ensures
        classify(root + seq!['/'] + below + name, root) is Some,
        classify(root + seq!['/'] + below + name, root)->0.is_system,
{
    let closed = root + seq!['/'];
    let p = closed + below + name;
    lemma_starts_with_parent_below(closed, below, name);
    lemma_starts_with_joined(root, Seq::empty());
    assert(root + seq!['/'] + Seq::<char>::empty() =~= closed);
    let dir = parent(p)->0;
    let cr = components(root);
    let cc = components(closed);
    let cd = components(dir);
    assert(cr =~= cd.subrange(0, cr.len() as int)) by {
        assert(cr =~= cc.subrange(0, cr.len() as int));
        assert(cc =~= cd.subrange(0, cc.len() as int));
    }
}

/// Which libraries get a search directive, and how each kind is linked.
/// A shared library under the system library root is the only one that
/// gets no search directive.
pub proof fn lemma_search_path_policy(c: ClassificationView)
    ensures
        !c.is_system && !c.is_static && !c.is_framework ==> needs_search_path(c) && link_kind(c)
            == LinkKind::Dylib,
        !c.is_system && c.is_static && !c.is_framework ==> needs_search_path(c) && link_kind(c)
            == LinkKind::Static,
        c.is_system && !c.is_static && !c.is_framework ==> !needs_search_path(c) && link_kind(c)
            == LinkKind::Dylib,
        c.is_system && c.is_static && !c.is_framework ==> needs_search_path(c) && link_kind(c)
            == LinkKind::Static,
        c.is_framework ==> needs_search_path(c) && link_kind(c) == LinkKind::Framework,
        directives(c) == if needs_search_path(c) {
            search_line(c.directory) + link_line(link_kind(c), c.link_name)
        } else {
            link_line(link_kind(c), c.link_name)
        },
{
}

/// The directives for a list that is made of two lists are those for the
/// first list, and then those for the second.
pub proof fn lemma_directives_keep_order(a: Seq<Seq<char>>, b: Seq<Seq<char>>, root: Seq<char>)
    ensures
        list_directives(a + b, root) == list_directives(a, root) + list_directives(b, root),
    decreases b.len(),
{
    if b.len() == 0 {
        assert(a + b =~= a);
        assert(list_directives(a, root) + list_directives(b, root) =~= list_directives(a, root));
    } else {
        assert((a + b).drop_last() =~= a + b.drop_last());
        assert((a + b).last() == b.last());
        lemma_directives_keep_order(a, b.drop_last(), root);
        assert(list_directives(a + b, root) =~= list_directives(a, root) + list_directives(
            b,
            root,
        ));
    }
}

/// The directives for a list of one path are those for the path.
pub proof fn lemma_directives_of_one_path(p: Seq<char>, root: Seq<char>)
    requires
        p.len() > 0,
        forall|i: int| 0 <= i < p.len() ==> !is_delimiter(#[trigger] p[i]),
    ensures
        list_directives(tokens(p), root) == path_directives(p, root),
{
    lemma_tokens_of_one(p);
    let one = seq![p];
    assert(one.drop_last() =~= Seq::<Seq<char>>::empty());
    assert(list_directives(one.drop_last(), root) =~= Seq::<char>::empty());
    assert(list_directives(one, root) =~= path_directives(p, root));
}

/// The directives for two lists with a delimiter between them are those
/// for the first list, and then those for the second.
pub proof fn lemma_lists_keep_order(a: Seq<char>, d: char, b: Seq<char>, root: Seq<char>)
    requires
        is_delimiter(d),
    ensures
        list_directives(tokens(a + seq![d] + b), root) == list_directives(tokens(a), root)
            + list_directives(tokens(b), root),
{
    lemma_tokens_of_joined(a, d, b);
    lemma_directives_keep_order(tokens(a), tokens(b), root);
}

} // verus!
