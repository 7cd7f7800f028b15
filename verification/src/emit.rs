//! The linker directives for the libraries of a list, in the order of the
//! list.

use crate::classify::{
    classify, classify_chars, Classification, ClassificationView, DEFAULT_SYSTEM_ROOT,
};
use crate::path::file_name;
use crate::text::{append_text, chars_of, lemma_encode_utf8_concat};
use crate::tokens::{next_token, tokens, tokens_from};
use vstd::prelude::*;
use vstd::slice::slice_subrange;
use vstd::string::{StrSliceExecFns, StringExecFns};
use vstd::utf8::encode_utf8;

verus! {

/// How a library is linked.
#[derive(Debug, Clone, Copy, PartialEq, Eq)]
pub enum LinkKind {
    /// As a framework bundle.
    Framework,
    /// Statically, from an archive.
    Static,
    /// Dynamically, from a shared library.
    Dylib,
}

impl LinkKind {
    /// The word for this kind in a link directive.
    pub open spec fn name(self) -> Seq<char> {
        match self {
            LinkKind::Framework => "framework"@,
            LinkKind::Static => "static"@,
            LinkKind::Dylib => "dylib"@,
        }
    }

    /// The word for this kind in a link directive.
    pub fn as_str(&self) -> (s: &'static str)
        ensures
            s@ == self.name(),
    {
        match self {
            LinkKind::Framework => "framework",
            LinkKind::Static => "static",
            LinkKind::Dylib => "dylib",
        }
    }
}

/// How a library with this classification is linked: a framework as a
/// framework, an archive statically, anything else dynamically.
pub open spec fn link_kind(c: ClassificationView) -> LinkKind {
    if c.is_framework {
        LinkKind::Framework
    } else if c.is_static {
        LinkKind::Static
    } else {
        LinkKind::Dylib
    }
}

/// The linker must be told where the library lies. Only a shared library
/// under the system library root is found without that.
pub open spec fn needs_search_path(c: ClassificationView) -> bool {
    !(c.is_system && !c.is_static && !c.is_framework)
}

/// The directive that adds `dir` to the directories the linker searches.
pub open spec fn search_line(dir: Seq<char>) -> Seq<char> {
    "cargo:rustc-link-search=native="@ + dir + "\n"@
}

/// The directive that links the library `name`.
pub open spec fn link_line(kind: LinkKind, name: Seq<char>) -> Seq<char> {
    "cargo:rustc-link-lib="@ + kind.name() + "="@ + name + "\n"@
}

/// The directives for one library: the search directive, if it needs one,
/// and then the link directive.
pub open spec fn directives(c: ClassificationView) -> Seq<char> {
    if needs_search_path(c) {
        search_line(c.directory) + link_line(link_kind(c), c.link_name)
    } else {
        link_line(link_kind(c), c.link_name)
    }
}

/// The directives for the path `p`. A path that cannot be classified has
/// none.
pub open spec fn path_directives(p: Seq<char>, root: Seq<char>) -> Seq<char> {
    match classify(p, root) {
        Some(c) => directives(c),
        None => Seq::empty(),
    }
}

/// The directives for the paths `ps`, one after the other.
pub open spec fn list_directives(ps: Seq<Seq<char>>, root: Seq<char>) -> Seq<char>
    decreases ps.len(),
{
    if ps.len() == 0 {
        Seq::empty()
    } else {
        list_directives(ps.drop_last(), root) + path_directives(ps.last(), root)
    }
}

/// The first `n` paths of `ps` can all be classified.
pub open spec fn all_classifiable(ps: Seq<Seq<char>>, n: int) -> bool {
    forall|i: int| 0 <= i < n ==> (#[trigger] file_name(ps[i])) is Some
}

impl Classification {
    /// Computes [`link_kind`].
    pub fn link_kind(&self) -> (kind: LinkKind)
        ensures
            kind == link_kind(self@),
    {
        if self.is_framework {
            LinkKind::Framework
        } else if self.is_static {
            LinkKind::Static
        } else {
            LinkKind::Dylib
        }
    }

    /// Decides [`needs_search_path`].
    pub fn needs_search_path(&self) -> (b: bool)
        ensures
            b == needs_search_path(self@),
    {
        !(self.is_system && !self.is_static && !self.is_framework)
    }

    /// Writes out [`directives`].
    pub fn directives(&self) -> (text: String)
        ensures
            text@ == directives(self@),
    {
        let mut text = String::new();
        if self.needs_search_path() {
            text.append("cargo:rustc-link-search=native=");
            text.append(self.directory.as_str());
            text.append("\n");
        }
        let ghost search = text@;
        text.append("cargo:rustc-link-lib=");
        text.append(self.link_kind().as_str());
        text.append("=");
        text.append(self.link_name.as_str());
        text.append("\n");
        assert(text@ =~= search + link_line(link_kind(self@), self@.link_name));
        assert(search =~= if needs_search_path(self@) {
            search_line(self@.directory)
        } else {
            Seq::empty()
        });
        text
    }
}

/// The place in the list of the path that could not be classified.
#[derive(Debug, Clone, Copy, PartialEq, Eq)]
pub struct EmitError {
    /// How many paths of the list come before it.
    pub token_index: usize,
}

/// `output` got the directives for the paths of `input`, up to the first
/// one that cannot be classified, and `r` tells whether there was such a
/// path, and which.
pub open spec fn is_emitted(
    input: Seq<char>,
    root: Seq<char>,
    before: Seq<u8>,
    after: Seq<u8>,
    r: Result<(), EmitError>,
) -> bool {
    let ps = tokens(input);
    match r {
        Ok(_) => {
            &&& all_classifiable(ps, ps.len() as int)
            &&& after == before + encode_utf8(list_directives(ps, root))
        },
        Err(e) => {
            &&& e.token_index < ps.len()
            &&& all_classifiable(ps, e.token_index as int)
            &&& file_name(ps[e.token_index as int]) is None
            &&& after == before + encode_utf8(
                list_directives(ps.take(e.token_index as int), root),
            )
        },
    }
}

/// Appends to `output` the directives for the paths of `input`, with
/// `system_root` as the system library root. Stops at the first path that
/// cannot be classified.
pub fn read_cmake_generated_with_system_root(
    input: &str,
    system_root: &str,
    output: &mut Vec<u8>,
) -> (r: Result<(), EmitError>)
    ensures
        is_emitted(input@, system_root@, old(output)@, final(output)@, r),
{
    let chars = chars_of(input);
    let root = chars_of(system_root);
    let ghost ps = tokens(input@);
    let ghost mut done: Seq<Seq<char>> = Seq::empty();
    let mut from: usize = 0;
    let mut index: usize = 0;
    assert(encode_utf8(list_directives(done, root@)) =~= Seq::<u8>::empty());
    assert(output@ =~= old(output)@ + encode_utf8(list_directives(done, root@)));
    loop
        invariant
            chars@ == input@,
            root@ == system_root@,
            ps == tokens(input@),
            from <= chars.len(),
            index == done.len(),
            index <= from,
            ps == done + tokens_from(chars@, from as int),
            all_classifiable(done, done.len() as int),
            output@ == old(output)@ + encode_utf8(list_directives(done, root@)),
        decreases chars.len() - from,
    {
        let (b, e, next) = match next_token(chars.as_slice(), from) {
            Some(found) => found,
            None => {
                assert(ps =~= done);
                return Ok(());
            },
        };
        let token = input.substring_char(b, e);
        let ghost rest = tokens_from(chars@, next as int);
        assert(ps =~= done + seq![token@] + rest);
        assert(ps.take(index as int) =~= done);
        assert(ps[index as int] == token@);
        let token_chars = slice_subrange(chars.as_slice(), b, e);
        match classify_chars(token, token_chars, root.as_slice()) {
            Err(_) => {
                return Err(EmitError { token_index: index });
            },
            Ok(c) => {
                let text = c.directives();
                append_text(output, text.as_str());
                proof {
                    let longer = done.push(token@);
                    assert(longer.drop_last() =~= done);
                    lemma_encode_utf8_concat(list_directives(done, root@), text@);
                    assert(output@ =~= old(output)@ + encode_utf8(
                        list_directives(longer, root@),
                    ));
                    assert(ps =~= longer + rest);
                    done = longer;
                }
            },
        }
        from = next;
        index += 1;
    }
}

/// Appends to `output` the directives for the paths of `input`, with
/// [`DEFAULT_SYSTEM_ROOT`] as the system library root. Stops at the first
/// path that cannot be classified.
pub fn read_cmake_generated_to_output(input: &str, output: &mut Vec<u8>) -> (r: Result<
    (),
    EmitError,
>)
    ensures
        is_emitted(input@, DEFAULT_SYSTEM_ROOT@, old(output)@, final(output)@, r),
{
    read_cmake_generated_with_system_root(input, DEFAULT_SYSTEM_ROOT, output)
}

} // verus!
