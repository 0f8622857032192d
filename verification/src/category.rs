//! The five top-level directories that a package may install into.

use crate::bytes::same_bytes;
use crate::path::{DOT, SEP};
use crate::text::{ascii, ascii_bytes};
use vstd::prelude::*;
use vstd::string::*;

verus! {

/// A top-level directory of the install tree.
#[derive(Clone, Copy, Debug, PartialEq, Eq, Structural)]
pub enum Category {
    Bin,
    Etc,
    Include,
    Lib,
    Share,
}

impl Category {
    /// The directory name of the category: `bin`, `etc`, `include`, `lib`
    /// or `share`.
    pub open spec fn name_bytes(self) -> Seq<u8> {
        match self {
            Category::Bin => ascii("bin"@),
            Category::Etc => ascii("etc"@),
            Category::Include => ascii("include"@),
            Category::Lib => ascii("lib"@),
            Category::Share => ascii("share"@),
        }
    }

    /// The directory name of the category.
    pub fn name(self) -> (r: &'static [u8])
        ensures
            r@ == self.name_bytes(),
    {
        proof {
            reveal_names();
        }
        match self {
            Category::Bin => ascii_bytes("bin"),
            Category::Etc => ascii_bytes("etc"),
            Category::Include => ascii_bytes("include"),
            Category::Lib => ascii_bytes("lib"),
            Category::Share => ascii_bytes("share"),
        }
    }

    /// The category with the given directory name, if there is one.
    pub fn from_name(name: &[u8]) -> (r: Option<Category>)
        ensures
            r == category_named(name@),
    {
        if same_bytes(name, Category::Bin.name()) {
            Some(Category::Bin)
        } else if same_bytes(name, Category::Etc.name()) {
            Some(Category::Etc)
        } else if same_bytes(name, Category::Include.name()) {
            Some(Category::Include)
        } else if same_bytes(name, Category::Lib.name()) {
            Some(Category::Lib)
        } else if same_bytes(name, Category::Share.name()) {
            Some(Category::Share)
        } else {
            None
        }
    }
}

/// The five names, letter by letter.
proof fn reveal_names()
    ensures
        "bin"@ == seq!['b', 'i', 'n'],
        "etc"@ == seq!['e', 't', 'c'],
        "include"@ == seq!['i', 'n', 'c', 'l', 'u', 'd', 'e'],
        "lib"@ == seq!['l', 'i', 'b'],
        "share"@ == seq!['s', 'h', 'a', 'r', 'e'],
        is_ascii("bin"),
        is_ascii("etc"),
        is_ascii("include"),
        is_ascii("lib"),
        is_ascii("share"),
{
    reveal_strlit("bin");
    reveal_strlit("etc");
    reveal_strlit("include");
    reveal_strlit("lib");
    reveal_strlit("share");
    assert("bin"@ =~= seq!['b', 'i', 'n']);
    assert("etc"@ =~= seq!['e', 't', 'c']);
    assert("include"@ =~= seq!['i', 'n', 'c', 'l', 'u', 'd', 'e']);
    assert("lib"@ =~= seq!['l', 'i', 'b']);
    assert("share"@ =~= seq!['s', 'h', 'a', 'r', 'e']);
}

/// The category whose directory name is `name`; `None` for every other name.
pub open spec fn category_named(name: Seq<u8>) -> Option<Category> {
    if name == Category::Bin.name_bytes() {
        Some(Category::Bin)
    } else if name == Category::Etc.name_bytes() {
        Some(Category::Etc)
    } else if name == Category::Include.name_bytes() {
        Some(Category::Include)
    } else if name == Category::Lib.name_bytes() {
        Some(Category::Lib)
    } else if name == Category::Share.name_bytes() {
        Some(Category::Share)
    } else {
        None
    }
}

/// Whether `name` is the directory name of a category.
pub open spec fn is_category_name(name: Seq<u8>) -> bool {
    category_named(name) is Some
}

/// A name is a category's exactly when it is the name of the category found for it.
pub proof fn lemma_category_named(name: Seq<u8>)
    ensures
        forall|c: Category| category_named(name) == Some(c) <==> name == c.name_bytes(),
{
    assert forall|c: Category| category_named(name) == Some(c) <==> name == c.name_bytes() by {
        lemma_names_distinct();
    }
}

/// The name of a category is not empty and holds no separator and no dot.
pub proof fn lemma_name_is_plain(c: Category)
    ensures
        c.name_bytes().len() > 0,
        forall|k: int|
            0 <= k < c.name_bytes().len() ==> c.name_bytes()[k] != SEP && c.name_bytes()[k] != DOT,
{
    reveal_names();
}

/// No two categories share a directory name.
pub proof fn lemma_names_distinct()
    ensures
        forall|a: Category, b: Category| a.name_bytes() == b.name_bytes() ==> a == b,
{
    reveal_names();
    assert forall|a: Category, b: Category| a.name_bytes() == b.name_bytes() implies a == b by {
        if a != b {
            assert(a.name_bytes().len() != b.name_bytes().len() || a.name_bytes()[0]
                != b.name_bytes()[0] || a.name_bytes()[1] != b.name_bytes()[1]);
        }
    }
}

} // verus!
