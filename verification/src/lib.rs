//! The transaction logic of a small package manager: where the entries of a
//! package archive are installed, which files a package owns, and what is
//! deleted when the package is removed.
//!
//! A package is a `.tar.gz` archive. Its entries under `bin`, `etc`,
//! `include`, `lib` and `share` are installed under the install root, and the
//! paths of the files are recorded in the package's manifest. A removal
//! deletes the files that the manifest lists and the directories above them
//! that are left empty, but never a directory with the name of a category.
//!
//! The library touches no file. The [`install::Installer`] and the
//! [`remove::Remover`] name what is to be done, one request at a time, and
//! the caller does it and answers how it went. Paths are byte strings with
//! `/` between their components, as on Unix. The module [`model`] holds what
//! is proved of an install and a removal against a filesystem that answers
//! as a tree of files and directories does.

pub mod bytes;
pub mod text;
pub mod path;
pub mod category;
pub mod absolute;
pub mod mapper;
pub mod error;
pub mod package;
pub mod plan;
pub mod install;
pub mod manifest;
pub mod remove;
pub mod model;
pub mod config;
pub mod layout;
pub mod prompt;
