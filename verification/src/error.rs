//! The ways in which an install or a removal fails.

use crate::bytes::copy_range;
use vstd::prelude::*;

verus! {

/// Why an install stopped.
#[derive(Debug, PartialEq, Eq)]
pub enum InstallError {
    /// The archive could not be opened or read.
    ArchiveOpenError,
    /// The archive is not a readable gzip-compressed tar stream.
    ArchiveFormatError,
    /// The archive's file name does not end in `.tar.gz`.
    InvalidArchiveName,
    /// A manifest of this package exists already.
    AlreadyInstalled,
    /// The directory that holds the manifests could not be created.
    ManifestDirCreateError,
    /// The manifest could not be created.
    ManifestCreateError,
    /// This directory could not be created.
    DirectoryCreateError(Vec<u8>),
    /// The file could not be written to this path.
    ExtractError(Vec<u8>),
}

/// An [`InstallError`] over byte sequences.
pub enum InstallErrorView {
    ArchiveOpenError,
    ArchiveFormatError,
    InvalidArchiveName,
    AlreadyInstalled,
    ManifestDirCreateError,
    ManifestCreateError,
    DirectoryCreateError(Seq<u8>),
    ExtractError(Seq<u8>),
}

impl View for InstallError {
    type V = InstallErrorView;

    open spec fn view(&self) -> InstallErrorView {
        match self {
            InstallError::ArchiveOpenError => InstallErrorView::ArchiveOpenError,
            InstallError::ArchiveFormatError => InstallErrorView::ArchiveFormatError,
            InstallError::InvalidArchiveName => InstallErrorView::InvalidArchiveName,
            InstallError::AlreadyInstalled => InstallErrorView::AlreadyInstalled,
            InstallError::ManifestDirCreateError => InstallErrorView::ManifestDirCreateError,
            InstallError::ManifestCreateError => InstallErrorView::ManifestCreateError,
            InstallError::DirectoryCreateError(p) => InstallErrorView::DirectoryCreateError(p@),
            InstallError::ExtractError(p) => InstallErrorView::ExtractError(p@),
        }
    }
}

impl InstallError {
    /// A copy of the error.
    pub fn duplicate(&self) -> (r: InstallError)
        ensures
            r@ == self@,
    {
        match self {
            InstallError::ArchiveOpenError => InstallError::ArchiveOpenError,
            InstallError::ArchiveFormatError => InstallError::ArchiveFormatError,
            InstallError::InvalidArchiveName => InstallError::InvalidArchiveName,
            InstallError::AlreadyInstalled => InstallError::AlreadyInstalled,
            InstallError::ManifestDirCreateError => InstallError::ManifestDirCreateError,
            InstallError::ManifestCreateError => InstallError::ManifestCreateError,
            InstallError::DirectoryCreateError(p) => {
                let q = copy_range(p.as_slice(), 0, p.len());
                assert(q@ =~= p@);
                InstallError::DirectoryCreateError(q)
            },
            InstallError::ExtractError(p) => {
                let q = copy_range(p.as_slice(), 0, p.len());
                assert(q@ =~= p@);
                InstallError::ExtractError(q)
            },
        }
    }
}

/// How an install ended, over byte sequences.
pub open spec fn install_outcome(r: Result<(), InstallError>) -> Result<(), InstallErrorView> {
    match r {
        Ok(_) => Ok(()),
        Err(e) => Err(e@),
    }
}

/// Why a removal stopped.
#[derive(Debug, PartialEq, Eq)]
pub enum RemoveError {
    /// The package has no manifest.
    NotInstalled,
    /// The file or directory at this path could not be deleted.
    FileDeleteError(Vec<u8>),
    /// The manifest could not be deleted.
    ManifestDeleteError,
}

/// A [`RemoveError`] over byte sequences.
pub enum RemoveErrorView {
    NotInstalled,
    FileDeleteError(Seq<u8>),
    ManifestDeleteError,
}

impl View for RemoveError {
    type V = RemoveErrorView;

    open spec fn view(&self) -> RemoveErrorView {
        match self {
            RemoveError::NotInstalled => RemoveErrorView::NotInstalled,
            RemoveError::FileDeleteError(p) => RemoveErrorView::FileDeleteError(p@),
            RemoveError::ManifestDeleteError => RemoveErrorView::ManifestDeleteError,
        }
    }
}

impl RemoveError {
    /// A copy of the error.
    pub fn duplicate(&self) -> (r: RemoveError)
        ensures
            r@ == self@,
    {
        match self {
            RemoveError::NotInstalled => RemoveError::NotInstalled,
            RemoveError::FileDeleteError(p) => {
                let q = copy_range(p.as_slice(), 0, p.len());
                assert(q@ =~= p@);
                RemoveError::FileDeleteError(q)
            },
            RemoveError::ManifestDeleteError => RemoveError::ManifestDeleteError,
        }
    }
}

/// How a removal ended, over byte sequences.
pub open spec fn remove_outcome(r: Result<(), RemoveError>) -> Result<(), RemoveErrorView> {
    match r {
        Ok(_) => Ok(()),
        Err(e) => Err(e@),
    }
}

} // verus!
