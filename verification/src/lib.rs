//! Core of a local package manager: several independently versioned source
//! packages are wired together during development by rewriting manifest
//! dependency entries to local version descriptors and rebuilding dependents
//! in dependency-first order.
//!
//! The library holds the decision logic: manifests as in-memory documents,
//! the dependency graph with its ordered traversal, and the orchestration
//! that rewrites and rebuilds.  Everything it decides is returned as a list
//! of [`Effect`] values; a thin runner performs the file writes, builds and
//! copies in that order, stopping at the first failure (there is no
//! rollback, by design).
use vstd::prelude::*;

pub mod cache;
pub mod graph;
pub mod json;
pub mod manifest;
pub mod package;
pub mod package_manager;
pub mod registry;
pub mod state;
pub mod util;

verus! {

/// Failure taxonomy.  Every operation fails fast: the first error aborts
/// the whole multi-package operation and nothing is rolled back.
#[derive(Debug)]
pub enum LpmError {
    /// A missing or malformed manifest, fatal at construction.
    Configuration(String),
    /// A read, write or spawn failure.
    Io(String),
    /// A cycle, or a query against an unregistered path.
    Graph(String),
    /// A non-zero result from the build backend.
    Build(String),
    /// A registry-lookup failure or an unparsable response.
    Network(String),
}

impl LpmError {
    /// The human-readable text carried by the error.
    pub fn message(&self) -> (m: &String)
        ensures
            m == self.message_spec(),
    {
        match self {
            LpmError::Configuration(m) => m,
            LpmError::Io(m) => m,
            LpmError::Graph(m) => m,
            LpmError::Build(m) => m,
            LpmError::Network(m) => m,
        }
    }

    pub open spec fn message_spec(&self) -> &String {
        match self {
            LpmError::Configuration(m) => m,
            LpmError::Io(m) => m,
            LpmError::Graph(m) => m,
            LpmError::Build(m) => m,
            LpmError::Network(m) => m,
        }
    }
}

/// Mathematical form of an [`Effect`].
pub enum EffectData {
    /// Overwrite the manifest at `path` with `text`.
    WriteManifest { path: Seq<char>, text: Seq<char> },
    /// Run the build backend (install + build) against a package root.
    Build { path: Seq<char> },
    /// Produce the distributable archive of the package rooted at
    /// `package_path` and store it at `tarball_file`.
    MakeArchive { package_path: Seq<char>, tarball_file: Seq<char> },
    /// Copy a produced archive from the staging root into a consumer's tree.
    CopyArchive { from: Seq<char>, to: Seq<char> },
}

/// One outward-facing step decided by the library.  The runner performs
/// effects strictly in list order and aborts on the first failure.
#[derive(Debug, PartialEq, Eq, Clone)]
pub enum Effect {
    /// Overwrite the manifest at `path` with `text`.
    WriteManifest { path: String, text: String },
    /// Run the build backend (install + build) against a package root.
    Build { path: String },
    /// Produce the distributable archive of the package rooted at
    /// `package_path` and store it at `tarball_file`.
    MakeArchive { package_path: String, tarball_file: String },
    /// Copy a produced archive from the staging root into a consumer's tree.
    CopyArchive { from: String, to: String },
}

impl View for Effect {
    type V = EffectData;

    open spec fn view(&self) -> EffectData {
        match self {
            Effect::WriteManifest { path, text } => EffectData::WriteManifest {
                path: path@,
                text: text@,
            },
            Effect::Build { path } => EffectData::Build { path: path@ },
            Effect::MakeArchive { package_path, tarball_file } => EffectData::MakeArchive {
                package_path: package_path@,
                tarball_file: tarball_file@,
            },
            Effect::CopyArchive { from, to } => EffectData::CopyArchive {
                from: from@,
                to: to@,
            },
        }
    }
}

impl DeepView for Effect {
    type V = EffectData;

    open spec fn deep_view(&self) -> EffectData {
        self.view()
    }
}

} // verus!
