//! Packages: a manifest's contents with a parsed version, where the package
//! comes from and where it lies.

use vstd::prelude::*;
use crate::depmap::DependencyMap;
use crate::error::PkgError;
use crate::manifest::Manifest;
use crate::text::{clone_opt, clone_texts, opt_view, owned, views};
use crate::version::{Semver, VersionModel, semver_parse};

verus! {

/// Where a package comes from.
pub enum PackageSource {
    /// A local directory.
    Local(String),
    /// A path given as a `file://` source.
    File(String),
    /// A registry, by name.
    Registry(String),
    /// A git repository, at a revision if one is given.
    Git { url: String, rev: Option<String> },
}

/// The plain model of a package source.
pub enum SourceModel {
    Local(Seq<char>),
    File(Seq<char>),
    Registry(Seq<char>),
    Git(Seq<char>, Option<Seq<char>>),
}

impl PackageSource {
    /// The plain model of this source.
    pub open spec fn model(&self) -> SourceModel {
        match self {
            PackageSource::Local(p) => SourceModel::Local(p@),
            PackageSource::File(p) => SourceModel::File(p@),
            PackageSource::Registry(r) => SourceModel::Registry(r@),
            PackageSource::Git { url, rev } => SourceModel::Git(url@, opt_view(*rev)),
        }
    }
}

impl Clone for PackageSource {
    fn clone(&self) -> (r: Self)
        ensures
            r.model() == self.model(),
    {
        match self {
            PackageSource::Local(p) => PackageSource::Local(p.clone()),
            PackageSource::File(p) => PackageSource::File(p.clone()),
            PackageSource::Registry(r) => PackageSource::Registry(r.clone()),
            PackageSource::Git { url, rev } => PackageSource::Git {
                url: url.clone(),
                rev: clone_opt(rev),
            },
        }
    }
}

/// A package: its manifest data with the version parsed, its source and its
/// directory.
pub struct Package {
    pub name: String,
    pub version: Semver,
    pub description: Option<String>,
    pub authors: Vec<String>,
    pub license: Option<String>,
    pub dependencies: DependencyMap,
    pub source: PackageSource,
    pub path: String,
}

/// The plain model of a package: name, version, description, authors,
/// license, dependency entries, source and path.
pub type PackageModel = (
    Seq<char>,
    VersionModel,
    Option<Seq<char>>,
    Seq<Seq<char>>,
    Option<Seq<char>>,
    Seq<(Seq<char>, Seq<char>)>,
    SourceModel,
    Seq<char>,
);

impl Package {
    /// The plain model of this package.
    pub open spec fn model(&self) -> PackageModel {
        (
            self.name@,
            self.version.model(),
            opt_view(self.description),
            views(self.authors@),
            opt_view(self.license),
            self.dependencies.pairs(),
            self.source.model(),
            self.path@,
        )
    }

    /// The dependency table names each package at most once.
    pub open spec fn wf(&self) -> bool {
        self.dependencies.wf()
    }

    /// Builds a package from a manifest; fails when the manifest's version is
    /// not a semantic version.
    pub fn from_manifest(manifest: &Manifest, source: PackageSource, path: String) -> (r: Result<
        Package,
        PkgError,
    >)
        requires
            manifest.wf(),
        ensures
            r is Ok <==> semver_parse(manifest.version@) is Some,
            r matches Err(e) ==> (e matches PkgError::InvalidVersion(t, _) && t@
                == manifest.version@),
            r matches Ok(p) ==> {
                &&& p.wf()
                &&& p.name@ == manifest.name@
                &&& semver_parse(manifest.version@) == Some(p.version.model())
                &&& opt_view(p.description) == opt_view(manifest.description)
                &&& views(p.authors@) == views(manifest.authors@)
                &&& opt_view(p.license) == opt_view(manifest.license)
                &&& p.dependencies.pairs() == manifest.dependencies.pairs()
                &&& p.source == source
                &&& p.path == path
            },
    {
        let version = match Semver::parse(manifest.version.as_str()) {
            Ok(v) => v,
            Err(e) => {
                return Err(PkgError::InvalidVersion(manifest.version.clone(), e));
            },
        };
        Ok(
            Package {
                name: manifest.name.clone(),
                version,
                description: clone_opt(&manifest.description),
                authors: clone_texts(&manifest.authors),
                license: clone_opt(&manifest.license),
                dependencies: manifest.dependencies.clone(),
                source,
                path,
            },
        )
    }
}

impl Clone for Package {
    fn clone(&self) -> (r: Self)
        ensures
            r.model() == self.model(),
    {
        Package {
            name: self.name.clone(),
            version: self.version.clone(),
            description: clone_opt(&self.description),
            authors: clone_texts(&self.authors),
            license: clone_opt(&self.license),
            dependencies: self.dependencies.clone(),
            source: self.source.clone(),
            path: self.path.clone(),
        }
    }
}

/// `pain`, the extension of source files.
pub open spec fn source_extension() -> Seq<char> {
    seq!['p', 'a', 'i', 'n']
}

/// Whether a directory entry is a source file of a package: a file whose
/// extension is `pain`.
pub fn is_source_file(is_file: bool, extension: Option<&str>) -> (r: bool)
    ensures
        r == (is_file && extension is Some && extension.unwrap()@ == source_extension()),
{
    proof {
        reveal_strlit("pain");
    }
    assert("pain"@ =~= source_extension());
    if !is_file {
        return false;
    }
    match extension {
        Some(e) => {
            let mine = owned(e);
            let pain = owned("pain");
            mine == pain
        },
        None => false,
    }
}

} // verus!
