//! The metadata a registry keeps for each published version of a package
//! (one `packages/{name}/{version}.toml` file per version).

use vstd::prelude::*;
use crate::depmap::DependencyMap;
use crate::text::{clone_texts, opt_view, owned, owned_opt, views};

verus! {

/// What the registry records of one version of a package.
pub struct RegistryPackageMetadata {
    pub name: String,
    pub version: String,
    pub description: Option<String>,
    /// The git repository the package is fetched from.
    pub repository: String,
    pub license: Option<String>,
    pub authors: Vec<String>,
    pub dependencies: DependencyMap,
    /// Path of the README in the repository.
    pub readme: Option<String>,
}

impl RegistryPackageMetadata {
    /// Metadata for a package about to be published: the given fields, no README.
    pub fn from_manifest(
        name: &str,
        version: &str,
        description: Option<&str>,
        repository: &str,
        license: Option<&str>,
        authors: &Vec<String>,
        dependencies: &DependencyMap,
    ) -> (r: RegistryPackageMetadata)
        ensures
            r.name@ == name@,
            r.version@ == version@,
            r.description is Some == description is Some,
            r.description matches Some(d) ==> d@ == description.unwrap()@,
            r.repository@ == repository@,
            r.license is Some == license is Some,
            r.license matches Some(l) ==> l@ == license.unwrap()@,
            views(r.authors@) == views(authors@),
            r.dependencies.pairs() == dependencies.pairs(),
            opt_view(r.readme) == None::<Seq<char>>,
    {
        RegistryPackageMetadata {
            name: owned(name),
            version: owned(version),
            description: owned_opt(description),
            repository: owned(repository),
            license: owned_opt(license),
            authors: clone_texts(authors),
            dependencies: dependencies.clone(),
            readme: None,
        }
    }
}

} // verus!
