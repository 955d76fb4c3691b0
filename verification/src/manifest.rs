//! The project manifest (`pain.toml`): name, version, metadata and the two
//! dependency tables.

use vstd::prelude::*;
use crate::depmap::DependencyMap;
use crate::error::PkgError;
use crate::text::{owned, views, opt_view};
use crate::version::{Semver, semver_parse};

verus! {

/// The contents of a project manifest.
pub struct Manifest {
    pub name: String,
    pub version: String,
    pub description: Option<String>,
    pub authors: Vec<String>,
    pub license: Option<String>,
    pub dependencies: DependencyMap,
    pub dev_dependencies: DependencyMap,
}

/// The version a new project starts at.
pub open spec fn initial_version() -> Seq<char> {
    seq!['0', '.', '1', '.', '0']
}

/// The author a new project names.
pub open spec fn default_author() -> Seq<char> {
    seq!['P', 'a', 'i', 'n', ' ', 'T', 'e', 'a', 'm']
}

/// The license a new project names.
pub open spec fn default_license() -> Seq<char> {
    seq![
        'M', 'I', 'T', ' ', 'O', 'R', ' ', 'A', 'p', 'a', 'c', 'h', 'e', '-', '2', '.', '0',
    ]
}

impl Manifest {
    /// Both dependency tables name each package at most once.
    pub open spec fn wf(&self) -> bool {
        self.dependencies.wf() && self.dev_dependencies.wf()
    }

    /// A manifest for a new project: version `0.1.0`, author `Pain Team`,
    /// license `MIT OR Apache-2.0`, no description and no dependencies.
    pub fn new(name: &str) -> (r: Manifest)
        ensures
            r.wf(),
            r.name@ == name@,
            r.version@ == initial_version(),
            opt_view(r.description) == None::<Seq<char>>,
            views(r.authors@) == seq![default_author()],
            opt_view(r.license) == Some(default_license()),
            r.dependencies@ == Map::<Seq<char>, Seq<char>>::empty(),
            r.dev_dependencies@ == Map::<Seq<char>, Seq<char>>::empty(),
            r.dependencies.pairs().len() == 0,
            r.dev_dependencies.pairs().len() == 0,
    {
        let version = owned("0.1.0");
        let author = owned("Pain Team");
        let license = owned("MIT OR Apache-2.0");
        proof {
            reveal_strlit("0.1.0");
            reveal_strlit("Pain Team");
            reveal_strlit("MIT OR Apache-2.0");
        }
        assert(author@ =~= default_author());
        let mut authors: Vec<String> = Vec::new();
        authors.push(author);
        let r = Manifest {
            name: owned(name),
            version,
            description: None,
            authors,
            license: Some(license),
            dependencies: DependencyMap::new(),
            dev_dependencies: DependencyMap::new(),
        };
        assert(views(r.authors@) =~= seq![default_author()]);
        assert(r.version@ =~= initial_version());
        assert(opt_view(r.license) =~= Some(default_license()));
        r
    }

    /// Adds `name` with requirement `version` to the dependencies; fails,
    /// changing nothing, when the dependencies already name it.
    pub fn add_dependency(&mut self, name: &str, version: &str) -> (r: Result<(), PkgError>)
        requires
            old(self).wf(),
        ensures
            final(self).wf(),
            r is Ok <==> !old(self).dependencies@.contains_key(name@),
            r matches Err(e) ==> (e matches PkgError::DependencyExists(n) && n@ == name@),
            r is Ok ==> final(self).dependencies@ == old(self).dependencies@.insert(name@, version@),
            r is Ok ==> final(self).dependencies.pairs() == old(self).dependencies.pairs().push(
                (name@, version@),
            ),
            r is Err ==> final(self).dependencies@ == old(self).dependencies@,
            final(self).dev_dependencies == old(self).dev_dependencies,
            final(self).name == old(self).name,
            final(self).version == old(self).version,
            final(self).description == old(self).description,
            final(self).authors == old(self).authors,
            final(self).license == old(self).license,
    {
        if self.dependencies.contains_key(name) {
            return Err(PkgError::DependencyExists(owned(name)));
        }
        self.dependencies.push_new(name, version);
        Ok(())
    }

    /// Adds `name` with requirement `version` to the dev dependencies; fails,
    /// changing nothing, when the dev dependencies already name it.
    pub fn add_dev_dependency(&mut self, name: &str, version: &str) -> (r: Result<(), PkgError>)
        requires
            old(self).wf(),
        ensures
            final(self).wf(),
            r is Ok <==> !old(self).dev_dependencies@.contains_key(name@),
            r matches Err(e) ==> (e matches PkgError::DevDependencyExists(n) && n@ == name@),
            r is Ok ==> final(self).dev_dependencies@ == old(self).dev_dependencies@.insert(
                name@,
                version@,
            ),
            r is Ok ==> final(self).dev_dependencies.pairs() == old(
                self,
            ).dev_dependencies.pairs().push((name@, version@)),
            r is Err ==> final(self).dev_dependencies@ == old(self).dev_dependencies@,
            final(self).dependencies == old(self).dependencies,
            final(self).name == old(self).name,
            final(self).version == old(self).version,
            final(self).description == old(self).description,
            final(self).authors == old(self).authors,
            final(self).license == old(self).license,
    {
        if self.dev_dependencies.contains_key(name) {
            return Err(PkgError::DevDependencyExists(owned(name)));
        }
        self.dev_dependencies.push_new(name, version);
        Ok(())
    }

    /// Removes `name` from the dependencies if they name it, else from the
    /// dev dependencies; fails when neither names it.
    pub fn remove_dependency(&mut self, name: &str) -> (r: Result<(), PkgError>)
        requires
            old(self).wf(),
        ensures
            final(self).wf(),
            r is Ok <==> (old(self).dependencies@.contains_key(name@)
                || old(self).dev_dependencies@.contains_key(name@)),
            r matches Err(e) ==> (e matches PkgError::DependencyNotFound(n) && n@ == name@),
            final(self).dependencies@ == old(self).dependencies@.remove(name@),
            old(self).dependencies@.contains_key(name@) ==> final(self).dev_dependencies@ == old(
                self,
            ).dev_dependencies@,
            !old(self).dependencies@.contains_key(name@) ==> final(self).dev_dependencies@ == old(
                self,
            ).dev_dependencies@.remove(name@),
            final(self).name == old(self).name,
            final(self).version == old(self).version,
            final(self).description == old(self).description,
            final(self).authors == old(self).authors,
            final(self).license == old(self).license,
    {
        if self.dependencies.remove(name).is_none() && self.dev_dependencies.remove(name).is_none() {
            return Err(PkgError::DependencyNotFound(owned(name)));
        }
        Ok(())
    }

    /// Checks that the name and version are not empty and that the version is
    /// a semantic version.
    pub fn validate(&self) -> (r: Result<(), PkgError>)
        ensures
            r is Ok <==> (self.name@.len() > 0 && self.version@.len() > 0 && semver_parse(
                self.version@,
            ) is Some),
            self.name@.len() == 0 ==> r matches Err(PkgError::EmptyName),
            self.name@.len() > 0 && self.version@.len() == 0 ==> r matches Err(
                PkgError::EmptyVersion,
            ),
            self.name@.len() > 0 && self.version@.len() > 0 && semver_parse(self.version@) is None
                ==> (r matches Err(PkgError::InvalidVersion(t, _)) && t@ == self.version@),
    {
        if self.name.as_str().unicode_len() == 0 {
            return Err(PkgError::EmptyName);
        }
        if self.version.as_str().unicode_len() == 0 {
            return Err(PkgError::EmptyVersion);
        }
        match Semver::parse(self.version.as_str()) {
            Ok(_) => Ok(()),
            Err(e) => Err(PkgError::InvalidVersion(self.version.clone(), e)),
        }
    }
}

/// `my-project`
pub open spec fn default_project_name() -> Seq<char> {
    seq!['m', 'y', '-', 'p', 'r', 'o', 'j', 'e', 'c', 't']
}

/// `*`
pub open spec fn any_version() -> Seq<char> {
    seq!['*']
}

/// The name of a new project: the one given, else the name of its
/// directory, else `my-project`.
pub fn project_name(name: Option<String>, dir_name: Option<&str>) -> (r: String)
    ensures
        r@ == match name {
            Some(n) => n@,
            None => match dir_name {
                Some(d) => d@,
                None => default_project_name(),
            },
        },
{
    match name {
        Some(n) => n,
        None => match dir_name {
            Some(d) => owned(d),
            None => {
                proof {
                    reveal_strlit("my-project");
                }
                let r = owned("my-project");
                assert(r@ =~= default_project_name());
                r
            },
        },
    }
}

impl Manifest {
    /// Adds a dependency as the `add` command asks: the requirement is the
    /// version given, or `*`; it goes to the dev dependencies when `dev`,
    /// else to the dependencies. Gives back the requirement added.
    pub fn add_requested(&mut self, package: &str, version: Option<&str>, dev: bool) -> (r: Result<
        String,
        PkgError,
    >)
        requires
            old(self).wf(),
        ensures
            final(self).wf(),
            ({
                let req = match version {
                    Some(v) => v@,
                    None => any_version(),
                };
                if dev {
                    &&& r is Ok <==> !old(self).dev_dependencies@.contains_key(package@)
                    &&& r matches Ok(t) ==> t@ == req && final(self).dev_dependencies@ == old(
                        self,
                    ).dev_dependencies@.insert(package@, req)
                    &&& r matches Err(e) ==> (e matches PkgError::DevDependencyExists(n) && n@
                        == package@)
                    &&& final(self).dependencies == old(self).dependencies
                } else {
                    &&& r is Ok <==> !old(self).dependencies@.contains_key(package@)
                    &&& r matches Ok(t) ==> t@ == req && final(self).dependencies@ == old(
                        self,
                    ).dependencies@.insert(package@, req)
                    &&& r matches Err(e) ==> (e matches PkgError::DependencyExists(n) && n@
                        == package@)
                    &&& final(self).dev_dependencies == old(self).dev_dependencies
                }
            }),
            final(self).name == old(self).name,
            final(self).version == old(self).version,
            final(self).description == old(self).description,
            final(self).authors == old(self).authors,
            final(self).license == old(self).license,
            r is Err ==> final(self).dependencies@ == old(self).dependencies@
                && final(self).dev_dependencies@ == old(self).dev_dependencies@,
    {
        proof {
            reveal_strlit("*");
        }
        let constraint = match version {
            Some(v) => owned(v),
            None => owned("*"),
        };
        assert(constraint@ =~= match version {
            Some(v) => v@,
            None => any_version(),
        });
        let added = if dev {
            self.add_dev_dependency(package, constraint.as_str())
        } else {
            self.add_dependency(package, constraint.as_str())
        };
        match added {
            Ok(()) => Ok(constraint),
            Err(e) => Err(e),
        }
    }
}

/// Removing a dependency right after adding it gives back the manifest's
/// dependency tables as they were before the addition.
pub proof fn lemma_remove_undoes_add(
    before: Manifest,
    added: Manifest,
    removed: Manifest,
    name: Seq<char>,
    version: Seq<char>,
)
    requires
        !before.dependencies@.contains_key(name),
        added.dependencies@ == before.dependencies@.insert(name, version),
        added.dev_dependencies == before.dev_dependencies,
        added.dependencies@.contains_key(name),
        removed.dependencies@ == added.dependencies@.remove(name),
        removed.dev_dependencies@ == added.dev_dependencies@,
    ensures
        removed.dependencies@ == before.dependencies@,
        removed.dev_dependencies@ == before.dev_dependencies@,
{
    assert(removed.dependencies@ =~= before.dependencies@);
}

} // verus!
