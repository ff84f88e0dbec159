//! Plain manifest data: the identity of the package being updated and its
//! declared dependencies.
//!
//! Reading and parsing the manifest file is an external collaborator's job;
//! the protocol only consumes the name/version/dependency values collected
//! here. A dependency whose version requirement did not resolve to a concrete
//! version arrives with `version == None` and takes part in no graph edge.

use vstd::prelude::*;
use vstd::string::*;

verus! {

/// One declared dependency of a package.
pub struct Dependency {
    pub name: String,
    pub version: Option<String>,
}

/// The mathematical value of a declared dependency.
pub ghost struct DepV {
    pub name: Seq<char>,
    pub version: Option<Seq<char>>,
}

impl View for Dependency {
    type V = DepV;

    open spec fn view(&self) -> DepV {
        DepV {
            name: self.name@,
            version: match self.version {
                Some(v) => Some(v@),
                None => None,
            },
        }
    }
}

/// The identity and declared dependencies of one package, as read from its
/// manifest.
pub struct CrateHelper {
    pub name: String,
    pub version: String,
    pub dependencies: Vec<Dependency>,
}

impl CrateHelper {
    /// The views of the declared dependencies, in declaration order.
    pub open spec fn deps_spec(&self) -> Seq<DepV> {
        Seq::new(self.dependencies@.len(), |i: int| self.dependencies@[i]@)
    }

    pub fn name(&self) -> (r: String)
        ensures
            r == self.name,
    {
        self.name.clone()
    }

    pub fn version(&self) -> (r: String)
        ensures
            r == self.version,
    {
        self.version.clone()
    }
}

} // verus!
