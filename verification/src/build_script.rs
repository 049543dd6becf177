//! The targets of the early build script: a target names its dependencies
//! on the same platform.

use vstd::prelude::*;
use vstd::string::*;

verus! {

/// A target to build: a name on a platform.
#[derive(Debug)]
pub struct Buildable {
    pub platform: String,
    pub name: String,
}

/// A build target and where its output goes.
#[derive(Debug)]
pub struct Target {
    pub output: String,
    pub buildable: Buildable,
}

/// A target that `parent` depends on.
#[derive(Debug)]
pub struct Dependency<'a> {
    parent: &'a Target,
    buildable: Buildable,
    built: bool,
}

impl Target {
    /// A dependency on the target `name` for this target's platform.
    pub fn dependency(&self, name: &str) -> (r: Dependency<'_>)
        ensures
            r.parent() == self,
            r.platform() == self.buildable.platform@,
            r.name() == name@,
            !r.is_built(),
    {
        Dependency::new(self, Buildable { platform: self.buildable.platform.clone(), name: name.to_owned() })
    }
}

impl<'a> Dependency<'a> {
    /// The target that depends on this one.
    pub closed spec fn parent(&self) -> &'a Target {
        self.parent
    }

    /// The platform of the target.
    pub closed spec fn platform(&self) -> Seq<char> {
        self.buildable.platform@
    }

    /// The name of the target.
    pub closed spec fn name(&self) -> Seq<char> {
        self.buildable.name@
    }

    /// Whether the target has been built.
    pub closed spec fn is_built(&self) -> bool {
        self.built
    }

    /// A dependency of `parent` on `buildable`, not yet built.
    pub fn new(parent: &'a Target, buildable: Buildable) -> (r: Self)
        ensures
            r.parent() == parent,
            r.platform() == buildable.platform@,
            r.name() == buildable.name@,
            !r.is_built(),
    {
        Dependency { parent, buildable, built: false }
    }
}

} // verus!
