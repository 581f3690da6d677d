//! Build configuration for generating from schema files.
//!
//! The configuration only collects paths and options; reading the schema
//! files and writing the generated output belong to the surrounding
//! driver.

use vstd::prelude::*;

verus! {

/// What a generation run needs: the schema source paths, the destination
/// path, and optionally the name of an existing resolved-data type to
/// reference instead of generating one.
#[derive(Debug)]
pub struct Configuration {
    srcs: Vec<String>,
    dst: String,
    resolved: Option<String>,
}

impl Configuration {
    /// The schema sources, as mathematics.
    pub closed spec fn spec_sources(&self) -> Seq<String> {
        self.srcs@
    }

    /// The destination path, as mathematics.
    pub closed spec fn spec_destination(&self) -> String {
        self.dst
    }

    /// The resolved-data type name, as mathematics.
    pub closed spec fn spec_resolved(&self) -> Option<String> {
        self.resolved
    }

    /// A configuration with one schema source and a destination path.
    pub fn with_paths(src: String, dst: String) -> (r: Configuration)
        ensures
            r.spec_sources() == seq![src],
            r.spec_destination() == dst,
            r.spec_resolved() is None,
    {
        let mut srcs: Vec<String> = Vec::new();
        let ghost s = src;
        srcs.push(src);
        proof {
            assert(srcs@ =~= seq![s]);
        }
        Configuration { srcs, dst, resolved: None }
    }

    /// Adds one more schema source.
    pub fn src(&mut self, src: String)
        ensures
            final(self).spec_sources() == old(self).spec_sources().push(src),
            final(self).spec_destination() == old(self).spec_destination(),
            final(self).spec_resolved() == old(self).spec_resolved(),
    {
        self.srcs.push(src);
    }

    /// Replaces the destination path.
    pub fn dest(&mut self, dst: String)
        ensures
            final(self).spec_destination() == dst,
            final(self).spec_sources() == old(self).spec_sources(),
            final(self).spec_resolved() == old(self).spec_resolved(),
    {
        self.dst = dst;
    }

    /// Names an existing resolved-data type.
    pub fn resolved_struct(&mut self, resolved: String)
        ensures
            final(self).spec_resolved() == Some(resolved),
            final(self).spec_sources() == old(self).spec_sources(),
            final(self).spec_destination() == old(self).spec_destination(),
    {
        self.resolved = Some(resolved);
    }

    /// The schema sources, in the order added.
    pub fn sources(&self) -> (r: &Vec<String>)
        ensures
            r@ == self.spec_sources(),
    {
        &self.srcs
    }

    /// The destination path.
    pub fn destination(&self) -> (r: &String)
        ensures
            *r == self.spec_destination(),
    {
        &self.dst
    }

    /// The resolved-data type name, when one was set.
    pub fn resolved_type(&self) -> (r: &Option<String>)
        ensures
            *r == self.spec_resolved(),
    {
        &self.resolved
    }
}

} // verus!
