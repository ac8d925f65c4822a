//! Interfaces for resolving prefixed path formats such as `go:fmt`,
//! `js:express` or `rust:serde` to filesystem locations. The resolvers
//! themselves consult the machine (package directories), so they are
//! implemented by the surrounding application; the prefix dispatch they all
//! share is here.

use vstd::prelude::*;

use crate::text::str_chars;

verus! {

/// Declares `std::path::PathBuf` so resolver implementations can return it;
/// the library never looks inside one.
#[verifier::external_type_specification]
#[verifier::external_body]
pub struct ExPathBuf(std::path::PathBuf);

/// A language-specific resolver from package or module names to filesystem
/// paths. Implementations live with the application: they read the machine.
pub trait PathResolver {
    /// The prefix that selects this resolver, ending in `:`.
    fn prefix(&self) -> &'static str;

    /// Splits the part after the prefix into the module identifier and an
    /// optional subpath within the module.
    fn split_module_and_subpath(&self, full_path_after_prefix: &str) -> Result<
        (String, Option<String>),
        String,
    >;

    /// Resolves a module name to its filesystem location.
    fn resolve(&self, module_name: &str) -> Result<std::path::PathBuf, String>;
}

/// The remainder of `path` after `prefix`, when `path` starts with it.
pub open spec fn spec_strip_prefix(path: Seq<char>, prefix: Seq<char>) -> Option<Seq<char>> {
    if prefix.len() <= path.len() && path.take(prefix.len() as int) == prefix {
        Some(path.skip(prefix.len() as int))
    } else {
        None
    }
}

/// Strips a resolver prefix from a path string: returns the part after the
/// prefix exactly when the path starts with the prefix.
pub fn strip_path_prefix(path: &str, prefix: &str) -> (r: Option<String>)
    ensures
        match r {
            Some(rest) => spec_strip_prefix(path@, prefix@) == Some(rest@),
            None => spec_strip_prefix(path@, prefix@) is None,
        },
{
    let pc = str_chars(path);
    let fc = str_chars(prefix);
    if fc.len() > pc.len() {
        proof {
            assert(spec_strip_prefix(path@, prefix@) is None);
        }
        return None;
    }
    let mut i: usize = 0;
    while i < fc.len()
        invariant
            0 <= i <= fc@.len(),
            fc@.len() <= pc@.len(),
            pc@ == path@,
            fc@ == prefix@,
            forall|k: int| 0 <= k < i ==> pc@[k] == fc@[k],
        decreases fc@.len() - i,
    {
        if pc[i] != fc[i] {
            proof {
                assert(path@.take(prefix@.len() as int)[i as int] != prefix@[i as int]);
            }
            return None;
        }
        i += 1;
    }
    let mut rest: Vec<char> = Vec::new();
    let mut j: usize = fc.len();
    proof {
        assert(rest@ =~= path@.skip(prefix@.len() as int).take(0));
    }
    while j < pc.len()
        invariant
            fc@.len() <= j <= pc@.len(),
            pc@ == path@,
            fc@ == prefix@,
            rest@ == path@.skip(prefix@.len() as int).take(j - fc@.len()),
        decreases pc@.len() - j,
    {
        let ghost grest = rest@;
        rest.push(pc[j]);
        proof {
            assert(path@.skip(prefix@.len() as int)[j - fc@.len()] == path@[j as int]);
            assert(rest@ =~= path@.skip(prefix@.len() as int).take(j + 1 - fc@.len()));
        }
        j += 1;
    }
    proof {
        assert(rest@ =~= path@.skip(prefix@.len() as int));
        assert(path@.take(prefix@.len() as int) =~= prefix@);
    }
    Some(crate::text::chars_to_string(&rest))
}

} // verus!
