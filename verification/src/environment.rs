//! The directories that expansion needs, and looking them up.

use crate::bytes::option_view;
use vstd::prelude::*;

verus! {

/// The directories that expansion puts in the place of `~` and `.`. One that is
/// `None` could not be found out; a path that needs it cannot be expanded.
#[derive(Debug, PartialEq, Eq)]
pub struct Environment {
    /// The home directory.
    pub home: Option<Vec<u8>>,
    /// The current directory.
    pub cwd: Option<Vec<u8>>,
}

/// An `Environment` as a mathematical value.
pub struct SpecEnvironment {
    /// The home directory.
    pub home: Option<Seq<u8>>,
    /// The current directory.
    pub cwd: Option<Seq<u8>>,
}

impl View for Environment {
    type V = SpecEnvironment;

    open spec fn view(&self) -> SpecEnvironment {
        SpecEnvironment { home: option_view(self.home), cwd: option_view(self.cwd) }
    }
}

/// Whether `dir` is something that `lookup` may return.
pub open spec fn may_find<L: Fn() -> Option<Vec<u8>>>(lookup: L, dir: Option<Seq<u8>>) -> bool {
    exists|found: Option<Vec<u8>>| #[trigger] lookup.ensures((), found) && option_view(found) == dir
}

/// Whether `lookup` finds `dir`, whenever it is asked.
pub open spec fn finds<L: Fn() -> Option<Vec<u8>>>(lookup: L, dir: Option<Seq<u8>>) -> bool {
    forall|found: Option<Vec<u8>>| #[trigger] lookup.ensures((), found) ==> option_view(found) == dir
}

/// Whether `home` and `cwd` find the directories of `env`, whenever they are
/// asked.
pub open spec fn found_as<H: Fn() -> Option<Vec<u8>>, C: Fn() -> Option<Vec<u8>>>(
    home: H,
    cwd: C,
    env: SpecEnvironment,
) -> bool {
    finds(home, env.home) && finds(cwd, env.cwd)
}

/// The home directory of the user, as `dirs::home_dir` finds it, as bytes;
/// `None` if it finds none. Nothing is claimed of the answer: it depends on
/// the user and on the environment of the process.
#[verifier::external_body]
pub(crate) fn home_dir() -> (home: Option<Vec<u8>>) {
    dirs::home_dir().map(|dir| dir.into_os_string().into_encoded_bytes())
}

} // verus!
