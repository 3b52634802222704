//! The representations that hold a whole project as a directory tree.

use crate::fs::shown;
use crate::fs::RawDir;
use crate::ir::Representation;
use vstd::prelude::*;
use vstd::string::StringExecFns;

verus! {

/// A raw C project passed as input.
#[derive(Debug, PartialEq, Eq)]
pub struct RawSource {
    /// The files of the project.
    pub dir: RawDir,
}

impl Representation for RawSource {
    open spec fn name_spec(&self) -> Seq<char> {
        "RawSource"@
    }

    open spec fn text_spec(&self) -> Seq<char> {
        "Raw C source:\n"@ + shown(self.dir, 0)
    }

    fn name(&self) -> (out: &'static str) {
        "RawSource"
    }

    fn render(&self) -> (out: String) {
        let mut out = String::from_str("Raw C source:\n");
        out.append(self.dir.display(0).as_str());
        out
    }
}

/// A cargo project representation (Cargo.toml, src/, etc).
#[derive(Debug, PartialEq, Eq)]
pub struct CargoPackage {
    /// The files of the project.
    pub dir: RawDir,
}

impl Representation for CargoPackage {
    open spec fn name_spec(&self) -> Seq<char> {
        "CargoPackage"@
    }

    open spec fn text_spec(&self) -> Seq<char> {
        "Cargo package:\n"@ + shown(self.dir, 0)
    }

    fn name(&self) -> (out: &'static str) {
        "CargoPackage"
    }

    fn render(&self) -> (out: String) {
        let mut out = String::from_str("Cargo package:\n");
        out.append(self.dir.display(0).as_str());
        out
    }
}

} // verus!
