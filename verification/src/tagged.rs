//! The representations of this crate's own tools in one type: a tagged union, in which the
//! tag tells the kind of a representation.
//!
//! An IR of [`Tagged`] holds representations of every kind that the tools of this crate make
//! or read. A program with further kinds of its own brings its own type of representations,
//! and tells the kinds apart by implementing [`Holds`] for it.

use crate::full_source::CargoPackage;
use crate::full_source::RawSource;
use crate::identify_project_kind::ProjectKind;
use crate::ir::Holds;
use crate::ir::Representation;
use crate::try_cargo_build::CargoBuildResult;
use vstd::prelude::*;

verus! {

/// A representation of one of the kinds that the tools of this crate make.
#[derive(Debug, PartialEq, Eq)]
pub enum Tagged {
    /// The project that is to be translated.
    RawSource(RawSource),
    /// The cargo package that the translation made.
    CargoPackage(CargoPackage),
    /// What the project builds.
    ProjectKind(ProjectKind),
    /// What came of building the cargo package.
    CargoBuildResult(CargoBuildResult),
}

impl Representation for Tagged {
    open spec fn name_spec(&self) -> Seq<char> {
        match self {
            Tagged::RawSource(source) => source.name_spec(),
            Tagged::CargoPackage(package) => package.name_spec(),
            Tagged::ProjectKind(kind) => kind.name_spec(),
            Tagged::CargoBuildResult(build) => build.name_spec(),
        }
    }

    open spec fn text_spec(&self) -> Seq<char> {
        match self {
            Tagged::RawSource(source) => source.text_spec(),
            Tagged::CargoPackage(package) => package.text_spec(),
            Tagged::ProjectKind(kind) => kind.text_spec(),
            Tagged::CargoBuildResult(build) => build.text_spec(),
        }
    }

    fn name(&self) -> (out: &'static str) {
        match self {
            Tagged::RawSource(source) => source.name(),
            Tagged::CargoPackage(package) => package.name(),
            Tagged::ProjectKind(kind) => kind.name(),
            Tagged::CargoBuildResult(build) => build.name(),
        }
    }

    fn render(&self) -> (out: String) {
        match self {
            Tagged::RawSource(source) => source.render(),
            Tagged::CargoPackage(package) => package.render(),
            Tagged::ProjectKind(kind) => kind.render(),
            Tagged::CargoBuildResult(build) => build.render(),
        }
    }
}

impl Holds<RawSource> for Tagged {
    open spec fn held(&self) -> Option<RawSource> {
        match self {
            Tagged::RawSource(source) => Some(*source),
            _ => None,
        }
    }

    fn part(&self) -> (out: Option<&RawSource>) {
        match self {
            Tagged::RawSource(source) => Some(source),
            _ => None,
        }
    }

    fn wrap(part: RawSource) -> (out: Self) {
        Tagged::RawSource(part)
    }
}

impl Holds<CargoPackage> for Tagged {
    open spec fn held(&self) -> Option<CargoPackage> {
        match self {
            Tagged::CargoPackage(package) => Some(*package),
            _ => None,
        }
    }

    fn part(&self) -> (out: Option<&CargoPackage>) {
        match self {
            Tagged::CargoPackage(package) => Some(package),
            _ => None,
        }
    }

    fn wrap(part: CargoPackage) -> (out: Self) {
        Tagged::CargoPackage(part)
    }
}

impl Holds<ProjectKind> for Tagged {
    open spec fn held(&self) -> Option<ProjectKind> {
        match self {
            Tagged::ProjectKind(kind) => Some(*kind),
            _ => None,
        }
    }

    fn part(&self) -> (out: Option<&ProjectKind>) {
        match self {
            Tagged::ProjectKind(kind) => Some(kind),
            _ => None,
        }
    }

    fn wrap(part: ProjectKind) -> (out: Self) {
        Tagged::ProjectKind(part)
    }
}

impl Holds<CargoBuildResult> for Tagged {
    open spec fn held(&self) -> Option<CargoBuildResult> {
        match self {
            Tagged::CargoBuildResult(build) => Some(*build),
            _ => None,
        }
    }

    fn part(&self) -> (out: Option<&CargoBuildResult>) {
        match self {
            Tagged::CargoBuildResult(build) => Some(build),
            _ => None,
        }
    }

    fn wrap(part: CargoBuildResult) -> (out: Self) {
        Tagged::CargoBuildResult(part)
    }
}

} // verus!
