//! The classification of program modules an address can belong to, and a
//! module's raw contents. The ROM container that supplies these is outside
//! this crate; here a module is its code bytes and base address.

use vstd::prelude::*;
use crate::relocations::RelocationModule;

verus! {

/// The fast-memory autoload regions; an unrecognized autoload carries its
/// raw discriminant.
#[derive(Clone, Copy, Debug, PartialEq, Eq, Structural)]
pub enum AutoloadKind {
    Itcm,
    Dtcm,
    Unknown(u32),
}

/// Which program module an address belongs to: the main image, a numbered
/// overlay, or an autoload region.
#[derive(Clone, Copy, Debug, PartialEq, Eq, Structural)]
pub enum ModuleKind {
    Arm9,
    Overlay(u16),
    Autoload(AutoloadKind),
}

#[derive(Clone, Debug, PartialEq, Eq)]
pub enum RelocationModuleKindNotSupportedError {
    UnknownAutoload { kind: u32 },
}

impl RelocationModule {
    /// The relocation destination for a module classification: the main
    /// image, one overlay, or a known fast-memory region. An unrecognized
    /// autoload kind cannot be represented.
    pub fn from_module_kind(value: ModuleKind) -> (r: Result<RelocationModule, RelocationModuleKindNotSupportedError>)
        ensures
            match value {
                ModuleKind::Arm9 => r == Ok::<RelocationModule, RelocationModuleKindNotSupportedError>(RelocationModule::Main),
                ModuleKind::Overlay(id) => r == Ok::<RelocationModule, RelocationModuleKindNotSupportedError>(RelocationModule::Overlay { id }),
                ModuleKind::Autoload(kind) => match kind {
                    AutoloadKind::Itcm => r == Ok::<RelocationModule, RelocationModuleKindNotSupportedError>(RelocationModule::Itcm),
                    AutoloadKind::Dtcm => r == Ok::<RelocationModule, RelocationModuleKindNotSupportedError>(RelocationModule::Dtcm),
                    AutoloadKind::Unknown(raw) => r == Err::<RelocationModule, RelocationModuleKindNotSupportedError>(
                        RelocationModuleKindNotSupportedError::UnknownAutoload { kind: raw },
                    ),
                },
            },
    {
        match value {
            ModuleKind::Arm9 => Ok(RelocationModule::Main),
            ModuleKind::Overlay(id) => Ok(RelocationModule::Overlay { id }),
            ModuleKind::Autoload(kind) => match kind {
                AutoloadKind::Itcm => Ok(RelocationModule::Itcm),
                AutoloadKind::Dtcm => Ok(RelocationModule::Dtcm),
                AutoloadKind::Unknown(raw) => Err(
                    RelocationModuleKindNotSupportedError::UnknownAutoload { kind: raw },
                ),
            },
        }
    }
}

/// A loaded module: its raw code bytes and the address they are mapped at.
#[derive(Clone, Debug)]
pub struct Module {
    pub code: Vec<u8>,
    pub base_address: u32,
}

impl Module {
    pub fn new(code: Vec<u8>, base_address: u32) -> (r: Module)
        ensures
            r.code == code,
            r.base_address == base_address,
    {
        Module { code, base_address }
    }

    pub fn code(&self) -> (r: &Vec<u8>)
        ensures
            r == &self.code,
    {
        &self.code
    }

    pub fn base_address(&self) -> (r: u32)
        ensures
            r == self.base_address,
    {
        self.base_address
    }
}

} // verus!
