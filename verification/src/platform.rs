//! Platforms: an (operating system, architecture) pair with the canonical
//! text form `<arch>-<os>`, e.g. `x86_64-linux`.  Parsing is the strict
//! inverse of formatting.

use vstd::prelude::*;
use vstd::string::{StrSliceExecFns, StringExecFns};

use crate::error::ParseError;
use crate::text::str_eq;

verus! {

#[derive(Debug, Clone, Copy, PartialEq, Eq, Hash, Structural)]
pub enum OS {
    Linux,
    Darwin,
    Windows,
}

#[derive(Debug, Clone, Copy, PartialEq, Eq, Hash, Structural)]
pub enum Arch {
    X86,
    Arm,
}

/// An (OS, architecture) pair naming one build platform.
#[derive(Debug, Clone, Copy, PartialEq, Eq, Hash, Structural)]
pub struct System {
    pub os: OS,
    pub arch: Arch,
}

impl View for System {
    type V = System;

    open spec fn view(&self) -> System {
        *self
    }
}

/// Canonical text of an operating system.
pub open spec fn os_chars(os: OS) -> Seq<char> {
    match os {
        OS::Linux => "linux"@,
        OS::Darwin => "darwin"@,
        OS::Windows => "windows"@,
    }
}

/// Canonical text of an architecture.
pub open spec fn arch_chars(a: Arch) -> Seq<char> {
    match a {
        Arch::X86 => "x86_64"@,
        Arch::Arm => "aarch64"@,
    }
}

/// Canonical text of a platform: `<arch>-<os>`.
pub open spec fn system_chars(s: System) -> Seq<char> {
    arch_chars(s.arch) + "-"@ + os_chars(s.os)
}

/// The platform a piece of text denotes, if any: exactly the canonical
/// forms are accepted.
pub open spec fn spec_system_of(s: Seq<char>) -> Option<System> {
    if s == system_chars(System { os: OS::Linux, arch: Arch::X86 }) {
        Some(System { os: OS::Linux, arch: Arch::X86 })
    } else if s == system_chars(System { os: OS::Linux, arch: Arch::Arm }) {
        Some(System { os: OS::Linux, arch: Arch::Arm })
    } else if s == system_chars(System { os: OS::Darwin, arch: Arch::X86 }) {
        Some(System { os: OS::Darwin, arch: Arch::X86 })
    } else if s == system_chars(System { os: OS::Darwin, arch: Arch::Arm }) {
        Some(System { os: OS::Darwin, arch: Arch::Arm })
    } else if s == system_chars(System { os: OS::Windows, arch: Arch::X86 }) {
        Some(System { os: OS::Windows, arch: Arch::X86 })
    } else if s == system_chars(System { os: OS::Windows, arch: Arch::Arm }) {
        Some(System { os: OS::Windows, arch: Arch::Arm })
    } else {
        None
    }
}

/// Connects the canonical platform texts with their literal spellings and
/// shows that distinct platforms have distinct texts.
pub proof fn lemma_system_literals()
    ensures
        system_chars(System { os: OS::Linux, arch: Arch::X86 }) == "x86_64-linux"@,
        system_chars(System { os: OS::Linux, arch: Arch::Arm }) == "aarch64-linux"@,
        system_chars(System { os: OS::Darwin, arch: Arch::X86 }) == "x86_64-darwin"@,
        system_chars(System { os: OS::Darwin, arch: Arch::Arm }) == "aarch64-darwin"@,
        system_chars(System { os: OS::Windows, arch: Arch::X86 }) == "x86_64-windows"@,
        system_chars(System { os: OS::Windows, arch: Arch::Arm }) == "aarch64-windows"@,
        forall|a: System, b: System| a != b ==> system_chars(a) != system_chars(b),
{
    reveal_strlit("linux");
    reveal_strlit("darwin");
    reveal_strlit("windows");
    reveal_strlit("x86_64");
    reveal_strlit("aarch64");
    reveal_strlit("-");
    reveal_strlit("x86_64-linux");
    reveal_strlit("aarch64-linux");
    reveal_strlit("x86_64-darwin");
    reveal_strlit("aarch64-darwin");
    reveal_strlit("x86_64-windows");
    reveal_strlit("aarch64-windows");
    assert(system_chars(System { os: OS::Linux, arch: Arch::X86 }) =~= "x86_64-linux"@);
    assert(system_chars(System { os: OS::Linux, arch: Arch::Arm }) =~= "aarch64-linux"@);
    assert(system_chars(System { os: OS::Darwin, arch: Arch::X86 }) =~= "x86_64-darwin"@);
    assert(system_chars(System { os: OS::Darwin, arch: Arch::Arm }) =~= "aarch64-darwin"@);
    assert(system_chars(System { os: OS::Windows, arch: Arch::X86 }) =~= "x86_64-windows"@);
    assert(system_chars(System { os: OS::Windows, arch: Arch::Arm }) =~= "aarch64-windows"@);
    assert forall|a: System, b: System| a != b implies system_chars(a) != system_chars(b) by {
        if system_chars(a) == system_chars(b) {
            assert(system_chars(a)[0] == system_chars(b)[0]);
            assert(system_chars(a).len() == system_chars(b).len());
        }
    }
}

/// Law: the canonical text of any platform parses back to that platform.
pub proof fn lemma_platform_round_trip(sys: System)
    ensures
        spec_system_of(system_chars(sys)) == Some(sys),
{
    lemma_system_literals();
}

pub fn os_str(os: &OS) -> (r: &'static str)
    ensures
        r@ == os_chars(*os),
{
    match os {
        OS::Linux => "linux",
        OS::Darwin => "darwin",
        OS::Windows => "windows",
    }
}

pub fn arch_str(a: &Arch) -> (r: &'static str)
    ensures
        r@ == arch_chars(*a),
{
    match a {
        Arch::X86 => "x86_64",
        Arch::Arm => "aarch64",
    }
}

/// Parses exactly the canonical platform texts.
pub fn parse_system(s: &str) -> (r: Option<System>)
    ensures
        r == spec_system_of(s@),
{
    proof {
        lemma_system_literals();
    }
    if str_eq(s, "x86_64-linux") {
        Some(System { os: OS::Linux, arch: Arch::X86 })
    } else if str_eq(s, "aarch64-linux") {
        Some(System { os: OS::Linux, arch: Arch::Arm })
    } else if str_eq(s, "x86_64-darwin") {
        Some(System { os: OS::Darwin, arch: Arch::X86 })
    } else if str_eq(s, "aarch64-darwin") {
        Some(System { os: OS::Darwin, arch: Arch::Arm })
    } else if str_eq(s, "x86_64-windows") {
        Some(System { os: OS::Windows, arch: Arch::X86 })
    } else if str_eq(s, "aarch64-windows") {
        Some(System { os: OS::Windows, arch: Arch::Arm })
    } else {
        None
    }
}

/// The operating system a piece of text denotes, if any.
pub open spec fn spec_os_of(s: Seq<char>) -> Option<OS> {
    if s == "linux"@ {
        Some(OS::Linux)
    } else if s == "darwin"@ {
        Some(OS::Darwin)
    } else if s == "windows"@ {
        Some(OS::Windows)
    } else {
        None
    }
}

/// The architecture a piece of text denotes, if any.
pub open spec fn spec_arch_of(s: Seq<char>) -> Option<Arch> {
    if s == "x86_64"@ {
        Some(Arch::X86)
    } else if s == "aarch64"@ {
        Some(Arch::Arm)
    } else {
        None
    }
}

pub fn parse_os(s: &str) -> (r: Option<OS>)
    ensures
        r == spec_os_of(s@),
{
    if str_eq(s, "linux") {
        Some(OS::Linux)
    } else if str_eq(s, "darwin") {
        Some(OS::Darwin)
    } else if str_eq(s, "windows") {
        Some(OS::Windows)
    } else {
        None
    }
}

pub fn parse_arch(s: &str) -> (r: Option<Arch>)
    ensures
        r == spec_arch_of(s@),
{
    if str_eq(s, "x86_64") {
        Some(Arch::X86)
    } else if str_eq(s, "aarch64") {
        Some(Arch::Arm)
    } else {
        None
    }
}

impl System {
    pub fn x86_linux() -> (r: Self)
        ensures
            r == (System { os: OS::Linux, arch: Arch::X86 }),
    {
        System { os: OS::Linux, arch: Arch::X86 }
    }

    pub fn x86_darwin() -> (r: Self)
        ensures
            r == (System { os: OS::Darwin, arch: Arch::X86 }),
    {
        System { os: OS::Darwin, arch: Arch::X86 }
    }

    pub fn arm_linux() -> (r: Self)
        ensures
            r == (System { os: OS::Linux, arch: Arch::Arm }),
    {
        System { os: OS::Linux, arch: Arch::Arm }
    }

    pub fn arm_darwin() -> (r: Self)
        ensures
            r == (System { os: OS::Darwin, arch: Arch::Arm }),
    {
        System { os: OS::Darwin, arch: Arch::Arm }
    }

    pub fn x86_windows() -> (r: Self)
        ensures
            r == (System { os: OS::Windows, arch: Arch::X86 }),
    {
        System { os: OS::Windows, arch: Arch::X86 }
    }

    pub fn arm_windows() -> (r: Self)
        ensures
            r == (System { os: OS::Windows, arch: Arch::Arm }),
    {
        System { os: OS::Windows, arch: Arch::Arm }
    }

    /// Renders the canonical text `<arch>-<os>`.
    pub fn to_text(&self) -> (r: String)
        ensures
            r@ == system_chars(*self),
    {
        let mut out = String::new();
        out.append(arch_str(&self.arch));
        out.append("-");
        out.append(os_str(&self.os));
        out
    }

    /// Parses the canonical text form; rejects everything else.
    pub fn from_text(s: &str) -> (r: Result<System, ParseError>)
        ensures
            match r {
                Ok(sys) => spec_system_of(s@) == Some(sys),
                Err(e) => spec_system_of(s@) is None && e.input@ == s@,
            },
    {
        match parse_system(s) {
            Some(sys) => Ok(sys),
            None => Err(
                ParseError::new(
                    "expected a platform such as x86_64-linux".to_owned(),
                    s.to_owned(),
                    0,
                    s.unicode_len(),
                ),
            ),
        }
    }
}

} // verus!
