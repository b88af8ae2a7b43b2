//! Check-to-target inference: a check named `<prefix>-<suffix>` gates the
//! target in the category its prefix names, on the same platform, whose
//! name equals the suffix.  Prefix and comparisons are ASCII
//! case-insensitive, and an optional trailing `s` on the prefix is
//! ignored.

use vstd::prelude::*;
use vstd::string::StrSliceExecFns;

use crate::target::{Derivation, DerivationView};
use crate::text::{
    eq_ignore_case, eq_ignore_case_char, find_char, first_index_of, lemma_first_index_of,
    lower_code, lower_code_exec, str_eq_ignore_case,
};

verus! {

/// The canonical output category a check prefix names, if any.  The
/// prefix is compared case-insensitively, with one trailing `s` (of
/// either case) stripped first.
pub open spec fn check_type_chars(prefix: Seq<char>) -> Option<Seq<char>> {
    let base = if prefix.len() >= 1 && lower_code(prefix.last()) == 's' as u32 {
        prefix.drop_last()
    } else {
        prefix
    };
    if eq_ignore_case(base, "pkg"@) || eq_ignore_case(base, "package"@) {
        Some("packages"@)
    } else if eq_ignore_case(base, "devshell"@) || eq_ignore_case(base, "shell"@) {
        Some("devShells"@)
    } else if eq_ignore_case(base, "nixo"@) || eq_ignore_case(base, "nixosconfig"@)
        || eq_ignore_case(base, "nixosconfiguration"@) {
        Some("nixosConfigurations"@)
    } else if eq_ignore_case(base, "darwin"@) || eq_ignore_case(base, "darwinconfig"@)
        || eq_ignore_case(base, "darwinconfiguration"@) {
        Some("darwinConfigurations"@)
    } else if eq_ignore_case(base, "home"@) || eq_ignore_case(base, "homeconfig"@)
        || eq_ignore_case(base, "homeconfiguration"@) {
        Some("homeConfigurations"@)
    } else if eq_ignore_case(base, "system"@) || eq_ignore_case(base, "systemconfig"@)
        || eq_ignore_case(base, "systemconfiguration"@) {
        Some("systemConfigs"@)
    } else {
        None
    }
}

/// Resolves a check prefix to its canonical output category.
pub fn find_check_type(input: &str) -> (r: Option<&'static str>)
    ensures
        match r {
            Some(t) => check_type_chars(input@) == Some(t@),
            None => check_type_chars(input@) is None,
        },
{
    let len = input.unicode_len();
    let base: &str = if len >= 1 && lower_code_exec(input.get_char(len - 1)) == 115 {
        let b = input.substring_char(0, len - 1);
        proof {
            assert(b@ == input@.drop_last());
            assert(lower_code(input@.last()) == 's' as u32);
        }
        b
    } else {
        proof {
            if len >= 1 {
                assert(lower_code(input@.last()) != 's' as u32);
            }
        }
        input
    };
    if str_eq_ignore_case(base, "pkg") || str_eq_ignore_case(base, "package") {
        Some("packages")
    } else if str_eq_ignore_case(base, "devshell") || str_eq_ignore_case(base, "shell") {
        Some("devShells")
    } else if str_eq_ignore_case(base, "nixo") || str_eq_ignore_case(base, "nixosconfig")
        || str_eq_ignore_case(base, "nixosconfiguration") {
        Some("nixosConfigurations")
    } else if str_eq_ignore_case(base, "darwin") || str_eq_ignore_case(base, "darwinconfig")
        || str_eq_ignore_case(base, "darwinconfiguration") {
        Some("darwinConfigurations")
    } else if str_eq_ignore_case(base, "home") || str_eq_ignore_case(base, "homeconfig")
        || str_eq_ignore_case(base, "homeconfiguration") {
        Some("homeConfigurations")
    } else if str_eq_ignore_case(base, "system") || str_eq_ignore_case(base, "systemconfig")
        || str_eq_ignore_case(base, "systemconfiguration") {
        Some("systemConfigs")
    } else {
        None
    }
}

/// The category a check's name gates, read from the prefix before the
/// first `-`; a name without `-` or with an unknown prefix gates nothing.
pub open spec fn spec_type_of_check(name: Seq<char>) -> Option<Seq<char>> {
    match first_index_of(name, '-') {
        Some(i) => check_type_chars(name.subrange(0, i)),
        None => None,
    }
}

/// Resolves the category a check gates, if any.
pub fn get_type_of_check(derivation: &Derivation) -> (r: Option<&'static str>)
    ensures
        match r {
            Some(t) => spec_type_of_check(derivation@.name) == Some(t@),
            None => spec_type_of_check(derivation@.name) is None,
        },
{
    let name = derivation.name.as_str();
    proof {
        lemma_first_index_of(name@, '-');
    }
    let i = match find_char(name, 0, '-') {
        Some(i) => i,
        None => {
            return None;
        },
    };
    let prefix = name.substring_char(0, i);
    find_check_type(prefix)
}

/// Whether `check` gates `drv`: same platform, the check's prefix names
/// `drv`'s category, and the check's suffix equals `drv`'s name, both
/// comparisons ASCII case-insensitive.
pub open spec fn spec_check_gates(check: DerivationView, drv: DerivationView) -> bool {
    &&& check.system == drv.system
    &&& (match first_index_of(check.name, '-') {
        Some(i) => match check_type_chars(check.name.subrange(0, i)) {
            Some(t) => eq_ignore_case(t, drv.output) && eq_ignore_case(
                check.name.subrange(i + 1, check.name.len() as int),
                drv.name,
            ),
            None => false,
        },
        None => false,
    })
}

/// Decides whether `check` gates `drv`.
pub fn check_checks_derivation(check: &Derivation, drv: &Derivation) -> (r: bool)
    ensures
        r == spec_check_gates(check@, drv@),
{
    if check.system != drv.system {
        return false;
    }
    let name = check.name.as_str();
    proof {
        lemma_first_index_of(name@, '-');
    }
    let len = name.unicode_len();
    let i = match find_char(name, 0, '-') {
        Some(i) => i,
        None => {
            return false;
        },
    };
    let prefix = name.substring_char(0, i);
    let check_type = match find_check_type(prefix) {
        Some(t) => t,
        None => {
            return false;
        },
    };
    if !str_eq_ignore_case(check_type, drv.output.as_str()) {
        return false;
    }
    let suffix = name.substring_char(i + 1, len);
    str_eq_ignore_case(suffix, drv.name.as_str())
}

/// Law: a check prefix `pkg` or `pkgs`, in any letter case, classifies as
/// the `packages` category.
pub proof fn lemma_check_type_pkg(prefix: Seq<char>)
    requires
        eq_ignore_case(prefix, "pkg"@) || eq_ignore_case(prefix, "pkgs"@),
    ensures
        check_type_chars(prefix) == Some("packages"@),
{
    reveal_strlit("pkg");
    reveal_strlit("pkgs");
    if eq_ignore_case(prefix, "pkgs"@) {
        assert(eq_ignore_case_char(prefix.last(), 's'));
        let base = prefix.drop_last();
        assert(eq_ignore_case(base, "pkg"@)) by {
            assert forall|k: int| 0 <= k < base.len() implies eq_ignore_case_char(
                base[k],
                "pkg"@[k],
            ) by {
                assert(eq_ignore_case_char(prefix[k], "pkgs"@[k]));
            }
        }
    } else {
        assert(eq_ignore_case_char(prefix.last(), 'g'));
        assert(lower_code(prefix.last()) != 's' as u32);
    }
}

/// Law: a check prefix `darwinConfig` or `darwinConfigs`, in any letter
/// case, classifies as the `darwinConfigurations` category.
pub proof fn lemma_check_type_darwin_config(prefix: Seq<char>)
    requires
        eq_ignore_case(prefix, "darwinconfig"@) || eq_ignore_case(prefix, "darwinconfigs"@),
    ensures
        check_type_chars(prefix) == Some("darwinConfigurations"@),
{
    reveal_strlit("darwinconfig");
    reveal_strlit("darwinconfigs");
    reveal_strlit("pkg");
    reveal_strlit("package");
    reveal_strlit("devshell");
    reveal_strlit("shell");
    reveal_strlit("nixo");
    reveal_strlit("nixosconfig");
    reveal_strlit("nixosconfiguration");
    reveal_strlit("darwin");
    if eq_ignore_case(prefix, "darwinconfigs"@) {
        assert(eq_ignore_case_char(prefix.last(), 's'));
        let base = prefix.drop_last();
        assert(eq_ignore_case(base, "darwinconfig"@)) by {
            assert forall|k: int| 0 <= k < base.len() implies eq_ignore_case_char(
                base[k],
                "darwinconfig"@[k],
            ) by {
                assert(eq_ignore_case_char(prefix[k], "darwinconfigs"@[k]));
            }
        }
        lemma_base_darwin_config(base);
    } else {
        assert(eq_ignore_case_char(prefix.last(), 'g'));
        assert(lower_code(prefix.last()) != 's' as u32);
        lemma_base_darwin_config(prefix);
    }
}

/// A base equal (ignoring case) to `darwinconfig` falls through the
/// earlier table rows and lands on the darwin row.
proof fn lemma_base_darwin_config(base: Seq<char>)
    requires
        eq_ignore_case(base, "darwinconfig"@),
    ensures
        !eq_ignore_case(base, "pkg"@),
        !eq_ignore_case(base, "package"@),
        !eq_ignore_case(base, "devshell"@),
        !eq_ignore_case(base, "shell"@),
        !eq_ignore_case(base, "nixo"@),
        !eq_ignore_case(base, "nixosconfig"@),
        !eq_ignore_case(base, "nixosconfiguration"@),
        !eq_ignore_case(base, "darwin"@),
        eq_ignore_case(base, "darwinconfig"@),
{
    reveal_strlit("darwinconfig");
    reveal_strlit("pkg");
    reveal_strlit("package");
    reveal_strlit("devshell");
    reveal_strlit("shell");
    reveal_strlit("nixo");
    reveal_strlit("nixosconfig");
    reveal_strlit("nixosconfiguration");
    reveal_strlit("darwin");
    assert(base.len() == 12);
    if eq_ignore_case(base, "nixosconfig"@) {
        assert(base.len() == 11);
    }
    if eq_ignore_case(base, "package"@) {
        assert(base.len() == 7);
    }
    if eq_ignore_case(base, "devshell"@) {
        assert(eq_ignore_case_char(base[0], 'd'));
        assert(eq_ignore_case_char(base[1], 'a'));
        assert(eq_ignore_case_char(base[1], 'e'));
    }
}

/// Every category the table can name differs from `checks`: a check never
/// gates another check.
pub proof fn lemma_check_type_not_checks(prefix: Seq<char>, t: Seq<char>)
    requires
        check_type_chars(prefix) == Some(t),
    ensures
        t != "checks"@,
{
    reveal_strlit("checks");
    reveal_strlit("packages");
    reveal_strlit("devShells");
    reveal_strlit("nixosConfigurations");
    reveal_strlit("darwinConfigurations");
    reveal_strlit("homeConfigurations");
    reveal_strlit("systemConfigs");
    assert(t == "packages"@ || t == "devShells"@ || t == "nixosConfigurations"@ || t
        == "darwinConfigurations"@ || t == "homeConfigurations"@ || t == "systemConfigs"@);
    assert("checks"@.len() == 6);
    assert(t.len() != 6);
}

} // verus!
