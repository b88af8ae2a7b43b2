//! Build targets: one buildable attribute, identified by output category,
//! platform and attribute name, with the canonical text form
//! `.#<category>.<platform>.<name>`.

use vstd::prelude::*;
use vstd::string::{StrSliceExecFns, StringExecFns};

use crate::error::ParseError;
use crate::platform::{parse_system, spec_system_of, system_chars, System};
use crate::text::{check_name, find_char, is_name, is_name_char};

verus! {

/// One buildable unit: an attribute of an output category on a platform.
#[derive(Debug, Clone, PartialEq, Eq, Hash)]
pub struct Derivation {
    pub output: String,
    pub system: System,
    pub name: String,
}

/// The mathematical shape of a build target.
pub struct DerivationView {
    pub output: Seq<char>,
    pub system: System,
    pub name: Seq<char>,
}

impl View for Derivation {
    type V = DerivationView;

    open spec fn view(&self) -> DerivationView {
        DerivationView { output: self.output@, system: self.system, name: self.name@ }
    }
}

impl DeepView for Derivation {
    type V = DerivationView;

    open spec fn deep_view(&self) -> DerivationView {
        self@
    }
}

/// A target whose category and name are valid names.
pub open spec fn target_wf(d: DerivationView) -> bool {
    is_name(d.output) && is_name(d.name)
}

/// The canonical text of a target.
pub open spec fn target_chars(d: DerivationView) -> Seq<char> {
    ".#"@ + d.output + "."@ + system_chars(d.system) + "."@ + d.name
}

/// The input with an optional leading `.#` removed.
pub open spec fn target_core(s: Seq<char>) -> Seq<char> {
    if s.len() >= 2 && s[0] == '.' && s[1] == '#' {
        s.skip(2)
    } else {
        s
    }
}

/// The core text splits as `output.platform.name` at dots `i` and `j`.
pub open spec fn target_split_at(s: Seq<char>, d: DerivationView, i: int, j: int) -> bool {
    let c = target_core(s);
    &&& 0 <= i < j < c.len()
    &&& c[i] == '.'
    &&& c[j] == '.'
    &&& d.output == c.subrange(0, i)
    &&& is_name(d.output)
    &&& spec_system_of(c.subrange(i + 1, j)) == Some(d.system)
    &&& d.name == c.subrange(j + 1, c.len() as int)
    &&& is_name(d.name)
}

/// The text denotes the target `d`.  Names never contain a dot and
/// platform texts never contain a dot, so the split is unique.
pub open spec fn target_parses_to(s: Seq<char>, d: DerivationView) -> bool {
    exists|i: int, j: int| target_split_at(s, d, i, j)
}

impl Derivation {
    pub fn new(output: String, system: System, name: String) -> (r: Self)
        ensures
            r@.output == output@,
            r@.system == system,
            r@.name == name@,
    {
        Derivation { output, system, name }
    }

    /// An exact duplicate.
    pub fn duplicate(&self) -> (r: Self)
        ensures
            r == *self,
    {
        Derivation { output: self.output.clone(), system: self.system, name: self.name.clone() }
    }

    /// Renders the canonical text `.#<category>.<platform>.<name>`.
    pub fn to_text(&self) -> (r: String)
        ensures
            r@ == target_chars(self@),
    {
        let mut out = String::new();
        out.append(".#");
        out.append(self.output.as_str());
        out.append(".");
        let sys = self.system.to_text();
        out.append(sys.as_str());
        out.append(".");
        out.append(self.name.as_str());
        out
    }

    /// Parses the canonical form, with the leading `.#` optional.
    pub fn from_text(s: &str) -> (r: Result<Derivation, ParseError>)
        ensures
            match r {
                Ok(d) => target_parses_to(s@, d@),
                Err(e) => (forall|d: DerivationView| !target_parses_to(s@, d)) && e.input@ == s@,
            },
    {
        let len = s.unicode_len();
        let start: usize = if len >= 2 && s.get_char(0) == '.' && s.get_char(1) == '#' {
            2
        } else {
            0
        };
        let core = s.substring_char(start, len);
        proof {
            assert(core@ == target_core(s@));
        }
        match parse_target_core(core) {
            Some(d) => {
                proof {
                    let (i, j): (int, int) = choose|i: int, j: int| core_split_at(core@, d@, i, j);
                    assert(target_split_at(s@, d@, i, j));
                }
                Ok(d)
            },
            None => {
                proof {
                    assert forall|d: DerivationView| !target_parses_to(s@, d) by {
                        if target_parses_to(s@, d) {
                            let (i, j): (int, int) = choose|i: int, j: int|
                                target_split_at(s@, d, i, j);
                            assert(core_split_at(core@, d, i, j));
                        }
                    }
                }
                Err(
                    ParseError::new(
                        "expected a target: category.platform.name".to_owned(),
                        s.to_owned(),
                        0,
                        len,
                    ),
                )
            },
        }
    }
}

/// The split relation over an already-stripped core text.
pub open spec fn core_split_at(c: Seq<char>, d: DerivationView, i: int, j: int) -> bool {
    &&& 0 <= i < j < c.len()
    &&& c[i] == '.'
    &&& c[j] == '.'
    &&& d.output == c.subrange(0, i)
    &&& is_name(d.output)
    &&& spec_system_of(c.subrange(i + 1, j)) == Some(d.system)
    &&& d.name == c.subrange(j + 1, c.len() as int)
    &&& is_name(d.name)
}

/// Parses `output.platform.name` with no prefix.
fn parse_target_core(c: &str) -> (r: Option<Derivation>)
    ensures
        match r {
            Some(d) => exists|i: int, j: int| core_split_at(c@, d@, i, j),
            None => forall|d: DerivationView, i: int, j: int| !core_split_at(c@, d, i, j),
        },
{
    let len = c.unicode_len();
    let i = match find_char(c, 0, '.') {
        Some(i) => i,
        None => {
            proof {
                assert forall|d: DerivationView, i: int, j: int| !core_split_at(c@, d, i, j) by {
                    if core_split_at(c@, d, i, j) {
                        assert(c@[i] == '.');
                    }
                }
            }
            return None;
        },
    };
    let j = match find_char(c, i + 1, '.') {
        Some(j) => j,
        None => {
            proof {
                assert forall|d: DerivationView, i2: int, j2: int| !core_split_at(
                    c@,
                    d,
                    i2,
                    j2,
                ) by {
                    if core_split_at(c@, d, i2, j2) {
                        assert forall|k: int| 0 <= k < i2 implies c@[k] != '.' by {
                            assert(is_name_char(c@.subrange(0, i2)[k]));
                        }
                        assert(i2 == i);
                        assert(c@[j2] == '.');
                    }
                }
            }
            return None;
        },
    };
    let output = c.substring_char(0, i);
    let sys_text = c.substring_char(i + 1, j);
    let name = c.substring_char(j + 1, len);
    if !check_name(output) {
        proof {
            lemma_core_split_unique(c@, i as int, j as int);
        }
        return None;
    }
    let sys = match parse_system(sys_text) {
        Some(sys) => sys,
        None => {
            proof {
                lemma_core_split_unique(c@, i as int, j as int);
            }
            return None;
        },
    };
    if !check_name(name) {
        proof {
            lemma_core_split_unique(c@, i as int, j as int);
        }
        return None;
    }
    let d = Derivation { output: output.to_owned(), system: sys, name: name.to_owned() };
    proof {
        assert(core_split_at(c@, d@, i as int, j as int));
    }
    Some(d)
}

/// Any valid split of a core text uses the first dot and the first dot
/// after it.
proof fn lemma_core_split_unique(c: Seq<char>, i: int, j: int)
    requires
        0 <= i < c.len(),
        c[i] == '.',
        forall|k: int| 0 <= k < i ==> c[k] != '.',
        i < j < c.len(),
        c[j] == '.',
        forall|k: int| i < k < j ==> c[k] != '.',
    ensures
        forall|d: DerivationView, i2: int, j2: int| core_split_at(c, d, i2, j2) ==> i2 == i && j2
            == j,
{
    assert forall|d: DerivationView, i2: int, j2: int| core_split_at(c, d, i2, j2) implies i2 == i
        && j2 == j by {
        assert forall|k: int| 0 <= k < i2 implies c[k] != '.' by {
            assert(is_name_char(c.subrange(0, i2)[k]));
        }
        assert(i2 == i);
        crate::pattern::lemma_system_text_no_dot(c.subrange(i2 + 1, j2));
        assert forall|k: int| i2 < k < j2 implies c[k] != '.' by {
            assert(c.subrange(i2 + 1, j2)[k - i2 - 1] == c[k]);
        }
        assert(j2 == j);
    }
}

/// Law: a well-formed target's canonical text parses back to exactly that
/// target.
pub proof fn lemma_target_round_trip(d: DerivationView)
    requires
        target_wf(d),
    ensures
        target_parses_to(target_chars(d), d),
        forall|d2: DerivationView| target_parses_to(target_chars(d), d2) ==> d2 == d,
{
    reveal_strlit(".#");
    reveal_strlit(".");
    let s = target_chars(d);
    let c = target_core(s);
    assert(s[0] == '.' && s[1] == '#');
    assert(c =~= d.output + "."@ + system_chars(d.system) + "."@ + d.name);
    let i = d.output.len() as int;
    let j = i + 1 + system_chars(d.system).len();
    crate::platform::lemma_system_literals();
    crate::pattern::lemma_system_text_no_dot(system_chars(d.system));
    assert(c[i] == '.');
    assert(c[j] == '.');
    assert(d.output =~= c.subrange(0, i));
    assert(system_chars(d.system) =~= c.subrange(i + 1, j));
    crate::platform::lemma_platform_round_trip(d.system);
    assert(d.name =~= c.subrange(j + 1, c.len() as int));
    assert(target_split_at(s, d, i, j));
    assert forall|d2: DerivationView| target_parses_to(s, d2) implies d2 == d by {
        let (i2, j2): (int, int) = choose|i2: int, j2: int| target_split_at(s, d2, i2, j2);
        assert forall|k: int| 0 <= k < i implies c[k] != '.' by {
            assert(is_name_char(d.output[k]));
        }
        assert forall|k: int| i < k < j implies c[k] != '.' by {
            assert(system_chars(d.system)[k - i - 1] == c[k]);
        }
        lemma_core_split_unique(c, i, j);
        assert(core_split_at(c, d2, i2, j2));
        assert(i2 == i && j2 == j);
        assert(d2.output == c.subrange(0, i));
        assert(spec_system_of(c.subrange(i + 1, j)) == Some(d2.system));
        assert(d2.name == c.subrange(j + 1, c.len() as int));
    }
}

} // verus!
