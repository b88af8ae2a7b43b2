//! The configuration pattern language: a component is a literal, the
//! wildcard `*`, or a negated literal `!x`; an output-path rule is three
//! dot-separated components `category.platform.name` used for
//! artifact-save filtering.

use vstd::prelude::*;
use vstd::string::StrSliceExecFns;

use crate::error::ParseError;
use crate::platform::{parse_system, spec_system_of, System};
use crate::text::{check_name, find_char, is_name, is_name_char, str_eq};

verus! {

/// A match expression over values of one kind.
#[derive(Debug, Clone, PartialEq, Eq)]
pub enum Pattern<T> {
    /// Matches every value.
    Any,
    /// Matches everything except the carried value.
    Not(T),
    /// Matches exactly the carried value.
    Specified(T),
}

/// The mathematical shape of a pattern, over the carried values' views.
pub enum PatternView<V> {
    Any,
    Not(V),
    Specified(V),
}

impl<T: View> View for Pattern<T> {
    type V = PatternView<<T as View>::V>;

    open spec fn view(&self) -> PatternView<<T as View>::V> {
        match self {
            Pattern::Any => PatternView::Any,
            Pattern::Not(x) => PatternView::Not(x@),
            Pattern::Specified(x) => PatternView::Specified(x@),
        }
    }
}

/// What it means for a pattern to accept a value.
pub open spec fn pattern_matches<V>(p: PatternView<V>, v: V) -> bool {
    match p {
        PatternView::Any => true,
        PatternView::Not(x) => v != x,
        PatternView::Specified(x) => v == x,
    }
}

/// Law: the wildcard accepts everything; a literal accepts exactly itself
/// and nothing else; a negation accepts exactly everything else.
pub proof fn lemma_pattern_matches<V>(v: V, w: V)
    ensures
        pattern_matches(PatternView::Any, w),
        pattern_matches(PatternView::Specified(v), w) <==> v == w,
        pattern_matches(PatternView::Not(v), w) <==> v != w,
{
}

impl Pattern<System> {
    /// Whether this platform pattern accepts the given platform.
    pub fn matches(&self, other: &System) -> (r: bool)
        ensures
            r == pattern_matches(self@, *other),
    {
        match self {
            Pattern::Any => true,
            Pattern::Not(p) => *other != *p,
            Pattern::Specified(p) => *other == *p,
        }
    }
}

impl Pattern<String> {
    /// Whether this name pattern accepts the given name.
    pub fn matches(&self, other: &String) -> (r: bool)
        ensures
            r == pattern_matches(self@, other@),
    {
        match self {
            Pattern::Any => true,
            Pattern::Not(p) => !str_eq(p.as_str(), other.as_str()),
            Pattern::Specified(p) => str_eq(p.as_str(), other.as_str()),
        }
    }

    /// An exact copy.
    pub fn duplicate(&self) -> (r: Self)
        ensures
            r@ == self@,
    {
        match self {
            Pattern::Any => Pattern::Any,
            Pattern::Not(p) => Pattern::Not(p.clone()),
            Pattern::Specified(p) => Pattern::Specified(p.clone()),
        }
    }
}

/// The name pattern a component denotes, if any: `*`, `!name`, or a name.
pub open spec fn spec_name_pattern(s: Seq<char>) -> Option<PatternView<Seq<char>>> {
    if s == seq!['*'] {
        Some(PatternView::Any)
    } else if s.len() >= 1 && s[0] == '!' && is_name(s.skip(1)) {
        Some(PatternView::Not(s.skip(1)))
    } else if is_name(s) {
        Some(PatternView::Specified(s))
    } else {
        None
    }
}

/// The platform pattern a component denotes, if any: `*`, `!platform`, or
/// a platform.
pub open spec fn spec_system_pattern(s: Seq<char>) -> Option<PatternView<System>> {
    if s == seq!['*'] {
        Some(PatternView::Any)
    } else if s.len() >= 1 && s[0] == '!' {
        match spec_system_of(s.skip(1)) {
            Some(sys) => Some(PatternView::Not(sys)),
            None => None,
        }
    } else {
        match spec_system_of(s) {
            Some(sys) => Some(PatternView::Specified(sys)),
            None => None,
        }
    }
}

/// Parses one name-pattern component.
pub fn parse_name_pattern(comp: &str) -> (r: Option<Pattern<String>>)
    ensures
        match r {
            Some(p) => spec_name_pattern(comp@) == Some(p@),
            None => spec_name_pattern(comp@) is None,
        },
{
    let len = comp.unicode_len();
    if len == 1 && comp.get_char(0) == '*' {
        proof {
            assert(comp@ =~= seq!['*']);
        }
        return Some(Pattern::Any);
    }
    proof {
        assert(comp@ != seq!['*']);
    }
    if len >= 1 && comp.get_char(0) == '!' {
        let rest = comp.substring_char(1, len);
        proof {
            assert(rest@ == comp@.skip(1));
        }
        if check_name(rest) {
            return Some(Pattern::Not(rest.to_owned()));
        }
        proof {
            assert(!is_name(comp@));
        }
        return None;
    }
    if check_name(comp) {
        return Some(Pattern::Specified(comp.to_owned()));
    }
    None
}

/// Parses one platform-pattern component.
pub fn parse_system_pattern(comp: &str) -> (r: Option<Pattern<System>>)
    ensures
        match r {
            Some(p) => spec_system_pattern(comp@) == Some(p@),
            None => spec_system_pattern(comp@) is None,
        },
{
    let len = comp.unicode_len();
    if len == 1 && comp.get_char(0) == '*' {
        proof {
            assert(comp@ =~= seq!['*']);
        }
        return Some(Pattern::Any);
    }
    proof {
        assert(comp@ != seq!['*']);
    }
    if len >= 1 && comp.get_char(0) == '!' {
        let rest = comp.substring_char(1, len);
        proof {
            assert(rest@ == comp@.skip(1));
        }
        return match parse_system(rest) {
            Some(sys) => Some(Pattern::Not(sys)),
            None => None,
        };
    }
    match parse_system(comp) {
        Some(sys) => Some(Pattern::Specified(sys)),
        None => None,
    }
}

/// An artifact-save rule: category pattern, platform pattern, name
/// pattern, all of which must accept a target for the rule to accept it.
#[derive(Debug, Clone, PartialEq, Eq)]
pub struct OutputPath {
    pub top_level: Pattern<String>,
    pub system: Pattern<System>,
    pub name: Pattern<String>,
}

/// The mathematical shape of an output-path rule.
pub struct OutputPathView {
    pub top_level: PatternView<Seq<char>>,
    pub system: PatternView<System>,
    pub name: PatternView<Seq<char>>,
}

impl View for OutputPath {
    type V = OutputPathView;

    open spec fn view(&self) -> OutputPathView {
        OutputPathView { top_level: self.top_level@, system: self.system@, name: self.name@ }
    }
}

/// A rule accepts a target when all three components accept it.
pub open spec fn output_path_matches(
    p: OutputPathView,
    top_level: Seq<char>,
    system: System,
    name: Seq<char>,
) -> bool {
    &&& pattern_matches(p.top_level, top_level)
    &&& pattern_matches(p.system, system)
    &&& pattern_matches(p.name, name)
}

impl OutputPath {
    /// Whether this rule accepts the given target.
    pub fn matches(&self, top_level: &String, system: System, name: &String) -> (r: bool)
        ensures
            r == output_path_matches(self@, top_level@, system, name@),
    {
        self.top_level.matches(top_level) && self.system.matches(&system) && self.name.matches(
            name,
        )
    }

    /// An exact copy.
    pub fn duplicate(&self) -> (r: Self)
        ensures
            r@ == self@,
    {
        OutputPath {
            top_level: self.top_level.duplicate(),
            system: match &self.system {
                Pattern::Any => Pattern::Any,
                Pattern::Not(sys) => Pattern::Not(*sys),
                Pattern::Specified(sys) => Pattern::Specified(*sys),
            },
            name: self.name.duplicate(),
        }
    }
}

/// The text splits as `A.B.C` at positions `i` and `j` into the three
/// components of `v`.
pub open spec fn output_path_split_at(s: Seq<char>, v: OutputPathView, i: int, j: int) -> bool {
    &&& 0 <= i < j < s.len()
    &&& s[i] == '.'
    &&& s[j] == '.'
    &&& spec_name_pattern(s.subrange(0, i)) == Some(v.top_level)
    &&& spec_system_pattern(s.subrange(i + 1, j)) == Some(v.system)
    &&& spec_name_pattern(s.subrange(j + 1, s.len() as int)) == Some(v.name)
}

/// The text denotes the rule `v`: it splits into three valid components.
/// Component texts never contain a dot, so the split is unique.
pub open spec fn output_path_parses_to(s: Seq<char>, v: OutputPathView) -> bool {
    exists|i: int, j: int| output_path_split_at(s, v, i, j)
}

/// A valid name-pattern component contains no dot.
pub proof fn lemma_name_pattern_no_dot(t: Seq<char>)
    requires
        spec_name_pattern(t) is Some,
    ensures
        forall|k: int| 0 <= k < t.len() ==> t[k] != '.',
{
    if t == seq!['*'] {
        assert forall|k: int| 0 <= k < t.len() implies t[k] != '.' by {
            assert(t[0] == '*');
        }
    } else if t.len() >= 1 && t[0] == '!' && is_name(t.skip(1)) {
        assert forall|k: int| 0 <= k < t.len() implies t[k] != '.' by {
            if k > 0 {
                assert(is_name_char(t.skip(1)[k - 1]));
                assert(t.skip(1)[k - 1] == t[k]);
            }
        }
    } else {
        assert forall|k: int| 0 <= k < t.len() implies t[k] != '.' by {
            assert(is_name_char(t[k]));
        }
    }
}

/// A canonical platform text contains no dot.
pub proof fn lemma_system_text_no_dot(u: Seq<char>)
    requires
        spec_system_of(u) is Some,
    ensures
        forall|k: int| 0 <= k < u.len() ==> u[k] != '.',
{
    crate::platform::lemma_system_literals();
    reveal_strlit("x86_64-linux");
    reveal_strlit("aarch64-linux");
    reveal_strlit("x86_64-darwin");
    reveal_strlit("aarch64-darwin");
    reveal_strlit("x86_64-windows");
    reveal_strlit("aarch64-windows");
}

/// A valid platform-pattern component contains no dot.
pub proof fn lemma_system_pattern_no_dot(t: Seq<char>)
    requires
        spec_system_pattern(t) is Some,
    ensures
        forall|k: int| 0 <= k < t.len() ==> t[k] != '.',
{
    if t == seq!['*'] {
        assert forall|k: int| 0 <= k < t.len() implies t[k] != '.' by {
            assert(t[0] == '*');
        }
    } else if t.len() >= 1 && t[0] == '!' {
        lemma_system_text_no_dot(t.skip(1));
        assert forall|k: int| 0 <= k < t.len() implies t[k] != '.' by {
            if k > 0 {
                assert(t.skip(1)[k - 1] == t[k]);
            }
        }
    } else {
        lemma_system_text_no_dot(t);
    }
}

/// In any valid split of `s`, the two separators are the first dot and
/// the first dot after it.
proof fn lemma_split_unique(s: Seq<char>, v: OutputPathView, i: int, j: int, i2: int, j2: int)
    requires
        output_path_split_at(s, v, i2, j2),
        0 <= i < s.len(),
        s[i] == '.',
        forall|k: int| 0 <= k < i ==> s[k] != '.',
        i < j < s.len(),
        s[j] == '.',
        forall|k: int| i < k < j ==> s[k] != '.',
    ensures
        i2 == i,
        j2 == j,
{
    lemma_name_pattern_no_dot(s.subrange(0, i2));
    assert forall|k: int| 0 <= k < i2 implies s[k] != '.' by {
        assert(s.subrange(0, i2)[k] == s[k]);
    }
    assert(i2 == i);
    lemma_system_pattern_no_dot(s.subrange(i2 + 1, j2));
    assert forall|k: int| i2 < k < j2 implies s[k] != '.' by {
        assert(s.subrange(i2 + 1, j2)[k - i2 - 1] == s[k]);
    }
    assert(j2 == j);
}

impl OutputPath {
    /// Parses the dotted rule syntax `category.platform.name`, where each
    /// component is a literal, `*`, or `!literal`.  Exactly the texts that
    /// split into three valid components are accepted.
    pub fn from_text(s: &str) -> (r: Result<OutputPath, ParseError>)
        ensures
            match r {
                Ok(op) => output_path_parses_to(s@, op@),
                Err(e) => (forall|v: OutputPathView| !output_path_parses_to(s@, v)) && e.input@
                    == s@,
            },
    {
        let len = s.unicode_len();
        let i = match find_char(s, 0, '.') {
            Some(i) => i,
            None => {
                proof {
                    assert forall|v: OutputPathView| !output_path_parses_to(s@, v) by {
                        if output_path_parses_to(s@, v) {
                            let (i2, j2): (int, int) = choose|i2: int, j2: int|
                                output_path_split_at(s@, v, i2, j2);
                            assert(s@[i2] == '.');
                        }
                    }
                }
                return Err(
                    ParseError::new(
                        "expected three dot-separated components".to_owned(),
                        s.to_owned(),
                        0,
                        len,
                    ),
                );
            },
        };
        let j = match find_char(s, i + 1, '.') {
            Some(j) => j,
            None => {
                proof {
                    assert forall|v: OutputPathView| !output_path_parses_to(s@, v) by {
                        if output_path_parses_to(s@, v) {
                            let (i2, j2): (int, int) = choose|i2: int, j2: int|
                                output_path_split_at(s@, v, i2, j2);
                            lemma_name_pattern_no_dot(s@.subrange(0, i2));
                            assert forall|k: int| 0 <= k < i2 implies s@[k] != '.' by {
                                assert(s@.subrange(0, i2)[k] == s@[k]);
                            }
                            assert(i2 == i);
                            assert(s@[j2] == '.');
                        }
                    }
                }
                return Err(
                    ParseError::new(
                        "expected three dot-separated components".to_owned(),
                        s.to_owned(),
                        i,
                        len,
                    ),
                );
            },
        };
        let top_level = parse_name_pattern(s.substring_char(0, i));
        let system = parse_system_pattern(s.substring_char(i + 1, j));
        let name = parse_name_pattern(s.substring_char(j + 1, len));
        proof {
            assert(s@.subrange(0, i as int) == s@.subrange(0, i as int));
        }
        match (top_level, system, name) {
            (Some(top_level), Some(system), Some(name)) => {
                let op = OutputPath { top_level, system, name };
                proof {
                    assert(output_path_split_at(s@, op@, i as int, j as int));
                }
                Ok(op)
            },
            (t, sy, nm) => {
                let span_start: usize = if t.is_none() {
                    0
                } else if sy.is_none() {
                    i + 1
                } else {
                    j + 1
                };
                let span_end: usize = if t.is_none() {
                    i
                } else if sy.is_none() {
                    j
                } else {
                    len
                };
                proof {
                    assert forall|v: OutputPathView| !output_path_parses_to(s@, v) by {
                        if output_path_parses_to(s@, v) {
                            let (i2, j2): (int, int) = choose|i2: int, j2: int|
                                output_path_split_at(s@, v, i2, j2);
                            lemma_split_unique(s@, v, i as int, j as int, i2, j2);
                        }
                    }
                }
                Err(
                    ParseError::new(
                        "expected a pattern: a name, `*`, or `!` and a name".to_owned(),
                        s.to_owned(),
                        span_start,
                        span_end,
                    ),
                )
            },
        }
    }
}

} // verus!
