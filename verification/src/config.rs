//! Run configuration: which output categories to build, which platforms
//! to build them for, the artifact-save rules, optional remote-cache
//! settings, and environment variables handed to builds.

use vstd::prelude::*;

use crate::pattern::{output_path_matches, OutputPath, Pattern, PatternView};
use crate::platform::{Arch, System, OS};
use crate::text::str_eq;

verus! {

/// General settings: where saved artifacts are collected.
#[derive(Debug)]
pub struct General {
    pub artifact_dir: String,
}

impl Default for General {
    fn default() -> (r: Self)
        ensures
            r.artifact_dir@ == "dist"@,
    {
        General { artifact_dir: "dist".to_owned() }
    }
}

/// The categories built when the configuration names none.
pub open spec fn default_output_chars() -> Seq<Seq<char>> {
    seq![
        "checks"@,
        "packages"@,
        "devShells"@,
        "homeConfigurations"@,
        "darwinConfigurations"@,
        "nixosConfigurations"@,
        "defaultPackage"@,
        "devShell"@,
    ]
}

pub fn default_outputs() -> (r: Vec<String>)
    ensures
        r@.len() == default_output_chars().len(),
        forall|i: int| 0 <= i < r@.len() ==> (#[trigger] r@[i])@ == default_output_chars()[i],
{
    let mut outputs: Vec<String> = Vec::new();
    outputs.push("checks".to_owned());
    outputs.push("packages".to_owned());
    outputs.push("devShells".to_owned());
    outputs.push("homeConfigurations".to_owned());
    outputs.push("darwinConfigurations".to_owned());
    outputs.push("nixosConfigurations".to_owned());
    outputs.push("defaultPackage".to_owned());
    outputs.push("devShell".to_owned());
    outputs
}

/// Build settings: categories, artifact rules, and the platform list
/// together with an architecture-by-OS cross-product.
#[derive(Debug)]
pub struct Build {
    pub outputs: Vec<String>,
    pub artifacts: Vec<OutputPath>,
    pub architectures: Vec<Arch>,
    pub os: Vec<OS>,
    pub systems: Vec<System>,
}

impl Default for Build {
    fn default() -> (r: Self)
        ensures
            r.outputs@.len() == default_output_chars().len(),
            forall|i: int|
                0 <= i < r.outputs@.len() ==> (#[trigger] r.outputs@[i])@
                    == default_output_chars()[i],
            r.artifacts@.len() == 1,
            r.artifacts@[0]@.top_level == PatternView::Specified("packages"@),
            r.artifacts@[0]@.system == PatternView::<System>::Any,
            r.artifacts@[0]@.name == PatternView::Not("formatter"@),
            r.architectures@ =~= Seq::<Arch>::empty(),
            r.os@ =~= Seq::<OS>::empty(),
            r.systems@ =~= seq![(System { os: OS::Linux, arch: Arch::X86 }), (System { os: OS::Darwin, arch: Arch::X86 })],
    {
        let mut artifacts: Vec<OutputPath> = Vec::new();
        artifacts.push(
            OutputPath {
                top_level: Pattern::Specified("packages".to_owned()),
                system: Pattern::Any,
                name: Pattern::Not("formatter".to_owned()),
            },
        );
        let mut systems: Vec<System> = Vec::new();
        systems.push(System::x86_linux());
        systems.push(System::x86_darwin());
        Build {
            outputs: default_outputs(),
            artifacts,
            os: Vec::new(),
            architectures: Vec::new(),
            systems,
        }
    }
}

/// Remote-cache settings.
#[derive(Debug)]
pub struct Cache {
    pub cache_name: String,
    pub publish: bool,
    pub pin: Vec<OutputPath>,
}

/// The whole run configuration.
#[derive(Debug)]
pub struct Config {
    pub general: General,
    pub cache: Option<Cache>,
    pub build: Build,
    pub env: Vec<(String, String)>,
}

impl Default for Config {
    fn default() -> (r: Self)
        ensures
            r.general.artifact_dir@ == "dist"@,
            r.cache is None,
            r.build.artifacts@.len() == 1,
            r.build.artifacts@[0]@.top_level == PatternView::Specified("packages"@),
            r.build.artifacts@[0]@.system == PatternView::<System>::Any,
            r.build.artifacts@[0]@.name == PatternView::Not("formatter"@),
            r.build.outputs@.len() == default_output_chars().len(),
            forall|i: int|
                0 <= i < r.build.outputs@.len() ==> (#[trigger] r.build.outputs@[i])@
                    == default_output_chars()[i],
            r.build.systems@ =~= seq![(System { os: OS::Linux, arch: Arch::X86 }), (System { os: OS::Darwin, arch: Arch::X86 })],
            r.env@ =~= Seq::<(String, String)>::empty(),
    {
        Config {
            general: Default::default(),
            cache: None,
            build: Default::default(),
            env: Vec::new(),
        }
    }
}

/// The save rule applied when no artifact rule is configured: archive
/// `packages`, on any platform, except the formatter.
pub open spec fn default_rule_matches(top_level: Seq<char>, name: Seq<char>) -> bool {
    top_level == "packages"@ && name != "formatter"@
}

/// Whether a target is archived: every configured rule must accept it,
/// and an empty rule list stands for exactly the default rule.
pub open spec fn save_policy(
    rules: Seq<OutputPath>,
    top_level: Seq<char>,
    system: System,
    name: Seq<char>,
) -> bool {
    if rules.len() == 0 {
        default_rule_matches(top_level, name)
    } else {
        forall|k: int|
            0 <= k < rules.len() ==> output_path_matches(
                (#[trigger] rules[k])@,
                top_level,
                system,
                name,
            )
    }
}

fn contains_system(v: &Vec<System>, s: System) -> (r: bool)
    ensures
        r == v@.contains(s),
{
    let mut i: usize = 0;
    while i < v.len()
        invariant
            i <= v@.len(),
            forall|j: int| 0 <= j < i ==> v@[j] != s,
        decreases v@.len() - i,
    {
        if v[i] == s {
            return true;
        }
        i = i + 1;
    }
    false
}

/// The platform is produced by a cross-product pair strictly before
/// position (`a_hi`, `o_hi`) in row-major order.
pub open spec fn in_cross_prefix(
    archs: Seq<Arch>,
    oss: Seq<OS>,
    s: System,
    a_hi: int,
    o_hi: int,
) -> bool {
    exists|a: int, o: int|
        0 <= a < archs.len() && 0 <= o < oss.len() && (a < a_hi || (a == a_hi && o < o_hi)) && s
            == (System { os: oss[o], arch: archs[a] })
}

/// The platform is produced by the architecture-by-OS cross-product.
pub open spec fn in_cross(archs: Seq<Arch>, oss: Seq<OS>, s: System) -> bool {
    exists|a: int, o: int|
        0 <= a < archs.len() && 0 <= o < oss.len() && s == (System { os: oss[o], arch: archs[a] })
}

impl Config {
    /// Whether successful builds are pushed to the remote cache.
    pub fn publish(&self) -> (r: bool)
        ensures
            r == (match self.cache {
                Some(c) => c.publish,
                None => false,
            }),
    {
        match &self.cache {
            Some(cache_settings) => cache_settings.publish,
            None => false,
        }
    }

    /// The configured cache name, if a cache section is present.
    pub fn cache(&self) -> (r: Option<&String>)
        ensures
            match (r, self.cache) {
                (Some(n), Some(c)) => n == c.cache_name,
                (None, None) => true,
                _ => false,
            },
    {
        match &self.cache {
            Some(cache_settings) => Some(&cache_settings.cache_name),
            None => None,
        }
    }

    /// The configured cache pin rules, or none without a cache section.
    pub fn pins(&self) -> (r: Vec<OutputPath>)
        ensures
            match self.cache {
                Some(c) => r@.len() == c.pin@.len() && (forall|k: int|
                    0 <= k < r@.len() ==> (#[trigger] r@[k])@ == c.pin@[k]@),
                None => r@.len() == 0,
            },
    {
        match &self.cache {
            Some(cache_settings) => {
                let mut out: Vec<OutputPath> = Vec::new();
                let n = cache_settings.pin.len();
                let mut i: usize = 0;
                while i < n
                    invariant
                        i <= n,
                        n == cache_settings.pin@.len(),
                        out@.len() == i,
                        forall|k: int|
                            0 <= k < i ==> (#[trigger] out@[k])@ == cache_settings.pin@[k]@,
                    decreases n - i,
                {
                    out.push(cache_settings.pin[i].duplicate());
                    i = i + 1;
                }
                out
            },
            None => Vec::new(),
        }
    }

    /// Where saved artifacts are collected.
    pub fn artifact_dir(&self) -> (r: &String)
        ensures
            r == self.general.artifact_dir,
    {
        &self.general.artifact_dir
    }

    /// The environment variables passed through to builds.
    pub fn env(&self) -> (r: &Vec<(String, String)>)
        ensures
            r == self.env,
    {
        &self.env
    }

    /// The output categories to build, in configured order.
    pub fn build_outputs(&self) -> (r: &Vec<String>)
        ensures
            r == self.build.outputs,
    {
        &self.build.outputs
    }

    /// The set of platforms to build: the explicit list united with the
    /// architecture-by-OS cross-product, without duplicates, in first
    /// appearance order.
    pub fn systems(&self) -> (r: Vec<System>)
        ensures
            r@.no_duplicates(),
            forall|s: System|
                #[trigger] r@.contains(s) <==> (self.build.systems@.contains(s) || in_cross(
                    self.build.architectures@,
                    self.build.os@,
                    s,
                )),
    {
        let mut out: Vec<System> = Vec::new();
        let n = self.build.systems.len();
        let mut i: usize = 0;
        while i < n
            invariant
                i <= n,
                n == self.build.systems@.len(),
                out@.no_duplicates(),
                forall|s: System|
                    #[trigger] out@.contains(s) <==> self.build.systems@.take(i as int).contains(
                        s,
                    ),
            decreases n - i,
        {
            let sys = self.build.systems[i];
            let ghost out0 = out@;
            if !contains_system(&out, sys) {
                out.push(sys);
            }
            proof {
                broadcast use vstd::seq_lib::lemma_seq_contains_after_push;

                let pre = self.build.systems@.take(i as int);
                let pre1 = self.build.systems@.take(i + 1);
                assert(pre1 =~= pre.push(sys));
                if out0.contains(sys) {
                    assert(out@ == out0);
                } else {
                    assert(out@ == out0.push(sys));
                }
                assert forall|s: System| #[trigger] out@.contains(s) <==> pre1.contains(s) by {
                    assert(pre1.contains(s) == pre.push(sys).contains(s));
                    if out0.contains(sys) && s == sys {
                        assert(out0.contains(s));
                    }
                }
            }
            i = i + 1;
        }
        proof {
            assert(self.build.systems@.take(n as int) =~= self.build.systems@);
        }
        let na = self.build.architectures.len();
        let no = self.build.os.len();
        let mut a: usize = 0;
        while a < na
            invariant
                a <= na,
                na == self.build.architectures@.len(),
                no == self.build.os@.len(),
                out@.no_duplicates(),
                forall|s: System|
                    #[trigger] out@.contains(s) <==> (self.build.systems@.contains(s)
                        || in_cross_prefix(
                        self.build.architectures@,
                        self.build.os@,
                        s,
                        a as int,
                        0,
                    )),
            decreases na - a,
        {
            let arch = self.build.architectures[a];
            let mut o: usize = 0;
            while o < no
                invariant
                    a < na,
                    o <= no,
                    na == self.build.architectures@.len(),
                    no == self.build.os@.len(),
                    arch == self.build.architectures@[a as int],
                    out@.no_duplicates(),
                    forall|s: System|
                        #[trigger] out@.contains(s) <==> (self.build.systems@.contains(s)
                            || in_cross_prefix(
                            self.build.architectures@,
                            self.build.os@,
                            s,
                            a as int,
                            o as int,
                        )),
                decreases no - o,
            {
                let sys = System { arch, os: self.build.os[o] };
                let ghost out0 = out@;
                if !contains_system(&out, sys) {
                    out.push(sys);
                }
                proof {
                    broadcast use vstd::seq_lib::lemma_seq_contains_after_push;

                    let archs = self.build.architectures@;
                    let oss = self.build.os@;
                    if out0.contains(sys) {
                        assert(out@ == out0);
                    } else {
                        assert(out@ == out0.push(sys));
                    }
                    assert forall|s: System| #[trigger] out@.contains(s) <==> (
                    self.build.systems@.contains(s) || in_cross_prefix(
                        archs,
                        oss,
                        s,
                        a as int,
                        o + 1,
                    )) by {
                        if s == sys {
                            assert(out@.contains(sys)) by {
                                if !out0.contains(sys) {
                                    assert(out@.last() == sys);
                                }
                            }
                            assert(in_cross_prefix(archs, oss, s, a as int, o + 1)) by {
                                assert(0 <= (a as int) < archs.len() && 0 <= (o as int)
                                    < oss.len() && s == (System {
                                    os: oss[o as int],
                                    arch: archs[a as int],
                                }));
                            }
                        } else {
                            assert(out@.contains(s) <==> out0.contains(s));
                            if in_cross_prefix(archs, oss, s, a as int, o + 1)
                                && !in_cross_prefix(archs, oss, s, a as int, o as int) {
                                let (a2, o2): (int, int) = choose|a2: int, o2: int|
                                    0 <= a2 < archs.len() && 0 <= o2 < oss.len() && (a2 < a || (a2
                                        == a && o2 < o + 1)) && s == (System {
                                        os: oss[o2],
                                        arch: archs[a2],
                                    });
                                assert(a2 == a && o2 == o);
                                assert(s == sys);
                            }
                        }
                    }
                }
                o = o + 1;
            }
            proof {
                let archs = self.build.architectures@;
                let oss = self.build.os@;
                assert forall|s: System|
                    in_cross_prefix(archs, oss, s, a as int, no as int) implies in_cross_prefix(
                    archs,
                    oss,
                    s,
                    a + 1,
                    0,
                ) by {
                    let (a2, o2): (int, int) = choose|a2: int, o2: int|
                        0 <= a2 < archs.len() && 0 <= o2 < oss.len() && (a2 < a || (a2 == a && o2
                            < no)) && s == (System { os: oss[o2], arch: archs[a2] });
                    assert(a2 < a + 1);
                }
                assert forall|s: System|
                    in_cross_prefix(archs, oss, s, a + 1, 0) implies in_cross_prefix(
                    archs,
                    oss,
                    s,
                    a as int,
                    no as int,
                ) by {
                    let (a2, o2): (int, int) = choose|a2: int, o2: int|
                        0 <= a2 < archs.len() && 0 <= o2 < oss.len() && (a2 < a + 1 || (a2 == a + 1
                            && o2 < 0)) && s == (System { os: oss[o2], arch: archs[a2] });
                    assert(a2 <= a);
                    assert(o2 < oss.len());
                }
            }
            a = a + 1;
        }
        proof {
            let archs = self.build.architectures@;
            let oss = self.build.os@;
            assert forall|s: System|
                in_cross(archs, oss, s) implies in_cross_prefix(archs, oss, s, na as int, 0) by {
                let (a2, o2): (int, int) = choose|a2: int, o2: int|
                    0 <= a2 < archs.len() && 0 <= o2 < oss.len() && s == (System {
                        os: oss[o2],
                        arch: archs[a2],
                    });
                assert(a2 < na);
            }
        }
        out
    }

    /// Whether a successful build of the given target has its artifact
    /// archived: every configured rule must accept it, and an empty rule
    /// list stands for the default rule.
    pub fn save_artifact(&self, top_level: &String, system: System, name: &String) -> (r: bool)
        ensures
            r == save_policy(self.build.artifacts@, top_level@, system, name@),
    {
        let n = self.build.artifacts.len();
        if n == 0 {
            return str_eq(top_level.as_str(), "packages") && !str_eq(name.as_str(), "formatter");
        }
        let mut k: usize = 0;
        while k < n
            invariant
                k <= n,
                n == self.build.artifacts@.len(),
                forall|t: int|
                    0 <= t < k ==> output_path_matches(
                        (#[trigger] self.build.artifacts@[t])@,
                        top_level@,
                        system,
                        name@,
                    ),
            decreases n - k,
        {
            if !self.build.artifacts[k].matches(top_level, system, name) {
                return false;
            }
            k = k + 1;
        }
        true
    }
}

} // verus!
