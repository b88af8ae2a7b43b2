//! Run summary: accumulates, per output category, the skipped, succeeded,
//! failed and blocked targets of one run.  The core only writes into it;
//! rendering happens outside the library.
//!
//! Categories are kept as an association list in first-registration
//! order, one entry per category.

use vstd::prelude::*;

verus! {

/// First entry whose key reads as `k`.
pub open spec fn key_index<T>(m: Seq<(String, Vec<T>)>, k: Seq<char>) -> Option<int>
    decreases m.len(),
{
    if m.len() == 0 {
        None
    } else if m[0].0@ == k {
        Some(0)
    } else {
        match key_index(m.skip(1), k) {
            Some(i) => Some(i + 1),
            None => None,
        }
    }
}

pub proof fn lemma_key_index<T>(m: Seq<(String, Vec<T>)>, k: Seq<char>)
    ensures
        match key_index(m, k) {
            Some(i) => 0 <= i < m.len() && m[i].0@ == k && (forall|j: int|
                0 <= j < i ==> (#[trigger] m[j]).0@ != k),
            None => forall|j: int| 0 <= j < m.len() ==> (#[trigger] m[j]).0@ != k,
        },
    decreases m.len(),
{
    if m.len() != 0 && m[0].0@ != k {
        lemma_key_index(m.skip(1), k);
        let t = m.skip(1);
        assert(forall|j: int| 0 <= j < t.len() ==> t[j] == m[j + 1]);
        match key_index(t, k) {
            Some(i) => {
                assert forall|j: int| 0 <= j < i + 1 implies (#[trigger] m[j]).0@ != k by {
                    if j > 0 {
                        assert(m[j] == t[j - 1]);
                    }
                }
            },
            None => {
                assert forall|j: int| 0 <= j < m.len() implies (#[trigger] m[j]).0@ != k by {
                    if j > 0 {
                        assert(m[j] == t[j - 1]);
                    }
                }
            },
        }
    }
}

/// The fieldwise effect of registering `job` under `name`: appended to
/// the existing entry for that category, or opening a new entry.
pub open spec fn registered<T>(
    m0: Seq<(String, Vec<T>)>,
    m1: Seq<(String, Vec<T>)>,
    name: Seq<char>,
    job: T,
) -> bool {
    match key_index(m0, name) {
        Some(i) => {
            &&& m1.len() == m0.len()
            &&& (forall|t: int| 0 <= t < m0.len() && t != i ==> m1[t] == m0[t])
            &&& m1[i].0 == m0[i].0
            &&& m1[i].1@ == m0[i].1@.push(job)
        },
        None => {
            &&& m1.len() == m0.len() + 1
            &&& (forall|t: int| 0 <= t < m0.len() ==> m1[t] == m0[t])
            &&& m1[m0.len() as int].0@ == name
            &&& m1[m0.len() as int].1@ == seq![job]
        },
    }
}

/// Appends `job` under `name`, keeping one entry per category.
fn register<T>(map: &mut Vec<(String, Vec<T>)>, output_name: &str, job: T)
    ensures
        registered(old(map)@, final(map)@, output_name@, job),
{
    proof {
        lemma_key_index(map@, output_name@);
    }
    let n = map.len();
    let mut i: usize = 0;
    while i < n
        invariant
            i <= n,
            n == map@.len(),
            map@ == old(map)@,
            forall|j: int| 0 <= j < i ==> (#[trigger] map@[j]).0@ != output_name@,
        decreases n - i,
    {
        if crate::text::str_eq(map[i].0.as_str(), output_name) {
            proof {
                lemma_key_index(map@, output_name@);
            }
            map[i].1.push(job);
            proof {
                assert(key_index(old(map)@, output_name@) == Some(i as int));
            }
            return ;
        }
        i = i + 1;
    }
    let mut jobs: Vec<T> = Vec::new();
    jobs.push(job);
    map.push((output_name.to_owned(), jobs));
}

/// Accumulated results of one run, grouped by output category.
#[derive(Debug)]
pub struct Summary {
    /// The directory the run was started from, for rendering paths.
    pub cwd: String,
    /// Categories the evaluator reported as absent.
    pub skipped_outputs: Vec<String>,
    /// Per category: built targets, with the saved artifact link if any.
    pub successes: Vec<(String, Vec<(String, Option<String>)>)>,
    /// Per category: failed targets, with a log-inspection hint.
    pub fails: Vec<(String, Vec<(String, String)>)>,
    /// Per category: targets skipped by a dry run.
    pub skips: Vec<(String, Vec<String>)>,
    /// Per category: blocked targets, with the prerequisite that failed.
    pub blocks: Vec<(String, Vec<(String, String)>)>,
    pub nix_version: String,
    pub cachix_version: Option<String>,
    pub git_revision: String,
    pub width: usize,
}

impl Summary {
    pub fn new(
        cwd: String,
        nix_version: String,
        cachix_version: Option<String>,
        git_revision: String,
        width: usize,
    ) -> (r: Self)
        ensures
            r.cwd == cwd,
            r.skipped_outputs@ =~= Seq::<String>::empty(),
            r.successes@ =~= Seq::<(String, Vec<(String, Option<String>)>)>::empty(),
            r.fails@ =~= Seq::<(String, Vec<(String, String)>)>::empty(),
            r.skips@ =~= Seq::<(String, Vec<String>)>::empty(),
            r.blocks@ =~= Seq::<(String, Vec<(String, String)>)>::empty(),
            r.nix_version == nix_version,
            r.cachix_version == cachix_version,
            r.git_revision == git_revision,
            r.width == width,
    {
        Summary {
            cwd,
            skipped_outputs: Vec::new(),
            successes: Vec::new(),
            fails: Vec::new(),
            skips: Vec::new(),
            blocks: Vec::new(),
            nix_version,
            cachix_version,
            git_revision,
            width,
        }
    }

    /// Records that the evaluator reported a whole category as absent.
    pub fn skip_output(&mut self, output: &str)
        ensures
            final(self).skipped_outputs@.len() == old(self).skipped_outputs@.len() + 1,
            forall|t: int|
                0 <= t < old(self).skipped_outputs@.len() ==> final(self).skipped_outputs@[t]
                    == old(self).skipped_outputs@[t],
            final(self).skipped_outputs@.last()@ == output@,
            final(self).successes == old(self).successes,
            final(self).fails == old(self).fails,
            final(self).skips == old(self).skips,
            final(self).blocks == old(self).blocks,
            final(self).cwd == old(self).cwd,
            final(self).nix_version == old(self).nix_version,
            final(self).cachix_version == old(self).cachix_version,
            final(self).git_revision == old(self).git_revision,
            final(self).width == old(self).width,
    {
        self.skipped_outputs.push(output.to_owned());
    }

    /// Records a built target, with its saved artifact link if one was
    /// materialized.
    pub fn register_success(&mut self, output_name: &str, job_name: String, artifact: Option<String>)
        ensures
            registered(old(self).successes@, final(self).successes@, output_name@, (job_name, artifact)),
            final(self).skipped_outputs == old(self).skipped_outputs,
            final(self).fails == old(self).fails,
            final(self).skips == old(self).skips,
            final(self).blocks == old(self).blocks,
            final(self).cwd == old(self).cwd,
            final(self).nix_version == old(self).nix_version,
            final(self).cachix_version == old(self).cachix_version,
            final(self).git_revision == old(self).git_revision,
            final(self).width == old(self).width,
    {
        register(&mut self.successes, output_name, (job_name, artifact));
    }

    /// Records a failed target together with a log-inspection hint.
    pub fn register_fail(&mut self, output_name: &str, job_name: String, log_command: String)
        ensures
            registered(old(self).fails@, final(self).fails@, output_name@, (job_name, log_command)),
            final(self).skipped_outputs == old(self).skipped_outputs,
            final(self).successes == old(self).successes,
            final(self).skips == old(self).skips,
            final(self).blocks == old(self).blocks,
            final(self).cwd == old(self).cwd,
            final(self).nix_version == old(self).nix_version,
            final(self).cachix_version == old(self).cachix_version,
            final(self).git_revision == old(self).git_revision,
            final(self).width == old(self).width,
    {
        register(&mut self.fails, output_name, (job_name, log_command));
    }

    /// Records a target skipped by a dry run.
    pub fn register_skip(&mut self, output_name: &str, job_name: String)
        ensures
            registered(old(self).skips@, final(self).skips@, output_name@, job_name),
            final(self).skipped_outputs == old(self).skipped_outputs,
            final(self).successes == old(self).successes,
            final(self).fails == old(self).fails,
            final(self).blocks == old(self).blocks,
            final(self).cwd == old(self).cwd,
            final(self).nix_version == old(self).nix_version,
            final(self).cachix_version == old(self).cachix_version,
            final(self).git_revision == old(self).git_revision,
            final(self).width == old(self).width,
    {
        register(&mut self.skips, output_name, job_name);
    }

    /// Records a target blocked by a failed prerequisite.
    pub fn register_blocked(&mut self, output_name: &str, job_name: String, pre_rec: String)
        ensures
            registered(old(self).blocks@, final(self).blocks@, output_name@, (job_name, pre_rec)),
            final(self).skipped_outputs == old(self).skipped_outputs,
            final(self).successes == old(self).successes,
            final(self).fails == old(self).fails,
            final(self).skips == old(self).skips,
            final(self).cwd == old(self).cwd,
            final(self).nix_version == old(self).nix_version,
            final(self).cachix_version == old(self).cachix_version,
            final(self).git_revision == old(self).git_revision,
            final(self).width == old(self).width,
    {
        register(&mut self.blocks, output_name, (job_name, pre_rec));
    }
}

/// The association list seen through views: keys as character sequences,
/// values as their deep views.
pub open spec fn assoc_deep<T: DeepView>(m: Seq<(String, Vec<T>)>) -> Seq<(Seq<char>, Seq<<T as DeepView>::V>)> {
    m.map_values(|e: (String, Vec<T>)| (e.0@, e.1.deep_view()))
}

/// First entry of a view-level association list with key `k`.
pub open spec fn key_index_v<V>(m: Seq<(Seq<char>, Seq<V>)>, k: Seq<char>) -> Option<int>
    decreases m.len(),
{
    if m.len() == 0 {
        None
    } else if m[0].0 == k {
        Some(0)
    } else {
        match key_index_v(m.skip(1), k) {
            Some(i) => Some(i + 1),
            None => None,
        }
    }
}

/// Registering at the view level: a total function, so contracts built on
/// it stay free of existentials.
pub open spec fn register_v<V>(m: Seq<(Seq<char>, Seq<V>)>, k: Seq<char>, v: V) -> Seq<
    (Seq<char>, Seq<V>),
> {
    match key_index_v(m, k) {
        Some(i) => m.update(i, (m[i].0, m[i].1.push(v))),
        None => m.push((k, seq![v])),
    }
}

proof fn lemma_key_index_deep<T: DeepView>(m: Seq<(String, Vec<T>)>, k: Seq<char>)
    ensures
        key_index_v(assoc_deep(m), k) == key_index(m, k),
    decreases m.len(),
{
    if m.len() != 0 {
        assert(assoc_deep(m).len() == m.len());
        assert(assoc_deep(m)[0].0 == m[0].0@);
        if m[0].0@ != k {
            lemma_key_index_deep(m.skip(1), k);
            assert(assoc_deep(m).skip(1) =~= assoc_deep(m.skip(1))) by {
                assert forall|i: int|
                    0 <= i < assoc_deep(m).skip(1).len() implies assoc_deep(m).skip(1)[i]
                    == assoc_deep(m.skip(1))[i] by {
                    assert(m.skip(1)[i] == m[i + 1]);
                }
            }
        }
    }
}

/// The fieldwise effect of `register` carries over to the view level.
pub proof fn lemma_registered_deep<T: DeepView>(
    m0: Seq<(String, Vec<T>)>,
    m1: Seq<(String, Vec<T>)>,
    k: Seq<char>,
    v: T,
)
    requires
        registered(m0, m1, k, v),
    ensures
        assoc_deep(m1) == register_v(assoc_deep(m0), k, v.deep_view()),
    decreases m0.len(),
{
    lemma_key_index_deep(m0, k);
    lemma_key_index(m0, k);
    match key_index(m0, k) {
        Some(i) => {
            assert(assoc_deep(m1) =~= register_v(assoc_deep(m0), k, v.deep_view())) by {
                assert forall|t: int| 0 <= t < m1.len() implies assoc_deep(m1)[t] == register_v(
                    assoc_deep(m0),
                    k,
                    v.deep_view(),
                )[t] by {
                    if t == i {
                        assert(m1[i].1@ == m0[i].1@.push(v));
                        assert(m1[i].1.deep_view() =~= m0[i].1.deep_view().push(v.deep_view()));
                    } else {
                        assert(m1[t] == m0[t]);
                    }
                }
            }
        },
        None => {
            assert(assoc_deep(m1) =~= register_v(assoc_deep(m0), k, v.deep_view())) by {
                assert forall|t: int| 0 <= t < m1.len() implies assoc_deep(m1)[t] == register_v(
                    assoc_deep(m0),
                    k,
                    v.deep_view(),
                )[t] by {
                    if t < m0.len() {
                        assert(m1[t] == m0[t]);
                    } else {
                        assert(m1[t].1@ == seq![v]);
                        assert(m1[t].1.deep_view() =~= seq![v.deep_view()]);
                    }
                }
            }
        },
    }
}

} // verus!
