//! Build orchestration: turns the resolved outputs of one platform into a
//! dependency forest with check edges, decomposes it into chains, and
//! drives their execution node by node, propagating a failure to the rest
//! of its chain as blocked.
//!
//! The orchestrator decides; invoking the external builder, staging
//! artifact links and rendering reports happen outside the library, which
//! is handed each build's outcome through [`Run::record_outcome`].

use vstd::prelude::*;
use vstd::string::StringExecFns;

use crate::checks::{
    check_checks_derivation, get_type_of_check, lemma_check_type_not_checks, spec_check_gates,
    spec_type_of_check,
};
use crate::platform::System;
use crate::config::{save_policy, Config};
use crate::error::GraphError;
use crate::graph::{
    acyclic, chain_wf, chains_from, find_idx, lemma_chains_from_linked, lemma_find_idx,
    lemma_leaf_heads_chain, spec_chains, Graph, GraphData,
};
use crate::summary::{assoc_deep, lemma_registered_deep, register_v, Summary};
use crate::target::{target_chars, Derivation, DerivationView};
use crate::text::str_eq;

verus! {

/// Outcome of attempting one build.
#[derive(Debug, Clone, Copy, PartialEq, Eq, Structural)]
pub enum Status {
    Skipped,
    Success,
    Fail,
}

/// One attribute the evaluator reported, with its resolved build path.
#[derive(Debug)]
pub struct ResolvedAttr {
    pub name: String,
    pub path: String,
}

/// One output category as the evaluator reported it: its attributes, or
/// nothing when the category is absent.
#[derive(Debug)]
pub struct ResolvedOutput {
    pub category: String,
    pub attrs: Option<Vec<ResolvedAttr>>,
}

/// One unit of work: a build target and its resolved build path.
#[derive(Debug)]
pub struct Job {
    pub target: Derivation,
    pub path: String,
}

/// The mathematical shape of a job.
pub struct JobView {
    pub target: DerivationView,
    pub path: Seq<char>,
}

impl View for Job {
    type V = JobView;

    open spec fn view(&self) -> JobView {
        JobView { target: self.target@, path: self.path@ }
    }
}

impl DeepView for Job {
    type V = JobView;

    open spec fn deep_view(&self) -> JobView {
        self@
    }
}

impl GraphData for Job {
    open spec fn gd_eq(&self, other: &Self) -> bool {
        self@.target.output == other@.target.output && self@.target.system == other@.target.system
            && self@.target.name == other@.target.name && self@.path == other@.path
    }

    proof fn gd_eq_refl(&self) {
    }

    fn same(&self, other: &Self) -> (r: bool) {
        self.target.system == other.target.system && str_eq(
            self.target.output.as_str(),
            other.target.output.as_str(),
        ) && str_eq(self.target.name.as_str(), other.target.name.as_str()) && str_eq(
            self.path.as_str(),
            other.path.as_str(),
        )
    }

    fn duplicate(&self) -> (r: Self) {
        Job { target: self.target.duplicate(), path: self.path.clone() }
    }
}

/// The job names one attribute of one resolved category, on the given
/// platform.
pub open spec fn resolved_names_job(
    resolved: Seq<ResolvedOutput>,
    c: int,
    a: int,
    j: JobView,
    system: System,
) -> bool {
    0 <= c < resolved.len() && (match resolved[c].attrs {
        Some(v) => 0 <= a < v@.len() && j.target.output == resolved[c].category@
            && j.target.system == system && j.target.name == v@[a].name@ && j.path == v@[a].path@,
        None => false,
    })
}

pub open spec fn job_resolved(j: JobView, resolved: Seq<ResolvedOutput>, system: System) -> bool {
    exists|c: int, a: int| resolved_names_job(resolved, c, a, j, system)
}

/// Position (`c`, `a`) names an attribute of a present category.
pub open spec fn attr_planned(resolved: Seq<ResolvedOutput>, c: int, a: int) -> bool {
    0 <= c < resolved.len() && (match resolved[c].attrs {
        Some(v) => 0 <= a < v@.len(),
        None => false,
    })
}

/// Every attribute before position (`c_hi`, `a_hi`) has a job.
pub open spec fn attrs_in_jobs(
    resolved: Seq<ResolvedOutput>,
    system: System,
    jobs: Seq<Job>,
    c_hi: int,
    a_hi: int,
) -> bool {
    forall|c: int, a: int|
        #[trigger] attr_planned(resolved, c, a) && (c < c_hi || (c == c_hi && a < a_hi))
            ==> exists|ix: int|
            0 <= ix < jobs.len() && resolved_names_job(resolved, c, a, (#[trigger] jobs[ix])@, system)
}

/// The categories reported absent, in order.
pub open spec fn skipped_cats(resolved: Seq<ResolvedOutput>) -> Seq<Seq<char>>
    decreases resolved.len(),
{
    if resolved.len() == 0 {
        Seq::empty()
    } else {
        (match resolved[0].attrs {
            None => seq![resolved[0].category@],
            Some(_) => Seq::empty(),
        }) + skipped_cats(resolved.skip(1))
    }
}

proof fn lemma_skipped_cats_push(s: Seq<ResolvedOutput>, x: ResolvedOutput)
    ensures
        skipped_cats(s.push(x)) == skipped_cats(s) + (match x.attrs {
            None => seq![x.category@],
            Some(_) => Seq::<Seq<char>>::empty(),
        }),
    decreases s.len(),
{
    reveal_with_fuel(skipped_cats, 3);
    let sx = s.push(x);
    if s.len() == 0 {
        assert(sx[0] == x);
        assert(sx.skip(1) =~= Seq::<ResolvedOutput>::empty());
        assert(skipped_cats(sx) =~= skipped_cats(s) + (match x.attrs {
            None => seq![x.category@],
            Some(_) => Seq::<Seq<char>>::empty(),
        }));
    } else {
        lemma_skipped_cats_push(s.skip(1), x);
        assert(sx[0] == s[0]);
        assert(sx.skip(1) =~= s.skip(1).push(x));
        assert(skipped_cats(sx) =~= skipped_cats(s) + (match x.attrs {
            None => seq![x.category@],
            Some(_) => Seq::<Seq<char>>::empty(),
        }));
    }
}

/// Execution state of one platform's run: the chains to build, the
/// current position, the targets already handled, and whether every build
/// so far succeeded.
#[derive(Debug)]
pub struct Run {
    pub chains: Vec<Vec<Job>>,
    pub chain_idx: usize,
    pub node_idx: usize,
    pub have_ran: Vec<Derivation>,
    pub all_succeeded: bool,
}

/// Resolves the graph for one platform: adds a node per attribute, wires
/// check edges by naming convention, and decomposes into chains.  Absent
/// categories are recorded as skipped outputs.  The check edges keep
/// checks strictly above their targets, so a cycle cannot arise and the
/// result is always a run.
#[verifier::rlimit(100)]
pub fn plan_system(resolved: &Vec<ResolvedOutput>, system: System, summary: &mut Summary) -> (r:
    Result<Run, GraphError>)
    ensures
        final(summary).skipped_outputs@.len() == old(summary).skipped_outputs@.len()
            + skipped_cats(resolved@).len(),
        forall|t: int|
            0 <= t < old(summary).skipped_outputs@.len() ==> final(summary).skipped_outputs@[t]
                == old(summary).skipped_outputs@[t],
        forall|t: int|
            0 <= t < skipped_cats(resolved@).len()
                ==> (#[trigger] final(summary).skipped_outputs@[old(summary).skipped_outputs@.len()
                + t])@ == skipped_cats(resolved@)[t],
        final(summary).successes == old(summary).successes,
        final(summary).fails == old(summary).fails,
        final(summary).skips == old(summary).skips,
        final(summary).blocks == old(summary).blocks,
        match r {
            Ok(run) => {
                &&& run.chain_idx == 0
                &&& run.node_idx == 0
                &&& run.have_ran@ =~= Seq::<Derivation>::empty()
                &&& run.all_succeeded == true
                &&& forall|k: int, t: int|
                    0 <= k < run.chains@.len() && 0 <= t < (#[trigger] run.chains@[k])@.len()
                        ==> job_resolved((#[trigger] run.chains@[k]@[t])@, resolved@, system)
                &&& forall|k: int, t: int|
                    0 <= k < run.chains@.len() && 0 <= t < (#[trigger] run.chains@[k])@.len() - 1
                        ==> spec_check_gates(
                        (#[trigger] run.chains@[k]@[t])@.target,
                        run.chains@[k]@[t + 1]@.target,
                    )
                &&& forall|c: int, a: int|
                    #[trigger] attr_planned(resolved@, c, a) && resolved@[c].category@
                        != "checks"@ ==> exists|k: int|
                        0 <= k < run.chains@.len() && (#[trigger] run.chains@[k])@.len() >= 1
                            && resolved_names_job(
                            resolved@,
                            c,
                            a,
                            run.chains@[k]@.last()@,
                            system,
                        )
            },
            Err(_) => false,
        },
{
    let ghost old_skipped = summary.skipped_outputs@;
    let mut graph: Graph<Job> = Graph::new();
    let mut jobs: Vec<Job> = Vec::new();

    let nr = resolved.len();
    let mut ri: usize = 0;
    while ri < nr
        invariant
            nr == resolved@.len(),
            ri <= nr,
            graph@.wf(),
            acyclic(graph@.parents),
            graph@.nodes == jobs@,
            forall|i: int| 0 <= i < graph@.parents.len() ==> graph@.parents[i] is None,
            forall|i: int|
                0 <= i < graph@.children.len() ==> (#[trigger] graph@.children[i]).len() == 0,
            forall|i: int|
                0 <= i < jobs@.len() ==> job_resolved((#[trigger] jobs@[i])@, resolved@, system),
            attrs_in_jobs(resolved@, system, jobs@, ri as int, 0),
            summary.skipped_outputs@.len() == old_skipped.len() + skipped_cats(
                resolved@.take(ri as int),
            ).len(),
            forall|t: int|
                0 <= t < old_skipped.len() ==> summary.skipped_outputs@[t] == old_skipped[t],
            forall|t: int|
                0 <= t < skipped_cats(resolved@.take(ri as int)).len() ==> (#[trigger] summary.skipped_outputs@[old_skipped.len() + t])@ == skipped_cats(
                    resolved@.take(ri as int),
                )[t],
            summary.successes == old(summary).successes,
            summary.fails == old(summary).fails,
            summary.skips == old(summary).skips,
            summary.blocks == old(summary).blocks,
        decreases nr - ri,
    {
        let ghost taken = resolved@.take(ri as int);
        proof {
            assert(resolved@.take(ri + 1) =~= taken.push(resolved@[ri as int]));
            lemma_skipped_cats_push(taken, resolved@[ri as int]);
        }
        match &resolved[ri].attrs {
            None => {
                summary.skip_output(resolved[ri].category.as_str());
                proof {
                    assert forall|c: int, a: int|
                        #[trigger] attr_planned(resolved@, c, a) && (c < ri + 1 || (c == ri + 1
                            && a < 0)) implies exists|ix: int|
                        0 <= ix < jobs@.len() && resolved_names_job(
                            resolved@,
                            c,
                            a,
                            (#[trigger] jobs@[ix])@,
                            system,
                        ) by {
                        assert(c < ri as int || (c == ri as int && a < 0) || c == ri as int);
                        if c == ri as int {
                            assert(resolved@[c].attrs is None);
                            assert(!attr_planned(resolved@, c, a));
                        }
                    }
                }
            },
            Some(attrs) => {
                let na = attrs.len();
                let mut ai: usize = 0;
                while ai < na
                    invariant
                        nr == resolved@.len(),
                        ri < nr,
                        resolved@[ri as int].attrs == Some(*attrs),
                        na == attrs@.len(),
                        ai <= na,
                        graph@.wf(),
                        acyclic(graph@.parents),
                        graph@.nodes == jobs@,
                        forall|i: int|
                            0 <= i < graph@.parents.len() ==> graph@.parents[i] is None,
                        forall|i: int|
                            0 <= i < graph@.children.len() ==> (#[trigger] graph@.children[i]).len()
                                == 0,
                        forall|i: int|
                            0 <= i < jobs@.len() ==> job_resolved(
                                (#[trigger] jobs@[i])@,
                                resolved@,
                                system,
                            ),
                        attrs_in_jobs(resolved@, system, jobs@, ri as int, ai as int),
                    decreases na - ai,
                {
                    let attr = &attrs[ai];
                    let target = Derivation::new(
                        resolved[ri].category.clone(),
                        system,
                        attr.name.clone(),
                    );
                    let job = Job { target, path: attr.path.clone() };
                    let job_copy = job.duplicate();
                    proof {
                        assert(job_resolved(job@, resolved@, system)) by {
                            assert(resolved_names_job(
                                resolved@,
                                ri as int,
                                ai as int,
                                job@,
                                system,
                            ));
                        }
                    }
                    let ghost jobs0 = jobs@;
                    graph.add_node(job);
                    jobs.push(job_copy);
                    proof {
                        assert forall|c: int, a: int|
                            #[trigger] attr_planned(resolved@, c, a) && (c < ri as int || (c
                                == ri as int && a < ai + 1)) implies exists|ix: int|
                            0 <= ix < jobs@.len() && resolved_names_job(
                                resolved@,
                                c,
                                a,
                                (#[trigger] jobs@[ix])@,
                                system,
                            ) by {
                            if c == ri as int && a == ai as int {
                                assert(jobs@[jobs0.len() as int]@ == job@);
                                assert(resolved_names_job(
                                    resolved@,
                                    c,
                                    a,
                                    jobs@[jobs0.len() as int]@,
                                    system,
                                ));
                            } else {
                                let ix = choose|ix: int|
                                    0 <= ix < jobs0.len() && resolved_names_job(
                                        resolved@,
                                        c,
                                        a,
                                        (#[trigger] jobs0[ix])@,
                                        system,
                                    );
                                assert(jobs@[ix] == jobs0[ix]);
                                assert(resolved_names_job(resolved@, c, a, jobs@[ix]@, system));
                            }
                        }
                    }
                    ai = ai + 1;
                }
                proof {
                    assert forall|c: int, a: int|
                        #[trigger] attr_planned(resolved@, c, a) && (c < ri + 1 || (c == ri + 1
                            && a < 0)) implies exists|ix: int|
                        0 <= ix < jobs@.len() && resolved_names_job(
                            resolved@,
                            c,
                            a,
                            (#[trigger] jobs@[ix])@,
                            system,
                        ) by {
                        if c == ri as int {
                            assert(a < na);
                        }
                    }
                }
            },
        }
        ri = ri + 1;
    }
    proof {
        assert(resolved@.take(nr as int) =~= resolved@);
    }

    // Wire the check edges: each check gates the same-platform target its
    // name designates, if that target was resolved.
    let ghost snap = *summary;
    let nj = jobs.len();
    let mut ci: usize = 0;
    while ci < nj
        invariant
            *summary == snap,
            nj == jobs@.len(),
            ci <= nj,
            graph@.wf(),
            acyclic(graph@.parents),
            graph@.nodes == jobs@,
            forall|i: int|
                0 <= i < jobs@.len() ==> job_resolved((#[trigger] jobs@[i])@, resolved@, system),
            attrs_in_jobs(resolved@, system, jobs@, nr as int, 0),
            nr == resolved@.len(),
            forall|i: int| 0 <= i < graph@.parents.len() ==> (match #[trigger] graph@.parents[i] {
                Some(p) => jobs@[p as int]@.target.output == "checks"@
                    && jobs@[i]@.target.output != "checks"@ && spec_check_gates(
                    jobs@[p as int]@.target,
                    jobs@[i]@.target,
                ) && graph@.children[p as int].len() != 0,
                None => true,
            }),
            forall|i: int|
                0 <= i < graph@.children.len() && (#[trigger] graph@.children[i]).len() != 0
                    ==> jobs@[i]@.target.output == "checks"@,
        decreases nj - ci,
    {
        if str_eq(jobs[ci].target.output.as_str(), "checks") {
            let type_of_check = match get_type_of_check(&jobs[ci].target) {
                Some(t) => t,
                None => {
                    // This check gates nothing; it builds as its own chain.
                    ci = ci + 1;
                    continue ;
                },
            };
            let mut di: usize = 0;
            while di < nj
                invariant
                    *summary == snap,
                    nj == jobs@.len(),
                    ci < nj,
                    di <= nj,
                    graph@.wf(),
                    acyclic(graph@.parents),
                    graph@.nodes == jobs@,
                    jobs@[ci as int]@.target.output == "checks"@,
                    spec_type_of_check(jobs@[ci as int]@.target.name) == Some(type_of_check@),
                    forall|i: int|
                        0 <= i < jobs@.len() ==> job_resolved(
                            (#[trigger] jobs@[i])@,
                            resolved@,
                            system,
                        ),
                    attrs_in_jobs(resolved@, system, jobs@, nr as int, 0),
                    nr == resolved@.len(),
                    forall|i: int|
                        0 <= i < graph@.parents.len() ==> (match #[trigger] graph@.parents[i] {
                            Some(p) => jobs@[p as int]@.target.output == "checks"@
                                && jobs@[i]@.target.output != "checks"@ && spec_check_gates(
                                jobs@[p as int]@.target,
                                jobs@[i]@.target,
                            ) && graph@.children[p as int].len() != 0,
                            None => true,
                        }),
                    forall|i: int|
                        0 <= i < graph@.children.len() && (#[trigger] graph@.children[i]).len()
                            != 0 ==> jobs@[i]@.target.output == "checks"@,
                decreases nj - di,
            {
                if str_eq(jobs[di].target.output.as_str(), type_of_check)
                    && check_checks_derivation(&jobs[ci].target, &jobs[di].target) {
                    let ghost g0 = graph@;
                    proof {
                        jobs@[ci as int].gd_eq_refl();
                        jobs@[di as int].gd_eq_refl();
                        lemma_find_idx(graph@.nodes, jobs@[ci as int]);
                        lemma_find_idx(graph@.nodes, jobs@[di as int]);
                        match spec_type_of_check(jobs@[ci as int]@.target.name) {
                            Some(t) => {
                                match crate::text::first_index_of(
                                    jobs@[ci as int]@.target.name,
                                    '-',
                                ) {
                                    Some(fi) => {
                                        lemma_check_type_not_checks(
                                            jobs@[ci as int]@.target.name.subrange(0, fi),
                                            t,
                                        );
                                    },
                                    None => {},
                                }
                            },
                            None => {},
                        }
                    }
                    match graph.mark_dep(&jobs[ci], &jobs[di]) {
                        Ok(()) => {},
                        Err(e) => {
                            proof {
                                // Both payloads are nodes, and a check
                                // itself has no parent, so the walk out of
                                // the new edge ends after two steps: no
                                // failure is possible.
                                lemma_find_idx(g0.nodes, jobs@[ci as int]);
                                lemma_find_idx(g0.nodes, jobs@[di as int]);
                                match (
                                    find_idx(g0.nodes, jobs@[ci as int]),
                                    find_idx(g0.nodes, jobs@[di as int]),
                                ) {
                                    (Some(pi2), Some(ci2)) => {
                                        let p1 = g0.parents.update(ci2, Some(pi2 as usize));
                                        assert(jobs@[pi2]@.target.output == "checks"@);
                                        assert(jobs@[ci2]@.target.output == type_of_check@);
                                        assert(type_of_check@ != "checks"@);
                                        assert(ci2 != pi2);
                                        assert(p1[pi2] is None) by {
                                            match g0.parents[pi2] {
                                                Some(q) => {
                                                    assert(jobs@[pi2]@.target.output
                                                        != "checks"@);
                                                },
                                                None => {},
                                            }
                                        }
                                        assert(p1[ci2] == Some(pi2 as usize));
                                        assert(crate::graph::reaches_root(
                                            p1,
                                            pi2,
                                            p1.len() as nat,
                                        ));
                                        assert(crate::graph::reaches_root(p1, ci2, p1.len() + 1));
                                        assert(false);
                                    },
                                    _ => {
                                        assert(false);
                                    },
                                }
                            }
                            return Err(e);
                        },
                    }
                    proof {
                        let pi2 = find_idx(g0.nodes, jobs@[ci as int])->Some_0;
                        let ci2 = find_idx(g0.nodes, jobs@[di as int])->Some_0;
                        lemma_find_idx(g0.nodes, jobs@[ci as int]);
                        lemma_find_idx(g0.nodes, jobs@[di as int]);
                        assert(jobs@[pi2]@.target.output == "checks"@);
                        assert(spec_check_gates(jobs@[pi2]@.target, jobs@[ci2]@.target)) by {
                            assert(jobs@[pi2]@.target == jobs@[ci as int]@.target);
                            assert(jobs@[ci2]@.target == jobs@[di as int]@.target);
                        }
                        assert(graph@.children == g0.children.update(
                            pi2,
                            g0.children[pi2].push(ci2 as usize),
                        ));
                        assert forall|i: int|
                            0 <= i < graph@.children.len() && (#[trigger] graph@.children[i]).len()
                                != 0 implies jobs@[i]@.target.output == "checks"@ by {
                            if i != pi2 {
                                assert(graph@.children[i] == g0.children[i]);
                            }
                        }
                        assert forall|i: int|
                            0 <= i < graph@.parents.len() implies (
                        match #[trigger] graph@.parents[i] {
                            Some(p) => jobs@[p as int]@.target.output == "checks"@
                                && jobs@[i]@.target.output != "checks"@ && spec_check_gates(
                                jobs@[p as int]@.target,
                                jobs@[i]@.target,
                            ) && graph@.children[p as int].len() != 0,
                            None => true,
                        }) by {
                            if i != ci2 {
                                assert(graph@.parents[i] == g0.parents[i]);
                                match g0.parents[i] {
                                    Some(p) => {
                                        if p as int == pi2 {
                                            assert(graph@.children[p as int].len() != 0);
                                        } else {
                                            assert(graph@.children[p as int] == g0.children[
                                                p as int]);
                                        }
                                    },
                                    None => {},
                                }
                            } else {
                                assert(graph@.parents[i] == Some(pi2 as usize));
                                assert(jobs@[ci2]@.target.output == type_of_check@);
                                assert(graph@.children[pi2].len() != 0);
                            }
                        }
                    }
                }
                di = di + 1;
            }
        }
        ci = ci + 1;
    }

    // Decompose into prerequisite-first chains.
    let ghost g_final = graph@;
    let walker = graph.walker();
    let chains = walker.chains();
    proof {
        lemma_chains_from_linked(g_final, 0, Set::<int>::empty());
        assert forall|c: int, a: int|
            #[trigger] attr_planned(resolved@, c, a) && resolved@[c].category@
                != "checks"@ implies exists|k: int|
            0 <= k < chains@.len() && (#[trigger] chains@[k])@.len() >= 1 && resolved_names_job(
                resolved@,
                c,
                a,
                chains@[k]@.last()@,
                system,
            ) by {
            let ix = choose|ix: int|
                0 <= ix < jobs@.len() && resolved_names_job(
                    resolved@,
                    c,
                    a,
                    (#[trigger] jobs@[ix])@,
                    system,
                );
            assert(jobs@[ix]@.target.output == resolved@[c].category@);
            assert(g_final.children[ix].len() == 0) by {
                if g_final.children[ix].len() != 0 {
                    assert(jobs@[ix]@.target.output == "checks"@);
                }
            }
            lemma_leaf_heads_chain(g_final, 0, Set::<int>::empty(), ix);
            let k = choose|k: int|
                0 <= k < chains_from(g_final, 0, Set::<int>::empty()).len() && (
                #[trigger] chains_from(g_final, 0, Set::<int>::empty())[k]).len() >= 1
                    && chains_from(g_final, 0, Set::<int>::empty())[k].last() == ix;
            let ch = spec_chains(g_final)[k];
            assert(chain_wf(g_final, ch));
            assert(chains@[k]@ == ch.map_values(|idx: int| g_final.nodes[idx]));
            assert(chains@[k]@.last() == g_final.nodes[ch.last()]);
            assert(resolved_names_job(resolved@, c, a, chains@[k]@.last()@, system));
            assert(0 <= k < chains@.len() && chains@[k]@.len() >= 1);
        }
        assert forall|k: int, t: int|
            0 <= k < chains@.len() && 0 <= t < (#[trigger] chains@[k])@.len() implies job_resolved(
            (#[trigger] chains@[k]@[t])@,
            resolved@,
            system,
        ) by {
            let ch = spec_chains(g_final)[k];
            assert(chain_wf(g_final, ch));
            assert(chains@[k]@[t] == g_final.nodes[ch[t]]);
        }
        assert forall|k: int, t: int|
            0 <= k < chains@.len() && 0 <= t < (#[trigger] chains@[k])@.len()
                - 1 implies spec_check_gates(
            (#[trigger] chains@[k]@[t])@.target,
            chains@[k]@[t + 1]@.target,
        ) by {
            let ch = spec_chains(g_final)[k];
            assert(chain_wf(g_final, ch));
            assert(g_final.parents[ch[t + 1]] == Some(ch[t] as usize));
            assert(chains@[k]@[t] == g_final.nodes[ch[t]]);
            assert(chains@[k]@[t + 1] == g_final.nodes[ch[t + 1]]);
        }
    }
    Ok(Run { chains, chain_idx: 0, node_idx: 0, have_ran: Vec::new(), all_succeeded: true })
}

/// The handled-set contains the target.
pub open spec fn ran_contains(hr: Seq<Derivation>, d: DerivationView) -> bool {
    exists|i: int| 0 <= i < hr.len() && (#[trigger] hr[i])@ == d
}

fn contains_derivation(v: &Vec<Derivation>, d: &Derivation) -> (r: bool)
    ensures
        r == ran_contains(v@, d@),
{
    let mut i: usize = 0;
    while i < v.len()
        invariant
            i <= v@.len(),
            forall|j: int| 0 <= j < i ==> (#[trigger] v@[j])@ != d@,
        decreases v@.len() - i,
    {
        let e = &v[i];
        if e.system == d.system && str_eq(e.output.as_str(), d.output.as_str()) && str_eq(
            e.name.as_str(),
            d.name.as_str(),
        ) {
            return true;
        }
        i = i + 1;
    }
    false
}

/// The first position at or after (`ci`, `ni`) holding a target not yet
/// handled; (number of chains, 0) when none remains.
pub open spec fn advance_pos(chains: Seq<Vec<Job>>, ran: Seq<Derivation>, ci: int, ni: int) -> (
    int,
    int,
)
    decreases
            chains.len() - ci,
            (if 0 <= ci < chains.len() && 0 <= ni <= chains[ci]@.len() {
                chains[ci]@.len() - ni
            } else {
                0
            }),
{
    if ci < 0 || ci >= chains.len() {
        (chains.len() as int, 0)
    } else if ni < 0 {
        (ci, ni)
    } else if ni >= chains[ci]@.len() {
        advance_pos(chains, ran, ci + 1, 0)
    } else if ran_contains(ran, chains[ci]@[ni]@.target) {
        advance_pos(chains, ran, ci, ni + 1)
    } else {
        (ci, ni)
    }
}

impl Run {
    /// The position stands on a chain entry whose target has not been
    /// handled yet.
    pub open spec fn current_ready(self) -> bool {
        &&& (self.chain_idx as int) < self.chains@.len()
        &&& (self.node_idx as int) < self.chains@[self.chain_idx as int]@.len()
        &&& !ran_contains(
            self.have_ran@,
            self.chains@[self.chain_idx as int]@[self.node_idx as int]@.target,
        )
    }

    /// The job at the current position.
    pub open spec fn current_job(self) -> JobView {
        self.chains@[self.chain_idx as int]@[self.node_idx as int]@
    }

    /// Moves the position forward over already-handled targets and
    /// exhausted chains, and hands out the next job to build, if any.
    pub fn next_to_build(&mut self) -> (r: Option<Job>)
        ensures
            final(self).chains == old(self).chains,
            final(self).have_ran == old(self).have_ran,
            final(self).all_succeeded == old(self).all_succeeded,
            (final(self).chain_idx as int, final(self).node_idx as int) == advance_pos(
                old(self).chains@,
                old(self).have_ran@,
                old(self).chain_idx as int,
                old(self).node_idx as int,
            ),
            match r {
                Some(job) => final(self).current_ready() && job@ == final(self).current_job(),
                None => (final(self).chain_idx as int) >= final(self).chains@.len(),
            },
    {
        let ghost c0 = self.chains@;
        let ghost h0 = self.have_ran@;
        let ghost start = (self.chain_idx as int, self.node_idx as int);
        while self.chain_idx < self.chains.len()
            invariant
                self.chains@ == c0,
                self.have_ran@ == h0,
                self.all_succeeded == old(self).all_succeeded,
                self.chains == old(self).chains,
                self.have_ran == old(self).have_ran,
                start == (old(self).chain_idx as int, old(self).node_idx as int),
                advance_pos(c0, h0, start.0, start.1) == advance_pos(
                    c0,
                    h0,
                    self.chain_idx as int,
                    self.node_idx as int,
                ),
            decreases
                    c0.len() - self.chain_idx,
                    (if (self.chain_idx as int) < c0.len() && self.node_idx
                        <= c0[self.chain_idx as int]@.len() {
                        c0[self.chain_idx as int]@.len() - self.node_idx
                    } else {
                        0
                    }),
        {
            let chain_len = self.chains[self.chain_idx].len();
            if self.node_idx >= chain_len {
                self.chain_idx = self.chain_idx + 1;
                self.node_idx = 0;
                continue ;
            }
            let node = self.chains[self.chain_idx][self.node_idx].duplicate();
            if contains_derivation(&self.have_ran, &node.target) {
                self.node_idx = self.node_idx + 1;
                continue ;
            }
            proof {
                assert(advance_pos(c0, h0, self.chain_idx as int, self.node_idx as int) == (
                self.chain_idx as int,
                self.node_idx as int,
                ));
            }
            return Some(node);
        }
        proof {
            assert(advance_pos(c0, h0, self.chain_idx as int, self.node_idx as int) == (
            c0.len() as int,
            0int,
            ));
        }
        self.chain_idx = self.chains.len();
        self.node_idx = 0;
        None
    }
}

/// The view of an optional text value.
pub open spec fn opt_chars(a: Option<String>) -> Option<Seq<char>> {
    match a {
        Some(x) => Some(x@),
        None => None,
    }
}

/// The blocked-propagation fold at the view level: walking the chain from
/// position `from`, every target not yet handled is registered as blocked
/// under its category, citing `pre`, and added to the handled-set.
pub open spec fn blocks_after(
    m: Seq<(Seq<char>, Seq<(Seq<char>, Seq<char>)>)>,
    h: Seq<DerivationView>,
    chain: Seq<JobView>,
    from: int,
    pre: Seq<char>,
) -> (Seq<(Seq<char>, Seq<(Seq<char>, Seq<char>)>)>, Seq<DerivationView>)
    decreases chain.len() - from,
{
    if from < 0 || from >= chain.len() {
        (m, h)
    } else if h.contains(chain[from].target) {
        blocks_after(m, h, chain, from + 1, pre)
    } else {
        blocks_after(
            register_v(m, chain[from].target.output, (target_chars(chain[from].target), pre)),
            h.push(chain[from].target),
            chain,
            from + 1,
            pre,
        )
    }
}

/// What recording a dry-run skip does: the target is reported skipped
/// under its category and marked handled; the position moves on.
pub open spec fn recorded_skip(old_run: Run, new_run: Run, old_sum: Summary, new_sum: Summary) -> bool {
    let cur = old_run.current_job();
    &&& new_run.chains == old_run.chains
    &&& new_run.chain_idx == old_run.chain_idx
    &&& new_run.node_idx == old_run.node_idx + 1
    &&& new_run.all_succeeded == old_run.all_succeeded
    &&& new_run.have_ran.deep_view() == old_run.have_ran.deep_view().push(cur.target)
    &&& assoc_deep(new_sum.skips@) == register_v(
        assoc_deep(old_sum.skips@),
        cur.target.output,
        target_chars(cur.target),
    )
    &&& new_sum.skipped_outputs == old_sum.skipped_outputs
    &&& new_sum.successes == old_sum.successes
    &&& new_sum.fails == old_sum.fails
    &&& new_sum.blocks == old_sum.blocks
}

/// What recording a success does: an artifact link is demanded exactly
/// when the run is live and the save policy accepts the target; the
/// success is reported with that link; the position moves on.
pub open spec fn recorded_success(
    old_run: Run,
    new_run: Run,
    old_sum: Summary,
    new_sum: Summary,
    dry_run: bool,
    config: Config,
    output_dir: Seq<char>,
    artifact: Option<String>,
) -> bool {
    let cur = old_run.current_job();
    let save = !dry_run && save_policy(
        config.build.artifacts@,
        cur.target.output,
        cur.target.system,
        cur.target.name,
    );
    &&& new_run.chains == old_run.chains
    &&& new_run.chain_idx == old_run.chain_idx
    &&& new_run.node_idx == old_run.node_idx + 1
    &&& new_run.all_succeeded == old_run.all_succeeded
    &&& new_run.have_ran.deep_view() == old_run.have_ran.deep_view().push(cur.target)
    &&& (artifact is Some) == save
    &&& (match artifact {
        Some(l) => l@ == output_dir + "/"@ + target_chars(cur.target),
        None => true,
    })
    &&& assoc_deep(new_sum.successes@) == register_v(
        assoc_deep(old_sum.successes@),
        cur.target.output,
        (target_chars(cur.target), opt_chars(artifact)),
    )
    &&& new_sum.skipped_outputs == old_sum.skipped_outputs
    &&& new_sum.fails == old_sum.fails
    &&& new_sum.skips == old_sum.skips
    &&& new_sum.blocks == old_sum.blocks
}

/// What recording a failure does: the run is marked failed; the failing
/// target is reported with a log hint and marked handled; every remaining
/// unhandled node of the same chain is reported blocked citing it, in
/// order; the position moves to the next chain.
pub open spec fn recorded_fail(old_run: Run, new_run: Run, old_sum: Summary, new_sum: Summary) -> bool {
    let cur = old_run.current_job();
    let chain = old_run.chains@[old_run.chain_idx as int].deep_view();
    let after = blocks_after(
        assoc_deep(old_sum.blocks@),
        old_run.have_ran.deep_view().push(cur.target),
        chain,
        old_run.node_idx + 1,
        target_chars(cur.target),
    );
    &&& new_run.chains == old_run.chains
    &&& new_run.chain_idx == old_run.chain_idx + 1
    &&& new_run.node_idx == 0
    &&& new_run.all_succeeded == false
    &&& assoc_deep(new_sum.fails@) == register_v(
        assoc_deep(old_sum.fails@),
        cur.target.output,
        (target_chars(cur.target), "`nix log "@ + cur.path + "`"@),
    )
    &&& assoc_deep(new_sum.blocks@) == after.0
    &&& new_run.have_ran.deep_view() == after.1
    &&& new_sum.skipped_outputs == old_sum.skipped_outputs
    &&& new_sum.successes == old_sum.successes
    &&& new_sum.skips == old_sum.skips
}

impl Run {
    /// Applies one build outcome at the current position.  Does nothing
    /// when the position is not ready (no job was handed out).  Returns
    /// the artifact link the caller must materialize, if any.
    pub fn record_outcome(
        &mut self,
        status: Status,
        dry_run: bool,
        config: &Config,
        output_dir: &str,
        summary: &mut Summary,
    ) -> (artifact: Option<String>)
        ensures
            !old(self).current_ready() ==> *final(self) == *old(self) && *final(summary) == *old(
                summary,
            ) && artifact is None,
            old(self).current_ready() ==> (match status {
                Status::Skipped => recorded_skip(*old(self), *final(self), *old(summary), *final(summary))
                    && artifact is None,
                Status::Fail => recorded_fail(*old(self), *final(self), *old(summary), *final(summary))
                    && artifact is None,
                Status::Success => recorded_success(
                    *old(self),
                    *final(self),
                    *old(summary),
                    *final(summary),
                    dry_run,
                    *config,
                    output_dir@,
                    artifact,
                ),
            }),
    {
        if self.chain_idx >= self.chains.len() {
            return None;
        }
        let chain_len = self.chains[self.chain_idx].len();
        if self.node_idx >= chain_len {
            return None;
        }
        let cur = self.chains[self.chain_idx][self.node_idx].duplicate();
        if contains_derivation(&self.have_ran, &cur.target) {
            return None;
        }
        let text = cur.target.to_text();
        match status {
            Status::Skipped => {
                summary.register_skip(cur.target.output.as_str(), text);
                proof {
                    lemma_registered_deep(
                        old(summary).skips@,
                        summary.skips@,
                        cur.target.output@,
                        text,
                    );
                }
                self.have_ran.push(cur.target);
                self.node_idx = self.node_idx + 1;
                proof {
                    assert(self.have_ran.deep_view() =~= old(self).have_ran.deep_view().push(
                        old(self).current_job().target,
                    ));
                }
                None
            },
            Status::Fail => {
                self.all_succeeded = false;
                let mut hint = String::new();
                hint.append("`nix log ");
                hint.append(cur.path.as_str());
                hint.append("`");
                summary.register_fail(cur.target.output.as_str(), text, hint);
                proof {
                    lemma_registered_deep(
                        old(summary).fails@,
                        summary.fails@,
                        cur.target.output@,
                        (text, hint),
                    );
                }
                self.have_ran.push(cur.target.duplicate());
                let ghost m0 = assoc_deep(summary.blocks@);
                let ghost h0 = self.have_ran.deep_view();
                let ghost chain = self.chains@[self.chain_idx as int].deep_view();
                let ghost pre = target_chars(cur.target@);
                let ghost sum_snap = *summary;
                let ghost run_snap = *self;
                proof {
                    assert(h0 =~= old(self).have_ran.deep_view().push(
                        old(self).current_job().target,
                    ));
                }
                let start = self.node_idx + 1;
                let mut j = start;
                while j < chain_len
                    invariant
                        start <= j <= chain_len,
                        chain_len == chain.len(),
                        self.chains == run_snap.chains,
                        self.chain_idx == run_snap.chain_idx,
                        self.node_idx == run_snap.node_idx,
                        self.all_succeeded == run_snap.all_succeeded,
                        (self.chain_idx as int) < self.chains@.len(),
                        chain == self.chains@[self.chain_idx as int].deep_view(),
                        pre == target_chars(cur.target@),
                        summary.skipped_outputs == sum_snap.skipped_outputs,
                        summary.successes == sum_snap.successes,
                        summary.fails == sum_snap.fails,
                        summary.skips == sum_snap.skips,
                        blocks_after(m0, h0, chain, start as int, pre) == blocks_after(
                            assoc_deep(summary.blocks@),
                            self.have_ran.deep_view(),
                            chain,
                            j as int,
                            pre,
                        ),
                    decreases chain_len - j,
                {
                    let node = self.chains[self.chain_idx][j].duplicate();
                    let ghost mcur = assoc_deep(summary.blocks@);
                    let ghost hcur = self.have_ran.deep_view();
                    proof {
                        assert(node@ == chain[j as int]);
                    }
                    if !contains_derivation(&self.have_ran, &node.target) {
                        proof {
                            assert(!hcur.contains(chain[j as int].target)) by {
                                if hcur.contains(chain[j as int].target) {
                                    let t = choose|t: int|
                                        0 <= t < hcur.len() && hcur[t] == chain[j as int].target;
                                    assert(self.have_ran@[t]@ == chain[j as int].target);
                                }
                            }
                        }
                        let node_text = node.target.to_text();
                        let pre_text = cur.target.to_text();
                        let ghost blocks_before = summary.blocks@;
                        summary.register_blocked(node.target.output.as_str(), node_text, pre_text);
                        proof {
                            lemma_registered_deep(
                                blocks_before,
                                summary.blocks@,
                                node.target.output@,
                                (node_text, pre_text),
                            );
                        }
                        self.have_ran.push(node.target);
                        proof {
                            assert(assoc_deep(summary.blocks@) == register_v(
                                mcur,
                                chain[j as int].target.output,
                                (target_chars(chain[j as int].target), pre),
                            ));
                            assert(self.have_ran.deep_view() =~= hcur.push(
                                chain[j as int].target,
                            ));
                            assert(blocks_after(mcur, hcur, chain, j as int, pre) == blocks_after(
                                assoc_deep(summary.blocks@),
                                self.have_ran.deep_view(),
                                chain,
                                j + 1,
                                pre,
                            ));
                        }
                    } else {
                        proof {
                            assert(hcur.contains(chain[j as int].target)) by {
                                let t = choose|t: int|
                                    0 <= t < self.have_ran@.len() && (#[trigger] self.have_ran@[t])@
                                        == chain[j as int].target;
                                assert(hcur[t] == chain[j as int].target);
                            }
                            assert(blocks_after(mcur, hcur, chain, j as int, pre) == blocks_after(
                                mcur,
                                hcur,
                                chain,
                                j + 1,
                                pre,
                            ));
                        }
                    }
                    j = j + 1;
                }
                proof {
                    assert(blocks_after(
                        assoc_deep(summary.blocks@),
                        self.have_ran.deep_view(),
                        chain,
                        chain_len as int,
                        pre,
                    ) == (assoc_deep(summary.blocks@), self.have_ran.deep_view()));
                }
                self.chain_idx = self.chain_idx + 1;
                self.node_idx = 0;
                None
            },
            Status::Success => {
                let save = !dry_run && config.save_artifact(
                    &cur.target.output,
                    cur.target.system,
                    &cur.target.name,
                );
                let artifact: Option<String> = if save {
                    let mut link = String::new();
                    link.append(output_dir);
                    link.append("/");
                    link.append(text.as_str());
                    Some(link)
                } else {
                    None
                };
                let artifact_ret: Option<String> = match &artifact {
                    Some(l) => Some(l.clone()),
                    None => None,
                };
                let ghost art_snap = artifact;
                summary.register_success(cur.target.output.as_str(), text, artifact);
                proof {
                    lemma_registered_deep(
                        old(summary).successes@,
                        summary.successes@,
                        cur.target.output@,
                        (text, art_snap),
                    );
                    assert(opt_chars(art_snap) == opt_chars(artifact_ret));
                }
                self.have_ran.push(cur.target);
                self.node_idx = self.node_idx + 1;
                proof {
                    assert(self.have_ran.deep_view() =~= old(self).have_ran.deep_view().push(
                        old(self).current_job().target,
                    ));
                }
                artifact_ret
            },
        }
    }
}

} // verus!
