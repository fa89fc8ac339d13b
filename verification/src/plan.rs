//! Destination planning: a parsed location and the workspace root determine
//! one destination path, and the discovered repositories determine the run's
//! relocation plan.

use vstd::prelude::*;
use crate::bytes::copy_bytes;
use crate::path::DirPath;
use crate::url::LocationModel;
use crate::url::ParsedLocation;
use crate::url::spec_parse;
use crate::url::parse;

verus! {

/// One discovered repository: its root and, when one is configured, the raw
/// URL of its primary upstream remote.
pub struct DiscoveredRepo {
    pub root: DirPath,
    pub remote: Option<Vec<u8>>,
}

/// The mathematical value of a `DiscoveredRepo`.
#[verifier::ext_equal]
pub struct RepoModel {
    pub root: Seq<Seq<u8>>,
    pub remote: Option<Seq<u8>>,
}

impl View for DiscoveredRepo {
    type V = RepoModel;

    open spec fn view(&self) -> RepoModel {
        RepoModel {
            root: self.root@,
            remote: match self.remote {
                Some(u) => Some(u@),
                None => None,
            },
        }
    }
}

/// A planned, not yet executed move of one repository.
pub struct RelocationPlan {
    pub source: DirPath,
    pub destination: DirPath,
}

/// The mathematical value of a `RelocationPlan`.
#[verifier::ext_equal]
pub struct PlanModel {
    pub source: Seq<Seq<u8>>,
    pub destination: Seq<Seq<u8>>,
}

impl View for RelocationPlan {
    type V = PlanModel;

    open spec fn view(&self) -> PlanModel {
        PlanModel { source: self.source@, destination: self.destination@ }
    }
}

/// The destination a location is filed under: `root/host/owner/name`.
pub open spec fn spec_plan_dest(root: Seq<Seq<u8>>, m: LocationModel) -> Seq<Seq<u8>> {
    root + seq![m.host, m.owner, m.name]
}

/// What one discovered repository contributes to the plan: one move when its
/// remote is present and parses, nothing otherwise.
pub open spec fn spec_plan_one(ws: Seq<Seq<u8>>, r: RepoModel) -> Seq<PlanModel> {
    match r.remote {
        None => Seq::empty(),
        Some(u) => match spec_parse(u) {
            Ok(m) => seq![PlanModel { source: r.root, destination: spec_plan_dest(ws, m) }],
            Err(_) => Seq::empty(),
        },
    }
}

/// The whole plan: each repository's contribution, in discovery order.
pub open spec fn spec_plans(ws: Seq<Seq<u8>>, repos: Seq<RepoModel>) -> Seq<PlanModel>
    decreases repos.len(),
{
    if repos.len() == 0 {
        Seq::empty()
    } else {
        spec_plan_one(ws, repos[0]) + spec_plans(ws, repos.drop_first())
    }
}

/// Appending one repository appends exactly its own contribution.
pub proof fn lemma_spec_plans_push(ws: Seq<Seq<u8>>, repos: Seq<RepoModel>, r: RepoModel)
    ensures
        spec_plans(ws, repos.push(r)) == spec_plans(ws, repos) + spec_plan_one(ws, r),
    decreases repos.len(),
{
    reveal_with_fuel(spec_plans, 3);
    if repos.len() == 0 {
        assert(repos.push(r)[0] == r);
        assert(repos.push(r).drop_first() =~= Seq::<RepoModel>::empty());
        assert(spec_plan_one(ws, r) + Seq::<PlanModel>::empty() =~= spec_plan_one(ws, r));
        assert(Seq::<PlanModel>::empty() + spec_plan_one(ws, r) =~= spec_plan_one(ws, r));
    } else {
        lemma_spec_plans_push(ws, repos.drop_first(), r);
        assert(repos.push(r)[0] == repos[0]);
        assert(repos.push(r).drop_first() =~= repos.drop_first().push(r));
        assert(spec_plan_one(ws, repos[0]) + (spec_plans(ws, repos.drop_first()) + spec_plan_one(
            ws,
            r,
        )) =~= (spec_plan_one(ws, repos[0]) + spec_plans(ws, repos.drop_first()))
            + spec_plan_one(ws, r));
    }
}

/// A repository with no configured remote contributes nothing to the plan:
/// its absence is not an error.
pub proof fn lemma_no_remote_excluded(ws: Seq<Seq<u8>>, r: RepoModel)
    requires
        r.remote is None,
    ensures
        spec_plan_one(ws, r) == Seq::<PlanModel>::empty(),
{
}

/// Builds the destination `root/host/owner/name` for one parsed location.
///
/// Pure and deterministic: equal inputs give the equal destination, by the
/// spec function alone.
pub fn plan_dest(root: &DirPath, loc: &ParsedLocation) -> (r: DirPath)
    ensures
        r@ == spec_plan_dest(root@, loc@),
{
    let mut d = root.clone_path();
    d.components.push(copy_bytes(&loc.host));
    d.components.push(copy_bytes(&loc.owner));
    d.components.push(copy_bytes(&loc.name));
    proof {
        assert(d@ =~= spec_plan_dest(root@, loc@));
    }
    d
}

/// For one workspace root the planner is injective: two locations that map to
/// the same destination are the same `{host, owner, name}` triple.
pub proof fn lemma_plan_dest_injective(root: Seq<Seq<u8>>, a: LocationModel, b: LocationModel)
    requires
        spec_plan_dest(root, a) == spec_plan_dest(root, b),
    ensures
        a.host == b.host,
        a.owner == b.owner,
        a.name == b.name,
{
    let da = spec_plan_dest(root, a);
    let db = spec_plan_dest(root, b);
    assert(da[root.len() as int] == a.host);
    assert(db[root.len() as int] == b.host);
    assert(da[root.len() as int + 1] == a.owner);
    assert(db[root.len() as int + 1] == b.owner);
    assert(da[root.len() as int + 2] == a.name);
    assert(db[root.len() as int + 2] == b.name);
}

/// Builds the full relocation plan for the discovered repositories: one move
/// per repository whose remote is present and parses, in discovery order;
/// repositories with no remote or an unparseable remote are left out.
pub fn build_plans(ws: &DirPath, repos: &Vec<DiscoveredRepo>) -> (r: Vec<RelocationPlan>)
    ensures
        r@.map_values(|p: RelocationPlan| p@) == spec_plans(
            ws@,
            repos@.map_values(|d: DiscoveredRepo| d@),
        ),
{
    let ghost rms = repos@.map_values(|d: DiscoveredRepo| d@);
    let mut r: Vec<RelocationPlan> = Vec::new();
    let mut i: usize = 0;
    while i < repos.len()
        invariant
            i <= repos@.len(),
            rms == repos@.map_values(|d: DiscoveredRepo| d@),
            rms.len() == repos@.len(),
            r@.map_values(|p: RelocationPlan| p@) == spec_plans(ws@, rms.subrange(0, i as int)),
        decreases repos@.len() - i,
    {
        let ghost pre = rms.subrange(0, i as int);
        let repo = &repos[i];
        match &repo.remote {
            None => {},
            Some(u) => {
                match parse(u) {
                    Err(_) => {},
                    Ok(loc) => {
                        let source = repo.root.clone_path();
                        let destination = plan_dest(ws, &loc);
                        let ghost old_plans = r@.map_values(|p: RelocationPlan| p@);
                        r.push(RelocationPlan { source, destination });
                        proof {
                            assert(r@.map_values(|p: RelocationPlan| p@) =~= old_plans + seq![
                                PlanModel {
                                    source: rms[i as int].root,
                                    destination: spec_plan_dest(ws@, loc@),
                                },
                            ]);
                        }
                    },
                }
            },
        }
        proof {
            lemma_spec_plans_push(ws@, pre, rms[i as int]);
            assert(rms.subrange(0, i as int + 1) =~= pre.push(rms[i as int]));
            assert(r@.map_values(|p: RelocationPlan| p@) =~= spec_plans(
                ws@,
                rms.subrange(0, i as int + 1),
            ));
        }
        i += 1;
    }
    proof {
        assert(rms.subrange(0, rms.len() as int) =~= rms);
    }
    r
}

} // verus!
