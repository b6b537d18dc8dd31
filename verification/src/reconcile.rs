//! The reconcile engine: the diff between the desired service set (resolved
//! declarations) and the observed registry state. Observed entries bearing
//! the ownership marker that match no declaration are deregistered;
//! declarations no matching entry covers are registered. Entries without
//! the marker are never touched.

use vstd::prelude::*;

verus! {

use crate::config::ServiceConfig;
use crate::config::ServiceConfigView;
use crate::consul::AgentService;
use crate::consul::AgentServiceView;
use crate::consul::is_managed;
use crate::marker_seq;
use crate::marker_str;
use crate::strutil::str_eq;

/// Tags as the registry reports them with every ownership marker removed,
/// order kept.
pub open spec fn strip_marker(tags: Seq<Seq<char>>) -> Seq<Seq<char>>
    decreases tags.len(),
{
    if tags.len() == 0 {
        Seq::empty()
    } else {
        let prev = strip_marker(tags.drop_last());
        if tags.last() == marker_seq() {
            prev
        } else {
            prev.push(tags.last())
        }
    }
}

/// A declaration and a registry entry stand for the same service: matching
/// name and id, port, address and kind, and the same tags once the
/// ownership marker is ignored.
pub open spec fn same_service(s: ServiceConfigView, m: AgentServiceView) -> bool {
    &&& s.name == m.id
    &&& s.port == m.port
    &&& s.address == m.address
    &&& s.kind == m.kind
    &&& strip_marker(m.tags) == s.tags
}

/// Some desired declaration stands for the same service as `m`.
pub open spec fn matched_by_any(desired: Seq<ServiceConfigView>, m: AgentServiceView) -> bool {
    exists|i: int| 0 <= i < desired.len() && same_service(desired[i], m)
}

/// The ids to deregister: those of observed entries that bear the ownership
/// marker and match no desired declaration, in observed order.
pub open spec fn spec_to_deregister(
    desired: Seq<ServiceConfigView>,
    observed: Seq<AgentServiceView>,
) -> Seq<Seq<char>>
    decreases observed.len(),
{
    if observed.len() == 0 {
        Seq::empty()
    } else {
        let prev = spec_to_deregister(desired, observed.drop_last());
        let m = observed.last();
        if is_managed(m) && !matched_by_any(desired, m) {
            prev.push(m.id)
        } else {
            prev
        }
    }
}

/// A declaration is covered when some observed entry bears the marker,
/// matches some desired declaration, and carries the declaration's name as
/// its id — then the registry is already up to date for that name.
pub open spec fn covered(
    s: ServiceConfigView,
    desired: Seq<ServiceConfigView>,
    observed: Seq<AgentServiceView>,
) -> bool {
    exists|j: int|
        0 <= j < observed.len() && is_managed(#[trigger] observed[j]) && matched_by_any(
            desired,
            observed[j],
        ) && observed[j].id == s.name
}

/// The first `k` declarations to register: those not covered by the
/// observed state, in declaration order.
pub open spec fn spec_to_register_prefix(
    desired: Seq<ServiceConfigView>,
    observed: Seq<AgentServiceView>,
    k: int,
) -> Seq<ServiceConfigView>
    decreases k,
{
    if k <= 0 {
        Seq::empty()
    } else {
        let prev = spec_to_register_prefix(desired, observed, k - 1);
        let s = desired[k - 1];
        if covered(s, desired, observed) {
            prev
        } else {
            prev.push(s)
        }
    }
}

/// The declarations to register: those not covered by the observed state.
pub open spec fn spec_to_register(
    desired: Seq<ServiceConfigView>,
    observed: Seq<AgentServiceView>,
) -> Seq<ServiceConfigView> {
    spec_to_register_prefix(desired, observed, desired.len() as int)
}

/// Character-wise equality of two lists of strings.
fn vec_string_eq(a: &Vec<String>, b: &Vec<String>) -> (r: bool)
    ensures
        r == (a.deep_view() == b.deep_view()),
{
    if a.len() != b.len() {
        proof {
            assert(a.deep_view().len() != b.deep_view().len());
        }
        return false;
    }
    let mut i: usize = 0;
    while i < a.len()
        invariant
            i <= a.len(),
            a.len() == b.len(),
            forall|k: int| 0 <= k < i ==> a.deep_view()[k] == b.deep_view()[k],
        decreases a.len() - i,
    {
        if !str_eq(a[i].as_str(), b[i].as_str()) {
            proof {
                assert(a.deep_view()[i as int] != b.deep_view()[i as int]);
            }
            return false;
        }
        i = i + 1;
    }
    proof {
        assert(a.deep_view() =~= b.deep_view());
    }
    true
}

/// Whether a registry entry's tags, once the ownership marker is removed,
/// equal a declaration's tags.
fn agent_tags_match(s_tags: &Vec<String>, m_tags: &Vec<String>) -> (b: bool)
    ensures
        b == (strip_marker(m_tags.deep_view()) == s_tags.deep_view()),
{
    let mut stripped: Vec<String> = Vec::new();
    let mut i: usize = 0;
    proof {
        assert(m_tags.deep_view().take(0) =~= Seq::<Seq<char>>::empty());
        assert(stripped.deep_view() =~= strip_marker(m_tags.deep_view().take(0)));
    }
    while i < m_tags.len()
        invariant
            i <= m_tags.len(),
            stripped.deep_view() == strip_marker(m_tags.deep_view().take(i as int)),
        decreases m_tags.len() - i,
    {
        let ghost before = stripped.deep_view();
        if !str_eq(m_tags[i].as_str(), marker_str()) {
            stripped.push(m_tags[i].clone());
        }
        proof {
            let cur = m_tags.deep_view().take(i + 1);
            assert(cur.drop_last() =~= m_tags.deep_view().take(i as int));
            assert(cur.last() == m_tags.deep_view()[i as int]);
            assert(stripped.deep_view() == strip_marker(cur));
        }
        i = i + 1;
    }
    proof {
        assert(m_tags.deep_view().take(m_tags.len() as int) =~= m_tags.deep_view());
    }
    vec_string_eq(&stripped, s_tags)
}

/// Whether a declaration and a registry entry stand for the same service.
pub fn config_matches_agent(s: &ServiceConfig, m: &AgentService) -> (b: bool)
    ensures
        b == same_service(s@, m@),
{
    if !str_eq(s.name.as_str(), m.id.as_str()) {
        return false;
    }
    if s.port != m.port {
        return false;
    }
    if !str_eq(s.address.as_str(), m.address.as_str()) {
        return false;
    }
    if !str_eq(s.kind.as_str(), m.kind.as_str()) {
        return false;
    }
    agent_tags_match(&s.tags, &m.tags)
}

/// Whether any desired declaration stands for the same service as `m`.
fn any_match(desired: &Vec<ServiceConfig>, m: &AgentService) -> (b: bool)
    ensures
        b == matched_by_any(desired.deep_view(), m@),
{
    let mut i: usize = 0;
    while i < desired.len()
        invariant
            i <= desired.len(),
            forall|k: int| 0 <= k < i ==> !same_service(#[trigger] desired.deep_view()[k], m@),
        decreases desired.len() - i,
    {
        if config_matches_agent(&desired[i], m) {
            proof {
                assert(same_service(desired.deep_view()[i as int], m@));
            }
            return true;
        }
        i = i + 1;
    }
    false
}

/// Whether the observed state already covers a declaration's name.
fn is_covered(
    s: &ServiceConfig,
    desired: &Vec<ServiceConfig>,
    observed: &Vec<AgentService>,
) -> (b: bool)
    ensures
        b == covered(s@, desired.deep_view(), observed.deep_view()),
{
    let mut j: usize = 0;
    while j < observed.len()
        invariant
            j <= observed.len(),
            forall|k: int|
                0 <= k < j ==> !(is_managed(#[trigger] observed.deep_view()[k]) && matched_by_any(
                    desired.deep_view(),
                    observed.deep_view()[k],
                ) && observed.deep_view()[k].id == s@.name),
        decreases observed.len() - j,
    {
        if observed[j].is_managed() && any_match(desired, &observed[j]) && str_eq(
            observed[j].id.as_str(),
            s.name.as_str(),
        ) {
            proof {
                assert(is_managed(observed.deep_view()[j as int]) && matched_by_any(
                    desired.deep_view(),
                    observed.deep_view()[j as int],
                ) && observed.deep_view()[j as int].id == s@.name);
            }
            return true;
        }
        j = j + 1;
    }
    false
}

/// One reconciliation pass's work: the ids to deregister first, then the
/// declarations to register.
#[derive(Debug)]
pub struct ReconcilePlan {
    pub to_register: Vec<ServiceConfig>,
    pub to_deregister: Vec<String>,
}

/// Diffs the desired service set against the observed registry state. Every
/// observed entry bearing the ownership marker that matches no declaration
/// is deregistered; every declaration whose name no matching, marker-bearing
/// entry carries is registered. Entries without the marker are never
/// deregistered.
pub fn reconcile(desired: &Vec<ServiceConfig>, observed: &Vec<AgentService>) -> (p: ReconcilePlan)
    ensures
        p.to_deregister.deep_view() == spec_to_deregister(
            desired.deep_view(),
            observed.deep_view(),
        ),
        p.to_register.deep_view() == spec_to_register(desired.deep_view(), observed.deep_view()),
{
    let ghost dv = desired.deep_view();
    let ghost ov = observed.deep_view();
    let mut to_deregister: Vec<String> = Vec::new();
    let mut i: usize = 0;
    proof {
        assert(ov.take(0) =~= Seq::<AgentServiceView>::empty());
        assert(to_deregister.deep_view() =~= spec_to_deregister(dv, ov.take(0)));
    }
    while i < observed.len()
        invariant
            i <= observed.len(),
            dv == desired.deep_view(),
            ov == observed.deep_view(),
            to_deregister.deep_view() == spec_to_deregister(dv, ov.take(i as int)),
        decreases observed.len() - i,
    {
        let m = &observed[i];
        if m.is_managed() && !any_match(desired, m) {
            to_deregister.push(m.id.clone());
        }
        proof {
            let cur = ov.take(i + 1);
            assert(cur.drop_last() =~= ov.take(i as int));
            assert(cur.last() == ov[i as int]);
            assert(to_deregister.deep_view() == spec_to_deregister(dv, cur));
        }
        i = i + 1;
    }
    proof {
        assert(ov.take(observed.len() as int) =~= ov);
    }
    let mut to_register: Vec<ServiceConfig> = Vec::new();
    let mut k: usize = 0;
    proof {
        assert(to_register.deep_view() =~= spec_to_register_prefix(dv, ov, 0));
    }
    while k < desired.len()
        invariant
            k <= desired.len(),
            dv == desired.deep_view(),
            ov == observed.deep_view(),
            to_register.deep_view() == spec_to_register_prefix(dv, ov, k as int),
        decreases desired.len() - k,
    {
        let s = &desired[k];
        if !is_covered(s, desired, observed) {
            to_register.push(s.duplicate());
        }
        proof {
            assert(to_register.deep_view() == spec_to_register_prefix(dv, ov, k + 1));
        }
        k = k + 1;
    }
    ReconcilePlan { to_register, to_deregister }
}

/// Ownership scoping: everything the engine deregisters is the id of an
/// observed entry that bears the ownership marker and matches no desired
/// declaration. An entry without the marker is never deregistered,
/// whether or not it matches a declaration.
pub proof fn lemma_deregister_only_managed(
    desired: Seq<ServiceConfigView>,
    observed: Seq<AgentServiceView>,
)
    ensures
        forall|x: Seq<char>|
            spec_to_deregister(desired, observed).contains(x) ==> exists|j: int|
                0 <= j < observed.len() && #[trigger] observed[j].id == x && is_managed(
                    observed[j],
                ) && !matched_by_any(desired, observed[j]),
    decreases observed.len(),
{
    if observed.len() == 0 {
    } else {
        lemma_deregister_only_managed(desired, observed.drop_last());
        let prev = spec_to_deregister(desired, observed.drop_last());
        let r = spec_to_deregister(desired, observed);
        assert forall|x: Seq<char>| r.contains(x) implies exists|j: int|
            0 <= j < observed.len() && #[trigger] observed[j].id == x && is_managed(observed[j])
                && !matched_by_any(desired, observed[j]) by {
            if prev.contains(x) {
                let j = choose|j: int|
                    0 <= j < observed.drop_last().len() && #[trigger] observed.drop_last()[j].id
                        == x && is_managed(observed.drop_last()[j]) && !matched_by_any(
                        desired,
                        observed.drop_last()[j],
                    );
                assert(observed[j] == observed.drop_last()[j]);
            } else {
                let m = observed.last();
                assert(r == prev.push(m.id));
                assert(x == m.id);
                assert(observed[observed.len() - 1] == m);
            }
        }
    }
}

/// Every observed entry bearing the marker that matches no declaration has
/// its id in the deregistration list.
pub proof fn lemma_deregister_complete(
    desired: Seq<ServiceConfigView>,
    observed: Seq<AgentServiceView>,
    j: int,
)
    requires
        0 <= j < observed.len(),
        is_managed(observed[j]),
        !matched_by_any(desired, observed[j]),
    ensures
        spec_to_deregister(desired, observed).contains(observed[j].id),
    decreases observed.len(),
{
    let prev = spec_to_deregister(desired, observed.drop_last());
    let r = spec_to_deregister(desired, observed);
    if j == observed.len() - 1 {
        assert(r == prev.push(observed[j].id));
        assert(r.last() == observed[j].id);
    } else {
        assert(observed.drop_last()[j] == observed[j]);
        lemma_deregister_complete(desired, observed.drop_last(), j);
        let w = choose|w: int| 0 <= w < prev.len() && prev[w] == observed[j].id;
        if is_managed(observed.last()) && !matched_by_any(desired, observed.last()) {
            assert(r[w] == prev[w]);
        }
    }
}

/// Everything the engine registers is an uncovered desired declaration.
pub proof fn lemma_register_membership(
    desired: Seq<ServiceConfigView>,
    observed: Seq<AgentServiceView>,
    k: int,
)
    requires
        0 <= k <= desired.len(),
    ensures
        forall|x: ServiceConfigView|
            spec_to_register_prefix(desired, observed, k).contains(x) ==> exists|l: int|
                0 <= l < k && #[trigger] desired[l] == x && !covered(x, desired, observed),
    decreases k,
{
    if k > 0 {
        lemma_register_membership(desired, observed, k - 1);
        let prev = spec_to_register_prefix(desired, observed, k - 1);
        let r = spec_to_register_prefix(desired, observed, k);
        assert forall|x: ServiceConfigView| r.contains(x) implies exists|l: int|
            0 <= l < k && #[trigger] desired[l] == x && !covered(x, desired, observed) by {
            if prev.contains(x) {
            } else {
                assert(r == prev.push(desired[k - 1]));
                assert(x == desired[k - 1]);
            }
        }
    }
}

/// Every uncovered desired declaration is registered.
pub proof fn lemma_register_complete(
    desired: Seq<ServiceConfigView>,
    observed: Seq<AgentServiceView>,
    k: int,
    l: int,
)
    requires
        0 <= l < k <= desired.len(),
        !covered(desired[l], desired, observed),
    ensures
        spec_to_register_prefix(desired, observed, k).contains(desired[l]),
    decreases k,
{
    let prev = spec_to_register_prefix(desired, observed, k - 1);
    let r = spec_to_register_prefix(desired, observed, k);
    if l == k - 1 {
        assert(r == prev.push(desired[l]));
        assert(r.last() == desired[l]);
    } else {
        lemma_register_complete(desired, observed, k - 1, l);
        let w = choose|w: int| 0 <= w < prev.len() && prev[w] == desired[l];
        if !covered(desired[k - 1], desired, observed) {
            assert(r[w] == prev[w]);
        }
    }
}

/// A tag list without the marker is left alone by stripping.
proof fn lemma_strip_no_marker(tags: Seq<Seq<char>>)
    requires
        !tags.contains(marker_seq()),
    ensures
        strip_marker(tags) == tags,
    decreases tags.len(),
{
    if tags.len() > 0 {
        assert(tags.last() != marker_seq());
        assert(!tags.drop_last().contains(marker_seq())) by {
            if tags.drop_last().contains(marker_seq()) {
                let j = choose|j: int|
                    0 <= j < tags.drop_last().len() && tags.drop_last()[j] == marker_seq();
                assert(tags[j] == marker_seq());
            }
        }
        lemma_strip_no_marker(tags.drop_last());
        assert(tags.drop_last().push(tags.last()) =~= tags);
    }
}

/// Appending the marker to a marker-free tag list and stripping gives the
/// list back.
proof fn lemma_strip_push_marker(tags: Seq<Seq<char>>)
    requires
        !tags.contains(marker_seq()),
    ensures
        strip_marker(tags.push(marker_seq())) == tags,
{
    let pushed = tags.push(marker_seq());
    assert(pushed.last() == marker_seq());
    assert(pushed.drop_last() =~= tags);
    lemma_strip_no_marker(tags);
}

/// The registry entry a registration of `s` creates: the declaration's
/// fields under its name as id, with the ownership marker appended to its
/// tags.
pub open spec fn registered_view(s: ServiceConfigView) -> AgentServiceView {
    AgentServiceView {
        kind: s.kind,
        id: s.name,
        tags: s.tags.push(marker_seq()),
        port: s.port,
        address: s.address,
    }
}

/// The observed entries that survive the deregistrations of a pass.
pub open spec fn keep_entries(observed: Seq<AgentServiceView>, dereg: Seq<Seq<char>>) -> Seq<
    AgentServiceView,
>
    decreases observed.len(),
{
    if observed.len() == 0 {
        Seq::empty()
    } else {
        let prev = keep_entries(observed.drop_last(), dereg);
        if dereg.contains(observed.last().id) {
            prev
        } else {
            prev.push(observed.last())
        }
    }
}

/// The registry after a pass is applied: the surviving entries followed by
/// the entries the registrations create.
pub open spec fn apply_plan(
    observed: Seq<AgentServiceView>,
    dereg: Seq<Seq<char>>,
    reg: Seq<ServiceConfigView>,
) -> Seq<AgentServiceView> {
    keep_entries(observed, dereg) + reg.map_values(|s: ServiceConfigView| registered_view(s))
}

/// Every surviving entry is an observed entry whose id was not
/// deregistered, and every such entry survives.
proof fn lemma_keep_membership(observed: Seq<AgentServiceView>, dereg: Seq<Seq<char>>)
    ensures
        forall|x: AgentServiceView|
            #[trigger] keep_entries(observed, dereg).contains(x) ==> observed.contains(x)
                && !dereg.contains(x.id),
        forall|j: int|
            0 <= j < observed.len() && !dereg.contains(#[trigger] observed[j].id)
                ==> keep_entries(observed, dereg).contains(observed[j]),
    decreases observed.len(),
{
    if observed.len() > 0 {
        lemma_keep_membership(observed.drop_last(), dereg);
        let prev = keep_entries(observed.drop_last(), dereg);
        let r = keep_entries(observed, dereg);
        assert forall|x: AgentServiceView| #[trigger] r.contains(x) implies observed.contains(x)
            && !dereg.contains(x.id) by {
            if prev.contains(x) {
                let j = choose|j: int|
                    0 <= j < observed.drop_last().len() && observed.drop_last()[j] == x;
                assert(observed[j] == x);
            } else {
                assert(r == prev.push(observed.last()));
                assert(x == observed.last());
                assert(observed[observed.len() - 1] == x);
            }
        }
        assert forall|j: int|
            0 <= j < observed.len() && !dereg.contains(#[trigger] observed[j].id) implies r.contains(
            observed[j],
        ) by {
            if j == observed.len() - 1 {
                assert(r == prev.push(observed.last()));
                assert(r.last() == observed[j]);
            } else {
                assert(observed.drop_last()[j] == observed[j]);
                assert(prev.contains(observed[j]));
                let w = choose|w: int| 0 <= w < prev.len() && prev[w] == observed[j];
                if !dereg.contains(observed.last().id) {
                    assert(r[w] == prev[w]);
                } else {
                    assert(r == prev);
                }
            }
        }
    }
}

/// When every marker-bearing entry of `observed` matches a declaration,
/// nothing is deregistered.
proof fn lemma_empty_deregister(
    desired: Seq<ServiceConfigView>,
    observed: Seq<AgentServiceView>,
)
    requires
        forall|j: int|
            0 <= j < observed.len() && is_managed(#[trigger] observed[j]) ==> matched_by_any(
                desired,
                observed[j],
            ),
    ensures
        spec_to_deregister(desired, observed) == Seq::<Seq<char>>::empty(),
    decreases observed.len(),
{
    if observed.len() > 0 {
        assert(forall|j: int|
            0 <= j < observed.drop_last().len() ==> observed.drop_last()[j] == observed[j]);
        lemma_empty_deregister(desired, observed.drop_last());
        assert(observed[observed.len() - 1] == observed.last());
    }
}

/// When every declaration is covered, nothing is registered.
proof fn lemma_empty_register(
    desired: Seq<ServiceConfigView>,
    observed: Seq<AgentServiceView>,
    k: int,
)
    requires
        0 <= k <= desired.len(),
        forall|l: int|
            0 <= l < desired.len() ==> covered(#[trigger] desired[l], desired, observed),
    ensures
        spec_to_register_prefix(desired, observed, k) == Seq::<ServiceConfigView>::empty(),
    decreases k,
{
    if k > 0 {
        lemma_empty_register(desired, observed, k - 1);
    }
}

/// No two observed entries share an id.
pub open spec fn distinct_ids(observed: Seq<AgentServiceView>) -> bool {
    forall|i: int, j: int|
        0 <= i < j < observed.len() ==> #[trigger] observed[i].id != #[trigger] observed[j].id
}

/// No desired declaration carries the ownership marker among its own tags.
pub open spec fn marker_free(desired: Seq<ServiceConfigView>) -> bool {
    forall|i: int| 0 <= i < desired.len() ==> !(#[trigger] desired[i].tags).contains(marker_seq())
}

/// Reconciliation is idempotent: once a pass's deregistrations and
/// registrations are applied to the registry, a second pass against the
/// same desired set finds nothing to do — provided observed ids are unique,
/// as a registry keyed by id guarantees, and no declaration itself carries
/// the ownership marker.
pub proof fn lemma_reconcile_idempotent(
    desired: Seq<ServiceConfigView>,
    observed: Seq<AgentServiceView>,
)
    requires
        distinct_ids(observed),
        marker_free(desired),
    ensures
        ({
            let observed2 = apply_plan(
                observed,
                spec_to_deregister(desired, observed),
                spec_to_register(desired, observed),
            );
            &&& spec_to_deregister(desired, observed2) == Seq::<Seq<char>>::empty()
            &&& spec_to_register(desired, observed2) == Seq::<ServiceConfigView>::empty()
        }),
{
    let dereg = spec_to_deregister(desired, observed);
    let reg = spec_to_register(desired, observed);
    let kept = keep_entries(observed, dereg);
    let regs = reg.map_values(|s: ServiceConfigView| registered_view(s));
    let observed2 = apply_plan(observed, dereg, reg);
    lemma_deregister_only_managed(desired, observed);
    lemma_keep_membership(observed, dereg);
    lemma_register_membership(desired, observed, desired.len() as int);

    // Every registration's entry matches its declaration and bears the marker.
    assert forall|i: int| 0 <= i < regs.len() implies is_managed(#[trigger] observed2[kept.len()
        + i]) && matched_by_any(desired, observed2[kept.len() + i]) by {
        let s = reg[i];
        let m = registered_view(s);
        assert(observed2[kept.len() + i] == regs[i]);
        assert(regs[i] == m);
        assert(m.tags.last() == marker_seq());
        assert(m.tags.contains(marker_seq()));
        assert(reg.contains(s));
        let l = choose|l: int|
            0 <= l < desired.len() && #[trigger] desired[l] == s && !covered(
                s,
                desired,
                observed,
            );
        lemma_strip_push_marker(s.tags);
        assert(same_service(desired[l], m));
    }

    // Every surviving entry that bears the marker still matches.
    assert forall|i: int| 0 <= i < kept.len() && is_managed(#[trigger] observed2[i]) implies
        matched_by_any(desired, observed2[i]) by {
        let m = kept[i];
        assert(observed2[i] == m);
        assert(kept.contains(m));
        assert(observed.contains(m) && !dereg.contains(m.id));
        let j = choose|j: int| 0 <= j < observed.len() && observed[j] == m;
        if !matched_by_any(desired, m) {
            lemma_deregister_complete(desired, observed, j);
        }
    }

    // So the second pass deregisters nothing.
    assert forall|j: int|
        0 <= j < observed2.len() && is_managed(#[trigger] observed2[j]) implies matched_by_any(
        desired,
        observed2[j],
    ) by {
        if j < kept.len() {
        } else {
            assert(observed2[j] == observed2[kept.len() + (j - kept.len())]);
        }
    }
    lemma_empty_deregister(desired, observed2);

    // Every declaration is covered after the pass.
    assert forall|l: int| 0 <= l < desired.len() implies covered(
        #[trigger] desired[l],
        desired,
        observed2,
    ) by {
        let s = desired[l];
        if covered(s, desired, observed) {
            let j = choose|j: int|
                0 <= j < observed.len() && is_managed(#[trigger] observed[j]) && matched_by_any(
                    desired,
                    observed[j],
                ) && observed[j].id == s.name;
            let m = observed[j];
            assert(!dereg.contains(m.id)) by {
                if dereg.contains(m.id) {
                    let j2 = choose|j2: int|
                        0 <= j2 < observed.len() && #[trigger] observed[j2].id == m.id
                            && is_managed(observed[j2]) && !matched_by_any(desired, observed[j2]);
                    assert(j2 != j);
                    if j2 < j {
                        assert(observed[j2].id != observed[j].id);
                    } else {
                        assert(observed[j].id != observed[j2].id);
                    }
                }
            }
            assert(kept.contains(m));
            let w = choose|w: int| 0 <= w < kept.len() && kept[w] == m;
            assert(observed2[w] == m);
            assert(covered(s, desired, observed2));
        } else {
            lemma_register_complete(desired, observed, desired.len() as int, l);
            let i = choose|i: int| 0 <= i < reg.len() && reg[i] == s;
            let m = registered_view(s);
            assert(observed2[kept.len() + i] == regs[i]);
            assert(regs[i] == m);
            assert(m.tags.last() == marker_seq());
            assert(m.tags.contains(marker_seq()));
            assert(is_managed(m));
            lemma_strip_push_marker(s.tags);
            assert(same_service(desired[l], m));
            assert(matched_by_any(desired, m));
            assert(m.id == s.name);
            assert(covered(s, desired, observed2));
        }
    }
    lemma_empty_register(desired, observed2, desired.len() as int);
}

} // verus!
