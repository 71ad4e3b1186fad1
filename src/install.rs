use vstd::prelude::*;
use crate::deps::{dependency_order, sort_deps, Node};
use crate::env_vars::{index_of, lemma_index_of, position_of};
use crate::manifest::OutputMetadata;
use crate::permissions::{grant_of, grant_string, AppPermissions, Permission};
use crate::text::{contains_text, find_char, same_text, views};

verus! {

/// `x` is the name of an app of `available`, or `app/id` for one of its permissions.
pub open spec fn offered(available: Seq<AppPermissions>, x: Seq<char>) -> bool {
    exists|a: int|
        0 <= a < available.len() && (x == available[a].app@ || exists|j: int|
            0 <= j < available[a].permissions@.len() && x == grant_of(available[a].app@, #[trigger] available[a].permissions@[j].id@))
}

/// Every grant string that the platform offers: `app/id` for each permission
/// of each app, and `app` for the whole app.
pub fn permission_strings(available: &[AppPermissions]) -> (r: Vec<String>)
    ensures
        forall|k: int| 0 <= k < r@.len() ==> offered(available@, (#[trigger] r@[k])@),
        forall|a: int| 0 <= a < available@.len() ==> views(r@).contains(#[trigger] available@[a].app@),
        forall|a: int, j: int|
            0 <= a < available@.len() && 0 <= j < available@[a].permissions@.len() ==> views(r@).contains(
                grant_of(available@[a].app@, #[trigger] available@[a].permissions@[j].id@),
            ),
{
    let mut out: Vec<String> = Vec::new();
    let mut a: usize = 0;
    while a < available.len()
        invariant
            a <= available@.len(),
            forall|k: int| 0 <= k < out@.len() ==> offered(available@, (#[trigger] out@[k])@),
            forall|a2: int| 0 <= a2 < a ==> views(out@).contains(#[trigger] available@[a2].app@),
            forall|a2: int, j: int|
                0 <= a2 < a && 0 <= j < available@[a2].permissions@.len() ==> views(out@).contains(
                    grant_of(available@[a2].app@, #[trigger] available@[a2].permissions@[j].id@),
                ),
        decreases available@.len() - a,
    {
        let app = &available[a].app;
        let perms = &available[a].permissions;
        let ghost start = views(out@);
        let mut j: usize = 0;
        while j < perms.len()
            invariant
                a < available@.len(),
                *perms == available@[a as int].permissions,
                *app == available@[a as int].app,
                j <= perms@.len(),
                forall|k: int| 0 <= k < out@.len() ==> offered(available@, (#[trigger] out@[k])@),
                forall|x: Seq<char>| start.contains(x) ==> views(out@).contains(x),
                forall|j2: int| 0 <= j2 < j ==> views(out@).contains(grant_of(app@, #[trigger] perms@[j2].id@)),
            decreases perms@.len() - j,
        {
            let ghost before = views(out@);
            let g = grant_string(app.as_str(), perms[j].id.as_str());
            let ghost prev = out@;
            out.push(g);
            proof {
                assert(views(out@) =~= before.push(g@));
                assert forall|k: int| 0 <= k < out@.len() implies offered(available@, (#[trigger] out@[k])@) by {
                    if k < prev.len() {
                        assert(out@[k] == prev[k]);
                    } else {
                        assert(out@[k]@ == grant_of(available@[a as int].app@, available@[a as int].permissions@[j as int].id@));
                    }
                }
                assert(views(out@)[before.len() as int] == g@);
                assert forall|x: Seq<char>| before.contains(x) implies views(out@).contains(x) by {
                    let w = choose|w: int| 0 <= w < before.len() && before[w] == x;
                    assert(views(out@)[w] == x);
                }
            }
            j = j + 1;
        }
        let ghost before = views(out@);
        let ghost prev = out@;
        out.push(app.clone());
        proof {
            assert(views(out@) =~= before.push(app@));
            assert forall|k: int| 0 <= k < out@.len() implies offered(available@, (#[trigger] out@[k])@) by {
                if k < prev.len() {
                    assert(out@[k] == prev[k]);
                } else {
                    assert(out@[k]@ == available@[a as int].app@);
                }
            }
            assert(views(out@)[before.len() as int] == app@);
            assert forall|x: Seq<char>| before.contains(x) implies views(out@).contains(x) by {
                let w = choose|w: int| 0 <= w < before.len() && before[w] == x;
                assert(views(out@)[w] == x);
            }
        }
        a = a + 1;
    }
    out
}

/// The app part of a grant: what comes before its first `/`, or all of it.
pub open spec fn grant_app(g: Seq<char>) -> Seq<char> {
    g.take(index_of(g, '/'))
}

/// The app parts of the grants.
pub open spec fn grant_apps(grants: Seq<String>) -> Seq<Seq<char>> {
    views(grants).map_values(|g: Seq<char>| grant_app(g))
}

/// Every app of `deps` is installed.
pub open spec fn all_installed(deps: Seq<Seq<char>>, installed: Seq<String>) -> bool {
    forall|d: int| 0 <= d < deps.len() ==> views(installed).contains(#[trigger] deps[d])
}

/// The nodes to order, in the order of `apps`: each app whose grants all name
/// installed apps, depending on the apps that its grants name.
pub open spec fn wanted_nodes(apps: Seq<(String, Vec<String>)>, installed: Seq<String>) -> Seq<(Seq<char>, Seq<Seq<char>>)>
    decreases apps.len(),
{
    if apps.len() == 0 {
        seq![]
    } else {
        let rest = wanted_nodes(apps.drop_last(), installed);
        let deps = grant_apps(apps.last().1@);
        if all_installed(deps, installed) {
            rest.push((apps.last().0@, deps))
        } else {
            rest
        }
    }
}

/// The id and the dependencies of each node.
pub open spec fn node_views(nodes: Seq<Node>) -> Seq<(Seq<char>, Seq<Seq<char>>)> {
    nodes.map_values(|n: Node| (n.id@, views(n.dependencies@)))
}

fn app_of_grant(grant: &str) -> (r: String)
    ensures
        r@ == grant_app(grant@),
{
    proof {
        lemma_index_of(grant@, '/');
    }
    let k = position_of(grant, '/');
    String::from_str(grant.substring_char(0, k))
}

/// The nodes of the apps whose templates are generated after those of the
/// apps they have permissions of: each app whose grants all name installed
/// apps, in order, depending on the apps its grants name.
pub fn dependency_nodes(apps: Vec<(String, Vec<String>)>, installed: &[String]) -> (r: Vec<Node>)
    ensures
        node_views(r@) == wanted_nodes(apps@, installed@),
{
    let ghost input = apps@;
    let mut apps = apps;
    let mut out: Vec<Node> = Vec::new();
    let total = apps.len();
    let mut i: usize = 0;
    while apps.len() > 0
        invariant
            input.len() == total,
            i <= total,
            apps@ == input.skip(i as int),
            node_views(out@) == wanted_nodes(input.take(i as int), installed@),
        decreases apps@.len(),
    {
        let (id, perms) = apps.remove(0);
        assert(input[i as int].0 == id && input[i as int].1 == perms);
        assert(input.skip(i as int).remove(0) =~= input.skip(i + 1));
        let mut deps: Vec<String> = Vec::new();
        let mut installed_all = true;
        let mut j: usize = 0;
        while j < perms.len()
            invariant
                j <= perms@.len(),
                views(deps@) == grant_apps(perms@).take(j as int),
                installed_all == all_installed(grant_apps(perms@).take(j as int), installed@),
            decreases perms@.len() - j,
        {
            let dep = app_of_grant(perms[j].as_str());
            let found = contains_text(installed, dep.as_str());
            let ghost before = deps@;
            deps.push(dep);
            proof {
                assert(views(deps@) =~= grant_apps(perms@).take(j + 1));
                assert(grant_apps(perms@).take(j + 1)[j as int] == dep@);
                if installed_all && found {
                    assert forall|d: int| 0 <= d < j + 1 implies views(installed@).contains(#[trigger] grant_apps(perms@).take(j + 1)[d]) by {
                        if d < j {
                            assert(grant_apps(perms@).take(j + 1)[d] == grant_apps(perms@).take(j as int)[d]);
                        }
                    }
                }
                if installed_all && !found {
                    assert(!views(installed@).contains(grant_apps(perms@).take(j + 1)[j as int]));
                }
                if !installed_all {
                    let d = choose|d: int| 0 <= d < j && !views(installed@).contains(#[trigger] grant_apps(perms@).take(j as int)[d]);
                    assert(grant_apps(perms@).take(j + 1)[d] == grant_apps(perms@).take(j as int)[d]);
                }
            }
            installed_all = installed_all && found;
            j = j + 1;
        }
        proof {
            assert(grant_apps(perms@).take(j as int) =~= grant_apps(perms@));
            assert(input.take(i + 1).drop_last() =~= input.take(i as int));
            assert(input.take(i + 1).last() == input[i as int]);
        }
        if installed_all {
            let ghost before = out@;
            let node = Node { id, dependencies: deps };
            out.push(node);
            assert(node_views(out@) =~= node_views(before).push((node.id@, views(node.dependencies@))));
        }
        i = i + 1;
    }
    assert(input.take(i as int) =~= input);
    out
}

/// The order in which the apps' templates are generated: each after the apps
/// it has permissions of; apps depending on one that is not installed, or on
/// a cycle, are left out.
pub fn processing_order(apps: Vec<(String, Vec<String>)>, installed: &[String]) -> (r: Vec<String>)
    ensures
        exists|nodes: Seq<Node>|
            node_views(nodes) == wanted_nodes(apps@, installed@) && views(r@) == #[trigger] dependency_order(nodes),
{
    let nodes = dependency_nodes(apps, installed);
    let ghost n = nodes@;
    let r = sort_deps(nodes);
    assert(node_views(n) == wanted_nodes(apps@, installed@) && views(r@) == dependency_order(n));
    r
}

/// Whether some record of `registry` has id `id`.
pub open spec fn has_record(registry: Seq<OutputMetadata>, id: Seq<char>) -> bool {
    exists|k: int| 0 <= k < registry.len() && (#[trigger] registry[k]).id@ == id
}

fn find_record(registry: &[OutputMetadata], id: &str) -> (r: Option<usize>)
    ensures
        match r {
            Some(k) => k < registry@.len() && registry@[k as int].id@ == id@ && forall|x: int| 0 <= x < k ==> registry@[x].id@ != id@,
            None => !has_record(registry@, id@),
        },
{
    let mut k: usize = 0;
    while k < registry.len()
        invariant
            k <= registry@.len(),
            forall|x: int| 0 <= x < k ==> (#[trigger] registry@[x]).id@ != id@,
        decreases registry@.len() - k,
    {
        if same_text(registry[k].id.as_str(), id) {
            return Some(k);
        }
        k = k + 1;
    }
    None
}

/// The records of `current`, in order, whose app has no record in `fresh`.
pub open spec fn kept_records(current: Seq<OutputMetadata>, fresh: Seq<OutputMetadata>) -> Seq<OutputMetadata>
    decreases current.len(),
{
    if current.len() == 0 {
        seq![]
    } else if has_record(fresh, current.last().id@) {
        kept_records(current.drop_last(), fresh)
    } else {
        kept_records(current.drop_last(), fresh).push(current.last())
    }
}

/// The registry after a pass: the records of the apps that were not
/// regenerated, in their order, then the new records.
pub fn merge_registry(current: Vec<OutputMetadata>, new_entries: Vec<OutputMetadata>) -> (r: Vec<OutputMetadata>)
    ensures
        r@ == kept_records(current@, new_entries@) + new_entries@,
        r@.len() >= new_entries@.len(),
        r@.skip(r@.len() - new_entries@.len()) == new_entries@,
        forall|k: int|
            0 <= k < r@.len() - new_entries@.len() ==> !has_record(new_entries@, (#[trigger] r@[k]).id@) && current@.contains(r@[k]),
        forall|k: int|
            0 <= k < current@.len() && !has_record(new_entries@, (#[trigger] current@[k]).id@) ==> r@.contains(current@[k]),
{
    let ghost input = current@;
    let mut current = current;
    let mut out: Vec<OutputMetadata> = Vec::new();
    let total = current.len();
    let mut i: usize = 0;
    while current.len() > 0
        invariant
            input.len() == total,
            i <= total,
            current@ == input.skip(i as int),
            out@ == kept_records(input.take(i as int), new_entries@),
            forall|k: int| 0 <= k < out@.len() ==> !has_record(new_entries@, (#[trigger] out@[k]).id@) && input.contains(out@[k]),
            forall|k: int| 0 <= k < i && !has_record(new_entries@, (#[trigger] input[k]).id@) ==> out@.contains(input[k]),
        decreases current@.len(),
    {
        let e = current.remove(0);
        assert(input[i as int] == e);
        assert(input.skip(i as int).remove(0) =~= input.skip(i + 1));
        let ghost before = out@;
        proof {
            assert(input.take(i + 1).drop_last() =~= input.take(i as int));
            assert(input.take(i + 1).last() == e);
        }
        if find_record(new_entries.as_slice(), e.id.as_str()).is_none() {
            out.push(e);
            proof {
                assert(out@[before.len() as int] == input[i as int]);
                assert forall|k: int| 0 <= k < i + 1 && !has_record(new_entries@, (#[trigger] input[k]).id@) implies out@.contains(input[k]) by {
                    if k < i {
                        let w = choose|w: int| 0 <= w < before.len() && before[w] == input[k];
                        assert(out@[w] == input[k]);
                    }
                }
                assert forall|k: int| 0 <= k < out@.len() implies !has_record(new_entries@, (#[trigger] out@[k]).id@) && input.contains(out@[k]) by {
                    if k < before.len() {
                        assert(out@[k] == before[k]);
                    }
                }
            }
        }
        i = i + 1;
    }
    assert(input.take(i as int) =~= input);
    let ghost kept = out@;
    let mut new_entries = new_entries;
    let ghost added = new_entries@;
    out.append(&mut new_entries);
    proof {
        assert(out@ =~= kept + added);
        assert(out@.skip(out@.len() - added.len()) =~= added);
        assert forall|k: int| 0 <= k < out@.len() - added.len() implies !has_record(added, (#[trigger] out@[k]).id@) && input.contains(out@[k]) by {
            assert(out@[k] == kept[k]);
        }
        assert forall|k: int| 0 <= k < input.len() && !has_record(added, (#[trigger] input[k]).id@) implies out@.contains(input[k]) by {
            let w = choose|w: int| 0 <= w < kept.len() && kept[w] == input[k];
            assert(out@[w] == input[k]);
        }
    }
    out
}

/// The outcome of trying to install an app.
pub struct AppInstallState {
    pub success: bool,
    /// The permissions the app would have
    pub has_permissions: Vec<String>,
    /// For each other app whose permissions would grow, what it would gain
    pub other_app_permission_additions: Vec<(String, Vec<String>)>,
}

impl AppInstallState {
    /// The outcome of a trial that failed.
    pub fn failed() -> (r: AppInstallState)
        ensures
            !r.success,
            r.has_permissions@.len() == 0,
            r.other_app_permission_additions@.len() == 0,
    {
        AppInstallState { success: false, has_permissions: Vec::new(), other_app_permission_additions: Vec::new() }
    }
}

/// The permissions in `after` that are not in `before`, in order.
pub open spec fn added_permissions(before: Seq<String>, after: Seq<String>) -> Seq<Seq<char>> {
    not_in(views(before), views(after))
}

/// The elements of `after` that are not in `before`, in order.
pub open spec fn not_in(before: Seq<Seq<char>>, after: Seq<Seq<char>>) -> Seq<Seq<char>>
    decreases after.len(),
{
    if after.len() == 0 {
        seq![]
    } else if before.contains(after.last()) {
        not_in(before, after.drop_last())
    } else {
        not_in(before, after.drop_last()).push(after.last())
    }
}

/// `adds` is what app `id` gained from `before` to `after`.
pub open spec fn gained(before: Seq<OutputMetadata>, after: Seq<OutputMetadata>, id: Seq<char>, adds: Seq<Seq<char>>) -> bool {
    exists|b: int, a: int|
        0 <= b < before.len() && 0 <= a < after.len() && #[trigger] before[b].id@ == id && #[trigger] after[a].id@ == id
            && adds == added_permissions(before[b].has_permissions@, after[a].has_permissions@)
}

fn additions(before: &Vec<String>, after: &Vec<String>) -> (r: Vec<String>)
    ensures
        views(r@) == added_permissions(before@, after@),
{
    let mut out: Vec<String> = Vec::new();
    let mut i: usize = 0;
    while i < after.len()
        invariant
            i <= after@.len(),
            views(out@) == not_in(views(before@), views(after@).take(i as int)),
        decreases after@.len() - i,
    {
        let ghost prev = out@;
        let ghost t = views(after@).take(i + 1);
        assert(t.drop_last() =~= views(after@).take(i as int));
        if !contains_text(before.as_slice(), after[i].as_str()) {
            let s = after[i].clone();
            out.push(s);
            assert(views(out@) =~= views(prev).push(s@));
        } else {
            assert(views(out@) =~= views(prev));
        }
        i = i + 1;
    }
    assert(views(after@).take(i as int) =~= views(after@));
    out
}

fn same_list(a: &Vec<String>, b: &Vec<String>) -> (r: bool)
    ensures
        r == (views(a@) == views(b@)),
{
    if a.len() != b.len() {
        proof {
            assert(views(a@).len() != views(b@).len());
        }
        return false;
    }
    let mut i: usize = 0;
    while i < a.len()
        invariant
            a@.len() == b@.len(),
            i <= a@.len(),
            forall|k: int| 0 <= k < i ==> a@[k]@ == b@[k]@,
        decreases a@.len() - i,
    {
        if !same_text(a[i].as_str(), b[i].as_str()) {
            proof {
                assert(views(a@)[i as int] != views(b@)[i as int]);
            }
            return false;
        }
        i = i + 1;
    }
    assert(views(a@) =~= views(b@));
    true
}

/// The first record of `registry` with id `id` has permissions other than `perms`.
pub open spec fn changed_in(registry: Seq<OutputMetadata>, id: Seq<char>, perms: Seq<String>) -> bool {
    exists|a: int|
        0 <= a < registry.len() && #[trigger] registry[a].id@ == id && (forall|x: int| 0 <= x < a ==> registry[x].id@ != id)
            && views(registry[a].has_permissions@) != views(perms)
}

/// Some entry of `r` is for app `id`.
pub open spec fn reported(r: Seq<(String, Vec<String>)>, id: Seq<char>) -> bool {
    exists|k: int| 0 <= k < r.len() && #[trigger] r[k].0@ == id
}

proof fn lemma_first_record(registry: Seq<OutputMetadata>, id: Seq<char>, a: int)
    requires
        0 <= a < registry.len(),
        registry[a].id@ == id,
        forall|x: int| 0 <= x < a ==> registry[x].id@ != id,
    ensures
        forall|perms: Seq<String>| changed_in(registry, id, perms) ==> views(registry[a].has_permissions@) != views(perms),
{
    assert forall|perms: Seq<String>| changed_in(registry, id, perms) implies views(registry[a].has_permissions@) != views(perms) by {
        let a2 = choose|a2: int|
            0 <= a2 < registry.len() && #[trigger] registry[a2].id@ == id && (forall|x: int| 0 <= x < a2 ==> registry[x].id@ != id)
                && views(registry[a2].has_permissions@) != views(perms);
        if a2 < a {
            assert(registry[a2].id@ != id);
        } else if a2 > a {
            assert(registry[a].id@ != id);
        }
    }
}

/// Record `b` is the first of `before` for its app.
pub open spec fn first_of(before: Seq<OutputMetadata>, b: int) -> bool {
    forall|x: int| 0 <= x < b ==> before[x].id@ != before[b].id@
}

/// The first record of app `id` in `before` has permissions that changed in `after`.
pub open spec fn changed_app(before: Seq<OutputMetadata>, after: Seq<OutputMetadata>, id: Seq<char>) -> bool {
    exists|b: int|
        0 <= b < before.len() && #[trigger] before[b].id@ == id && first_of(before, b) && changed_in(
            after,
            id,
            before[b].has_permissions@,
        )
}

/// Some first record, among the first `n` of `before`, of app `id` changed in `after`.
pub open spec fn changed_within(before: Seq<OutputMetadata>, after: Seq<OutputMetadata>, id: Seq<char>, n: int) -> bool {
    exists|b: int|
        0 <= b < n && b < before.len() && #[trigger] before[b].id@ == id && first_of(before, b) && changed_in(
            after,
            id,
            before[b].has_permissions@,
        )
}

fn is_first_record(before: &[OutputMetadata], b: usize) -> (r: bool)
    requires
        b < before@.len(),
    ensures
        r == first_of(before@, b as int),
{
    let mut x: usize = 0;
    while x < b
        invariant
            x <= b,
            b < before@.len(),
            forall|y: int| 0 <= y < x ==> before@[y].id@ != before@[b as int].id@,
        decreases b - x,
    {
        if same_text(before[x].id.as_str(), before[b].id.as_str()) {
            return false;
        }
        x = x + 1;
    }
    true
}

/// For each app of `before` whose permissions changed in `after`, once, the
/// permissions it gained; apps whose permissions did not change are not listed.
pub fn permission_additions(before: &[OutputMetadata], after: &[OutputMetadata]) -> (r: Vec<(String, Vec<String>)>)
    ensures
        forall|b: int|
            0 <= b < before@.len() && first_of(before@, b) && changed_in(after@, (#[trigger] before@[b]).id@, before@[b].has_permissions@)
                ==> reported(r@, before@[b].id@),
        forall|k: int| 0 <= k < r@.len() ==> gained(before@, after@, (#[trigger] r@[k]).0@, views(r@[k].1@)),
        forall|k: int| 0 <= k < r@.len() ==> changed_app(before@, after@, (#[trigger] r@[k]).0@),
        forall|k1: int, k2: int| 0 <= k1 < r@.len() && 0 <= k2 < r@.len() && k1 != k2 ==> r@[k1].0@ != r@[k2].0@,
{
    let mut out: Vec<(String, Vec<String>)> = Vec::new();
    let mut b: usize = 0;
    while b < before.len()
        invariant
            b <= before@.len(),
            forall|b2: int|
                0 <= b2 < b && first_of(before@, b2) && changed_in(after@, (#[trigger] before@[b2]).id@, before@[b2].has_permissions@)
                    ==> reported(out@, before@[b2].id@),
            forall|k: int| 0 <= k < out@.len() ==> gained(before@, after@, (#[trigger] out@[k]).0@, views(out@[k].1@)),
            forall|k: int|
                0 <= k < out@.len() ==> changed_within(before@, after@, (#[trigger] out@[k]).0@, b as int),
            forall|k1: int, k2: int| 0 <= k1 < out@.len() && 0 <= k2 < out@.len() && k1 != k2 ==> out@[k1].0@ != out@[k2].0@,
        decreases before@.len() - b,
    {
        let old_record = &before[b];
        let ghost prev = out@;
        if is_first_record(before, b) {
            if let Some(a) = find_record(after, old_record.id.as_str()) {
                proof {
                    lemma_first_record(after@, before@[b as int].id@, a as int);
                }
                if !same_list(&old_record.has_permissions, &after[a].has_permissions) {
                    let added = additions(&old_record.has_permissions, &after[a].has_permissions);
                    let id = old_record.id.clone();
                    out.push((id, added));
                    proof {
                        assert(changed_in(after@, before@[b as int].id@, before@[b as int].has_permissions@));
                        assert(out@[prev.len() as int].0@ == before@[b as int].id@);
                        assert forall|k: int| 0 <= k < out@.len() implies gained(before@, after@, (#[trigger] out@[k]).0@, views(out@[k].1@)) by {
                            if k < prev.len() {
                                assert(out@[k] == prev[k]);
                            } else {
                                assert(before@[b as int].id@ == out@[k].0@);
                                assert(after@[a as int].id@ == out@[k].0@);
                                assert(views(out@[k].1@) == added_permissions(before@[b as int].has_permissions@, after@[a as int].has_permissions@));
                            }
                        }
                        assert forall|k: int|
                            0 <= k < out@.len() implies changed_within(before@, after@, (#[trigger] out@[k]).0@, b + 1) by {
                            if k < prev.len() {
                                assert(out@[k] == prev[k]);
                                assert(changed_within(before@, after@, prev[k].0@, b as int));
                            } else {
                                assert(before@[b as int].id@ == out@[k].0@);
                            }
                        }
                        assert forall|k1: int, k2: int| 0 <= k1 < out@.len() && 0 <= k2 < out@.len() && k1 != k2 implies out@[k1].0@ != out@[k2].0@ by {
                            if k1 < prev.len() && k2 < prev.len() {
                                assert(out@[k1] == prev[k1] && out@[k2] == prev[k2]);
                            } else if k1 < prev.len() {
                                assert(out@[k1] == prev[k1]);
                                assert(changed_within(before@, after@, prev[k1].0@, b as int));
                            } else if k2 < prev.len() {
                                assert(out@[k2] == prev[k2]);
                                assert(changed_within(before@, after@, prev[k2].0@, b as int));
                            }
                        }
                        assert forall|b2: int|
                            0 <= b2 < b + 1 && first_of(before@, b2) && changed_in(after@, (#[trigger] before@[b2]).id@, before@[b2].has_permissions@)
                                implies reported(out@, before@[b2].id@) by {
                            if b2 < b {
                                let w = choose|w: int| 0 <= w < prev.len() && #[trigger] prev[w].0@ == before@[b2].id@;
                                assert(out@[w] == prev[w]);
                            }
                        }
                    }
                } else {
                    proof {
                        assert(!changed_in(after@, before@[b as int].id@, before@[b as int].has_permissions@));
                    }
                }
            } else {
                assert(!changed_in(after@, before@[b as int].id@, before@[b as int].has_permissions@));
            }
        }
        b = b + 1;
    }
    proof {
        assert forall|k: int| 0 <= k < out@.len() implies changed_app(before@, after@, (#[trigger] out@[k]).0@) by {
            assert(changed_within(before@, after@, out@[k].0@, b as int));
        }
    }
    out
}

/// The outcome of installing `app` on trial: success when the trial registry
/// has a record of it, with its permissions and what the other apps gained.
pub fn install_state(app: &str, before: &[OutputMetadata], after: &[OutputMetadata]) -> (r: AppInstallState)
    ensures
        r.success == has_record(after@, app@),
        r.success ==> exists|a: int|
            0 <= a < after@.len() && after@[a].id@ == app@ && views(r.has_permissions@) == views(after@[a].has_permissions@),
        !r.success ==> r.has_permissions@.len() == 0 && r.other_app_permission_additions@.len() == 0,
        r.success ==> forall|k: int| 0 <= k < r.other_app_permission_additions@.len() ==> changed_app(before@, after@, (#[trigger] r.other_app_permission_additions@[k]).0@),
        r.success ==> forall|k1: int, k2: int|
            0 <= k1 < r.other_app_permission_additions@.len() && 0 <= k2 < r.other_app_permission_additions@.len() && k1 != k2
                ==> r.other_app_permission_additions@[k1].0@ != r.other_app_permission_additions@[k2].0@,
        r.success ==> forall|b: int|
            0 <= b < before@.len() && first_of(before@, b) && changed_in(after@, (#[trigger] before@[b]).id@, before@[b].has_permissions@) ==> reported(
                r.other_app_permission_additions@,
                before@[b].id@,
            ),
        r.success ==> forall|k: int|
            0 <= k < r.other_app_permission_additions@.len() ==> gained(
                before@,
                after@,
                (#[trigger] r.other_app_permission_additions@[k]).0@,
                views(r.other_app_permission_additions@[k].1@),
            ),
{
    match find_record(after, app) {
        Some(a) => {
            let perms = crate::versioned::copy_strings_pub(&after[a].has_permissions);
            AppInstallState {
                success: true,
                has_permissions: perms,
                other_app_permission_additions: permission_additions(before, after),
            }
        },
        None => AppInstallState::failed(),
    }
}


/// The entries of `available` for apps other than `app`, in order.
pub open spec fn other_entries(available: Seq<AppPermissions>, app: Seq<char>) -> Seq<AppPermissions>
    decreases available.len(),
{
    if available.len() == 0 {
        seq![]
    } else if available.last().app@ == app {
        other_entries(available.drop_last(), app)
    } else {
        other_entries(available.drop_last(), app).push(available.last())
    }
}

fn drop_entries(available: Vec<AppPermissions>, app: &str) -> (r: Vec<AppPermissions>)
    ensures
        r@ == other_entries(available@, app@),
{
    let ghost input = available@;
    let mut pending = available;
    let mut out: Vec<AppPermissions> = Vec::new();
    let total = pending.len();
    let mut i: usize = 0;
    while pending.len() > 0
        invariant
            input.len() == total,
            i <= total,
            pending@ == input.skip(i as int),
            out@ == other_entries(input.take(i as int), app@),
        decreases pending@.len(),
    {
        let e = pending.remove(0);
        proof {
            assert(input[i as int] == e);
            assert(input.skip(i as int).remove(0) =~= input.skip(i + 1));
            assert(input.take(i + 1).drop_last() =~= input.take(i as int));
            assert(input.take(i + 1).last() == e);
        }
        if !same_text(e.app.as_str(), app) {
            out.push(e);
        }
        i = i + 1;
    }
    assert(input.take(i as int) =~= input);
    out
}

/// Records the permissions that `app` exposes, replacing what was known of
/// it. An installed app that implements a service is known under that
/// service's name too, with the same permissions.
pub fn register_exported(
    available: &mut Vec<AppPermissions>,
    app: &str,
    permissions: Vec<Permission>,
    installed: bool,
    implements: Option<String>,
)
    ensures
        ({
            let base = other_entries(old(available)@, app@);
            match implements {
                Some(service) if installed => {
                    let kept = other_entries(base, service@);
                    &&& final(available)@.len() == kept.len() + 2
                    &&& final(available)@.take(kept.len() as int) == kept
                    &&& final(available)@[kept.len() as int].app@ == service@
                    &&& final(available)@[kept.len() as int].permissions@.len() == permissions@.len()
                    &&& final(available)@.last() == (AppPermissions { app: final(available)@.last().app, permissions })
                    &&& final(available)@.last().app@ == app@
                },
                _ => {
                    &&& final(available)@.len() == base.len() + 1
                    &&& final(available)@.take(base.len() as int) == base
                    &&& final(available)@.last() == (AppPermissions { app: final(available)@.last().app, permissions })
                    &&& final(available)@.last().app@ == app@
                },
            }
        }),
{
    let mut taken: Vec<AppPermissions> = Vec::new();
    std::mem::swap(available, &mut taken);
    let mut entries = drop_entries(taken, app);
    if installed {
        if let Some(service) = implements {
            entries = drop_entries(entries, service.as_str());
            let copy = permissions.clone();
            entries.push(AppPermissions { app: service, permissions: copy });
        }
    }
    let n = entries.len();
    entries.push(AppPermissions { app: String::from_str(app), permissions });
    assert(entries@.take(n as int) =~= entries@.drop_last());
    *available = entries;
}

} // verus!
