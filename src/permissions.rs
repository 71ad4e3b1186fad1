use vstd::prelude::*;
use crate::text::{contains_text, lemma_text_lt_irreflexive, lemma_text_lt_total, lemma_text_lt_transitive, same_text, text_less, text_lt, views};

verus! {

#[verifier::external_type_specification]
#[verifier::external_body]
pub struct ExJsonValue(serde_json::Value);

/// Relies on the derived `Clone` of serde_json's `Value`: the copy is the same value.
pub assume_specification[ <serde_json::Value as Clone>::clone ](v: &serde_json::Value) -> (r: serde_json::Value)
    ensures
        r == *v,
;

/// The value of a variable that a permission exposes. Text values are also
/// available as environment variables; other values only to templates.
#[derive(Clone, Debug)]
pub enum VarValue {
    Text(String),
    Json(serde_json::Value),
}

impl VarValue {
    pub fn duplicate(&self) -> (r: VarValue)
        ensures
            r == *self,
    {
        match self {
            VarValue::Text(s) => VarValue::Text(s.clone()),
            VarValue::Json(v) => VarValue::Json(v.clone()),
        }
    }
}

/// A capability that an app exposes to other apps.
#[derive(Clone, Debug)]
pub struct Permission {
    pub id: String,
    pub name: String,
    pub description: String,
    /// Other permissions this permission implies
    pub includes: Vec<String>,
    /// Variables accessible with this permission, by name; where a name is
    /// listed twice, the first entry is the one that counts (`keys_unique`
    /// states the well-formed case)
    pub variables: Vec<(String, VarValue)>,
    /// Files accessible with this permission
    pub files: Vec<String>,
    /// Hidden from the UI
    pub hidden: bool,
}

/// What a consumer needs some permission of another app to expose.
pub enum Exposure {
    /// A variable of this name whose value refers to itself (`$NAME` or `${NAME}`)
    Variable(String),
    /// A file of this name
    File(String),
}

/// `"$"` followed by the name.
pub open spec fn dollar_ref(name: Seq<char>) -> Seq<char> {
    seq!['$'] + name
}

/// `"${"`, the name and `"}"`.
pub open spec fn braced_ref(name: Seq<char>) -> Seq<char> {
    seq!['$', '{'] + name + seq!['}']
}

/// The permission exposes a variable `name` whose value is a reference to itself.
pub open spec fn exposes_variable(p: Permission, name: Seq<char>) -> bool {
    exists|k: int|
        0 <= k < p.variables@.len() && #[trigger] p.variables@[k].0@ == name && match p.variables@[k].1 {
            VarValue::Text(v) => v@ == dollar_ref(name) || v@ == braced_ref(name),
            VarValue::Json(_) => false,
        }
}

pub open spec fn meets(p: Permission, need: Exposure) -> bool {
    match need {
        Exposure::Variable(n) => exposes_variable(p, n@),
        Exposure::File(f) => views(p.files@).contains(f@),
    }
}

/// The scoped grant string `app/id`.
pub open spec fn grant_of(app: Seq<char>, id: Seq<char>) -> Seq<char> {
    app + seq!['/'] + id
}

/// `p` of `app` is already granted by one of `current`.
pub open spec fn granted(app: Seq<char>, p: Permission, current: Seq<String>) -> bool {
    views(current).contains(grant_of(app, p.id@))
}

/// How many of the first `n` permissions, other than `i`, permission `i` includes, transitively.
pub open spec fn count_reached(perms: Seq<Permission>, i: int, n: int) -> nat
    decreases n,
{
    if n <= 0 {
        0
    } else {
        count_reached(perms, i, n - 1) + if n - 1 != i && reachable(perms, i, n - 1) {
            1nat
        } else {
            0nat
        }
    }
}

/// How many other permissions permission `i` includes, transitively.
pub open spec fn inclusion_count(perms: Seq<Permission>, i: int) -> nat {
    count_reached(perms, i, perms.len() as int)
}

/// A key of fewer inclusions, then the smaller id, comes first.
pub open spec fn key_before(ca: nat, ida: Seq<char>, cb: nat, idb: Seq<char>) -> bool {
    ca < cb || (ca == cb && text_lt(ida, idb))
}

/// Permission `a` is preferred to `b`: fewer transitive inclusions, then the smaller id.
pub open spec fn better(perms: Seq<Permission>, a: int, b: int) -> bool {
    key_before(inclusion_count(perms, a), perms[a].id@, inclusion_count(perms, b), perms[b].id@)
}

/// `r` is the best permission of `perms` that meets `need`: none when none
/// meets it; else the first already granted one, if any; else the first of
/// those with the fewest inclusions and, among them, the smallest id.
pub open spec fn is_best_match(
    app: Seq<char>,
    perms: Seq<Permission>,
    current: Seq<String>,
    need: Exposure,
    r: Option<usize>,
) -> bool {
    match r {
        None => forall|j: int| 0 <= j < perms.len() ==> !meets(#[trigger] perms[j], need),
        Some(i) => {
            &&& i < perms.len()
            &&& meets(perms[i as int], need)
            &&& if exists|j: int| 0 <= j < perms.len() && meets(#[trigger] perms[j], need) && granted(app, perms[j], current) {
                &&& granted(app, perms[i as int], current)
                &&& forall|j: int| 0 <= j < i && meets(#[trigger] perms[j], need) ==> !granted(app, perms[j], current)
            } else {
                &&& forall|j: int| 0 <= j < perms.len() && meets(#[trigger] perms[j], need) ==> !better(perms, j, i as int)
                &&& forall|j: int| 0 <= j < i && meets(#[trigger] perms[j], need) ==> better(perms, i as int, j)
            }
        },
    }
}

/// Builds the scoped grant string `app/id`.
pub fn grant_string(app: &str, id: &str) -> (r: String)
    ensures
        r@ == grant_of(app@, id@),
{
    let mut g = String::from_str(app);
    proof {
        reveal_strlit("/");
    }
    g.append("/");
    g.append(id);
    assert(g@ =~= grant_of(app@, id@));
    g
}

fn text_value_is(v: &VarValue, name: &str) -> (r: bool)
    ensures
        r == match *v {
            VarValue::Text(s) => s@ == dollar_ref(name@) || s@ == braced_ref(name@),
            VarValue::Json(_) => false,
        },
{
    match v {
        VarValue::Text(s) => {
            let dollar = String::from_str("$").concat(name);
            let braced = String::from_str("${").concat(name).concat("}");
            proof {
                reveal_strlit("$");
                reveal_strlit("${");
                reveal_strlit("}");
                assert(dollar@ =~= dollar_ref(name@));
                assert(braced@ =~= braced_ref(name@));
            }
            same_text(s.as_str(), dollar.as_str()) || same_text(s.as_str(), braced.as_str())
        },
        VarValue::Json(_) => false,
    }
}

/// Whether `p` meets `need`.
pub fn permission_meets(p: &Permission, need: &Exposure) -> (r: bool)
    ensures
        r == meets(*p, *need),
{
    match need {
        Exposure::Variable(name) => {
            let mut k: usize = 0;
            while k < p.variables.len()
                invariant
                    k <= p.variables@.len(),
                    *need == Exposure::Variable(*name),
                    forall|j: int|
                        0 <= j < k ==> !(#[trigger] p.variables@[j].0@ == name@ && match p.variables@[j].1 {
                            VarValue::Text(v) => v@ == dollar_ref(name@) || v@ == braced_ref(name@),
                            VarValue::Json(_) => false,
                        }),
                decreases p.variables@.len() - k,
            {
                if same_text(p.variables[k].0.as_str(), name.as_str()) && text_value_is(
                    &p.variables[k].1,
                    name.as_str(),
                ) {
                    assert(p.variables@[k as int].0@ == name@);
                    assert(exposes_variable(*p, name@));
                    return true;
                }
                k = k + 1;
            }
            false
        },
        Exposure::File(f) => contains_text(p.files.as_slice(), f.as_str()),
    }
}

/// How many other permissions permission `i` includes, transitively.
pub fn count_inclusions(perms: &[Permission], i: usize) -> (r: usize)
    requires
        i < perms@.len(),
    ensures
        r as int == inclusion_count(perms@, i as int),
{
    let seen = included_permissions(perms, i);
    let mut count: usize = 0;
    let mut j: usize = 0;
    while j < perms.len()
        invariant
            j <= perms@.len(),
            i < perms@.len(),
            seen@.len() == perms@.len(),
            forall|x: int| 0 <= x < perms@.len() ==> (#[trigger] seen@[x] <==> reachable(perms@, i as int, x)),
            count as int == count_reached(perms@, i as int, j as int),
            count <= j,
        decreases perms@.len() - j,
    {
        if j != i && seen[j] {
            count = count + 1;
        }
        j = j + 1;
    }
    count
}

/// Whether permission `a` is preferred to `b`.
pub fn is_better(perms: &[Permission], a: usize, b: usize) -> (r: bool)
    requires
        a < perms@.len(),
        b < perms@.len(),
    ensures
        r == better(perms@, a as int, b as int),
{
    let ca = count_inclusions(perms, a);
    let cb = count_inclusions(perms, b);
    ca < cb || (ca == cb && text_less(perms[a].id.as_str(), perms[b].id.as_str()))
}

proof fn lemma_key_step(ca: nat, ida: Seq<char>, cb: nat, idb: Seq<char>, cc: nat, idc: Seq<char>)
    requires
        key_before(ca, ida, cb, idb),
        !key_before(cc, idc, cb, idb),
    ensures
        key_before(ca, ida, cc, idc),
        !key_before(cc, idc, ca, ida),
{
    lemma_text_lt_total(idc, idb);
    lemma_text_lt_total(ida, idc);
    if ca == cc && cb == ca {
        if idc != idb {
            lemma_text_lt_transitive(ida, idb, idc);
        }
    }
}

proof fn lemma_better_step(perms: Seq<Permission>, a: int, b: int, c: int)
    requires
        better(perms, a, b),
        !better(perms, c, b),
    ensures
        better(perms, a, c),
        !better(perms, c, a),
{
    lemma_key_step(
        inclusion_count(perms, a),
        perms[a].id@,
        inclusion_count(perms, b),
        perms[b].id@,
        inclusion_count(perms, c),
        perms[c].id@,
    );
}

/// Finds the best permission of `perms`, exposed by `app_name`, that meets `need`.
pub fn find_permission_that_matches(
    app_name: &str,
    perms: &[Permission],
    current_permissions: &[String],
    need: &Exposure,
) -> (r: Option<usize>)
    ensures
        is_best_match(app_name@, perms@, current_permissions@, *need, r),
{
    // the first granted candidate
    let mut i: usize = 0;
    let mut any = false;
    while i < perms.len()
        invariant
            i <= perms@.len(),
            any == exists|j: int| 0 <= j < i && meets(#[trigger] perms@[j], *need),
            forall|j: int| 0 <= j < i && meets(#[trigger] perms@[j], *need) ==> !granted(app_name@, perms@[j], current_permissions@),
        decreases perms@.len() - i,
    {
        if permission_meets(&perms[i], need) {
            any = true;
            let g = grant_string(app_name, perms[i].id.as_str());
            if contains_text(current_permissions, g.as_str()) {
                return Some(i);
            }
        }
        i = i + 1;
    }
    if !any {
        return None;
    }
    // the first of the best candidates
    let mut best: Option<usize> = None;
    let mut i: usize = 0;
    while i < perms.len()
        invariant
            i <= perms@.len(),
            forall|j: int| 0 <= j < perms@.len() && meets(#[trigger] perms@[j], *need) ==> !granted(app_name@, perms@[j], current_permissions@),
            exists|j: int| 0 <= j < perms@.len() && meets(#[trigger] perms@[j], *need),
            match best {
                None => forall|j: int| 0 <= j < i ==> !meets(#[trigger] perms@[j], *need),
                Some(b) => {
                    &&& b < i
                    &&& meets(perms@[b as int], *need)
                    &&& forall|j: int| 0 <= j < i && meets(#[trigger] perms@[j], *need) ==> !better(perms@, j, b as int)
                    &&& forall|j: int| 0 <= j < b && meets(#[trigger] perms@[j], *need) ==> better(perms@, b as int, j)
                },
            },
        decreases perms@.len() - i,
    {
        if permission_meets(&perms[i], need) {
            match best {
                None => {
                    proof {
                        lemma_text_lt_irreflexive(perms@[i as int].id@);
                    }
                    best = Some(i);
                },
                Some(b) => {
                    if is_better(perms, i, b) {
                        proof {
                            assert forall|j: int| 0 <= j < i + 1 && meets(#[trigger] perms@[j], *need) implies !better(perms@, j, i as int) by {
                                if j < i {
                                    lemma_better_step(perms@, i as int, b as int, j);
                                } else {
                                    lemma_text_lt_irreflexive(perms@[j].id@);
                                }
                            }
                            assert forall|j: int| 0 <= j < i && meets(#[trigger] perms@[j], *need) implies better(perms@, i as int, j) by {
                                lemma_better_step(perms@, i as int, b as int, j);
                            }
                        }
                        best = Some(i);
                    }
                },
            }
        }
        i = i + 1;
    }
    best
}

/// A single permission that meets the need is the one found.
pub proof fn lemma_single_candidate_wins(
    app: Seq<char>,
    perms: Seq<Permission>,
    current: Seq<String>,
    need: Exposure,
    k: int,
    r: Option<usize>,
)
    requires
        0 <= k < perms.len(),
        meets(perms[k], need),
        forall|j: int| 0 <= j < perms.len() && meets(#[trigger] perms[j], need) ==> j == k,
        is_best_match(app, perms, current, need, r),
    ensures
        r == Some(k as usize),
{
}

/// Among several permissions that meet the need, the one already granted is
/// found, wherever it stands among them.
pub proof fn lemma_granted_candidate_wins(
    app: Seq<char>,
    perms: Seq<Permission>,
    current: Seq<String>,
    need: Exposure,
    k: int,
    r: Option<usize>,
)
    requires
        0 <= k < perms.len(),
        meets(perms[k], need),
        granted(app, perms[k], current),
        forall|j: int| 0 <= j < perms.len() && meets(#[trigger] perms[j], need) && granted(app, perms[j], current) ==> j == k,
        is_best_match(app, perms, current, need, r),
    ensures
        r == Some(k as usize),
{
}

/// When none of them is granted, the permission found includes the fewest
/// other permissions, transitively, and has the smallest id among those that
/// include as few.
pub proof fn lemma_fewest_inclusions_win(
    app: Seq<char>,
    perms: Seq<Permission>,
    current: Seq<String>,
    need: Exposure,
    r: Option<usize>,
)
    requires
        forall|j: int| 0 <= j < perms.len() && meets(#[trigger] perms[j], need) ==> !granted(app, perms[j], current),
        is_best_match(app, perms, current, need, r),
        r is Some,
    ensures
        forall|j: int|
            0 <= j < perms.len() && meets(#[trigger] perms[j], need) ==> inclusion_count(perms, r->0 as int) <= inclusion_count(perms, j)
                && (inclusion_count(perms, r->0 as int) == inclusion_count(perms, j) ==> !text_lt(perms[j].id@, perms[r->0 as int].id@)),
{
}

/// How many entries of `v` are unset.
pub open spec fn count_unset(v: Seq<bool>) -> nat
    decreases v.len(),
{
    if v.len() == 0 {
        0
    } else {
        count_unset(v.drop_last()) + if v.last() {
            0nat
        } else {
            1nat
        }
    }
}

proof fn lemma_count_unset_set(v: Seq<bool>, i: int)
    requires
        0 <= i < v.len(),
        !v[i],
    ensures
        count_unset(v.update(i, true)) + 1 == count_unset(v),
    decreases v.len(),
{
    let w = v.update(i, true);
    if i == v.len() - 1 {
        assert(w.drop_last() =~= v.drop_last());
    } else {
        assert(w.drop_last() =~= v.drop_last().update(i, true));
        lemma_count_unset_set(v.drop_last(), i);
    }
}

/// Permission `j` is named by one of the inclusions of permission `i`.
pub open spec fn includes_perm(perms: Seq<Permission>, i: int, j: int) -> bool {
    views(perms[i].includes@).contains(perms[j].id@)
}

/// `path` leads from permission to permission, each including the next.
pub open spec fn inclusion_path(perms: Seq<Permission>, path: Seq<int>) -> bool {
    &&& path.len() > 0
    &&& forall|k: int| 0 <= k < path.len() ==> 0 <= #[trigger] path[k] < perms.len()
    &&& forall|k: int| 0 <= k < path.len() - 1 ==> #[trigger] includes_perm(perms, path[k], path[k + 1])
}

/// Permission `j` is `start` or is included by it, transitively.
pub open spec fn reachable(perms: Seq<Permission>, start: int, j: int) -> bool {
    exists|path: Seq<int>| #[trigger] inclusion_path(perms, path) && path[0] == start && path.last() == j
}

/// `seen` marks exactly `start` and what it includes, transitively.
pub open spec fn inclusion_closure(perms: Seq<Permission>, start: int, seen: Seq<bool>) -> bool {
    &&& seen.len() == perms.len()
    &&& forall|j: int| 0 <= j < perms.len() ==> (#[trigger] seen[j] <==> reachable(perms, start, j))
}

proof fn lemma_closed_has_reachable(perms: Seq<Permission>, start: int, seen: Seq<bool>, path: Seq<int>)
    requires
        seen.len() == perms.len(),
        seen[start],
        forall|i: int, x: int|
            0 <= i < perms.len() && 0 <= x < perms.len() && seen[i] && #[trigger] includes_perm(perms, i, x) ==> seen[x],
        inclusion_path(perms, path),
        path[0] == start,
    ensures
        forall|k: int| 0 <= k < path.len() ==> seen[#[trigger] path[k]],
    decreases path.len(),
{
    if path.len() > 1 {
        let pre = path.drop_last();
        assert forall|k: int| 0 <= k < pre.len() - 1 implies #[trigger] includes_perm(perms, pre[k], pre[k + 1]) by {
            assert(pre[k] == path[k] && pre[k + 1] == path[k + 1]);
        }
        lemma_closed_has_reachable(perms, start, seen, pre);
        assert forall|k: int| 0 <= k < path.len() implies seen[#[trigger] path[k]] by {
            if k < pre.len() {
                assert(pre[k] == path[k]);
            } else {
                assert(pre[k - 1] == path[k - 1]);
                let q = k - 1;
                assert(includes_perm(perms, path[q], path[q + 1]));
                assert(q + 1 == k);
                assert(seen[path[q]]);
            }
        }
    }
}

/// Marks `start` and every permission that it includes, transitively, within
/// the same app. A cycle of inclusions is visited once.
pub fn included_permissions(perms: &[Permission], start: usize) -> (r: Vec<bool>)
    requires
        start < perms@.len(),
    ensures
        inclusion_closure(perms@, start as int, r@),
{
    let n = perms.len();
    let mut seen: Vec<bool> = Vec::new();
    let mut k: usize = 0;
    while k < n
        invariant
            k <= n,
            n == perms@.len(),
            seen@.len() == k,
            forall|j: int| 0 <= j < k ==> !seen@[j],
        decreases n - k,
    {
        seen.push(false);
        k = k + 1;
    }
    seen.set(start, true);
    assert(inclusion_path(perms@, seq![start as int]));
    let mut changed = true;
    while changed
        invariant
            n == perms@.len(),
            seen@.len() == n,
            start < n,
            seen@[start as int],
            forall|j: int| 0 <= j < n && #[trigger] seen@[j] ==> reachable(perms@, start as int, j),
            !changed ==> forall|i: int, j: int|
                0 <= i < n && 0 <= j < n && seen@[i] && #[trigger] includes_perm(perms@, i, j) ==> seen@[j],
        decreases count_unset(seen@) + if changed { 1nat } else { 0nat },
    {
        let ghost before = count_unset(seen@);
        changed = false;
        let mut i: usize = 0;
        while i < n
            invariant
                n == perms@.len(),
                seen@.len() == n,
                start < n,
                i <= n,
                seen@[start as int],
                forall|j: int| 0 <= j < n && #[trigger] seen@[j] ==> reachable(perms@, start as int, j),
                changed ==> count_unset(seen@) < before,
                !changed ==> count_unset(seen@) == before,
                !changed ==> forall|a: int, j: int|
                    0 <= a < i && 0 <= j < n && seen@[a] && #[trigger] includes_perm(perms@, a, j) ==> seen@[j],
            decreases n - i,
        {
            if seen[i] {
                let mut j: usize = 0;
                while j < n
                    invariant
                        n == perms@.len(),
                        seen@.len() == n,
                        start < n,
                        i < n,
                        j <= n,
                        seen@[start as int],
                        seen@[i as int],
                        forall|x: int| 0 <= x < n && #[trigger] seen@[x] ==> reachable(perms@, start as int, x),
                        changed ==> count_unset(seen@) < before,
                        !changed ==> count_unset(seen@) == before,
                        !changed ==> forall|a: int, x: int|
                            0 <= a < i && 0 <= x < n && seen@[a] && #[trigger] includes_perm(perms@, a, x) ==> seen@[x],
                        !changed ==> forall|x: int| 0 <= x < j && #[trigger] includes_perm(perms@, i as int, x) ==> seen@[x],
                    decreases n - j,
                {
                    if !seen[j] && contains_text(perms[i].includes.as_slice(), perms[j].id.as_str()) {
                        let ghost old_seen = seen@;
                        proof {
                            lemma_count_unset_set(seen@, j as int);
                        }
                        seen.set(j, true);
                        changed = true;
                        assert forall|x: int| 0 <= x < n && #[trigger] seen@[x] implies reachable(perms@, start as int, x) by {
                            if x == j {
                                assert(old_seen[i as int]);
                                let path = choose|path: Seq<int>| #[trigger] inclusion_path(perms@, path) && path[0] == start as int && path.last() == i as int;
                                assert(includes_perm(perms@, i as int, x));
                                let longer = path.push(x);
                                assert forall|k: int| 0 <= k < longer.len() - 1 implies #[trigger] includes_perm(perms@, longer[k], longer[k + 1]) by {
                                    if k < path.len() - 1 {
                                        assert(longer[k] == path[k] && longer[k + 1] == path[k + 1]);
                                    }
                                }
                                assert(inclusion_path(perms@, longer));
                            } else {
                                assert(old_seen[x]);
                            }
                        }
                    }
                    j = j + 1;
                }
            }
            i = i + 1;
        }
    }
    proof {
        assert forall|j: int| 0 <= j < n implies (#[trigger] seen@[j] <==> reachable(perms@, start as int, j)) by {
            if reachable(perms@, start as int, j) {
                let path = choose|path: Seq<int>| #[trigger] inclusion_path(perms@, path) && path[0] == start as int && path.last() == j;
                lemma_closed_has_reachable(perms@, start as int, seen@, path);
                assert(seen@[path[path.len() - 1]]);
            }
        }
    }
    seen
}

/// Whether `out` already has a variable named `key`.
fn has_key(out: &Vec<(String, VarValue)>, key: &str) -> (r: bool)
    ensures
        r == exists|k: int| 0 <= k < out@.len() && #[trigger] out@[k].0@ == key@,
{
    let mut i: usize = 0;
    while i < out.len()
        invariant
            i <= out@.len(),
            forall|k: int| 0 <= k < i ==> #[trigger] out@[k].0@ != key@,
        decreases out@.len() - i,
    {
        if same_text(out[i].0.as_str(), key) {
            return true;
        }
        i = i + 1;
    }
    false
}

/// No two variables share a name.
pub open spec fn keys_unique(vars: Seq<(String, VarValue)>) -> bool {
    forall|a: int, b: int| 0 <= a < vars.len() && 0 <= b < vars.len() && a != b ==> vars[a].0@ != vars[b].0@
}

/// `out` has a variable named `key`.
pub open spec fn has_var(out: Seq<(String, VarValue)>, key: Seq<char>) -> bool {
    exists|k: int| 0 <= k < out.len() && #[trigger] out[k].0@ == key
}

/// `(key, value)` is a variable of permission `p`.
pub open spec fn var_of(p: Permission, key: Seq<char>, value: VarValue) -> bool {
    exists|k: int| 0 <= k < p.variables@.len() && #[trigger] p.variables@[k].0@ == key && p.variables@[k].1 == value
}

/// The names and values of a list of variables.
pub open spec fn var_views(vs: Seq<(String, VarValue)>) -> Seq<(Seq<char>, VarValue)> {
    vs.map_values(|v: (String, VarValue)| (v.0@, v.1))
}

/// `out` has a variable named `key`.
pub open spec fn key_in(out: Seq<(Seq<char>, VarValue)>, key: Seq<char>) -> bool {
    exists|k: int| 0 <= k < out.len() && #[trigger] out[k].0 == key
}

/// `out` with the variables of `vs` whose names it does not have yet, in order.
pub open spec fn add_vars(out: Seq<(Seq<char>, VarValue)>, vs: Seq<(String, VarValue)>) -> Seq<(Seq<char>, VarValue)>
    decreases vs.len(),
{
    if vs.len() == 0 {
        out
    } else {
        let o = add_vars(out, vs.drop_last());
        if key_in(o, vs.last().0@) {
            o
        } else {
            o.push((vs.last().0@, vs.last().1))
        }
    }
}

/// `out` with the variables of the first `n` permissions, in order: all of
/// them, or those that permission `start` includes, transitively.
pub open spec fn add_perms(out: Seq<(Seq<char>, VarValue)>, perms: Seq<Permission>, n: int, start: int, all: bool) -> Seq<(Seq<char>, VarValue)>
    decreases n,
{
    if n <= 0 {
        out
    } else {
        let o = add_perms(out, perms, n - 1, start, all);
        if all || reachable(perms, start, n - 1) {
            add_vars(o, perms[n - 1].variables@)
        } else {
            o
        }
    }
}

/// `out` with, for each of the first `n` permissions of `app` that `grants`
/// name, in order, its variables and those of what it includes.
pub open spec fn add_scoped(out: Seq<(Seq<char>, VarValue)>, app: Seq<char>, perms: Seq<Permission>, grants: Seq<String>, n: int) -> Seq<(Seq<char>, VarValue)>
    decreases n,
{
    if n <= 0 {
        out
    } else {
        let o = add_scoped(out, app, perms, grants, n - 1);
        if granted(app, perms[n - 1], grants) {
            add_perms(o, perms, perms.len() as int, n - 1, false)
        } else {
            o
        }
    }
}

/// The variables that `grants` give, app after app: the first variable of a
/// name met wins.
pub open spec fn granted_vars(grants: Seq<String>, available: Seq<AppPermissions>, n: int) -> Seq<(Seq<char>, VarValue)>
    decreases n,
{
    if n <= 0 {
        seq![]
    } else {
        let o = granted_vars(grants, available, n - 1);
        let ap = available[n - 1];
        if views(grants).contains(ap.app@) {
            add_perms(o, ap.permissions@, ap.permissions@.len() as int, 0, true)
        } else {
            add_scoped(o, ap.app@, ap.permissions@, grants, ap.permissions@.len() as int)
        }
    }
}

/// Adds the variables of `p` whose names are not taken yet.
fn merge_variables(out: &mut Vec<(String, VarValue)>, p: &Permission)
    requires
        keys_unique(old(out)@),
    ensures
        keys_unique(final(out)@),
        forall|k: int| 0 <= k < old(out)@.len() ==> final(out)@[k] == old(out)@[k],
        old(out)@.len() <= final(out)@.len(),
        forall|k: int| old(out)@.len() <= k < final(out)@.len() ==> var_of(*p, (#[trigger] final(out)@[k]).0@, final(out)@[k].1),
        forall|k: int| 0 <= k < p.variables@.len() ==> has_var(final(out)@, (#[trigger] p.variables@[k]).0@),
        var_views(final(out)@) == add_vars(var_views(old(out)@), p.variables@),
{
    let ghost start = out@;
    let mut i: usize = 0;
    while i < p.variables.len()
        invariant
            i <= p.variables@.len(),
            keys_unique(out@),
            start.len() <= out@.len(),
            forall|k: int| 0 <= k < start.len() ==> out@[k] == start[k],
            forall|k: int| start.len() <= k < out@.len() ==> var_of(*p, (#[trigger] out@[k]).0@, out@[k].1),
            forall|k: int| 0 <= k < i ==> has_var(out@, (#[trigger] p.variables@[k]).0@),
            var_views(out@) == add_vars(var_views(start), p.variables@.take(i as int)),
        decreases p.variables@.len() - i,
    {
        proof {
            assert(p.variables@.take(i + 1).drop_last() =~= p.variables@.take(i as int));
            assert(p.variables@.take(i + 1).last() == p.variables@[i as int]);
            assert(has_var(out@, p.variables@[i as int].0@) == key_in(var_views(out@), p.variables@[i as int].0@)) by {
                if has_var(out@, p.variables@[i as int].0@) {
                    let w = choose|w: int| 0 <= w < out@.len() && #[trigger] out@[w].0@ == p.variables@[i as int].0@;
                    assert(var_views(out@)[w].0 == p.variables@[i as int].0@);
                }
                if key_in(var_views(out@), p.variables@[i as int].0@) {
                    let w = choose|w: int| 0 <= w < var_views(out@).len() && #[trigger] var_views(out@)[w].0 == p.variables@[i as int].0@;
                    assert(out@[w].0@ == p.variables@[i as int].0@);
                }
            }
        }
        let ghost pre = out@;
        let key = &p.variables[i].0;
        if !has_key(out, key.as_str()) {
            let ghost before = out@;
            out.push((key.clone(), p.variables[i].1.duplicate()));
            assert(out@[before.len() as int].0@ == p.variables@[i as int].0@);
            assert forall|k: int| 0 <= k < i + 1 implies has_var(out@, (#[trigger] p.variables@[k]).0@) by {
                if k < i {
                    let w = choose|w: int| 0 <= w < before.len() && #[trigger] before[w].0@ == p.variables@[k].0@;
                    assert(out@[w] == before[w]);
                }
            }
            assert forall|k: int| start.len() <= k < out@.len() implies var_of(*p, (#[trigger] out@[k]).0@, out@[k].1) by {
                if k == before.len() {
                    assert(p.variables@[i as int].0@ == out@[k].0@);
                } else {
                    assert(out@[k] == before[k]);
                }
            }
            assert forall|a: int, b: int| 0 <= a < out@.len() && 0 <= b < out@.len() && a != b implies out@[a].0@ != out@[b].0@ by {
                if a < before.len() && b < before.len() {
                    assert(out@[a] == before[a] && out@[b] == before[b]);
                } else if a < before.len() {
                    assert(out@[a] == before[a]);
                } else {
                    assert(out@[b] == before[b]);
                }
            }
        } else {
            assert forall|k: int| 0 <= k < i + 1 implies has_var(out@, (#[trigger] p.variables@[k]).0@) by {}
        }
        proof {
            if out@.len() > pre.len() {
                assert(var_views(out@) =~= var_views(pre).push((p.variables@[i as int].0@, p.variables@[i as int].1)));
            } else {
                assert(out@ == pre);
            }
        }
        i = i + 1;
    }
    assert(p.variables@.take(i as int) =~= p.variables@);
}

/// `(key, value)` is a variable of some permission that `grants` give access to.
pub open spec fn from_reached(grants: Seq<String>, apps: Seq<AppPermissions>, key: Seq<char>, value: VarValue) -> bool {
    exists|a: int, j: int|
        0 <= a < apps.len() && 0 <= j < apps[a].permissions@.len() && #[trigger] reaches(grants, apps, a, j)
            && var_of(apps[a].permissions@[j], key, value)
}

/// The permissions of one app, as known to the platform. In a list of these,
/// the first entry of an app is the one that counts (`perms_for`).
#[derive(Clone, Debug)]
pub struct AppPermissions {
    pub app: String,
    pub permissions: Vec<Permission>,
}

/// Permission `j` of app `a` is granted to the holder of `grants`: the whole app
/// is granted, or the permission itself is, or it is included by one that is.
pub open spec fn reaches(grants: Seq<String>, apps: Seq<AppPermissions>, a: int, j: int) -> bool {
    let app = apps[a].app@;
    let perms = apps[a].permissions@;
    views(grants).contains(app) || exists|s: int|
        0 <= s < perms.len() && #[trigger] granted(app, perms[s], grants) && reachable(perms, s, j)
}

/// The variables that `grants` give access to: those of every permission of an
/// app granted as a whole, and of every permission granted by name together
/// with what it includes. Where two permissions have a variable of the same
/// name, the first one met wins.
pub fn resolve_variables(grants: &[String], available: &[AppPermissions]) -> (r: Vec<(String, VarValue)>)
    ensures
        keys_unique(r@),
        forall|k: int| 0 <= k < r@.len() ==> from_reached(grants@, available@, (#[trigger] r@[k]).0@, r@[k].1),
        forall|a: int, j: int, v: int|
            0 <= a < available@.len() && 0 <= j < available@[a].permissions@.len() && reaches(grants@, available@, a, j)
                && 0 <= v < available@[a].permissions@[j].variables@.len()
                ==> has_var(r@, (#[trigger] available@[a].permissions@[j].variables@[v]).0@),
        var_views(r@) == granted_vars(grants@, available@, available@.len() as int),
{
    let mut out: Vec<(String, VarValue)> = Vec::new();
    let mut a: usize = 0;
    while a < available.len()
        invariant
            a <= available@.len(),
            keys_unique(out@),
            forall|k: int| 0 <= k < out@.len() ==> from_reached(grants@, available@, (#[trigger] out@[k]).0@, out@[k].1),
            forall|a2: int, j: int, v: int|
                0 <= a2 < a && 0 <= j < available@[a2].permissions@.len() && reaches(grants@, available@, a2, j)
                    && 0 <= v < available@[a2].permissions@[j].variables@.len()
                    ==> has_var(out@, (#[trigger] available@[a2].permissions@[j].variables@[v]).0@),
            var_views(out@) == granted_vars(grants@, available@, a as int),
        decreases available@.len() - a,
    {
        let app = &available[a].app;
        let perms = &available[a].permissions;
        let whole = contains_text(grants, app.as_str());
        let ghost base = var_views(out@);
        let mut p: usize = 0;
        while p < perms.len()
            invariant
                a < available@.len(),
                *app == available@[a as int].app,
                *perms == available@[a as int].permissions,
                whole == views(grants@).contains(app@),
                p <= perms@.len(),
                keys_unique(out@),
                forall|k: int| 0 <= k < out@.len() ==> from_reached(grants@, available@, (#[trigger] out@[k]).0@, out@[k].1),
                forall|a2: int, j: int, v: int|
                    0 <= a2 < a && 0 <= j < available@[a2].permissions@.len() && reaches(grants@, available@, a2, j)
                        && 0 <= v < available@[a2].permissions@[j].variables@.len()
                        ==> has_var(out@, (#[trigger] available@[a2].permissions@[j].variables@[v]).0@),
                whole ==> forall|j: int, v: int|
                    0 <= j < p && 0 <= v < perms@[j].variables@.len() ==> has_var(out@, (#[trigger] perms@[j].variables@[v]).0@),
                !whole ==> forall|s: int, j: int, v: int|
                    0 <= s < p && #[trigger] granted(app@, perms@[s], grants@) && 0 <= j < perms@.len() && reachable(perms@, s, j)
                        && 0 <= v < perms@[j].variables@.len() ==> has_var(out@, (#[trigger] perms@[j].variables@[v]).0@),
                base == granted_vars(grants@, available@, a as int),
                whole ==> var_views(out@) == add_perms(base, perms@, p as int, 0, true),
                !whole ==> var_views(out@) == add_scoped(base, app@, perms@, grants@, p as int),
            decreases perms@.len() - p,
        {
            if whole {
                let ghost before = out@;
                merge_variables(&mut out, &perms[p]);
                proof {
                    assert forall|k: int| 0 <= k < out@.len() implies from_reached(grants@, available@, (#[trigger] out@[k]).0@, out@[k].1) by {
                        if k < before.len() {
                            assert(out@[k] == before[k]);
                            assert(from_reached(grants@, available@, before[k].0@, before[k].1));
                        } else {
                            assert(reaches(grants@, available@, a as int, p as int));
                            assert(var_of(available@[a as int].permissions@[p as int], out@[k].0@, out@[k].1));
                        }
                    }
                    lemma_has_var_grows(before, out@);
                }
            } else {
                let g = grant_string(app.as_str(), perms[p].id.as_str());
                if contains_text(grants, g.as_str()) {
                    let seen = included_permissions(perms.as_slice(), p);
                    let mut j: usize = 0;
                    while j < perms.len()
                        invariant
                            a < available@.len(),
                            *app == available@[a as int].app,
                            *perms == available@[a as int].permissions,
                            !whole,
                            !views(grants@).contains(app@),
                            p < perms@.len(),
                            granted(app@, perms@[p as int], grants@),
                            inclusion_closure(perms@, p as int, seen@),
                            j <= perms@.len(),
                            keys_unique(out@),
                            forall|k: int| 0 <= k < out@.len() ==> from_reached(grants@, available@, (#[trigger] out@[k]).0@, out@[k].1),
                            forall|a2: int, j2: int, v: int|
                                0 <= a2 < a && 0 <= j2 < available@[a2].permissions@.len() && reaches(grants@, available@, a2, j2)
                                    && 0 <= v < available@[a2].permissions@[j2].variables@.len()
                                    ==> has_var(out@, (#[trigger] available@[a2].permissions@[j2].variables@[v]).0@),
                            !whole ==> forall|s: int, j2: int, v: int|
                                0 <= s < p && #[trigger] granted(app@, perms@[s], grants@) && 0 <= j2 < perms@.len() && reachable(perms@, s, j2)
                                    && 0 <= v < perms@[j2].variables@.len() ==> has_var(out@, (#[trigger] perms@[j2].variables@[v]).0@),
                            forall|j2: int, v: int|
                                0 <= j2 < j && seen@[j2] && 0 <= v < perms@[j2].variables@.len() ==> has_var(out@, (#[trigger] perms@[j2].variables@[v]).0@),
                            base == granted_vars(grants@, available@, a as int),
                            var_views(out@) == add_perms(add_scoped(base, app@, perms@, grants@, p as int), perms@, j as int, p as int, false),
                        decreases perms@.len() - j,
                    {
                        if seen[j] {
                            let ghost before = out@;
                            merge_variables(&mut out, &perms[j]);
                            proof {
                                assert(reaches(grants@, available@, a as int, j as int));
                                assert forall|k: int| 0 <= k < out@.len() implies from_reached(grants@, available@, (#[trigger] out@[k]).0@, out@[k].1) by {
                                    if k < before.len() {
                                        assert(out@[k] == before[k]);
                                        assert(from_reached(grants@, available@, before[k].0@, before[k].1));
                                    } else {
                                        assert(var_of(available@[a as int].permissions@[j as int], out@[k].0@, out@[k].1));
                                    }
                                }
                                lemma_has_var_grows(before, out@);
                            }
                        }
                        j = j + 1;
                    }
                    proof {
                        assert(g@ == grant_of(app@, perms@[p as int].id@));
                        assert(var_views(out@) == add_scoped(base, app@, perms@, grants@, p + 1));
                        assert forall|s: int, j2: int, v: int|
                            0 <= s < p + 1 && #[trigger] granted(app@, perms@[s], grants@) && 0 <= j2 < perms@.len() && reachable(perms@, s, j2)
                                && 0 <= v < perms@[j2].variables@.len() implies has_var(out@, (#[trigger] perms@[j2].variables@[v]).0@) by {
                            if s == p {
                                assert(seen@[j2]);
                            }
                        }
                    }
                }
            }
            p = p + 1;
        }
        proof {
            assert(var_views(out@) == granted_vars(grants@, available@, a + 1));
            assert forall|a2: int, j: int, v: int|
                0 <= a2 < a + 1 && 0 <= j < available@[a2].permissions@.len() && reaches(grants@, available@, a2, j)
                    && 0 <= v < available@[a2].permissions@[j].variables@.len()
                    implies has_var(out@, (#[trigger] available@[a2].permissions@[j].variables@[v]).0@) by {
                if a2 == a {
                    if !whole {
                        let s = choose|s: int|
                            0 <= s < perms@.len() && #[trigger] granted(app@, perms@[s], grants@) && reachable(perms@, s, j);
                    }
                }
            }
        }
        a = a + 1;
    }
    out
}

proof fn lemma_has_var_grows(before: Seq<(String, VarValue)>, after: Seq<(String, VarValue)>)
    requires
        before.len() <= after.len(),
        forall|k: int| 0 <= k < before.len() ==> after[k] == before[k],
    ensures
        forall|key: Seq<char>| has_var(before, key) ==> has_var(after, key),
{
    assert forall|key: Seq<char>| has_var(before, key) implies has_var(after, key) by {
        let w = choose|w: int| 0 <= w < before.len() && #[trigger] before[w].0@ == key;
        assert(after[w] == before[w]);
    }
}

} // verus!
