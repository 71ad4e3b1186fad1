use vstd::prelude::*;
use crate::env_vars::{env_refs, find_env_vars};
use crate::manifest::{
    command_refs, AppYml, CaddyEntry, ComposeSpecification, Container, InputMetadata, OutputMetadata,
    ResultYml, Service, StringOrMap,
};
use crate::permissions::{
    find_permission_that_matches, grant_of, grant_string, granted, is_best_match, meets, AppPermissions, Exposure, Permission, VarValue,
};
use crate::ports::PortMapEntry;
use crate::text::{contains_text, has_char, has_double_dot, port_text, same_text, views};

verus! {

/// Environment variables that every app may use.
pub open spec fn platform_var(v: Seq<char>) -> bool {
    v == "API_IP"@ || v == "DEVICE_HOSTNAME"@ || v == "DEVICE_IP"@
}

/// The permission that gives full trust.
pub open spec fn root_permission() -> Seq<char> {
    "root"@
}

/// The permission to use the host's network.
pub open spec fn network_permission() -> Seq<char> {
    "network"@
}

/// `held` with grant `x` added at the end, unless it holds it already.
pub open spec fn add_grant(held: Seq<Seq<char>>, x: Seq<char>) -> Seq<Seq<char>> {
    if held.contains(x) {
        held
    } else {
        held.push(x)
    }
}

/// The grant that a best-match result `r` among `perms` of `app` calls for:
/// that permission, or the whole app when there is none.
pub open spec fn chosen(app: Seq<char>, perms: Seq<Permission>, r: Option<usize>) -> Seq<char> {
    match r {
        Some(i) => grant_of(app, perms[i as int].id@),
        None => app,
    }
}

/// `b` is `a` with possibly more at the end.
pub open spec fn extends(a: Seq<String>, b: Seq<String>) -> bool {
    a.len() <= b.len() && forall|k: int| 0 <= k < a.len() ==> b[k] == a[k]
}

/// Adds `perm` to `list` unless it is there already.
pub fn require_permission(list: &mut Vec<String>, perm: &str)
    ensures
        views(final(list)@).contains(perm@),
        forall|x: Seq<char>| views(old(list)@).contains(x) ==> views(final(list)@).contains(x),
        forall|x: Seq<char>| views(final(list)@).contains(x) ==> views(old(list)@).contains(x) || x == perm@,
        views(old(list)@).no_duplicates() ==> views(final(list)@).no_duplicates(),
        extends(old(list)@, final(list)@),
        views(old(list)@).contains(perm@) ==> final(list)@ == old(list)@,
        views(final(list)@) == add_grant(views(old(list)@), perm@),
{
    if !contains_text(list.as_slice(), perm) {
        let ghost before = views(list@);
        list.push(String::from_str(perm));
        assert(views(list@) =~= before.push(perm@));
        assert(views(list@)[before.len() as int] == perm@);
        assert forall|x: Seq<char>| before.contains(x) implies views(list@).contains(x) by {
            let j = choose|j: int| 0 <= j < before.len() && before[j] == x;
            assert(views(list@)[j] == x);
        }
        assert forall|x: Seq<char>| views(list@).contains(x) implies before.contains(x) || x == perm@ by {
            let j = choose|j: int| 0 <= j < views(list@).len() && views(list@)[j] == x;
            if j < before.len() {
                assert(before[j] == x);
            }
        }
        assert(views(list@) =~= before.push(perm@));
    }
}

/// A path that stays where it is put: no `:` and no `..`.
pub open spec fn contained_path(p: Seq<char>) -> bool {
    !p.contains(':') && !(exists|k: int| 0 <= k && k + 1 < p.len() && #[trigger] p[k] == '.' && p[k + 1] == '.')
}

fn is_contained_path(p: &str) -> (r: bool)
    ensures
        r == contained_path(p@),
{
    !has_char(p, ':') && !has_double_dot(p)
}

/// `${APP_DATA_DIR}/host:container`
pub open spec fn data_volume(host: Seq<char>, container: Seq<char>) -> Seq<char> {
    "${APP_DATA_DIR}/"@ + host + ":"@ + container
}

/// `${JWT_PUBKEY}:target`
pub open spec fn jwt_volume(target: Seq<char>) -> Seq<char> {
    "${JWT_PUBKEY}:"@ + target
}

/// `${APPS_DATA_DIR}/name:target`
pub open spec fn app_volume(name: Seq<char>, target: Seq<char>) -> Seq<char> {
    "${APPS_DATA_DIR}/"@ + name + ":"@ + target
}

/// The number of `/` in a mount name.
pub open spec fn slashes(s: Seq<char>) -> nat
    decreases s.len(),
{
    if s.len() == 0 {
        0
    } else {
        slashes(s.drop_last()) + if s.last() == '/' {
            1nat
        } else {
            0nat
        }
    }
}

/// The volume of a host directory mapped to a container directory, both valid.
pub open spec fn pair_volume(pair: (String, String), v: Seq<char>) -> bool {
    &&& contained_path(pair.0@)
    &&& contained_path(pair.1@)
    &&& env_refs(pair.0@).len() == 0
    &&& env_refs(pair.1@).len() == 0
    &&& v == data_volume(pair.0@, pair.1@)
}

/// `v` is the volume of one of `mounts`.
pub open spec fn from_mount(mounts: Seq<(String, StringOrMap)>, v: Seq<char>) -> bool {
    exists|m: int| 0 <= m < mounts.len() && #[trigger] mount_volume(mounts[m].0@, mounts[m].1, v)
}

/// The volume that a mount gives, if it is valid.
pub open spec fn mount_volume(name: Seq<char>, target: StringOrMap, v: Seq<char>) -> bool {
    if let StringOrMap::Mapping(pairs) = target {
        data_mount_volume(name, pairs@, v)
    } else if let StringOrMap::String(t) = target {
        path_mount_volume(name, t@, v)
    } else {
        false
    }
}

/// The volume of a valid pair of the `data` mount.
pub open spec fn data_mount_volume(name: Seq<char>, pairs: Seq<(String, String)>, v: Seq<char>) -> bool {
    name == "data"@ && exists|k: int| 0 <= k < pairs.len() && #[trigger] pair_volume(pairs[k], v)
}

/// The volume of a valid mount of a single path.
pub open spec fn path_mount_volume(name: Seq<char>, t: Seq<char>, v: Seq<char>) -> bool {
    contained_path(name) && contained_path(t) && if name == "jwt-pubkey"@ {
        v == jwt_volume(t)
    } else {
        slashes(name) <= 1 && v == app_volume(name, t)
    }
}

proof fn lemma_views_push(before: Seq<String>, x: String)
    ensures
        forall|v: Seq<char>| views(before).contains(v) ==> views(before.push(x)).contains(v),
        views(before.push(x)).contains(x@),
{
    assert(views(before.push(x)) =~= views(before).push(x@));
    assert(views(before.push(x))[before.len() as int] == x@);
    assert forall|v: Seq<char>| views(before).contains(v) implies views(before.push(x)).contains(v) by {
        let w = choose|w: int| 0 <= w < views(before).len() && views(before)[w] == v;
        assert(views(before.push(x))[w] == v);
    }
}

fn concat3(a: &str, b: &str, c: &str) -> (r: String)
    ensures
        r@ == a@ + b@ + c@,
{
    String::from_str(a).concat(b).concat(c)
}

fn count_slashes(s: &str) -> (r: usize)
    ensures
        r == slashes(s@),
{
    let n = s.unicode_len();
    let mut count: usize = 0;
    let mut i: usize = 0;
    while i < n
        invariant
            n == s@.len(),
            i <= n,
            count == slashes(s@.take(i as int)),
            count <= i,
        decreases n - i,
    {
        assert(s@.take(i + 1).drop_last() =~= s@.take(i as int));
        if s.get_char(i) == '/' {
            count = count + 1;
        }
        i = i + 1;
    }
    assert(s@.take(i as int) =~= s@);
    count
}

/// The index of the first entry of `available` for `app`, or the number of entries.
pub open spec fn first_app(available: Seq<AppPermissions>, app: Seq<char>) -> int
    decreases available.len(),
{
    if available.len() == 0 {
        0
    } else if available[0].app@ == app {
        0
    } else {
        1 + first_app(available.drop_first(), app)
    }
}

/// The permissions known for `app`: those of its first entry, or none.
pub open spec fn perms_for(available: Seq<AppPermissions>, app: Seq<char>) -> Seq<Permission> {
    let a = first_app(available, app);
    if 0 <= a < available.len() {
        available[a].permissions@
    } else {
        seq![]
    }
}

proof fn lemma_first_app(available: Seq<AppPermissions>, app: Seq<char>, i: int)
    requires
        0 <= i <= available.len(),
        forall|j: int| 0 <= j < i ==> available[j].app@ != app,
        i < available.len() ==> available[i].app@ == app,
    ensures
        first_app(available, app) == i,
    decreases available.len(),
{
    if available.len() > 0 && i > 0 {
        assert forall|j: int| 0 <= j < i - 1 implies available.drop_first()[j].app@ != app by {
            assert(available.drop_first()[j] == available[j + 1]);
        }
        lemma_first_app(available.drop_first(), app, i - 1);
    }
}

/// The first entry of `available` for `app`, if any.
fn permissions_of(available: &[AppPermissions], app: &str) -> (r: Option<usize>)
    ensures
        match r {
            Some(a) => a < available@.len() && a as int == first_app(available@, app@),
            None => first_app(available@, app@) == available@.len(),
        },
{
    let mut i: usize = 0;
    while i < available.len()
        invariant
            i <= available@.len(),
            forall|j: int| 0 <= j < i ==> available@[j].app@ != app@,
        decreases available@.len() - i,
    {
        if same_text(available[i].app.as_str(), app) {
            proof {
                lemma_first_app(available@, app@, i as int);
            }
            return Some(i);
        }
        i = i + 1;
    }
    proof {
        lemma_first_app(available@, app@, i as int);
    }
    None
}

/// `x` is a grant on app `app`: the whole app, or one of its permissions.
pub open spec fn grant_on(app: Seq<char>, x: Seq<char>) -> bool {
    x == app || exists|id: Seq<char>| x == #[trigger] grant_of(app, id)
}

/// After a consumer with grants `current` needed some permission of `app`
/// meeting `need`, `after` holds the best such permission, or the whole app
/// when none meets it.
pub open spec fn foreign_grant(
    app: Seq<char>,
    perms: Seq<Permission>,
    current: Seq<String>,
    need: Exposure,
    after: Seq<Seq<char>>,
) -> bool {
    ||| exists|i: usize| #[trigger] is_best_match(app, perms, current, need, Some(i)) && after.contains(grant_of(app, perms[i as int].id@))
    ||| is_best_match(app, perms, current, need, None) && after.contains(app)
}

proof fn lemma_foreign_grows(
    app: Seq<char>,
    perms: Seq<Permission>,
    current: Seq<String>,
    need: Exposure,
    a: Seq<Seq<char>>,
    b: Seq<Seq<char>>,
)
    requires
        foreign_grant(app, perms, current, need, a),
        forall|x: Seq<char>| a.contains(x) ==> b.contains(x),
    ensures
        foreign_grant(app, perms, current, need, b),
{
    if !(is_best_match(app, perms, current, need, None) && a.contains(app)) {
        let i = choose|i: usize| #[trigger] is_best_match(app, perms, current, need, Some(i)) && a.contains(grant_of(app, perms[i as int].id@));
        assert(b.contains(grant_of(app, perms[i as int].id@)));
    }
}

/// `held` already holds a grant on `app` for `need`: one for a permission
/// that meets it, or the whole app when none does.
pub open spec fn foreign_held(app: Seq<char>, perms: Seq<Permission>, need: Exposure, held: Seq<Seq<char>>) -> bool {
    ||| exists|i: int| 0 <= i < perms.len() && #[trigger] meets(perms[i], need) && held.contains(grant_of(app, perms[i].id@))
    ||| (forall|i: int| 0 <= i < perms.len() ==> !#[trigger] meets(perms[i], need)) && held.contains(app)
}

proof fn lemma_foreign_held_grows(app: Seq<char>, perms: Seq<Permission>, need: Exposure, a: Seq<Seq<char>>, b: Seq<Seq<char>>)
    requires
        foreign_held(app, perms, need, a),
        forall|x: Seq<char>| a.contains(x) ==> b.contains(x),
    ensures
        foreign_held(app, perms, need, b),
{
    if !((forall|i: int| 0 <= i < perms.len() ==> !#[trigger] meets(perms[i], need)) && a.contains(app)) {
        let i = choose|i: int| 0 <= i < perms.len() && #[trigger] meets(perms[i], need) && a.contains(grant_of(app, perms[i].id@));
        assert(b.contains(grant_of(app, perms[i].id@)));
    }
}

/// Records that an app needs some permission of `app` that meets `need`: the
/// best such permission when there is one, else the whole app.
fn require_foreign(has_permissions: &mut Vec<String>, available: &[AppPermissions], app: &str, need: &Exposure)
    ensures
        foreign_grant(app@, perms_for(available@, app@), old(has_permissions)@, *need, views(final(has_permissions)@)),
        views(final(has_permissions)@).contains(app@) || exists|x: Seq<char>| views(final(has_permissions)@).contains(#[trigger] grant_of(app@, x)),
        forall|x: Seq<char>| views(old(has_permissions)@).contains(x) ==> views(final(has_permissions)@).contains(x),
        forall|x: Seq<char>| views(final(has_permissions)@).contains(x) ==> views(old(has_permissions)@).contains(x) || grant_on(app@, x),
        views(old(has_permissions)@).no_duplicates() ==> views(final(has_permissions)@).no_duplicates(),
        extends(old(has_permissions)@, final(has_permissions)@),
        foreign_held(app@, perms_for(available@, app@), *need, views(final(has_permissions)@)),
        foreign_held(app@, perms_for(available@, app@), *need, views(old(has_permissions)@)) ==> final(has_permissions)@ == old(
            has_permissions,
        )@,
        exists|r: Option<usize>|
            #[trigger] is_best_match(app@, perms_for(available@, app@), old(has_permissions)@, *need, r) && views(
                final(has_permissions)@,
            ) == add_grant(views(old(has_permissions)@), chosen(app@, perms_for(available@, app@), r)),
{
    let ghost current = has_permissions@;
    let found = match permissions_of(available, app) {
        Some(a) => match find_permission_that_matches(app, available[a].permissions.as_slice(), has_permissions.as_slice(), need) {
            Some(i) => {
                let g = grant_string(app, available[a].permissions[i].id.as_str());
                proof {
                    assert(is_best_match(app@, perms_for(available@, app@), current, *need, Some(i)));
                }
                Some((g, i))
            },
            None => None,
        },
        None => None,
    };
    match found {
        Some((g, i)) => {
            require_permission(has_permissions, g.as_str());
            proof {
                let pf = perms_for(available@, app@);
                assert(is_best_match(app@, pf, current, *need, Some(i)));
                assert(grant_on(app@, g@));
                assert(meets(pf[i as int], *need));
                if foreign_held(app@, pf, *need, views(current)) {
                    assert(exists|j: int| 0 <= j < pf.len() && meets(#[trigger] pf[j], *need) && granted(app@, pf[j], current));
                    assert(views(current).contains(g@));
                }
                assert(g@ == chosen(app@, pf, Some(i)));
            }
        },
        None => {
            require_permission(has_permissions, app);
            assert(is_best_match(app@, perms_for(available@, app@), current, *need, None));
            proof {
                let pf = perms_for(available@, app@);
                if foreign_held(app@, pf, *need, views(current)) {
                    if exists|j: int| 0 <= j < pf.len() && #[trigger] meets(pf[j], *need) && views(current).contains(grant_of(app@, pf[j].id@)) {
                        let j = choose|j: int| 0 <= j < pf.len() && #[trigger] meets(pf[j], *need) && views(current).contains(grant_of(app@, pf[j].id@));
                        assert(!meets(pf[j], *need));
                    }
                }
                assert(app@ == chosen(app@, pf, None));
            }
        },
    }
}

/// `after` holds a grant for the mount named `name`: a bare app name as a
/// whole app; for `app/file`, the best permission of `app` that exposes
/// `file` against some list of grants, or the whole app. Which list, and so
/// which grant, `mount_trace` fixes.
pub open spec fn mount_grant(name: Seq<char>, available: Seq<AppPermissions>, after: Seq<Seq<char>>) -> bool {
    ||| slashes(name) == 0 && after.contains(name)
    ||| slashes(name) == 1 && exists|app: Seq<char>, g: Seq<String>, f: String|
        name == app + seq!['/'] + f@ && #[trigger] foreign_grant(
            app,
            perms_for(available, app),
            g,
            Exposure::File(f),
            after,
        )
    ||| slashes(name) > 1
}

/// The grant that mount `m` calls for is held, when it is a valid mount of a
/// single path other than the public key.
pub open spec fn mount_granted(m: (String, StringOrMap), available: Seq<AppPermissions>, after: Seq<Seq<char>>) -> bool {
    if let StringOrMap::String(t) = m.1 {
        (contained_path(m.0@) && contained_path(t@) && m.0@ != "jwt-pubkey"@) ==> mount_grant(m.0@, available, after)
    } else {
        true
    }
}

proof fn lemma_mount_granted_grows(m: (String, StringOrMap), available: Seq<AppPermissions>, a: Seq<Seq<char>>, b: Seq<Seq<char>>)
    requires
        mount_granted(m, available, a),
        forall|x: Seq<char>| a.contains(x) ==> b.contains(x),
    ensures
        mount_granted(m, available, b),
{
    if let StringOrMap::String(t) = m.1 {
        if contained_path(m.0@) && contained_path(t@) && m.0@ != "jwt-pubkey"@ && slashes(m.0@) == 1 {
            let (app, g, f) = choose|app: Seq<char>, g: Seq<String>, f: String|
                m.0@ == app + seq!['/'] + f@ && #[trigger] foreign_grant(app, perms_for(available, app), g, Exposure::File(f), a);
            lemma_foreign_grows(app, perms_for(available, app), g, Exposure::File(f), a, b);
        }
    }
}

proof fn lemma_slash_found(s: Seq<char>)
    requires
        slashes(s) > 0,
    ensures
        s.contains('/'),
    decreases s.len(),
{
    if s.last() != '/' {
        lemma_slash_found(s.drop_last());
        let k = choose|k: int| 0 <= k < s.drop_last().len() && s.drop_last()[k] == '/';
        assert(s[k] == '/');
    } else {
        assert(s[s.len() - 1] == '/');
    }
}

/// One mount, with the app holding `h`, leaving `h2`: a valid mount of a
/// bare app name grants that app; of `app/file`, the grant that the best
/// match against `h` calls for; any other mount grants nothing.
pub open spec fn mount_step(m: (String, StringOrMap), available: Seq<AppPermissions>, h: Seq<String>, h2: Seq<String>) -> bool {
    if let StringOrMap::String(t) = m.1 {
        if contained_path(m.0@) && contained_path(t@) && m.0@ != "jwt-pubkey"@ && slashes(m.0@) == 0 {
            views(h2) == add_grant(views(h), m.0@)
        } else if contained_path(m.0@) && contained_path(t@) && m.0@ != "jwt-pubkey"@ && slashes(m.0@) == 1 {
            exists|app: Seq<char>, f: String, r: Option<usize>|
                m.0@ == app + seq!['/'] + f@ && #[trigger] is_best_match(app, perms_for(available, app), h, Exposure::File(f), r)
                    && views(h2) == add_grant(views(h), chosen(app, perms_for(available, app), r))
        } else {
            views(h2) == views(h)
        }
    } else {
        views(h2) == views(h)
    }
}

/// `hs` holds what the app has before each of `mounts`, and after the last.
pub open spec fn mount_states(mounts: Seq<(String, StringOrMap)>, available: Seq<AppPermissions>, hs: Seq<Seq<String>>) -> bool {
    &&& hs.len() == mounts.len() + 1
    &&& forall|i: int| #![trigger hs[i]] 0 <= i < mounts.len() ==> mount_step(mounts[i], available, hs[i], hs[i + 1])
}

/// The mounts, taken in order from `h0`, leave `hf`.
pub open spec fn mount_trace(mounts: Seq<(String, StringOrMap)>, available: Seq<AppPermissions>, h0: Seq<String>, hf: Seq<String>) -> bool {
    exists|hs: Seq<Seq<String>>| #[trigger] mount_states(mounts, available, hs) && hs[0] == h0 && hs.last() == hf
}

proof fn lemma_mount_states_push(
    mounts: Seq<(String, StringOrMap)>,
    m: (String, StringOrMap),
    available: Seq<AppPermissions>,
    hs: Seq<Seq<String>>,
    hf: Seq<String>,
)
    requires
        mount_states(mounts, available, hs),
        mount_step(m, available, hs.last(), hf),
    ensures
        mount_states(mounts.push(m), available, hs.push(hf)),
        hs.push(hf)[0] == hs[0],
        hs.push(hf).last() == hf,
{
    let r2 = mounts.push(m);
    let h2 = hs.push(hf);
    assert forall|i: int| #![trigger h2[i]] 0 <= i < r2.len() implies mount_step(r2[i], available, h2[i], h2[i + 1]) by {
        if i < mounts.len() {
            assert(r2[i] == mounts[i] && h2[i] == hs[i] && h2[i + 1] == hs[i + 1]);
        } else {
            assert(r2[i] == m && h2[i] == hs.last() && h2[i + 1] == hf);
        }
    }
}

/// The app part of a mount name: what comes before its first `/`.
pub open spec fn mount_app(name: Seq<char>) -> Seq<char> {
    name.take(crate::env_vars::index_of(name, '/'))
}

/// Mount `m` may add grant `x`: a valid mount of a bare app name adds that
/// app; of `app/file`, a grant on that app.
pub open spec fn mount_adds(m: (String, StringOrMap), x: Seq<char>) -> bool {
    if let StringOrMap::String(t) = m.1 {
        &&& contained_path(m.0@)
        &&& contained_path(t@)
        &&& m.0@ != "jwt-pubkey"@
        &&& ((slashes(m.0@) == 0 && x == m.0@) || (slashes(m.0@) == 1 && grant_on(mount_app(m.0@), x)))
    } else {
        false
    }
}

/// Some mount of `mounts` may add grant `x`.
pub open spec fn mounts_add(mounts: Seq<(String, StringOrMap)>, x: Seq<char>) -> bool {
    exists|m: int| 0 <= m < mounts.len() && #[trigger] mount_adds(mounts[m], x)
}

/// Some mount of some container may add grant `x`.
pub open spec fn app_mounts_add(services: Seq<(String, Container)>, x: Seq<char>) -> bool {
    exists|c: int| 0 <= c < services.len() && #[trigger] mounts_add(services[c].1.mounts@, x)
}

/// Turns the mounts of a container into volumes of its service. Invalid mounts
/// are left out. Mounts of other apps' data are recorded as permissions the app needs.
pub fn convert_mounts(
    result: &mut Service,
    input_service: &Container,
    metadata: &mut OutputMetadata,
    available_permissions: &[AppPermissions],
)
    ensures
        forall|k: int| 0 <= k < old(result).volumes@.len() ==> final(result).volumes@[k] == old(result).volumes@[k],
        forall|k: int|
            old(result).volumes@.len() <= k < final(result).volumes@.len() ==> from_mount(input_service.mounts@, (#[trigger] final(result).volumes@[k])@),
        forall|m: int, v: Seq<char>|
            0 <= m < input_service.mounts@.len() && #[trigger] mount_volume(input_service.mounts@[m].0@, input_service.mounts@[m].1, v)
                ==> views(final(result).volumes@).contains(v),
        forall|x: Seq<char>| views(old(metadata).has_permissions@).contains(x) ==> views(final(metadata).has_permissions@).contains(x),
        extends(old(metadata).has_permissions@, final(metadata).has_permissions@),
        forall|m: int|
            0 <= m < input_service.mounts@.len() ==> mount_granted(
                #[trigger] input_service.mounts@[m],
                available_permissions@,
                views(final(metadata).has_permissions@),
            ),
        final(result).image == old(result).image,
        final(result).restart == old(result).restart,
        final(result).working_dir == old(result).working_dir,
        final(result).user == old(result).user,
        final(result).stop_grace_period == old(result).stop_grace_period,
        final(result).stop_signal == old(result).stop_signal,
        final(result).init == old(result).init,
        final(result).depends_on == old(result).depends_on,
        final(result).extra_hosts == old(result).extra_hosts,
        final(result).shm_size == old(result).shm_size,
        final(result).ports == old(result).ports,
        final(metadata).id == old(metadata).id,
        final(metadata).compatible == old(metadata).compatible,
        final(metadata).port == old(metadata).port,
        final(metadata).internal_port == old(metadata).internal_port,
        final(metadata).supports_https == old(metadata).supports_https,
        *final(metadata) == (OutputMetadata { has_permissions: final(metadata).has_permissions, ..*old(metadata) }),
        mount_trace(input_service.mounts@, available_permissions@, old(metadata).has_permissions@, final(metadata).has_permissions@),
        views(old(metadata).has_permissions@).no_duplicates() ==> views(final(metadata).has_permissions@).no_duplicates(),
        forall|x: Seq<char>|
            views(final(metadata).has_permissions@).contains(x) ==> views(old(metadata).has_permissions@).contains(x) || mounts_add(
                input_service.mounts@,
                x,
            ),
{
    let ghost h0 = metadata.has_permissions@;
    let ghost mut hs: Seq<Seq<String>> = seq![h0];
    proof {
        assert(input_service.mounts@.take(0) =~= seq![]);
        assert(mount_states(seq![], available_permissions@, hs));
    }
    proof {
        reveal_strlit("data");
        reveal_strlit("jwt-pubkey");
        reveal_strlit("${APP_DATA_DIR}/");
        reveal_strlit("${JWT_PUBKEY}:");
        reveal_strlit("${APPS_DATA_DIR}/");
        reveal_strlit(":");
    }
    let ghost start = result.volumes@;
    let mut m: usize = 0;
    while m < input_service.mounts.len()
        invariant
            m <= input_service.mounts@.len(),
            start.len() <= result.volumes@.len(),
            forall|k: int| 0 <= k < start.len() ==> result.volumes@[k] == start[k],
            forall|k: int|
                start.len() <= k < result.volumes@.len() ==> from_mount(input_service.mounts@, (#[trigger] result.volumes@[k])@),
            forall|m2: int, v: Seq<char>|
                0 <= m2 < m && #[trigger] mount_volume(input_service.mounts@[m2].0@, input_service.mounts@[m2].1, v)
                    ==> views(result.volumes@).contains(v),
            forall|x: Seq<char>| views(old(metadata).has_permissions@).contains(x) ==> views(metadata.has_permissions@).contains(x),
            extends(old(metadata).has_permissions@, metadata.has_permissions@),
            forall|m2: int|
                0 <= m2 < m ==> mount_granted(#[trigger] input_service.mounts@[m2], available_permissions@, views(metadata.has_permissions@)),
            result.image == old(result).image,
            result.restart == old(result).restart,
            result.working_dir == old(result).working_dir,
            result.user == old(result).user,
            result.stop_grace_period == old(result).stop_grace_period,
            result.stop_signal == old(result).stop_signal,
            result.init == old(result).init,
            result.depends_on == old(result).depends_on,
            result.extra_hosts == old(result).extra_hosts,
            result.shm_size == old(result).shm_size,
            result.ports == old(result).ports,
            metadata.id == old(metadata).id,
            metadata.compatible == old(metadata).compatible,
            metadata.port == old(metadata).port,
            metadata.internal_port == old(metadata).internal_port,
            metadata.supports_https == old(metadata).supports_https,
            *metadata == (OutputMetadata { has_permissions: metadata.has_permissions, ..*old(metadata) }),
            h0 == old(metadata).has_permissions@,
            mount_states(input_service.mounts@.take(m as int), available_permissions@, hs),
            hs[0] == h0,
            hs.last() == metadata.has_permissions@,
            views(h0).no_duplicates() ==> views(metadata.has_permissions@).no_duplicates(),
            forall|x: Seq<char>| views(metadata.has_permissions@).contains(x) ==> views(h0).contains(x) || mounts_add(input_service.mounts@, x),
        decreases input_service.mounts@.len() - m,
    {
        let name = &input_service.mounts[m].0;
        let target = &input_service.mounts[m].1;
        let ghost p0 = views(metadata.has_permissions@);
        let ghost hp0 = metadata.has_permissions@;
        let ghost before = result.volumes@;
        match target {
            StringOrMap::Mapping(pairs) => {
                if same_text(name.as_str(), "data") {
                    let mut k: usize = 0;
                    while k < pairs.len()
                        invariant
                            m < input_service.mounts@.len(),
                            input_service.mounts@[m as int].1 == StringOrMap::Mapping(*pairs),
                            input_service.mounts@[m as int].0@ == "data"@,
                            k <= pairs@.len(),
                            start.len() <= result.volumes@.len(),
                            forall|x: int| 0 <= x < start.len() ==> result.volumes@[x] == start[x],
                            forall|x: int|
                                start.len() <= x < result.volumes@.len() ==> from_mount(input_service.mounts@, (#[trigger] result.volumes@[x])@),
                            forall|m2: int, v: Seq<char>|
                                0 <= m2 < m && #[trigger] mount_volume(input_service.mounts@[m2].0@, input_service.mounts@[m2].1, v)
                                    ==> views(result.volumes@).contains(v),
                            forall|k2: int, v: Seq<char>|
                                0 <= k2 < k && #[trigger] pair_volume(pairs@[k2], v) ==> views(result.volumes@).contains(v),
                            result.image == old(result).image,
                            result.restart == old(result).restart,
                            result.working_dir == old(result).working_dir,
                            result.user == old(result).user,
                            result.stop_grace_period == old(result).stop_grace_period,
                            result.stop_signal == old(result).stop_signal,
                            result.init == old(result).init,
                            result.depends_on == old(result).depends_on,
                            result.extra_hosts == old(result).extra_hosts,
                            result.shm_size == old(result).shm_size,
                            result.ports == old(result).ports,
                        decreases pairs@.len() - k,
                    {
                        let host = &pairs[k].0;
                        let container = &pairs[k].1;
                        let host_refs = find_env_vars(host.as_str());
                        let container_refs = find_env_vars(container.as_str());
                        if is_contained_path(host.as_str()) && is_contained_path(container.as_str())
                            && host_refs.len() == 0 && container_refs.len() == 0 {
                            let v = String::from_str("${APP_DATA_DIR}/").concat(host.as_str()).concat(":").concat(
                                container.as_str(),
                            );
                            let ghost vols = result.volumes@;
                            result.volumes.push(v);
                            proof {
                                assert(v@ == data_volume(host@, container@));
                                assert(pair_volume(pairs@[k as int], v@));
                                assert(input_service.mounts@[m as int].1 == StringOrMap::Mapping(*pairs));
                                assert(input_service.mounts@[m as int].0@ == "data"@);
                                assert(exists|k2: int| 0 <= k2 < pairs@.len() && #[trigger] pair_volume(pairs@[k2], v@));
                                assert(data_mount_volume("data"@, pairs@, v@));
                                assert(mount_volume(input_service.mounts@[m as int].0@, input_service.mounts@[m as int].1, v@));
                                assert(from_mount(input_service.mounts@, v@));
                                assert forall|x: int|
                                    start.len() <= x < result.volumes@.len() implies from_mount(input_service.mounts@, (#[trigger] result.volumes@[x])@) by {
                                    if x < vols.len() {
                                        assert(result.volumes@[x] == vols[x]);
                                    } else {
                                        assert(result.volumes@[x] == v);
                                    }
                                }
                                lemma_views_push(vols, v);
                                assert(result.volumes@ == vols.push(v));
                                assert forall|k2: int, w: Seq<char>|
                                    0 <= k2 < k + 1 && #[trigger] pair_volume(pairs@[k2], w) implies views(result.volumes@).contains(w) by {
                                    if k2 == k {
                                        assert(w == v@);
                                    }
                                }
                            }
                        } else {
                            proof {
                                assert forall|k2: int, w: Seq<char>|
                                    0 <= k2 < k + 1 && #[trigger] pair_volume(pairs@[k2], w) implies views(result.volumes@).contains(w) by {
                                    if k2 == k {
                                        assert(views(host_refs@).len() == host_refs@.len());
                                        assert(views(container_refs@).len() == container_refs@.len());
                                        assert(!pair_volume(pairs@[k as int], w));
                                    }
                                }
                            }
                        }
                        k = k + 1;
                    }
                    proof {
                        assert forall|m2: int, w: Seq<char>|
                            0 <= m2 < m + 1 && #[trigger] mount_volume(input_service.mounts@[m2].0@, input_service.mounts@[m2].1, w)
                                implies views(result.volumes@).contains(w) by {
                            if m2 == m {
                                assert(data_mount_volume(name@, pairs@, w));
                                let k2 = choose|k2: int| 0 <= k2 < pairs@.len() && #[trigger] pair_volume(pairs@[k2], w);
                            }
                        }
                    }
                } else {
                    proof {
                        assert forall|m2: int, w: Seq<char>|
                            0 <= m2 < m + 1 && #[trigger] mount_volume(input_service.mounts@[m2].0@, input_service.mounts@[m2].1, w)
                                implies views(result.volumes@).contains(w) by {
                            if m2 == m {
                                assert(!data_mount_volume(name@, pairs@, w));
                            }
                        }
                    }
                }
            },
            StringOrMap::String(t) => {
                if is_contained_path(t.as_str()) && is_contained_path(name.as_str()) {
                    let v;
                    if same_text(name.as_str(), "jwt-pubkey") {
                        v = Some(concat3("${JWT_PUBKEY}:", t.as_str(), ""));
                        proof {
                            reveal_strlit("");
                        }
                    } else {
                        let n = count_slashes(name.as_str());
                        if n <= 1 {
                            v = Some(String::from_str("${APPS_DATA_DIR}/").concat(name.as_str()).concat(":").concat(t.as_str()));
                            if n == 1 {
                                let nlen = name.as_str().unicode_len();
                                let cut = crate::text::find_char(name.as_str(), '/');
                                proof {
                                    lemma_slash_found(name@);
                                }
                                if let Some(c) = cut {
                                    let app = name.as_str().substring_char(0, c);
                                    let file = name.as_str().substring_char(c + 1, nlen);
                                    let ghost g = metadata.has_permissions@;
                                    let f = String::from_str(file);
                                    let ghost fv = f;
                                    let need = Exposure::File(f);
                                    require_foreign(&mut metadata.has_permissions, available_permissions, app, &need);
                                    proof {
                                        assert(name@ =~= app@ + seq!['/'] + file@);
                                        assert(fv@ == file@);
                                        let r = choose|r: Option<usize>|
                                            #[trigger] is_best_match(app@, perms_for(available_permissions@, app@), g, Exposure::File(fv), r) && views(
                                                metadata.has_permissions@,
                                            ) == add_grant(views(g), chosen(app@, perms_for(available_permissions@, app@), r));
                                        assert(mount_step(input_service.mounts@[m as int], available_permissions@, hp0, metadata.has_permissions@));
                                        crate::env_vars::lemma_index_unique(name@, '/', c as int);
                                        assert(app@ == mount_app(name@));
                                        assert forall|x: Seq<char>| views(metadata.has_permissions@).contains(x) implies views(h0).contains(x)
                                            || mounts_add(input_service.mounts@, x) by {
                                            if !views(g).contains(x) {
                                                assert(grant_on(app@, x));
                                                assert(mount_adds(input_service.mounts@[m as int], x));
                                            }
                                        }
                                        assert(foreign_grant(app@, perms_for(available_permissions@, app@), g, Exposure::File(fv), views(metadata.has_permissions@)));
                                        assert(mount_grant(name@, available_permissions@, views(metadata.has_permissions@)));
                                    }
                                }
                            } else {
                                let ghost before_req = metadata.has_permissions@;
                                require_permission(&mut metadata.has_permissions, name.as_str());
                                assert(mount_step(input_service.mounts@[m as int], available_permissions@, hp0, metadata.has_permissions@));
                                proof {
                                    assert forall|x: Seq<char>| views(metadata.has_permissions@).contains(x) implies views(h0).contains(x)
                                        || mounts_add(input_service.mounts@, x) by {
                                        if !views(before_req).contains(x) {
                                            assert(x == name@);
                                            assert(slashes(name@) == 0);
                                            assert(mount_adds(input_service.mounts@[m as int], x));
                                        }
                                    }
                                }
                            }
                        } else {
                            v = None;
                        }
                    }
                    if let Some(v) = v {
                        let ghost vols = result.volumes@;
                        proof {
                            assert(mount_volume(input_service.mounts@[m as int].0@, input_service.mounts@[m as int].1, v@)) by {
                                if name@ == "jwt-pubkey"@ {
                                    assert(v@ =~= jwt_volume(t@));
                                } else {
                                    assert(v@ =~= app_volume(name@, t@));
                                }
                            }
                            assert(from_mount(input_service.mounts@, v@));
                        }
                        let ghost pushed = v@;
                        result.volumes.push(v);
                        proof {
                            assert forall|x: int|
                                start.len() <= x < result.volumes@.len() implies from_mount(input_service.mounts@, (#[trigger] result.volumes@[x])@) by {
                                if x < vols.len() {
                                    assert(result.volumes@[x] == vols[x]);
                                }
                            }
                            lemma_views_push(vols, result.volumes@[vols.len() as int]);
                            assert(result.volumes@ == vols.push(result.volumes@[vols.len() as int]));
                            assert forall|m2: int, w: Seq<char>|
                                0 <= m2 < m + 1 && #[trigger] mount_volume(input_service.mounts@[m2].0@, input_service.mounts@[m2].1, w)
                                    implies views(result.volumes@).contains(w) by {
                                if m2 == m {
                                    assert(path_mount_volume(name@, t@, w));
                                    assert(w == pushed);
                                }
                            }
                        }
                    } else {
                        proof {
                            assert forall|m2: int, w: Seq<char>|
                                0 <= m2 < m + 1 && #[trigger] mount_volume(input_service.mounts@[m2].0@, input_service.mounts@[m2].1, w)
                                    implies views(result.volumes@).contains(w) by {
                                if m2 == m {
                                    assert(!path_mount_volume(name@, t@, w));
                                }
                            }
                        }
                    }
                } else {
                    proof {
                        assert forall|m2: int, w: Seq<char>|
                            0 <= m2 < m + 1 && #[trigger] mount_volume(input_service.mounts@[m2].0@, input_service.mounts@[m2].1, w)
                                implies views(result.volumes@).contains(w) by {
                            if m2 == m {
                                assert(!path_mount_volume(name@, t@, w));
                            }
                        }
                    }
                }
            },
        }
        proof {
            let p1 = views(metadata.has_permissions@);
            assert forall|m2: int| 0 <= m2 < m + 1 implies mount_granted(#[trigger] input_service.mounts@[m2], available_permissions@, p1) by {
                if m2 < m {
                    lemma_mount_granted_grows(input_service.mounts@[m2], available_permissions@, p0, p1);
                }
            }
        }
        proof {
            assert(mount_step(input_service.mounts@[m as int], available_permissions@, hp0, metadata.has_permissions@));
            lemma_mount_states_push(input_service.mounts@.take(m as int), input_service.mounts@[m as int], available_permissions@, hs, metadata.has_permissions@);
            assert(input_service.mounts@.take(m + 1) =~= input_service.mounts@.take(m as int).push(input_service.mounts@[m as int]));
            hs = hs.push(metadata.has_permissions@);
        }
        m = m + 1;
    }
    proof {
        assert(input_service.mounts@.take(m as int) =~= input_service.mounts@);
    }
}


/// Why an app's manifest could not be assembled.
#[derive(Debug, Clone, Copy, PartialEq, Eq, Structural)]
pub enum ConvertError {
    /// No container is named `main`
    NoMainContainer,
    /// The main container has no port, or no row of the port table serves it
    NoMainPort,
    /// A container port that must be published has no row in the port table
    NoPortMapEntry(u16),
    /// A container asks for a network mode other than `host`
    UnsupportedNetworkMode,
}

/// Some row of the port table serves port `internal` of container `container`.
pub open spec fn port_served(port_map: Seq<PortMapEntry>, internal: u16, container: Seq<char>) -> bool {
    exists|k: int| 0 <= k < port_map.len() && (#[trigger] port_map[k]).internal_port == internal && port_map[k].container@ == container
}

/// Every pair of `pairs` has its container port served.
pub open spec fn pairs_served(port_map: Seq<PortMapEntry>, pairs: Seq<(u16, u16)>, container: Seq<char>) -> bool {
    forall|j: int| 0 <= j < pairs.len() ==> port_served(port_map, (#[trigger] pairs[j]).1, container)
}

/// The ports of a container can be published: the main container's port and
/// every required port have a row in the port table.
pub open spec fn ports_servable(name: Seq<char>, c: Container, port_map: Seq<PortMapEntry>) -> bool {
    &&& name == "main"@ ==> (c.port is Some && port_served(port_map, c.port->0, name))
    &&& pairs_served(port_map, c.required_ports.http@, name)
    &&& pairs_served(port_map, c.required_ports.tcp@, name)
    &&& pairs_served(port_map, c.required_ports.direct_tcp@, name)
    &&& pairs_served(port_map, c.required_ports.udp@, name)
}

/// The index of the first row of the port table that serves port `internal`
/// of `container`, or the number of rows.
pub open spec fn first_served(port_map: Seq<PortMapEntry>, internal: u16, container: Seq<char>) -> int
    decreases port_map.len(),
{
    if port_map.len() == 0 {
        0
    } else if port_map[0].internal_port == internal && port_map[0].container@ == container {
        0
    } else {
        1 + first_served(port_map.drop_first(), internal, container)
    }
}

proof fn lemma_first_served(port_map: Seq<PortMapEntry>, internal: u16, container: Seq<char>, k: int)
    requires
        0 <= k < port_map.len(),
        port_map[k].internal_port == internal && port_map[k].container@ == container,
        forall|x: int| 0 <= x < k ==> !((#[trigger] port_map[x]).internal_port == internal && port_map[x].container@ == container),
    ensures
        first_served(port_map, internal, container) == k,
    decreases port_map.len(),
{
    if k > 0 {
        assert forall|x: int| 0 <= x < k - 1 implies !((#[trigger] port_map.drop_first()[x]).internal_port == internal
            && port_map.drop_first()[x].container@ == container) by {
            assert(port_map.drop_first()[x] == port_map[x + 1]);
        }
        lemma_first_served(port_map.drop_first(), internal, container, k - 1);
    }
}

fn find_served(port_map: &[PortMapEntry], internal: u16, container: &str) -> (r: Option<usize>)
    ensures
        match r {
            Some(k) => k < port_map@.len() && port_map@[k as int].internal_port == internal && port_map@[k as int].container@ == container@
                && k as int == first_served(port_map@, internal, container@),
            None => !port_served(port_map@, internal, container@),
        },
{
    let mut k: usize = 0;
    while k < port_map.len()
        invariant
            k <= port_map@.len(),
            forall|x: int| 0 <= x < k ==> !((#[trigger] port_map@[x]).internal_port == internal && port_map@[x].container@ == container@),
        decreases port_map@.len() - k,
    {
        if port_map[k].internal_port == internal && same_text(port_map[k].container.as_str(), container) {
            proof {
                lemma_first_served(port_map@, internal, container@, k as int);
            }
            return Some(k);
        }
        k = k + 1;
    }
    None
}

fn check_pairs(port_map: &[PortMapEntry], pairs: &Vec<(u16, u16)>, container: &str) -> (r: Result<(), u16>)
    ensures
        r is Ok <==> pairs_served(port_map@, pairs@, container@),
{
    let mut j: usize = 0;
    while j < pairs.len()
        invariant
            j <= pairs@.len(),
            forall|x: int| 0 <= x < j ==> port_served(port_map@, (#[trigger] pairs@[x]).1, container@),
        decreases pairs@.len() - j,
    {
        if find_served(port_map, pairs[j].1, container).is_none() {
            return Err(pairs[j].1);
        }
        j = j + 1;
    }
    Ok(())
}

/// `public:internal`
fn port_pair_text(public_port: u16, internal_port: u16) -> (r: String)
    ensures
        r@ == crate::text::decimal(public_port as nat) + ":"@ + crate::text::decimal(internal_port as nat),
{
    let a = port_text(public_port);
    let b = port_text(internal_port);
    a.concat(":").concat(b.as_str())
}

/// Publishes the ports of one service: the main port and the HTTP and TCP
/// ports go through the reverse proxy, unless the main container disables it;
/// direct TCP and UDP ports are published on the host.
/// A route of the reverse proxy: public port, container port, container,
/// whether it is the app's main route, whether it proxies raw TCP.
pub open spec fn caddy_view(e: CaddyEntry) -> (u16, u16, Seq<char>, bool, bool) {
    (e.public_port, e.internal_port, e.container_name@, e.is_primary, e.is_l4)
}

pub open spec fn caddy_views(s: Seq<CaddyEntry>) -> Seq<(u16, u16, Seq<char>, bool, bool)> {
    s.map_values(|e: CaddyEntry| caddy_view(e))
}

/// Routes through the reverse proxy for each `(public, container)` pair.
pub open spec fn proxied(pairs: Seq<(u16, u16)>, name: Seq<char>, l4: bool) -> Seq<(u16, u16, Seq<char>, bool, bool)> {
    pairs.map_values(|p: (u16, u16)| (p.0, p.1, name, false, l4))
}

/// `public:internal`
pub open spec fn pair_text(public: u16, internal: u16) -> Seq<char> {
    crate::text::decimal(public as nat) + ":"@ + crate::text::decimal(internal as nat)
}

/// A published port mapping for each pair, followed by `suffix`.
pub open spec fn published(pairs: Seq<(u16, u16)>, suffix: Seq<char>) -> Seq<Seq<char>> {
    pairs.map_values(|p: (u16, u16)| pair_text(p.0, p.1) + suffix)
}

/// The public port of the main container's port, from the first row that serves it.
pub open spec fn main_public(name: Seq<char>, c: Container, port_map: Seq<PortMapEntry>) -> u16 {
    port_map[first_served(port_map, c.port->0, name)].public_port
}

/// The main route of the main container, unless it bypasses the proxy.
pub open spec fn main_route(name: Seq<char>, c: Container, port_map: Seq<PortMapEntry>) -> Seq<(u16, u16, Seq<char>, bool, bool)> {
    if name == "main"@ && !c.disable_caddy {
        seq![(main_public(name, c, port_map), c.port->0, name, true, c.direct_tcp)]
    } else {
        seq![]
    }
}

/// The published main port of the main container, when it bypasses the proxy.
pub open spec fn main_published(name: Seq<char>, c: Container, port_map: Seq<PortMapEntry>) -> Seq<Seq<char>> {
    if name == "main"@ && c.disable_caddy {
        seq![pair_text(main_public(name, c, port_map), c.port->0)]
    } else {
        seq![]
    }
}

pub fn handle_ports(
    service_name: &str,
    result: &mut Service,
    input_service: &Container,
    port_map: &[PortMapEntry],
) -> (r: Result<Vec<CaddyEntry>, ConvertError>)
    ensures
        r is Ok <==> ports_servable(service_name@, *input_service, port_map@),
        !(r matches Err(ConvertError::NoMainContainer)),
        r matches Ok(entries) ==> forall|k: int| 0 <= k < entries@.len() ==> (#[trigger] entries@[k]).container_name@ == service_name@,
        r matches Ok(entries) ==> caddy_views(entries@) == main_route(service_name@, *input_service, port_map@) + proxied(
            input_service.required_ports.http@,
            service_name@,
            false,
        ) + proxied(input_service.required_ports.tcp@, service_name@, true),
        r is Ok ==> views(final(result).ports@) == views(old(result).ports@) + main_published(service_name@, *input_service, port_map@)
            + published(input_service.required_ports.direct_tcp@, seq![]) + published(input_service.required_ports.udp@, "/udp"@),
        final(result).image == old(result).image,
        final(result).restart == old(result).restart,
        final(result).working_dir == old(result).working_dir,
        final(result).user == old(result).user,
        final(result).stop_grace_period == old(result).stop_grace_period,
        final(result).stop_signal == old(result).stop_signal,
        final(result).init == old(result).init,
        final(result).depends_on == old(result).depends_on,
        final(result).extra_hosts == old(result).extra_hosts,
        final(result).shm_size == old(result).shm_size,
        final(result).volumes == old(result).volumes,
{
    proof {
        reveal_strlit("main");
        reveal_strlit(":");
        reveal_strlit("/udp");
    }
    assert(views(result.ports@) == views(old(result).ports@));
    let mut entries: Vec<CaddyEntry> = Vec::new();
    let is_main = same_text(service_name, "main");
    if is_main {
        let main_port = match input_service.port {
            Some(p) => p,
            None => {
                return Err(ConvertError::NoMainPort);
            },
        };
        let k = match find_served(port_map, main_port, service_name) {
            Some(k) => k,
            None => {
                return Err(ConvertError::NoPortMapEntry(main_port));
            },
        };
        if input_service.disable_caddy {
            let ghost before = result.ports@;
            result.ports.push(port_pair_text(port_map[k].public_port, main_port));
            assert(views(result.ports@) =~= views(before).push(views(result.ports@).last()));
        } else {
            entries.push(
                CaddyEntry {
                    public_port: port_map[k].public_port,
                    internal_port: main_port,
                    container_name: String::from_str(service_name),
                    is_primary: true,
                    is_l4: input_service.direct_tcp,
                },
            );
        }
    }
    let required = &input_service.required_ports;
    if let Err(p) = check_pairs(port_map, &required.http, service_name) {
        return Err(ConvertError::NoPortMapEntry(p));
    }
    if let Err(p) = check_pairs(port_map, &required.tcp, service_name) {
        return Err(ConvertError::NoPortMapEntry(p));
    }
    if let Err(p) = check_pairs(port_map, &required.direct_tcp, service_name) {
        return Err(ConvertError::NoPortMapEntry(p));
    }
    if let Err(p) = check_pairs(port_map, &required.udp, service_name) {
        return Err(ConvertError::NoPortMapEntry(p));
    }
    let ghost base = caddy_views(entries@);
    let ghost ports0 = views(result.ports@);
    proof {
        assert(base =~= main_route(service_name@, *input_service, port_map@));
        assert(ports0 =~= views(old(result).ports@) + main_published(service_name@, *input_service, port_map@));
        assert(proxied(required.http@, service_name@, false).take(0) =~= seq![]);
    }
    let mut j: usize = 0;
    while j < required.http.len()
        invariant
            j <= required.http@.len(),
            caddy_views(entries@) == base + proxied(required.http@.take(j as int), service_name@, false),
            forall|k: int| 0 <= k < entries@.len() ==> (#[trigger] entries@[k]).container_name@ == service_name@,
        decreases required.http@.len() - j,
    {
        let (public_port, internal_port) = required.http[j];
        let ghost prev = entries@;
        entries.push(
            CaddyEntry {
                public_port,
                internal_port,
                container_name: String::from_str(service_name),
                is_primary: false,
                is_l4: false,
            },
        );
        proof {
            assert(proxied(required.http@.take(j + 1), service_name@, false) =~= proxied(required.http@.take(j as int), service_name@, false).push(
                (public_port, internal_port, service_name@, false, false),
            ));
            assert(entries@ == prev.push(entries@.last()));
            assert(caddy_view(entries@.last()) == (public_port, internal_port, service_name@, false, false));
            assert(caddy_views(entries@) =~= caddy_views(prev).push(caddy_view(entries@.last())));
            assert(caddy_views(entries@) =~= base + proxied(required.http@.take(j + 1), service_name@, false));
        }
        j = j + 1;
    }
    assert(required.http@.take(j as int) =~= required.http@);
    let ghost base2 = caddy_views(entries@);
    let mut j: usize = 0;
    while j < required.tcp.len()
        invariant
            j <= required.tcp@.len(),
            caddy_views(entries@) == base2 + proxied(required.tcp@.take(j as int), service_name@, true),
            forall|k: int| 0 <= k < entries@.len() ==> (#[trigger] entries@[k]).container_name@ == service_name@,
        decreases required.tcp@.len() - j,
    {
        let (public_port, internal_port) = required.tcp[j];
        let ghost prev = entries@;
        entries.push(
            CaddyEntry {
                public_port,
                internal_port,
                container_name: String::from_str(service_name),
                is_primary: false,
                is_l4: true,
            },
        );
        proof {
            assert(proxied(required.tcp@.take(j + 1), service_name@, true) =~= proxied(required.tcp@.take(j as int), service_name@, true).push(
                (public_port, internal_port, service_name@, false, true),
            ));
            assert(entries@ == prev.push(entries@.last()));
            assert(caddy_view(entries@.last()) == (public_port, internal_port, service_name@, false, true));
            assert(caddy_views(entries@) =~= caddy_views(prev).push(caddy_view(entries@.last())));
            assert(caddy_views(entries@) =~= base2 + proxied(required.tcp@.take(j + 1), service_name@, true));
        }
        j = j + 1;
    }
    assert(required.tcp@.take(j as int) =~= required.tcp@);
    let mut j: usize = 0;
    while j < required.direct_tcp.len()
        invariant
            j <= required.direct_tcp@.len(),
            views(result.ports@) == ports0 + published(required.direct_tcp@.take(j as int), seq![]),
            result.image == old(result).image,
            result.restart == old(result).restart,
            result.working_dir == old(result).working_dir,
            result.user == old(result).user,
            result.stop_grace_period == old(result).stop_grace_period,
            result.stop_signal == old(result).stop_signal,
            result.init == old(result).init,
            result.depends_on == old(result).depends_on,
            result.extra_hosts == old(result).extra_hosts,
            result.shm_size == old(result).shm_size,
            result.volumes == old(result).volumes,
        decreases required.direct_tcp@.len() - j,
    {
        let (public_port, internal_port) = required.direct_tcp[j];
        let ghost before = views(result.ports@);
        let t = port_pair_text(public_port, internal_port);
        result.ports.push(t);
        proof {
            assert(published(required.direct_tcp@.take(j + 1), seq![]) =~= published(required.direct_tcp@.take(j as int), seq![]).push(
                pair_text(public_port, internal_port) + seq![],
            ));
            assert(views(result.ports@) =~= before.push(t@));
            assert(views(result.ports@) =~= ports0 + published(required.direct_tcp@.take(j + 1), seq![]));
        }
        j = j + 1;
    }
    assert(required.direct_tcp@.take(j as int) =~= required.direct_tcp@);
    let ghost ports1 = views(result.ports@);
    let mut j: usize = 0;
    while j < required.udp.len()
        invariant
            j <= required.udp@.len(),
            views(result.ports@) == ports1 + published(required.udp@.take(j as int), "/udp"@),
            result.image == old(result).image,
            result.restart == old(result).restart,
            result.working_dir == old(result).working_dir,
            result.user == old(result).user,
            result.stop_grace_period == old(result).stop_grace_period,
            result.stop_signal == old(result).stop_signal,
            result.init == old(result).init,
            result.depends_on == old(result).depends_on,
            result.extra_hosts == old(result).extra_hosts,
            result.shm_size == old(result).shm_size,
            result.volumes == old(result).volumes,
        decreases required.udp@.len() - j,
    {
        let (public_port, internal_port) = required.udp[j];
        let ghost before = views(result.ports@);
        let t = port_pair_text(public_port, internal_port).concat("/udp");
        result.ports.push(t);
        proof {
            assert(published(required.udp@.take(j + 1), "/udp"@) =~= published(required.udp@.take(j as int), "/udp"@).push(
                pair_text(public_port, internal_port) + "/udp"@,
            ));
            assert(views(result.ports@) =~= before.push(t@));
            assert(views(result.ports@) =~= ports1 + published(required.udp@.take(j + 1), "/udp"@));
        }
        j = j + 1;
    }
    assert(required.udp@.take(j as int) =~= required.udp@);
    Ok(entries)
}

/// `v` is `APP_<app>_<NAME>` with no other `_`: a variable of another app.
pub open spec fn app_var(v: Seq<char>, app: Seq<char>) -> bool {
    exists|name: Seq<char>| !app.contains('_') && !name.contains('_') && v == #[trigger] ("APP_"@ + app + "_"@ + name)
}

/// Access to the variable `v` is covered by the permissions `perms`: it is a
/// platform variable, the app has full trust, or `v` is a variable of another
/// app and some permission of that app, or the whole app, is granted.
pub open spec fn env_covered(v: Seq<char>, perms: Seq<Seq<char>>) -> bool {
    ||| platform_var(v)
    ||| perms.contains(root_permission())
    ||| exists|app: Seq<char>|
        #[trigger] app_var(v, app) && (perms.contains(app) || exists|x: Seq<char>| perms.contains(#[trigger] grant_of(app, x)))
}

proof fn lemma_covered_grows(v: Seq<char>, p1: Seq<Seq<char>>, p2: Seq<Seq<char>>)
    requires
        env_covered(v, p1),
        forall|x: Seq<char>| p1.contains(x) ==> p2.contains(x),
    ensures
        env_covered(v, p2),
{
    if !platform_var(v) && !p1.contains(root_permission()) {
        let app = choose|app: Seq<char>|
            #[trigger] app_var(v, app) && (p1.contains(app) || exists|x: Seq<char>| p1.contains(#[trigger] grant_of(app, x)));
        if !p1.contains(app) {
            let x = choose|x: Seq<char>| p1.contains(#[trigger] grant_of(app, x));
            assert(p2.contains(grant_of(app, x)));
        }
    }
}

/// The references in a command that may be absent.
pub open spec fn opt_command_refs(c: Option<crate::manifest::Command>) -> Seq<Seq<char>> {
    match c {
        Some(c) => command_refs(c),
        None => seq![],
    }
}

/// The references in the text values of an environment, one after the other.
pub open spec fn env_value_refs(env: Seq<(String, VarValue)>) -> Seq<Seq<char>>
    decreases env.len(),
{
    if env.len() == 0 {
        seq![]
    } else {
        env_value_refs(env.drop_last()) + match env.last().1 {
            VarValue::Text(t) => env_refs(t@),
            VarValue::Json(_) => seq![],
        }
    }
}

/// Every environment variable that a service refers to.
pub open spec fn service_refs(s: Service) -> Seq<Seq<char>> {
    opt_command_refs(s.command) + opt_command_refs(s.entrypoint) + env_value_refs(s.environment@)
}

fn service_env_refs(s: &Service) -> (r: Vec<String>)
    ensures
        views(r@) == service_refs(*s),
{
    let mut out: Vec<String> = Vec::new();
    if let Some(c) = &s.command {
        out = c.get_env_vars();
    }
    if let Some(c) = &s.entrypoint {
        let mut more = c.get_env_vars();
        let ghost before = out@;
        let ghost added = more@;
        out.append(&mut more);
        assert(views(out@) =~= views(before) + views(added));
    }
    assert(views(out@) =~= opt_command_refs(s.command) + opt_command_refs(s.entrypoint));
    let ghost base = views(out@);
    let mut i: usize = 0;
    while i < s.environment.len()
        invariant
            i <= s.environment@.len(),
            views(out@) == base + env_value_refs(s.environment@.take(i as int)),
        decreases s.environment@.len() - i,
    {
        let ghost before = out@;
        assert(s.environment@.take(i + 1).drop_last() =~= s.environment@.take(i as int));
        if let VarValue::Text(t) = &s.environment[i].1 {
            let mut more = find_env_vars(t.as_str());
            let ghost added = more@;
            out.append(&mut more);
            assert(views(out@) =~= views(before) + views(added));
        } else {
            assert(views(out@) =~= views(before) + seq![]);
        }
        i = i + 1;
    }
    assert(s.environment@.take(i as int) =~= s.environment@);
    out
}

fn is_platform_var(v: &str) -> (r: bool)
    ensures
        r == platform_var(v@),
{
    same_text(v, "API_IP") || same_text(v, "DEVICE_HOSTNAME") || same_text(v, "DEVICE_IP")
}

/// A reference that is neither a platform variable nor a variable of another app.
pub open spec fn unscoped_var(v: Seq<char>) -> bool {
    !platform_var(v) && forall|app: Seq<char>| !#[trigger] app_var(v, app)
}

/// `after` holds what a reference to `v` calls for when checked against the
/// grants `current`: nothing for a platform variable; full trust for an
/// unscoped one; for a variable of another app, the best permission of that
/// app that exposes it, or the whole app when none does. Callers that only
/// know some `current` exists say so with `exists`; `env_trace` fixes it.
pub open spec fn env_grant(v: Seq<char>, available: Seq<AppPermissions>, current: Seq<String>, after: Seq<Seq<char>>) -> bool {
    ||| platform_var(v)
    ||| unscoped_var(v) && after.contains(root_permission())
    ||| exists|app: Seq<char>, s: String|
        app_var(v, app) && s@ == v && #[trigger] foreign_grant(
            app,
            perms_for(available, app),
            current,
            Exposure::Variable(s),
            after,
        )
}

/// `x` is a grant that a reference to `v` may add.
pub open spec fn grant_for_ref(v: Seq<char>, x: Seq<char>) -> bool {
    ||| unscoped_var(v) && x == root_permission()
    ||| exists|app: Seq<char>| #[trigger] app_var(v, app) && grant_on(app, x)
}

proof fn lemma_app_var_shape(v: Seq<char>, a: Seq<char>, nm: Seq<char>)
    requires
        v == "APP_"@ + a + "_"@ + nm,
    ensures
        v.len() >= 4,
        v[0] == 'A' && v[1] == 'P' && v[2] == 'P' && v[3] == '_',
        v.subrange(4, v.len() as int) == a + seq!['_'] + nm,
{
    reveal_strlit("APP_");
    reveal_strlit("_");
    assert(v.subrange(4, v.len() as int) =~= a + seq!['_'] + nm);
}

/// The app of a reference `APP_<app>_<NAME>`, if the reference has that form.
fn parse_app_var(v: &str) -> (r: Option<String>)
    ensures
        match r {
            Some(a) => app_var(v@, a@),
            None => forall|a: Seq<char>| !#[trigger] app_var(v@, a),
        },
{
    proof {
        reveal_strlit("APP_");
        reveal_strlit("_");
    }
    let n = v.unicode_len();
    if !(n >= 4 && v.get_char(0) == 'A' && v.get_char(1) == 'P' && v.get_char(2) == 'P' && v.get_char(3) == '_') {
        proof {
            assert forall|a: Seq<char>| !#[trigger] app_var(v@, a) by {
                if app_var(v@, a) {
                    let nm = choose|nm: Seq<char>| !a.contains('_') && !nm.contains('_') && v@ == #[trigger] ("APP_"@ + a + "_"@ + nm);
                    lemma_app_var_shape(v@, a, nm);
                }
            }
        }
        return None;
    }
    let rest = v.substring_char(4, n);
    let rlen = rest.unicode_len();
    match crate::text::find_char(rest, '_') {
        None => {
            proof {
                assert forall|a: Seq<char>| !#[trigger] app_var(v@, a) by {
                    if app_var(v@, a) {
                        let nm = choose|nm: Seq<char>| !a.contains('_') && !nm.contains('_') && v@ == #[trigger] ("APP_"@ + a + "_"@ + nm);
                        lemma_app_var_shape(v@, a, nm);
                        assert(rest@[a.len() as int] == '_');
                    }
                }
            }
            None
        },
        Some(u) => {
            let app = rest.substring_char(0, u);
            let name = rest.substring_char(u + 1, rlen);
            if has_char(name, '_') {
                proof {
                    assert forall|a: Seq<char>| !#[trigger] app_var(v@, a) by {
                        if app_var(v@, a) {
                            let nm = choose|nm: Seq<char>| !a.contains('_') && !nm.contains('_') && v@ == #[trigger] ("APP_"@ + a + "_"@ + nm);
                            lemma_app_var_shape(v@, a, nm);
                            if u < a.len() {
                                assert(rest@[u as int] == a[u as int]);
                            } else if u > a.len() {
                                assert(rest@[a.len() as int] == '_');
                            }
                            assert(name@ =~= nm);
                        }
                    }
                }
                return None;
            }
            proof {
                assert(!app@.contains('_'));
                assert(v@ =~= "APP_"@ + app@ + "_"@ + name@);
                assert(app_var(v@, app@));
            }
            Some(String::from_str(app))
        },
    }
}

/// `held` already holds what a reference to `v` calls for.
pub open spec fn env_held(v: Seq<char>, available: Seq<AppPermissions>, held: Seq<Seq<char>>) -> bool {
    ||| platform_var(v)
    ||| unscoped_var(v) && held.contains(root_permission())
    ||| exists|app: Seq<char>, s: String|
        app_var(v, app) && s@ == v && #[trigger] foreign_held(app, perms_for(available, app), Exposure::Variable(s), held)
}

proof fn lemma_env_held_grows(v: Seq<char>, available: Seq<AppPermissions>, a: Seq<Seq<char>>, b: Seq<Seq<char>>)
    requires
        env_held(v, available, a),
        forall|x: Seq<char>| a.contains(x) ==> b.contains(x),
    ensures
        env_held(v, available, b),
{
    if !platform_var(v) && !(unscoped_var(v) && a.contains(root_permission())) {
        let (app, s) = choose|app: Seq<char>, s: String|
            app_var(v, app) && s@ == v && #[trigger] foreign_held(app, perms_for(available, app), Exposure::Variable(s), a);
        lemma_foreign_held_grows(app, perms_for(available, app), Exposure::Variable(s), a, b);
    }
}

proof fn lemma_app_var_unique(v: Seq<char>, a1: Seq<char>, a2: Seq<char>)
    requires
        app_var(v, a1),
        app_var(v, a2),
    ensures
        a1 == a2,
{
    let n1 = choose|nm: Seq<char>| !a1.contains('_') && !nm.contains('_') && v == #[trigger] ("APP_"@ + a1 + "_"@ + nm);
    let n2 = choose|nm: Seq<char>| !a2.contains('_') && !nm.contains('_') && v == #[trigger] ("APP_"@ + a2 + "_"@ + nm);
    lemma_app_var_shape(v, a1, n1);
    lemma_app_var_shape(v, a2, n2);
    let r = v.subrange(4, v.len() as int);
    if a1.len() < a2.len() {
        assert(r[a1.len() as int] == '_');
        assert(r[a1.len() as int] == a2[a1.len() as int]);
    } else if a2.len() < a1.len() {
        assert(r[a2.len() as int] == '_');
        assert(r[a2.len() as int] == a1[a2.len() as int]);
    }
    assert(a1 =~= a2) by {
        assert forall|k: int| 0 <= k < a1.len() implies a1[k] == a2[k] by {
            assert(r[k] == a1[k] && r[k] == a2[k]);
        }
    }
}

/// One reference to `v` checked while the app holds `h`, leaving `h2`:
/// nothing for a platform variable; full trust added for an unscoped one; for
/// a variable of another app, the grant that the best match against `h`
/// calls for.
pub open spec fn env_step(v: Seq<char>, available: Seq<AppPermissions>, h: Seq<String>, h2: Seq<String>) -> bool {
    ||| platform_var(v) && views(h2) == views(h)
    ||| unscoped_var(v) && views(h2) == add_grant(views(h), root_permission())
    ||| exists|app: Seq<char>, s: String, r: Option<usize>|
        app_var(v, app) && s@ == v && #[trigger] is_best_match(app, perms_for(available, app), h, Exposure::Variable(s), r)
            && views(h2) == add_grant(views(h), chosen(app, perms_for(available, app), r))
}

/// `hs` holds what the app has before each reference of `refs` is checked,
/// and after the last one.
pub open spec fn env_states(refs: Seq<Seq<char>>, available: Seq<AppPermissions>, hs: Seq<Seq<String>>) -> bool {
    &&& hs.len() == refs.len() + 1
    &&& forall|i: int| #![trigger hs[i]] 0 <= i < refs.len() ==> env_step(refs[i], available, hs[i], hs[i + 1])
}

/// The references `refs`, checked in order from `h0`, leave `hf`.
pub open spec fn env_trace(refs: Seq<Seq<char>>, available: Seq<AppPermissions>, h0: Seq<String>, hf: Seq<String>) -> bool {
    exists|hs: Seq<Seq<String>>| #[trigger] env_states(refs, available, hs) && hs[0] == h0 && hs.last() == hf
}

proof fn lemma_states_push(
    refs: Seq<Seq<char>>,
    v: Seq<char>,
    available: Seq<AppPermissions>,
    hs: Seq<Seq<String>>,
    hf: Seq<String>,
)
    requires
        env_states(refs, available, hs),
        env_step(v, available, hs.last(), hf),
    ensures
        env_states(refs.push(v), available, hs.push(hf)),
        hs.push(hf)[0] == hs[0],
        hs.push(hf).last() == hf,
{
    let r2 = refs.push(v);
    let h2 = hs.push(hf);
    assert forall|i: int| #![trigger h2[i]] 0 <= i < r2.len() implies env_step(r2[i], available, h2[i], h2[i + 1]) by {
        if i < refs.len() {
            assert(r2[i] == refs[i] && h2[i] == hs[i] && h2[i + 1] == hs[i + 1]);
        } else {
            assert(r2[i] == v && h2[i] == hs.last() && h2[i + 1] == hf);
        }
    }
}

/// The references of all services, service after service.
pub open spec fn all_refs(services: Seq<(String, Service)>) -> Seq<Seq<char>>
    decreases services.len(),
{
    if services.len() == 0 {
        seq![]
    } else {
        all_refs(services.drop_last()) + service_refs(services.last().1)
    }
}

/// Records what the app needs to refer to the variable `v`.
fn require_env_access(has_permissions: &mut Vec<String>, available: &[AppPermissions], v: &str)
    ensures
        env_covered(v@, views(final(has_permissions)@)),
        env_grant(v@, available@, old(has_permissions)@, views(final(has_permissions)@)),
        forall|x: Seq<char>| views(old(has_permissions)@).contains(x) ==> views(final(has_permissions)@).contains(x),
        forall|x: Seq<char>|
            views(final(has_permissions)@).contains(x) ==> views(old(has_permissions)@).contains(x) || grant_for_ref(v@, x),
        views(old(has_permissions)@).no_duplicates() ==> views(final(has_permissions)@).no_duplicates(),
        extends(old(has_permissions)@, final(has_permissions)@),
        env_held(v@, available@, views(final(has_permissions)@)),
        env_held(v@, available@, views(old(has_permissions)@)) ==> final(has_permissions)@ == old(has_permissions)@,
        env_step(v@, available@, old(has_permissions)@, final(has_permissions)@),
{
    proof {
        reveal_strlit("root");
    }
    if is_platform_var(v) {
        return;
    }
    match parse_app_var(v) {
        Some(app) => {
            let ghost current = has_permissions@;
            let name = String::from_str(v);
            let need = Exposure::Variable(name);
            require_foreign(has_permissions, available, app.as_str(), &need);
            proof {
                assert(foreign_held(app@, perms_for(available@, app@), Exposure::Variable(name), views(has_permissions@)));
                assert(env_held(v@, available@, views(has_permissions@)));
                if env_held(v@, available@, views(current)) {
                    let (a2, s2) = choose|a2: Seq<char>, s2: String|
                        app_var(v@, a2) && s2@ == v@ && #[trigger] foreign_held(a2, perms_for(available@, a2), Exposure::Variable(s2), views(current));
                    lemma_app_var_unique(v@, a2, app@);
                    let pf = perms_for(available@, app@);
                    assert forall|i: int| 0 <= i < pf.len() implies meets(pf[i], Exposure::Variable(s2)) == meets(pf[i], Exposure::Variable(name)) by {}
                    assert(foreign_held(app@, pf, Exposure::Variable(name), views(current)));
                }
                assert(foreign_grant(app@, perms_for(available@, app@), current, Exposure::Variable(name), views(has_permissions@)));
                assert forall|x: Seq<char>|
                    views(has_permissions@).contains(x) implies views(current).contains(x) || grant_for_ref(v@, x) by {
                    if !views(current).contains(x) {
                        assert(grant_on(app@, x));
                        assert(app_var(v@, app@));
                    }
                }
                if views(has_permissions@).contains(app@) {
                } else {
                    let id = choose|id: Seq<char>| views(has_permissions@).contains(#[trigger] grant_of(app@, id));
                }
            }
        },
        None => {
            require_permission(has_permissions, "root");
            proof {
                assert(unscoped_var(v@));
                assert("root"@ == root_permission());
            }
        },
    }
}

/// The reference to `v` is covered by `after`, and `after` holds what it adds.
pub open spec fn ref_ok(v: Seq<char>, available: Seq<AppPermissions>, after: Seq<Seq<char>>) -> bool {
    &&& env_covered(v, after)
    &&& exists|g: Seq<String>| #[trigger] env_grant(v, available, g, after)
    &&& env_held(v, available, after)
}

/// Every reference of `services` is already held in `held`.
pub open spec fn all_held(services: Seq<(String, Service)>, available: Seq<AppPermissions>, held: Seq<Seq<char>>) -> bool {
    forall|k: int, j: int|
        0 <= k < services.len() && 0 <= j < service_refs(services[k].1).len() ==> env_held(
            #[trigger] service_refs(services[k].1)[j],
            available,
            held,
        )
}

proof fn lemma_ref_ok_grows(v: Seq<char>, available: Seq<AppPermissions>, a: Seq<Seq<char>>, b: Seq<Seq<char>>)
    requires
        ref_ok(v, available, a),
        forall|x: Seq<char>| a.contains(x) ==> b.contains(x),
    ensures
        ref_ok(v, available, b),
{
    lemma_covered_grows(v, a, b);
    lemma_env_held_grows(v, available, a, b);
    let g = choose|g: Seq<String>| #[trigger] env_grant(v, available, g, a);
    if !platform_var(v) && !(unscoped_var(v) && a.contains(root_permission())) {
        let (app, s) = choose|app: Seq<char>, s: String|
            app_var(v, app) && s@ == v && #[trigger] foreign_grant(app, perms_for(available, app), g, Exposure::Variable(s), a);
        lemma_foreign_grows(app, perms_for(available, app), g, Exposure::Variable(s), a, b);
        assert(env_grant(v, available, g, b));
    } else {
        assert(env_grant(v, available, g, b));
    }
}

/// `x` is a grant that some reference of `services` may add.
pub open spec fn ref_grant(services: Seq<(String, Service)>, x: Seq<char>) -> bool {
    exists|k: int, j: int|
        0 <= k < services.len() && 0 <= j < service_refs(services[k].1).len() && grant_for_ref(
            #[trigger] service_refs(services[k].1)[j],
            x,
        )
}

/// Checks every environment variable that the services refer to, and records
/// the permissions that the app needs for them.
proof fn lemma_trace_concat(
    r1: Seq<Seq<char>>,
    r2: Seq<Seq<char>>,
    available: Seq<AppPermissions>,
    h0: Seq<String>,
    hm: Seq<String>,
    hf: Seq<String>,
)
    requires
        env_trace(r1, available, h0, hm),
        env_trace(r2, available, hm, hf),
    ensures
        env_trace(r1 + r2, available, h0, hf),
{
    let hs1 = choose|hs: Seq<Seq<String>>| #[trigger] env_states(r1, available, hs) && hs[0] == h0 && hs.last() == hm;
    let hs2 = choose|hs: Seq<Seq<String>>| #[trigger] env_states(r2, available, hs) && hs[0] == hm && hs.last() == hf;
    let hs = hs1 + hs2.skip(1);
    let r = r1 + r2;
    assert forall|i: int| #![trigger hs[i]] 0 <= i < r.len() implies env_step(r[i], available, hs[i], hs[i + 1]) by {
        if i < r1.len() {
            assert(r[i] == r1[i] && hs[i] == hs1[i]);
            if i + 1 < hs1.len() {
                assert(hs[i + 1] == hs1[i + 1]);
            }
        } else {
            let k = i - r1.len();
            assert(r[i] == r2[k]);
            if k == 0 {
                assert(hs[i] == hs1.last());
            } else {
                assert(hs[i] == hs2[k]);
            }
            assert(hs[i + 1] == hs2[k + 1]);
            assert(env_step(r2[k], available, hs2[k], hs2[k + 1]));
        }
    }
    assert(env_states(r, available, hs));
    if r2.len() == 0 {
        assert(hs.last() == hs1.last());
    } else {
        assert(hs.last() == hs2.last());
    }
}

/// `x` is a grant that one of `refs` may add.
pub open spec fn refs_grant(refs: Seq<Seq<char>>, x: Seq<char>) -> bool {
    exists|j: int| 0 <= j < refs.len() && #[trigger] grant_for_ref(refs[j], x)
}

/// Checks the references `refs` in order, recording what each needs.
fn record_refs(has_permissions: &mut Vec<String>, available: &[AppPermissions], refs: &Vec<String>)
    ensures
        env_trace(views(refs@), available@, old(has_permissions)@, final(has_permissions)@),
        forall|j: int| 0 <= j < refs@.len() ==> ref_ok(#[trigger] views(refs@)[j], available@, views(final(has_permissions)@)),
        forall|x: Seq<char>| views(old(has_permissions)@).contains(x) ==> views(final(has_permissions)@).contains(x),
        extends(old(has_permissions)@, final(has_permissions)@),
        forall|x: Seq<char>|
            views(final(has_permissions)@).contains(x) ==> views(old(has_permissions)@).contains(x) || refs_grant(views(refs@), x),
        views(old(has_permissions)@).no_duplicates() ==> views(final(has_permissions)@).no_duplicates(),
        (forall|j: int| 0 <= j < refs@.len() ==> env_held(#[trigger] views(refs@)[j], available@, views(old(has_permissions)@)))
            ==> final(has_permissions)@ == old(has_permissions)@,
{
    let ghost h0 = has_permissions@;
    let ghost held0 = forall|j: int| 0 <= j < refs@.len() ==> env_held(#[trigger] views(refs@)[j], available@, views(h0));
    let ghost mut hs: Seq<Seq<String>> = seq![h0];
    proof {
        assert(views(refs@).take(0) =~= seq![]);
        assert(env_states(seq![], available@, hs));
    }
    let mut j: usize = 0;
    while j < refs.len()
        invariant
            j <= refs@.len(),
            env_states(views(refs@).take(j as int), available@, hs),
            hs[0] == h0,
            hs.last() == has_permissions@,
            forall|j2: int| 0 <= j2 < j ==> ref_ok(#[trigger] views(refs@)[j2], available@, views(has_permissions@)),
            forall|x: Seq<char>| views(h0).contains(x) ==> views(has_permissions@).contains(x),
            extends(h0, has_permissions@),
            forall|x: Seq<char>| views(has_permissions@).contains(x) ==> views(h0).contains(x) || refs_grant(views(refs@), x),
            views(h0).no_duplicates() ==> views(has_permissions@).no_duplicates(),
            held0 == (forall|j2: int| 0 <= j2 < refs@.len() ==> env_held(#[trigger] views(refs@)[j2], available@, views(h0))),
            held0 ==> has_permissions@ == h0,
        decreases refs@.len() - j,
    {
        let ghost p1 = views(has_permissions@);
        let ghost hp1 = has_permissions@;
        proof {
            if held0 {
                assert(env_held(views(refs@)[j as int], available@, views(h0)));
            }
        }
        require_env_access(has_permissions, available, refs[j].as_str());
        proof {
            let p2 = views(has_permissions@);
            assert(views(refs@)[j as int] == refs@[j as int]@);
            assert forall|j2: int| 0 <= j2 < j + 1 implies ref_ok(#[trigger] views(refs@)[j2], available@, p2) by {
                if j2 < j {
                    lemma_ref_ok_grows(views(refs@)[j2], available@, p1, p2);
                }
            }
            assert forall|x: Seq<char>| p2.contains(x) implies views(h0).contains(x) || refs_grant(views(refs@), x) by {
                if !p1.contains(x) {
                    assert(grant_for_ref(views(refs@)[j as int], x));
                }
            }
            lemma_states_push(views(refs@).take(j as int), refs@[j as int]@, available@, hs, has_permissions@);
            assert(views(refs@).take(j + 1) =~= views(refs@).take(j as int).push(refs@[j as int]@));
            hs = hs.push(has_permissions@);
        }
        j = j + 1;
    }
    proof {
        assert(views(refs@).take(j as int) =~= views(refs@));
    }
}

/// Checks every environment variable that the services refer to, and records
/// the permissions that the app needs for them, reference after reference.
#[verifier::rlimit(80)]
pub fn validate_env_access(result: &mut ResultYml, available_permissions: &[AppPermissions])
    ensures
        forall|k: int, j: int|
            0 <= k < final(result).spec.services@.len() && 0 <= j < service_refs(final(result).spec.services@[k].1).len()
                ==> ref_ok(#[trigger] service_refs(final(result).spec.services@[k].1)[j], available_permissions@, views(final(result).metadata.has_permissions@)),
        final(result).spec == old(result).spec,
        final(result).metadata == (OutputMetadata { has_permissions: final(result).metadata.has_permissions, ..old(result).metadata }),
        env_trace(
            all_refs(old(result).spec.services@),
            available_permissions@,
            old(result).metadata.has_permissions@,
            final(result).metadata.has_permissions@,
        ),
        final(result).caddy_entries == old(result).caddy_entries,
        final(result).metadata.id == old(result).metadata.id,
        final(result).metadata.port == old(result).metadata.port,
        final(result).metadata.internal_port == old(result).metadata.internal_port,
        final(result).metadata.supports_https == old(result).metadata.supports_https,
        final(result).metadata.compatible == old(result).metadata.compatible,
        forall|x: Seq<char>| views(old(result).metadata.has_permissions@).contains(x) ==> views(final(result).metadata.has_permissions@).contains(x),
        extends(old(result).metadata.has_permissions@, final(result).metadata.has_permissions@),
        forall|x: Seq<char>|
            views(final(result).metadata.has_permissions@).contains(x) ==> views(old(result).metadata.has_permissions@).contains(x)
                || ref_grant(old(result).spec.services@, x),
        views(old(result).metadata.has_permissions@).no_duplicates() ==> views(final(result).metadata.has_permissions@).no_duplicates(),
        all_held(old(result).spec.services@, available_permissions@, views(old(result).metadata.has_permissions@))
            ==> final(result).metadata.has_permissions@ == old(result).metadata.has_permissions@,
{
    let ghost h0 = result.metadata.has_permissions@;
    let ghost services = result.spec.services@;
    let ghost held0 = all_held(services, available_permissions@, views(h0));
    proof {
        assert(services.take(0) =~= seq![]);
        assert(env_states(seq![], available_permissions@, seq![h0]));
    }
    let mut k: usize = 0;
    while k < result.spec.services.len()
        invariant
            k <= services.len(),
            services == old(result).spec.services@,
            h0 == old(result).metadata.has_permissions@,
            result.spec == old(result).spec,
            result.caddy_entries == old(result).caddy_entries,
            result.metadata == (OutputMetadata { has_permissions: result.metadata.has_permissions, ..old(result).metadata }),
            forall|k2: int, j: int|
                0 <= k2 < k && 0 <= j < service_refs(services[k2].1).len() ==> ref_ok(
                    #[trigger] service_refs(services[k2].1)[j],
                    available_permissions@,
                    views(result.metadata.has_permissions@),
                ),
            forall|x: Seq<char>| views(h0).contains(x) ==> views(result.metadata.has_permissions@).contains(x),
            extends(h0, result.metadata.has_permissions@),
            forall|x: Seq<char>| views(result.metadata.has_permissions@).contains(x) ==> views(h0).contains(x) || ref_grant(services, x),
            views(h0).no_duplicates() ==> views(result.metadata.has_permissions@).no_duplicates(),
            held0 == all_held(services, available_permissions@, views(h0)),
            held0 ==> result.metadata.has_permissions@ == h0,
            env_trace(all_refs(services.take(k as int)), available_permissions@, h0, result.metadata.has_permissions@),
        decreases services.len() - k,
    {
        let refs = service_env_refs(&result.spec.services[k].1);
        let ghost p1 = views(result.metadata.has_permissions@);
        let ghost hp1 = result.metadata.has_permissions@;
        proof {
            if held0 {
                assert forall|j: int| 0 <= j < refs@.len() implies env_held(#[trigger] views(refs@)[j], available_permissions@, views(hp1)) by {
                    assert(views(refs@)[j] == service_refs(services[k as int].1)[j]);
                }
            }
        }
        record_refs(&mut result.metadata.has_permissions, available_permissions, &refs);
        proof {
            let p2 = views(result.metadata.has_permissions@);
            assert forall|k2: int, j: int|
                0 <= k2 < k + 1 && 0 <= j < service_refs(services[k2].1).len() implies ref_ok(
                    #[trigger] service_refs(services[k2].1)[j],
                    available_permissions@,
                    p2,
                ) by {
                if k2 < k {
                    lemma_ref_ok_grows(service_refs(services[k2].1)[j], available_permissions@, p1, p2);
                } else {
                    assert(service_refs(services[k2].1)[j] == views(refs@)[j]);
                }
            }
            assert forall|x: Seq<char>| p2.contains(x) implies views(h0).contains(x) || ref_grant(services, x) by {
                if !p1.contains(x) {
                    assert(views(hp1) == p1);
                    assert(refs_grant(views(refs@), x));
                    let j = choose|j: int| 0 <= j < views(refs@).len() && #[trigger] grant_for_ref(views(refs@)[j], x);
                    assert(views(refs@)[j] == service_refs(services[k as int].1)[j]);
                    assert(grant_for_ref(service_refs(services[k as int].1)[j], x));
                }
            }
            let t1 = services.take(k + 1);
            assert(t1.drop_last() =~= services.take(k as int));
            assert(t1.last() == services[k as int]);
            lemma_trace_concat(all_refs(services.take(k as int)), views(refs@), available_permissions@, h0, hp1, result.metadata.has_permissions@);
        }
        k = k + 1;
    }
    proof {
        assert(services.take(k as int) =~= services);
    }
}

/// The index of the first service named `main`, or the number of services.
pub open spec fn main_index(services: Seq<(String, Container)>) -> int
    decreases services.len(),
{
    if services.len() == 0 {
        0
    } else if services[0].0@ == "main"@ {
        0
    } else {
        1 + main_index(services.drop_first())
    }
}

proof fn lemma_main_index(services: Seq<(String, Container)>)
    ensures
        0 <= main_index(services) <= services.len(),
        main_index(services) < services.len() ==> services[main_index(services)].0@ == "main"@,
        forall|j: int| 0 <= j < main_index(services) ==> (#[trigger] services[j]).0@ != "main"@,
    decreases services.len(),
{
    if services.len() > 0 && services[0].0@ != "main"@ {
        lemma_main_index(services.drop_first());
        assert forall|j: int| 0 <= j < main_index(services) implies (#[trigger] services[j]).0@ != "main"@ by {
            if j > 0 {
                assert(services[j] == services.drop_first()[j - 1]);
            }
        }
    }
}

/// A network mode the platform accepts: none, or the host's.
pub open spec fn network_mode_ok(c: Container) -> bool {
    c.network_mode matches Some(m) ==> m@ == "host"@
}

/// The first row of the port table for container port `p`, whatever the container.
pub open spec fn first_row_for(port_map: Seq<PortMapEntry>, p: u16, k: int) -> bool {
    0 <= k < port_map.len() && port_map[k].internal_port == p && forall|j: int|
        0 <= j < k ==> (#[trigger] port_map[j]).internal_port != p
}

/// What a manifest can be assembled from: a main container with a port that
/// the port table serves, accepted network modes, and a row of the port table
/// for every port that must be published.
pub open spec fn assemblable(app: AppYml, port_map: Seq<PortMapEntry>) -> bool {
    let m = main_index(app.services@);
    &&& m < app.services@.len()
    &&& app.services@[m].1.port is Some
    &&& exists|k: int| 0 <= k < port_map.len() && (#[trigger] port_map[k]).internal_port == app.services@[m].1.port->0
    &&& forall|c: int| 0 <= c < app.services@.len() ==> network_mode_ok((#[trigger] app.services@[c]).1)
    &&& forall|c: int|
        0 <= c < app.services@.len() ==> ports_servable((#[trigger] app.services@[c]).0@, app.services@[c].1, port_map)
}

/// The fields copied as they are from a container to its service.
pub open spec fn passes_through(s: Service, c: Container) -> bool {
    &&& s.image@ == c.image@
    &&& crate::ports::opt_view(s.restart) == crate::ports::opt_view(c.restart)
    &&& crate::ports::opt_view(s.working_dir) == crate::ports::opt_view(c.working_dir)
    &&& crate::ports::opt_view(s.user) == crate::ports::opt_view(c.user)
    &&& crate::ports::opt_view(s.stop_grace_period) == crate::ports::opt_view(c.stop_grace_period)
    &&& crate::ports::opt_view(s.stop_signal) == crate::ports::opt_view(c.stop_signal)
    &&& s.init == c.init
    &&& opt_views(s.depends_on) == opt_views(c.depends_on)
    &&& opt_views(s.extra_hosts) == opt_views(c.extra_hosts)
    &&& s.shm_size == c.shm_size
}

/// The contents of a list of strings that may be absent.
pub open spec fn opt_views(o: Option<Vec<String>>) -> Option<Seq<Seq<char>>> {
    match o {
        Some(v) => Some(views(v@)),
        None => None,
    }
}

fn copy_opt_strings(o: &Option<Vec<String>>) -> (r: Option<Vec<String>>)
    ensures
        opt_views(r) == opt_views(*o),
{
    match o {
        Some(v) => Some(crate::versioned::copy_strings_pub(v)),
        None => None,
    }
}

/// The permissions that the capabilities and network mode of a container need.
pub open spec fn container_permissions_held(c: Container, perms: Seq<Seq<char>>) -> bool {
    &&& c.network_mode is Some ==> perms.contains(network_permission())
    &&& forall|j: int|
        0 <= j < c.cap_add@.len() ==> perms.contains(
            if (#[trigger] c.cap_add@[j])@ == "CAP_NET_RAW"@ {
                network_permission()
            } else {
                root_permission()
            },
        )
}

/// Records the permissions that raised capabilities need: `network` for
/// `CAP_NET_RAW`, full trust for any other.
fn require_capabilities(perms: &mut Vec<String>, caps: &Vec<String>)
    ensures
        extends(old(perms)@, final(perms)@),
        forall|x: Seq<char>|
            views(final(perms)@).contains(x) ==> views(old(perms)@).contains(x) || x == network_permission() || x == root_permission(),
        forall|x: Seq<char>| views(old(perms)@).contains(x) ==> views(final(perms)@).contains(x),
        forall|j: int|
            0 <= j < caps@.len() ==> views(final(perms)@).contains(
                if (#[trigger] caps@[j])@ == "CAP_NET_RAW"@ {
                    network_permission()
                } else {
                    root_permission()
                },
            ),
{
    proof {
        reveal_strlit("network");
        reveal_strlit("root");
    }
    let mut j: usize = 0;
    while j < caps.len()
        invariant
            j <= caps@.len(),
            forall|x: Seq<char>| views(old(perms)@).contains(x) ==> views(perms@).contains(x),
            extends(old(perms)@, perms@),
            forall|x: Seq<char>|
                views(perms@).contains(x) ==> views(old(perms)@).contains(x) || x == network_permission() || x == root_permission(),
            forall|j2: int|
                0 <= j2 < j ==> views(perms@).contains(
                    if (#[trigger] caps@[j2])@ == "CAP_NET_RAW"@ {
                        network_permission()
                    } else {
                        root_permission()
                    },
                ),
        decreases caps@.len() - j,
    {
        let ghost p1 = views(perms@);
        if same_text(caps[j].as_str(), "CAP_NET_RAW") {
            require_permission(perms, "network");
        } else {
            require_permission(perms, "root");
        }
        assert forall|j2: int| 0 <= j2 < j implies views(perms@).contains(
            if (#[trigger] caps@[j2])@ == "CAP_NET_RAW"@ { network_permission() } else { root_permission() },
        ) by {
            assert(p1.contains(if caps@[j2]@ == "CAP_NET_RAW"@ { network_permission() } else { root_permission() }));
        }
        j = j + 1;
    }
}

fn find_main(services: &Vec<(String, Container)>) -> (r: Option<usize>)
    ensures
        match r {
            Some(m) => m as int == main_index(services@) && m < services@.len(),
            None => main_index(services@) == services@.len(),
        },
{
    proof {
        lemma_main_index(services@);
        reveal_strlit("main");
    }
    let mut i: usize = 0;
    while i < services.len()
        invariant
            i <= services@.len(),
            forall|j: int| 0 <= j < i ==> (#[trigger] services@[j]).0@ != "main"@,
        decreases services@.len() - i,
    {
        if same_text(services[i].0.as_str(), "main") {
            proof {
                lemma_main_index(services@);
                if main_index(services@) < i {
                    assert(services@[main_index(services@)].0@ == "main"@);
                }
                if main_index(services@) > i {
                    assert(services@[i as int].0@ != "main"@);
                }
            }
            return Some(i);
        }
        i = i + 1;
    }
    proof {
        lemma_main_index(services@);
        if main_index(services@) < services@.len() {
            assert(services@[main_index(services@)].0@ == "main"@);
        }
    }
    None
}

fn find_row_for(port_map: &[PortMapEntry], p: u16) -> (r: Option<usize>)
    ensures
        match r {
            Some(k) => first_row_for(port_map@, p, k as int),
            None => forall|k: int| 0 <= k < port_map@.len() ==> (#[trigger] port_map@[k]).internal_port != p,
        },
{
    let mut k: usize = 0;
    while k < port_map.len()
        invariant
            k <= port_map@.len(),
            forall|j: int| 0 <= j < k ==> (#[trigger] port_map@[j]).internal_port != p,
        decreases port_map@.len() - k,
    {
        if port_map[k].internal_port == p {
            return Some(k);
        }
        k = k + 1;
    }
    None
}

/// The service of a container, with the fields that need no validation copied.
fn pass_through(c: &Container) -> (r: Service)
    ensures
        passes_through(r, *c),
        r.network_mode == c.network_mode || crate::ports::opt_view(r.network_mode) == crate::ports::opt_view(c.network_mode),
        r.volumes@.len() == 0,
        r.ports@.len() == 0,
{
    Service {
        cap_add: c.cap_add.clone(),
        command: c.command.clone(),
        depends_on: copy_opt_strings(&c.depends_on),
        entrypoint: c.entrypoint.clone(),
        environment: c.environment.clone(),
        extra_hosts: copy_opt_strings(&c.extra_hosts),
        hostname: None,
        image: c.image.clone(),
        init: c.init,
        network_mode: crate::ports::copy_opt(&c.network_mode),
        networks: None,
        ports: Vec::new(),
        restart: crate::ports::copy_opt(&c.restart),
        stop_grace_period: crate::ports::copy_opt(&c.stop_grace_period),
        stop_signal: crate::ports::copy_opt(&c.stop_signal),
        user: crate::ports::copy_opt(&c.user),
        volumes: Vec::new(),
        working_dir: crate::ports::copy_opt(&c.working_dir),
        shm_size: match &c.shm_size {
            Some(v) => Some(v.duplicate()),
            None => None,
        },
    }
}

/// What the service `s` built from container `c`, named `name`, holds: a
/// volume for each valid mount and no other, and its published ports.
pub open spec fn service_built(s: Service, name: Seq<char>, c: Container, port_map: Seq<PortMapEntry>) -> bool {
    &&& forall|k: int| 0 <= k < s.volumes@.len() ==> from_mount(c.mounts@, (#[trigger] s.volumes@[k])@)
    &&& forall|m: int, v: Seq<char>|
        0 <= m < c.mounts@.len() && #[trigger] mount_volume(c.mounts@[m].0@, c.mounts@[m].1, v) ==> views(s.volumes@).contains(v)
    &&& views(s.ports@) == main_published(name, c, port_map) + published(c.required_ports.direct_tcp@, seq![]) + published(
        c.required_ports.udp@,
        "/udp"@,
    )
}

/// The routes of the reverse proxy for the containers, container after container.
pub open spec fn routes(services: Seq<(String, Container)>, port_map: Seq<PortMapEntry>) -> Seq<(u16, u16, Seq<char>, bool, bool)>
    decreases services.len(),
{
    if services.len() == 0 {
        seq![]
    } else {
        let name = services.last().0@;
        let c = services.last().1;
        routes(services.drop_last(), port_map) + (main_route(name, c, port_map) + proxied(c.required_ports.http@, name, false)
            + proxied(c.required_ports.tcp@, name, true))
    }
}

/// What a manifest assembled for app `app_id` holds: its registry record,
/// its services with the fields copied as they are, and the permissions that
/// its containers and their environment references need.
pub open spec fn assembled(
    app_id: Seq<char>,
    app_yml: AppYml,
    metadata: InputMetadata,
    port_map: Seq<PortMapEntry>,
    res: ResultYml,
) -> bool {
    let m = main_index(app_yml.services@);
    let main = app_yml.services@[m].1;
    &&& res.metadata.id@ == app_id
    &&& res.metadata.compatible
    &&& main.port == Some(res.metadata.internal_port)
    &&& exists|k: int| first_row_for(port_map, res.metadata.internal_port, k) && port_map[k].public_port == res.metadata.port
    &&& res.metadata.supports_https == !main.direct_tcp
    &&& res.spec.services@.len() == app_yml.services@.len()
    &&& forall|c: int|
        0 <= c < app_yml.services@.len() ==> (#[trigger] res.spec.services@[c]).0@ == app_yml.services@[c].0@
            && passes_through(res.spec.services@[c].1, app_yml.services@[c].1)
            && container_permissions_held(app_yml.services@[c].1, views(res.metadata.has_permissions@))
    &&& forall|c: int, j: int|
        0 <= c < res.spec.services@.len() && 0 <= j < service_refs(res.spec.services@[c].1).len() ==> env_covered(
            #[trigger] service_refs(res.spec.services@[c].1)[j],
            views(res.metadata.has_permissions@),
        )
    &&& forall|x: Seq<char>| views(metadata.app_yml_jinja_permissions@).contains(x) ==> views(res.metadata.has_permissions@).contains(x)
    &&& extends(metadata.app_yml_jinja_permissions@, res.metadata.has_permissions@)
    &&& forall|c: int|
        0 <= c < app_yml.services@.len() ==> service_built(
            (#[trigger] res.spec.services@[c]).1,
            app_yml.services@[c].0@,
            app_yml.services@[c].1,
            port_map,
        )
    &&& caddy_views(res.caddy_entries@) == routes(app_yml.services@, port_map)
    &&& forall|x: Seq<char>|
        views(res.metadata.has_permissions@).contains(x) ==> views(metadata.app_yml_jinja_permissions@).contains(x) || x
            == network_permission() || x == root_permission() || app_mounts_add(app_yml.services@, x) || ref_grant(
            res.spec.services@,
            x,
        )
    &&& res.metadata.name == metadata.name && res.metadata.version == metadata.version && res.metadata.category
        == metadata.category && res.metadata.tagline == metadata.tagline && res.metadata.developers == metadata.developers
        && res.metadata.description == metadata.description && res.metadata.dependencies == metadata.dependencies
        && res.metadata.repo == metadata.repo && res.metadata.support == metadata.support && res.metadata.gallery
        == metadata.gallery && res.metadata.path == metadata.path && res.metadata.default_username
        == metadata.default_username && res.metadata.default_password == metadata.default_password
        && res.metadata.tor_only == metadata.tor_only && res.metadata.update_containers == metadata.update_containers
        && res.metadata.implements == metadata.implements && res.metadata.version_control == metadata.version_control
        && res.metadata.release_notes == metadata.release_notes
}

/// Assembles the manifest of an app from its definition, its metadata, the
/// rows of the port table that belong to it, and the permissions that the
/// apps of the platform expose.
pub fn convert_app_yml(
    app_id: &str,
    app_yml: &AppYml,
    metadata: InputMetadata,
    port_map: &[PortMapEntry],
    available_permissions: &[AppPermissions],
) -> (r: Result<ResultYml, ConvertError>)
    ensures
        r is Ok <==> assemblable(*app_yml, port_map@),
        r == Err::<ResultYml, ConvertError>(ConvertError::NoMainContainer) <==> main_index(app_yml.services@) == app_yml.services@.len(),
        r matches Ok(res) ==> assembled(app_id@, *app_yml, metadata, port_map@, res),
{
    proof {
        reveal_strlit("host");
        reveal_strlit("CAP_NET_RAW");
        reveal_strlit("network");
        reveal_strlit("root");
        lemma_main_index(app_yml.services@);
    }
    let m = match find_main(&app_yml.services) {
        Some(m) => m,
        None => {
            return Err(ConvertError::NoMainContainer);
        },
    };
    let main_container = &app_yml.services[m].1;
    let main_port = match main_container.port {
        Some(p) => p,
        None => {
            return Err(ConvertError::NoMainPort);
        },
    };
    let row = match find_row_for(port_map, main_port) {
        Some(k) => k,
        None => {
            return Err(ConvertError::NoMainPort);
        },
    };
    let main_port_public = port_map[row].public_port;
    let supports_https = !main_container.direct_tcp;
    let ghost jinja_perms = views(metadata.app_yml_jinja_permissions@);
    let ghost jinja_list = metadata.app_yml_jinja_permissions@;
    let mut result = ResultYml {
        caddy_entries: Vec::new(),
        spec: ComposeSpecification { services: Vec::new() },
        metadata: OutputMetadata {
            id: String::from_str(app_id),
            name: metadata.name,
            version: metadata.version,
            category: metadata.category,
            tagline: metadata.tagline,
            developers: metadata.developers,
            description: metadata.description,
            dependencies: metadata.dependencies,
            has_permissions: metadata.app_yml_jinja_permissions,
            repo: metadata.repo,
            support: metadata.support,
            gallery: metadata.gallery,
            path: metadata.path,
            default_username: metadata.default_username,
            default_password: metadata.default_password,
            tor_only: metadata.tor_only,
            update_containers: metadata.update_containers,
            implements: metadata.implements,
            version_control: metadata.version_control,
            compatible: true,
            release_notes: metadata.release_notes,
            port: main_port_public,
            internal_port: main_port,
            supports_https,
        },
    };
    let ghost m0 = result.metadata;
    proof {
        assert(app_yml.services@.take(0) =~= seq![]);
        assert(caddy_views(result.caddy_entries@) =~= seq![]);
    }
    let mut c: usize = 0;
    while c < app_yml.services.len()
        invariant
            result.metadata == (OutputMetadata { has_permissions: result.metadata.has_permissions, ..m0 }),
            m0.name == metadata.name && m0.version == metadata.version && m0.category == metadata.category && m0.tagline
                == metadata.tagline && m0.developers == metadata.developers && m0.description == metadata.description
                && m0.dependencies == metadata.dependencies && m0.repo == metadata.repo && m0.support == metadata.support
                && m0.gallery == metadata.gallery && m0.path == metadata.path && m0.default_username == metadata.default_username
                && m0.default_password == metadata.default_password && m0.tor_only == metadata.tor_only
                && m0.update_containers == metadata.update_containers && m0.implements == metadata.implements
                && m0.version_control == metadata.version_control && m0.release_notes == metadata.release_notes,
            caddy_views(result.caddy_entries@) == routes(app_yml.services@.take(c as int), port_map@),
            forall|x: Seq<char>|
                views(result.metadata.has_permissions@).contains(x) ==> jinja_perms.contains(x) || x == network_permission() || x
                    == root_permission() || app_mounts_add(app_yml.services@.take(c as int), x),
            forall|c2: int|
                0 <= c2 < c ==> service_built(
                    (#[trigger] result.spec.services@[c2]).1,
                    app_yml.services@[c2].0@,
                    app_yml.services@[c2].1,
                    port_map@,
                ),
            c <= app_yml.services@.len(),
            m as int == main_index(app_yml.services@),
            m < app_yml.services@.len(),
            app_yml.services@[m as int].1.port == Some(main_port),
            first_row_for(port_map@, main_port, row as int),
            result.metadata.id@ == app_id@,
            result.metadata.compatible,
            result.metadata.internal_port == main_port,
            result.metadata.port == port_map@[row as int].public_port,
            result.metadata.supports_https == !app_yml.services@[m as int].1.direct_tcp,
            result.spec.services@.len() == c,
            forall|x: Seq<char>| jinja_perms.contains(x) ==> views(result.metadata.has_permissions@).contains(x),
            extends(jinja_list, result.metadata.has_permissions@),
            forall|c2: int| 0 <= c2 < c ==> network_mode_ok((#[trigger] app_yml.services@[c2]).1),
            forall|c2: int|
                0 <= c2 < c ==> ports_servable((#[trigger] app_yml.services@[c2]).0@, app_yml.services@[c2].1, port_map@),
            forall|c2: int|
                0 <= c2 < c ==> (#[trigger] result.spec.services@[c2]).0@ == app_yml.services@[c2].0@
                    && passes_through(result.spec.services@[c2].1, app_yml.services@[c2].1)
                    && container_permissions_held(app_yml.services@[c2].1, views(result.metadata.has_permissions@)),
        decreases app_yml.services@.len() - c,
    {
        let service_id = &app_yml.services[c].0;
        let service = &app_yml.services[c].1;
        let ghost p0 = views(result.metadata.has_permissions@);
        let mut result_service = pass_through(service);
        if let Some(network_mode) = &service.network_mode {
            if same_text(network_mode.as_str(), "host") {
                require_permission(&mut result.metadata.has_permissions, "network");
            } else {
                return Err(ConvertError::UnsupportedNetworkMode);
            }
        }
        let ghost p_mode = views(result.metadata.has_permissions@);
        require_capabilities(&mut result.metadata.has_permissions, &service.cap_add);
        assert(service.network_mode is Some ==> p_mode.contains(network_permission()));
        let ghost p_caps = views(result.metadata.has_permissions@);
        convert_mounts(&mut result_service, service, &mut result.metadata, available_permissions);
        let mut new_entries = match handle_ports(service_id.as_str(), &mut result_service, service, port_map) {
            Ok(e) => e,
            Err(e) => {
                return Err(e);
            },
        };
        let ghost ce0 = result.caddy_entries@;
        let ghost ne = new_entries@;
        result.caddy_entries.append(&mut new_entries);
        proof {
            assert(caddy_views(result.caddy_entries@) =~= caddy_views(ce0) + caddy_views(ne));
            let t1 = app_yml.services@.take(c + 1);
            assert(t1.drop_last() =~= app_yml.services@.take(c as int));
            assert(t1.last() == app_yml.services@[c as int]);
            assert forall|x: Seq<char>| views(result.metadata.has_permissions@).contains(x) implies jinja_perms.contains(x) || x
                == network_permission() || x == root_permission() || app_mounts_add(t1, x) by {
                if !p_caps.contains(x) {
                    assert(mounts_add(service.mounts@, x));
                    assert(t1[c as int].1.mounts@ == service.mounts@);
                } else if !p0.contains(x) {
                } else if app_mounts_add(app_yml.services@.take(c as int), x) {
                    let c3 = choose|c3: int| 0 <= c3 < app_yml.services@.take(c as int).len() && #[trigger] mounts_add(app_yml.services@.take(c as int)[c3].1.mounts@, x);
                    assert(t1[c3] == app_yml.services@.take(c as int)[c3]);
                }
            }
            assert(views(result_service.ports@) =~= main_published(service_id@, *service, port_map@) + published(
                service.required_ports.direct_tcp@,
                seq![],
            ) + published(service.required_ports.udp@, "/udp"@));
        }
        let ghost before = result.spec.services@;
        result.spec.services.push((service_id.clone(), result_service));
        proof {
            let p = views(result.metadata.has_permissions@);
            assert forall|c2: int|
                0 <= c2 < c + 1 implies (#[trigger] result.spec.services@[c2]).0@ == app_yml.services@[c2].0@
                    && passes_through(result.spec.services@[c2].1, app_yml.services@[c2].1)
                    && container_permissions_held(app_yml.services@[c2].1, p) by {
                if c2 == c {
                    assert(result.spec.services@[c2].1 == result_service);
                    assert(service_built(result_service, service_id@, *service, port_map@));
                    let cc = app_yml.services@[c2].1;
                    assert forall|j2: int| 0 <= j2 < cc.cap_add@.len() implies p.contains(
                        if (#[trigger] cc.cap_add@[j2])@ == "CAP_NET_RAW"@ { network_permission() } else { root_permission() },
                    ) by {
                        assert(p_caps.contains(if cc.cap_add@[j2]@ == "CAP_NET_RAW"@ { network_permission() } else { root_permission() }));
                    }
                    if cc.network_mode is Some {
                        assert(p_caps.contains(network_permission()));
                    }
                }
                if c2 < c {
                    assert(result.spec.services@[c2] == before[c2]);
                    let cc = app_yml.services@[c2].1;
                    assert forall|j2: int| 0 <= j2 < cc.cap_add@.len() implies p.contains(
                        if (#[trigger] cc.cap_add@[j2])@ == "CAP_NET_RAW"@ { network_permission() } else { root_permission() },
                    ) by {
                        assert(p0.contains(if cc.cap_add@[j2]@ == "CAP_NET_RAW"@ { network_permission() } else { root_permission() }));
                    }
                    if cc.network_mode is Some {
                        assert(p0.contains(network_permission()));
                    }
                }
            }
        }
        c = c + 1;
    }
    let ghost before_env = result;
    validate_env_access(&mut result, available_permissions);
    proof {
        let p = views(result.metadata.has_permissions@);
        let p0 = views(before_env.metadata.has_permissions@);
        assert forall|c2: int| 0 <= c2 < app_yml.services@.len() implies (#[trigger] result.spec.services@[c2]).0@ == app_yml.services@[c2].0@
            && passes_through(result.spec.services@[c2].1, app_yml.services@[c2].1)
            && container_permissions_held(app_yml.services@[c2].1, p) by {
            let cc = app_yml.services@[c2].1;
            assert(before_env.spec.services@[c2] == result.spec.services@[c2]);
            assert(container_permissions_held(cc, p0));
            assert forall|j2: int| 0 <= j2 < cc.cap_add@.len() implies p.contains(
                if (#[trigger] cc.cap_add@[j2])@ == "CAP_NET_RAW"@ { network_permission() } else { root_permission() },
            ) by {
                assert(p0.contains(if cc.cap_add@[j2]@ == "CAP_NET_RAW"@ { network_permission() } else { root_permission() }));
            }
            if cc.network_mode is Some {
                assert(p0.contains(network_permission()));
            }
        }
        assert(exists|k: int| 0 <= k < port_map@.len() && (#[trigger] port_map@[k]).internal_port == main_port) by {
            assert(port_map@[row as int].internal_port == main_port);
        }
        assert(app_yml.services@.take(c as int) =~= app_yml.services@);
        assert(result.caddy_entries == before_env.caddy_entries);
        assert forall|c2: int| 0 <= c2 < app_yml.services@.len() implies service_built(
            (#[trigger] result.spec.services@[c2]).1,
            app_yml.services@[c2].0@,
            app_yml.services@[c2].1,
            port_map@,
        ) by {
            assert(before_env.spec.services@[c2] == result.spec.services@[c2]);
        }
        assert(result.metadata.name == metadata.name);
        assert forall|x: Seq<char>| views(result.metadata.has_permissions@).contains(x) implies jinja_perms.contains(x) || x
            == network_permission() || x == root_permission() || app_mounts_add(app_yml.services@, x) || ref_grant(result.spec.services@, x) by {
            if !views(before_env.metadata.has_permissions@).contains(x) {
                assert(ref_grant(before_env.spec.services@, x));
            }
        }
        assert(result.metadata.release_notes == metadata.release_notes);
    }
    Ok(result)
}

} // verus!
