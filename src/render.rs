use vstd::prelude::*;
use crate::permissions::AppPermissions;
use crate::text::{contains_text, find_char, same_text, views};

verus! {

/// The shortest delay, in seconds, after which a regeneration can be asked for.
pub const MIN_REGEN_DELAY: u64 = 60;

/// Why a file could not be read while rendering.
#[derive(Debug, Clone, Copy, PartialEq, Eq, Structural)]
pub enum ReadError {
    /// The path is not among those the app may read
    NotAllowed,
    /// The file could not be read and no fallback was given
    Unreadable,
}

/// What a template's read of `path` gives. `contents` is what reading the file
/// gave, if it could be read; `fallback` is the value the template offers instead.
pub fn read_file_outcome(
    path: &str,
    allowed: &[String],
    contents: Option<String>,
    fallback: Option<String>,
) -> (r: Result<String, ReadError>)
    ensures
        !views(allowed@).contains(path@) ==> r == Err::<String, ReadError>(ReadError::NotAllowed),
        views(allowed@).contains(path@) ==> match contents {
            Some(c) => r == Ok::<String, ReadError>(c),
            None => match fallback {
                Some(f) => r == Ok::<String, ReadError>(f),
                None => r == Err::<String, ReadError>(ReadError::Unreadable),
            },
        },
{
    if !contains_text(allowed, path) {
        return Err(ReadError::NotAllowed);
    }
    match contents {
        Some(c) => Ok(c),
        None => match fallback {
            Some(f) => Ok(f),
            None => Err(ReadError::Unreadable),
        },
    }
}

/// Why a regeneration could not be scheduled.
#[derive(Debug, Clone, Copy, PartialEq, Eq, Structural)]
pub enum RegenError {
    /// The time would not fit
    TooLarge,
    /// The delay is under a minute
    TooSmall,
}

/// The time, in seconds since the epoch, at which the app's files are to be
/// generated again, `delay_in_s` seconds after `now`.
pub fn regen_time(now: u64, delay_in_s: u64) -> (r: Result<u64, RegenError>)
    ensures
        now + delay_in_s > u64::MAX ==> r == Err::<u64, RegenError>(RegenError::TooLarge),
        now + delay_in_s <= u64::MAX && delay_in_s < MIN_REGEN_DELAY ==> r == Err::<u64, RegenError>(RegenError::TooSmall),
        now + delay_in_s <= u64::MAX && delay_in_s >= MIN_REGEN_DELAY ==> r == Ok::<u64, RegenError>((now + delay_in_s) as u64),
{
    if now > u64::MAX - delay_in_s {
        return Err(RegenError::TooLarge);
    }
    if delay_in_s < MIN_REGEN_DELAY {
        return Err(RegenError::TooSmall);
    }
    Ok(now + delay_in_s)
}

/// Why rendering a template failed.
#[derive(Debug, Clone, PartialEq, Eq)]
pub enum RenderError {
    /// The renderer gave no answer within its time budget
    Timeout,
    /// The template or a helper script failed, with its message
    Failed(String),
}

/// What a render gives, from what came back from the sandboxed renderer
/// within the time budget: nothing (it hung), its failure, or the text.
pub fn render_outcome(received: Option<Result<String, String>>) -> (r: Result<String, RenderError>)
    ensures
        match received {
            None => r == Err::<String, RenderError>(RenderError::Timeout),
            Some(Err(e)) => r == Err::<String, RenderError>(RenderError::Failed(e)),
            Some(Ok(s)) => r == Ok::<String, RenderError>(s),
        },
{
    match received {
        None => Err(RenderError::Timeout),
        Some(Err(e)) => Err(RenderError::Failed(e)),
        Some(Ok(s)) => Ok(s),
    }
}

/// The script expression that calls helper `name` with its keyword arguments,
/// given as one JSON object.
pub fn helper_call(name: &str, args_json: &str) -> (r: String)
    ensures
        r@ == name@ + seq!['('] + args_json@ + seq![')'],
{
    proof {
        reveal_strlit("(");
        reveal_strlit(")");
    }
    let r = String::from_str(name).concat("(").concat(args_json).concat(")");
    assert(r@ =~= name@ + seq!['('] + args_json@ + seq![')']);
    r
}

/// Whether the first-stage context shows the installed apps and the grantable
/// permissions: only to an app granted `apps`.
pub fn shows_platform(grants: &[String]) -> (r: bool)
    ensures
        r == views(grants@).contains("apps"@),
{
    contains_text(grants, "apps")
}

/// `root/app-data/app`
pub open spec fn app_data_dir(root: Seq<char>, app: Seq<char>) -> Seq<char> {
    root + "/app-data/"@ + app
}

/// `grant` is `app`, or `app/perm` followed by nothing or by `/` and more.
pub open spec fn scoped_grant(grant: Seq<char>, app: Seq<char>, perm: Seq<char>) -> bool {
    !app.contains('/') && !perm.contains('/') && (grant == app + seq!['/'] + perm || exists|more: Seq<char>|
        grant == #[trigger] (app + seq!['/'] + perm + seq!['/'] + more))
}

/// A path that some grant lets the app read in the second stage: the data
/// directory of an app granted as a whole, or a file of a permission granted by name.
pub open spec fn readable(root: Seq<char>, grants: Seq<String>, available: Seq<AppPermissions>, p: Seq<char>) -> bool {
    ||| exists|g: int| 0 <= g < grants.len() && !grants[g]@.contains('/') && p == app_data_dir(root, #[trigger] grants[g]@)
    ||| exists|g: int, a: int, j: int|
        0 <= g < grants.len() && 0 <= a < available.len() && 0 <= j < available[a].permissions@.len()
            && #[trigger] scoped_grant(grants[g]@, available[a].app@, available[a].permissions@[j].id@)
            && file_of(root, available[a].app@, available[a].permissions@[j], p)
}

/// `p` is a file of permission `perm` of `app`, within the app's data directory.
pub open spec fn file_of(root: Seq<char>, app: Seq<char>, perm: crate::permissions::Permission, p: Seq<char>) -> bool {
    exists|f: int| 0 <= f < perm.files@.len() && p == app_data_dir(root, app) + seq!['/'] + (#[trigger] perm.files@[f])@
}

/// The path of file `f` of permission `j` of app entry `a`.
pub open spec fn file_path(root: Seq<char>, available: Seq<AppPermissions>, a: int, j: int, f: int) -> Seq<char> {
    app_data_dir(root, available[a].app@) + seq!['/'] + available[a].permissions@[j].files@[f]@
}

/// Every file of every permission that `grant` names is among `out`.
pub open spec fn scoped_files_in(root: Seq<char>, grant: Seq<char>, available: Seq<AppPermissions>, out: Seq<String>) -> bool {
    forall|a: int, j: int, f: int|
        #![trigger scoped_grant(grant, available[a].app@, available[a].permissions@[j].id@), available[a].permissions@[j].files@[f]]
        0 <= a < available.len() && 0 <= j < available[a].permissions@.len() && 0 <= f < available[a].permissions@[j].files@.len()
            && scoped_grant(grant, available[a].app@, available[a].permissions@[j].id@) ==> views(out).contains(
            file_path(root, available, a, j, f),
        )
}

proof fn lemma_views_grow(a: Seq<String>, b: Seq<String>)
    requires
        a.len() <= b.len(),
        forall|k: int| 0 <= k < a.len() ==> b[k] == a[k],
    ensures
        forall|x: Seq<char>| views(a).contains(x) ==> views(b).contains(x),
{
    assert forall|x: Seq<char>| views(a).contains(x) implies views(b).contains(x) by {
        let w = choose|w: int| 0 <= w < views(a).len() && views(a)[w] == x;
        assert(views(b)[w] == x);
    }
}

proof fn lemma_scoped_unique(grant: Seq<char>, x: Seq<char>, y: Seq<char>, cut: int, rest: Seq<char>, pl: int)
    requires
        scoped_grant(grant, x, y),
        0 <= cut < grant.len(),
        grant[cut] == '/',
        forall|k: int| 0 <= k < cut ==> grant[k] != '/',
        rest == grant.subrange(cut + 1, grant.len() as int),
        0 <= pl <= rest.len(),
        pl < rest.len() ==> rest[pl] == '/',
        forall|k: int| 0 <= k < pl ==> rest[k] != '/',
    ensures
        x == grant.take(cut),
        y == rest.take(pl),
{
    if grant == x + seq!['/'] + y {
    } else {
        let more = choose|more: Seq<char>| grant == #[trigger] (x + seq!['/'] + y + seq!['/'] + more);
    }
    assert(grant[x.len() as int] == '/');
    if cut < x.len() {
        assert(grant[cut] == x[cut]);
    }
    assert(cut == x.len());
    assert(grant.take(cut) =~= x);
    if pl < y.len() {
        assert(rest[pl] == y[pl]);
    }
    if pl > y.len() {
        assert(rest[y.len() as int] == '/');
    }
    assert(rest.take(pl) =~= y);
}

/// The paths that an app holding `grants` may read in the second stage.
pub fn readable_files(root: &str, grants: &[String], available: &[AppPermissions]) -> (r: Vec<String>)
    ensures
        forall|k: int| 0 <= k < r@.len() ==> readable(root@, grants@, available@, (#[trigger] r@[k])@),
        forall|g: int|
            0 <= g < grants@.len() && !grants@[g]@.contains('/') ==> views(r@).contains(
                app_data_dir(root@, #[trigger] grants@[g]@),
            ),
        forall|g: int| 0 <= g < grants@.len() ==> scoped_files_in(root@, #[trigger] grants@[g]@, available@, r@),
{
    proof {
        reveal_strlit("/app-data/");
        reveal_strlit("/");
    }
    let mut out: Vec<String> = Vec::new();
    let mut g: usize = 0;
    while g < grants.len()
        invariant
            g <= grants@.len(),
            forall|k: int| 0 <= k < out@.len() ==> readable(root@, grants@, available@, (#[trigger] out@[k])@),
            forall|g2: int|
                0 <= g2 < g && !grants@[g2]@.contains('/') ==> views(out@).contains(
                    app_data_dir(root@, #[trigger] grants@[g2]@),
                ),
            forall|g2: int| 0 <= g2 < g ==> scoped_files_in(root@, #[trigger] grants@[g2]@, available@, out@),
        decreases grants@.len() - g,
    {
        let grant = grants[g].as_str();
        let glen = grant.unicode_len();
        let ghost before = out@;
        match find_char(grant, '/') {
            None => {
                let p = String::from_str(root).concat("/app-data/").concat(grant);
                assert(p@ =~= app_data_dir(root@, grant@));
                out.push(p);
                proof {
                    assert(views(out@)[before.len() as int] == p@);
                    assert forall|k: int| 0 <= k < out@.len() implies readable(root@, grants@, available@, (#[trigger] out@[k])@) by {
                        if k < before.len() {
                            assert(out@[k] == before[k]);
                        } else {
                            assert(out@[k]@ == app_data_dir(root@, grants@[g as int]@));
                        }
                    }
                    assert forall|g2: int|
                        0 <= g2 < g + 1 && !grants@[g2]@.contains('/') implies views(out@).contains(
                            app_data_dir(root@, #[trigger] grants@[g2]@),
                        ) by {
                        if g2 < g {
                            let w = choose|w: int| 0 <= w < views(before).len() && views(before)[w] == app_data_dir(root@, grants@[g2]@);
                            assert(views(out@)[w] == views(before)[w]);
                        }
                    }
                    lemma_views_grow(before, out@);
                    assert forall|g2: int| 0 <= g2 < g + 1 implies scoped_files_in(root@, #[trigger] grants@[g2]@, available@, out@) by {
                        if g2 < g {
                            assert(scoped_files_in(root@, grants@[g2]@, available@, before));
                        } else {
                            assert forall|a2: int, j: int, f: int|
                                #![trigger scoped_grant(grant@, available@[a2].app@, available@[a2].permissions@[j].id@), available@[a2].permissions@[j].files@[f]]
                                0 <= a2 < available@.len() && 0 <= j < available@[a2].permissions@.len() && 0 <= f < available@[a2].permissions@[j].files@.len()
                                    && scoped_grant(grant@, available@[a2].app@, available@[a2].permissions@[j].id@) implies views(out@).contains(
                                    file_path(root@, available@, a2, j, f)) by {
                                let x = available@[a2].app@;
                                let y = available@[a2].permissions@[j].id@;
                                if grant@ == x + seq!['/'] + y {
                                } else {
                                    let more = choose|more: Seq<char>| grant@ == #[trigger] (x + seq!['/'] + y + seq!['/'] + more);
                                }
                                assert(grant@[x.len() as int] == '/');
                            }
                        }
                    }
                }
            },
            Some(cut) => {
                let app = grant.substring_char(0, cut);
                let rest = grant.substring_char(cut + 1, glen);
                let rlen = rest.unicode_len();
                let pl = match find_char(rest, '/') {
                    Some(c2) => c2,
                    None => rlen,
                };
                let perm = rest.substring_char(0, pl);
                proof {
                    assert(!app@.contains('/'));
                    assert(!perm@.contains('/'));
                    assert(scoped_grant(grant@, app@, perm@)) by {
                        if perm@.len() == rest@.len() {
                            assert(grant@ =~= app@ + seq!['/'] + perm@);
                        } else {
                            let more = rest@.subrange(perm@.len() as int + 1, rest@.len() as int);
                            assert(grant@ =~= app@ + seq!['/'] + perm@ + seq!['/'] + more);
                        }
                    }
                }
                let mut a: usize = 0;
                while a < available.len()
                    invariant
                        g < grants@.len(),
                        grant@ == grants@[g as int]@,
                        scoped_grant(grant@, app@, perm@),
                        before.len() <= out@.len(),
                        forall|k: int| 0 <= k < before.len() ==> out@[k] == before[k],
                        forall|k: int| 0 <= k < out@.len() ==> readable(root@, grants@, available@, (#[trigger] out@[k])@),
                        a <= available@.len(),
                        forall|a2: int, j: int, f: int|
                            0 <= a2 < a && available@[a2].app@ == app@ && 0 <= j < available@[a2].permissions@.len()
                                && available@[a2].permissions@[j].id@ == perm@ && 0 <= f < available@[a2].permissions@[j].files@.len()
                                ==> views(out@).contains(#[trigger] file_path(root@, available@, a2, j, f)),
                    decreases available@.len() - a,
                {
                    if same_text(available[a].app.as_str(), app) {
                        let perms = &available[a].permissions;
                        let mut j: usize = 0;
                        while j < perms.len()
                            invariant
                                g < grants@.len(),
                                grant@ == grants@[g as int]@,
                                a < available@.len(),
                                *perms == available@[a as int].permissions,
                                available@[a as int].app@ == app@,
                                scoped_grant(grant@, app@, perm@),
                                before.len() <= out@.len(),
                                forall|k: int| 0 <= k < before.len() ==> out@[k] == before[k],
                                forall|k: int| 0 <= k < out@.len() ==> readable(root@, grants@, available@, (#[trigger] out@[k])@),
                                j <= perms@.len(),
                                forall|a2: int, j2: int, f: int|
                                    0 <= a2 < a && available@[a2].app@ == app@ && 0 <= j2 < available@[a2].permissions@.len()
                                        && available@[a2].permissions@[j2].id@ == perm@ && 0 <= f < available@[a2].permissions@[j2].files@.len()
                                        ==> views(out@).contains(#[trigger] file_path(root@, available@, a2, j2, f)),
                                forall|j2: int, f: int|
                                    0 <= j2 < j && available@[a as int].permissions@[j2].id@ == perm@ && 0 <= f < available@[a as int].permissions@[j2].files@.len()
                                        ==> views(out@).contains(#[trigger] file_path(root@, available@, a as int, j2, f)),
                            decreases perms@.len() - j,
                        {
                            if same_text(perms[j].id.as_str(), perm) {
                                let files = &perms[j].files;
                                let mut f: usize = 0;
                                while f < files.len()
                                    invariant
                                        g < grants@.len(),
                                        grant@ == grants@[g as int]@,
                                        a < available@.len(),
                                        j < perms@.len(),
                                        *perms == available@[a as int].permissions,
                                        *files == perms@[j as int].files,
                                        available@[a as int].app@ == app@,
                                        perms@[j as int].id@ == perm@,
                                        scoped_grant(grant@, app@, perm@),
                                        before.len() <= out@.len(),
                                        forall|k: int| 0 <= k < before.len() ==> out@[k] == before[k],
                                        forall|k: int| 0 <= k < out@.len() ==> readable(root@, grants@, available@, (#[trigger] out@[k])@),
                                        f <= files@.len(),
                                        forall|a2: int, j2: int, f2: int|
                                            0 <= a2 < a && available@[a2].app@ == app@ && 0 <= j2 < available@[a2].permissions@.len()
                                                && available@[a2].permissions@[j2].id@ == perm@ && 0 <= f2 < available@[a2].permissions@[j2].files@.len()
                                                ==> views(out@).contains(#[trigger] file_path(root@, available@, a2, j2, f2)),
                                        forall|j2: int, f2: int|
                                            0 <= j2 < j && available@[a as int].permissions@[j2].id@ == perm@ && 0 <= f2 < available@[a as int].permissions@[j2].files@.len()
                                                ==> views(out@).contains(#[trigger] file_path(root@, available@, a as int, j2, f2)),
                                        forall|f2: int| 0 <= f2 < f ==> views(out@).contains(#[trigger] file_path(root@, available@, a as int, j as int, f2)),
                                    decreases files@.len() - f,
                                {
                                    let p = String::from_str(root).concat("/app-data/").concat(app).concat("/").concat(
                                        files[f].as_str(),
                                    );
                                    let ghost mid = out@;
                                    out.push(p);
                                    proof {
                                        reveal_strlit("/app-data/");
                                        reveal_strlit("/");
                                        assert(p@ =~= app_data_dir(root@, available@[a as int].app@) + seq!['/'] + available@[a as int].permissions@[j as int].files@[f as int]@);
                                        assert(scoped_grant(grants@[g as int]@, available@[a as int].app@, available@[a as int].permissions@[j as int].id@));
                                        assert(file_of(root@, available@[a as int].app@, available@[a as int].permissions@[j as int], p@));
                                        assert(readable(root@, grants@, available@, p@));
                                        assert forall|k: int| 0 <= k < out@.len() implies readable(root@, grants@, available@, (#[trigger] out@[k])@) by {
                                            if k < mid.len() {
                                                assert(out@[k] == mid[k]);
                                            }
                                        }
                                        lemma_views_grow(mid, out@);
                                        assert(views(out@)[mid.len() as int] == p@);
                                        assert(p@ == file_path(root@, available@, a as int, j as int, f as int));
                                    }
                                    f = f + 1;
                                }
                            }
                            j = j + 1;
                        }
                    }
                    a = a + 1;
                }
                proof {
                    assert forall|g2: int|
                        0 <= g2 < g + 1 && !grants@[g2]@.contains('/') implies views(out@).contains(
                            app_data_dir(root@, #[trigger] grants@[g2]@),
                        ) by {
                        if g2 < g {
                            let w = choose|w: int| 0 <= w < views(before).len() && views(before)[w] == app_data_dir(root@, grants@[g2]@);
                            assert(views(out@)[w] == views(before)[w]);
                        } else {
                            assert(grant@[cut as int] == '/');
                        }
                    }
                    lemma_views_grow(before, out@);
                    assert forall|g2: int| 0 <= g2 < g + 1 implies scoped_files_in(root@, #[trigger] grants@[g2]@, available@, out@) by {
                        if g2 < g {
                            assert(scoped_files_in(root@, grants@[g2]@, available@, before));
                        } else {
                            assert forall|a2: int, j: int, f: int|
                                #![trigger scoped_grant(grant@, available@[a2].app@, available@[a2].permissions@[j].id@), available@[a2].permissions@[j].files@[f]]
                                0 <= a2 < available@.len() && 0 <= j < available@[a2].permissions@.len() && 0 <= f < available@[a2].permissions@[j].files@.len()
                                    && scoped_grant(grant@, available@[a2].app@, available@[a2].permissions@[j].id@) implies views(out@).contains(
                                    file_path(root@, available@, a2, j, f)) by {
                                lemma_scoped_unique(grant@, available@[a2].app@, available@[a2].permissions@[j].id@, cut as int, rest@, pl as int);
                                assert(app@ == grant@.take(cut as int));
                                assert(perm@ == rest@.take(pl as int));
                            }
                        }
                    }
                }
            },
        }
        g = g + 1;
    }
    out
}

} // verus!
