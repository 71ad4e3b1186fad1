use vstd::prelude::*;
use vstd::multiset::Multiset;
use crate::text::{contains_text, same_text, text_less, text_lt, views};

verus! {

/// How much an app needs the public port it asks for.
#[derive(Clone, Copy, Debug, PartialEq, Eq, Structural, Hash, PartialOrd, Ord, Default)]
pub enum PortPriority {
    /// Outside port doesn't matter
    #[default]
    Optional,
    /// Outside port is preferred, but not required for the app to work
    Recommended,
    /// Port is required for the app to work
    Required,
}

/// The order of priorities: Optional < Recommended < Required.
pub open spec fn level(p: PortPriority) -> int {
    match p {
        PortPriority::Optional => 0,
        PortPriority::Recommended => 1,
        PortPriority::Required => 2,
    }
}

impl PortPriority {
    pub fn rank(&self) -> (r: u8)
        ensures
            r as int == level(*self),
    {
        match self {
            PortPriority::Optional => 0,
            PortPriority::Recommended => 1,
            PortPriority::Required => 2,
        }
    }
}

/// One port request of an app, or one row of the resolved port table.
#[derive(Clone, Debug, PartialEq, Eq, Default)]
pub struct PortMapEntry {
    pub app: String,
    pub internal_port: u16,
    pub public_port: u16,
    pub container: String,
    pub implements: Option<String>,
    pub priority: PortPriority,
}

/// The contents of a `PortMapEntry`.
pub struct PortRow {
    pub app: Seq<char>,
    pub internal_port: u16,
    pub public_port: u16,
    pub container: Seq<char>,
    pub implements: Option<Seq<char>>,
    pub priority: PortPriority,
}

pub open spec fn opt_view(o: Option<String>) -> Option<Seq<char>> {
    match o {
        Some(s) => Some(s@),
        None => None,
    }
}

impl View for PortMapEntry {
    type V = PortRow;

    open spec fn view(&self) -> PortRow {
        PortRow {
            app: self.app@,
            internal_port: self.internal_port,
            public_port: self.public_port,
            container: self.container@,
            implements: opt_view(self.implements),
            priority: self.priority,
        }
    }
}

/// Ports that no app can have: HTTP and HTTPS.
pub open spec fn reserved(p: u16) -> bool {
    p == 80 || p == 443
}

pub fn is_reserved(p: u16) -> (r: bool)
    ensures
        r == reserved(p),
{
    p == 80 || p == 443
}

/// Two rows may share a public port: both Required, implementing the same thing.
pub open spec fn shareable(a: PortRow, b: PortRow) -> bool {
    &&& a.priority == PortPriority::Required
    &&& b.priority == PortPriority::Required
    &&& a.implements is Some
    &&& a.implements == b.implements
}

/// Two rows are the same request, whatever public port they ended up on.
pub open spec fn same_request(a: PortRow, b: PortRow) -> bool {
    &&& a.app == b.app
    &&& a.internal_port == b.internal_port
    &&& a.container == b.container
    &&& a.implements == b.implements
    &&& a.priority == b.priority
}

/// Rows are in ascending public port order, and by app within a port.
pub open spec fn row_le(a: PortRow, b: PortRow) -> bool {
    a.public_port < b.public_port || (a.public_port == b.public_port && !text_lt(b.app, a.app))
}

pub open spec fn rows(s: Seq<PortMapEntry>) -> Seq<PortRow> {
    s.map_values(|e: PortMapEntry| e@)
}

/// No two rows share a public port unless they may share it, and no row has a reserved port.
pub open spec fn ports_unique(t: Seq<PortRow>) -> bool {
    &&& forall|i: int, j: int|
        0 <= i < t.len() && 0 <= j < t.len() && i != j && t[i].public_port == t[j].public_port
            ==> shareable(t[i], t[j])
    &&& forall|i: int| 0 <= i < t.len() ==> !reserved(#[trigger] t[i].public_port)
}

pub fn copy_opt(o: &Option<String>) -> (r: Option<String>)
    ensures
        opt_view(r) == opt_view(*o),
{
    match o {
        Some(s) => Some(s.clone()),
        None => None,
    }
}

fn same_opt(a: &Option<String>, b: &Option<String>) -> (r: bool)
    ensures
        r == (opt_view(*a) == opt_view(*b)),
{
    match (a, b) {
        (Some(x), Some(y)) => same_text(x.as_str(), y.as_str()),
        (None, None) => true,
        _ => false,
    }
}

impl PortMapEntry {
    /// A copy of this entry on another public port.
    pub fn moved_to(&self, port: u16) -> (r: PortMapEntry)
        ensures
            same_request(r@, self@),
            r.public_port == port,
    {
        PortMapEntry {
            app: self.app.clone(),
            internal_port: self.internal_port,
            public_port: port,
            container: self.container.clone(),
            implements: copy_opt(&self.implements),
            priority: self.priority,
        }
    }

    /// Whether two entries are the same in every field.
    pub fn same_as(&self, other: &PortMapEntry) -> (r: bool)
        ensures
            r == (self@ == other@),
    {
        same_text(self.app.as_str(), other.app.as_str()) && self.internal_port
            == other.internal_port && self.public_port == other.public_port && same_text(
            self.container.as_str(),
            other.container.as_str(),
        ) && same_opt(&self.implements, &other.implements) && self.priority == other.priority
    }
}

/// The first row on public port `p`, if any.
fn row_at(table: &Vec<PortMapEntry>, p: u16) -> (r: Option<usize>)
    ensures
        match r {
            Some(i) => first_row(rows(table@), p) == Some(i as int),
            None => first_row(rows(table@), p) is None,
        },
        match r {
            Some(i) => i < table@.len() && table@[i as int].public_port == p,
            None => forall|k: int| 0 <= k < table@.len() ==> (#[trigger] table@[k]).public_port != p,
        },
{
    let mut i: usize = 0;
    while i < table.len()
        invariant
            i <= table@.len(),
            forall|k: int| 0 <= k < i ==> (#[trigger] table@[k]).public_port != p,
        decreases table@.len() - i,
    {
        if table[i].public_port == p {
            proof {
                lemma_first_row(rows(table@), p);
                match first_row(rows(table@), p) {
                    Some(f) => {
                        if f < i {
                            assert(rows(table@)[f] == table@[f]@);
                        } else if f > i {
                            assert(rows(table@)[i as int] == table@[i as int]@);
                        }
                    },
                    None => {
                        assert(rows(table@)[i as int] == table@[i as int]@);
                    },
                }
            }
            return Some(i);
        }
        i = i + 1;
    }
    proof {
        lemma_first_row(rows(table@), p);
        if let Some(f) = first_row(rows(table@), p) {
            assert(rows(table@)[f] == table@[f]@);
        }
    }
    None
}

/// A port no row has and that is not reserved.
pub open spec fn free_in(t: Seq<PortMapEntry>, p: u16) -> bool {
    !reserved(p) && forall|k: int| 0 <= k < t.len() ==> (#[trigger] t[k]).public_port != p
}

proof fn lemma_free_equiv(t: Seq<PortMapEntry>)
    ensures
        forall|x: u16| free_in(t, x) == port_free(rows(t), x),
{
    assert forall|x: u16| free_in(t, x) == port_free(rows(t), x) by {
        if free_in(t, x) {
            assert forall|k: int| 0 <= k < rows(t).len() implies rows(t)[k].public_port != x by {
                assert(rows(t)[k] == t[k]@);
            }
        }
        if port_free(rows(t), x) {
            assert forall|k: int| 0 <= k < t.len() implies (#[trigger] t[k]).public_port != x by {
                assert(rows(t)[k] == t[k]@);
            }
        }
    }
}

/// The first free port at or above `start`, probing upwards.
fn free_port_from(table: &Vec<PortMapEntry>, start: u16) -> (r: Option<u16>)
    ensures
        r == free_from(rows(table@), start),
        match r {
            Some(q) => start <= q && free_in(table@, q) && forall|x: u16| start <= x < q ==> !free_in(table@, x),
            None => forall|x: u16| start <= x ==> !free_in(table@, x),
        },
{
    let mut q: u16 = start;
    loop
        invariant
            start <= q,
            forall|x: u16| start <= x < q ==> !free_in(table@, x),
        decreases 65535 - q,
    {
        if !is_reserved(q) && row_at(table, q).is_none() {
            proof {
                lemma_free_equiv(table@);
                assert(free_in(table@, q));
                assert(port_free(rows(table@), q));
                assert forall|x: u16| start <= x < q implies !port_free(rows(table@), x) by {
                    assert(!free_in(table@, x));
                }
                lemma_free_from(rows(table@), start, Some(q));
            }
            return Some(q);
        }
        if q == 65535 {
            proof {
                lemma_free_equiv(table@);
                assert(!free_in(table@, q));
                assert forall|x: u16| start <= x implies !port_free(rows(table@), x) by {
                    assert(!free_in(table@, x));
                }
                lemma_free_from(rows(table@), start, None);
            }
            return None;
        }
        q = q + 1;
    }
}

/// The rows of `table` whose app is not `app`.
fn without_app(table: Vec<PortMapEntry>, app: &str) -> (r: Vec<PortMapEntry>)
    requires
        ports_unique(rows(table@)),
    ensures
        ports_unique(rows(r@)),
        r@.len() <= table@.len(),
        rows(r@) == drop_app(rows(table@), app@),
        forall|k: int| 0 <= k < r@.len() ==> table@.contains(#[trigger] r@[k]) && r@[k].app@ != app@,
        forall|k: int| 0 <= k < table@.len() && (#[trigger] table@[k]).app@ != app@ ==> r@.contains(table@[k]),
{
    let ghost orig = table@;
    let mut table = table;
    let mut kept: Vec<PortMapEntry> = Vec::new();
    let mut i: usize = 0;
    let total = table.len();
    while table.len() > 0
        invariant
            orig.len() == total,
            i <= total,
            table@ == orig.skip(i as int),
            ports_unique(rows(orig)),
            kept@.len() <= i,
            rows(kept@) == drop_app(rows(orig.take(i as int)), app@),
            forall|k: int| 0 <= k < kept@.len() ==> orig.contains(#[trigger] kept@[k]) && kept@[k].app@ != app@,
            forall|k: int| 0 <= k < kept@.len() ==> exists|j: int| 0 <= j < i && orig[j] == #[trigger] kept@[k],
            ports_unique(rows(kept@)),
            forall|k: int| 0 <= k < i && (#[trigger] orig[k]).app@ != app@ ==> kept@.contains(orig[k]),
        decreases table@.len(),
    {
        let e = table.remove(0);
        assert(orig[i as int] == e);
        assert(orig.skip(i as int).remove(0) =~= orig.skip(i + 1));
        proof {
            assert(rows(orig.take(i + 1)).drop_last() =~= rows(orig.take(i as int)));
            assert(rows(orig.take(i + 1)).last() == e@);
            lemma_rows_push(kept@, e);
        }
        if !same_text(e.app.as_str(), app) {
            let ghost before = kept@;
            kept.push(e);
            assert(kept@[before.len() as int] == e);
            assert(rows(orig)[i as int] == e@);
            assert forall|a: int, b: int|
                0 <= a < kept@.len() && 0 <= b < kept@.len() && a != b && rows(kept@)[a].public_port
                    == rows(kept@)[b].public_port implies shareable(rows(kept@)[a], rows(kept@)[b]) by {
                if a < before.len() && b < before.len() {
                    assert(rows(before)[a] == rows(kept@)[a]);
                    assert(rows(before)[b] == rows(kept@)[b]);
                } else if a < before.len() {
                    let ja = choose|ja: int| 0 <= ja < i && orig[ja] == #[trigger] before[a];
                    assert(rows(orig)[ja] == rows(kept@)[a]);
                } else if b < before.len() {
                    let jb = choose|jb: int| 0 <= jb < i && orig[jb] == #[trigger] before[b];
                    assert(rows(orig)[jb] == rows(kept@)[b]);
                }
            }
            assert forall|a: int| 0 <= a < kept@.len() implies !reserved(#[trigger] rows(kept@)[a].public_port) by {
                if a < before.len() {
                    assert(rows(before)[a] == rows(kept@)[a]);
                }
            }
            assert forall|k: int| 0 <= k < kept@.len() implies exists|j: int| 0 <= j < i + 1 && orig[j] == #[trigger] kept@[k] by {
                if k < before.len() {
                    assert(kept@[k] == before[k]);
                } else {
                    assert(orig[i as int] == kept@[k]);
                }
            }
            assert forall|k: int| 0 <= k < i + 1 && (#[trigger] orig[k]).app@ != app@ implies kept@.contains(orig[k]) by {
                if k < i {
                    let j = choose|j: int| 0 <= j < before.len() && before[j] == orig[k];
                    assert(kept@[j] == orig[k]);
                }
            }
        }
        i = i + 1;
    }
    assert(table@.len() == 0);
    assert(orig.take(i as int) =~= orig);
    kept
}

/// `a` goes strictly before `b` in the final table.
pub open spec fn row_lt(a: PortRow, b: PortRow) -> bool {
    a.public_port < b.public_port || (a.public_port == b.public_port && text_lt(a.app, b.app))
}

fn row_less(a: &PortMapEntry, b: &PortMapEntry) -> (r: bool)
    ensures
        r == row_lt(a@, b@),
{
    a.public_port < b.public_port || (a.public_port == b.public_port && text_less(
        a.app.as_str(),
        b.app.as_str(),
    ))
}

proof fn lemma_row_le_transitive(a: PortRow, b: PortRow, c: PortRow)
    requires
        row_le(a, b),
        row_le(b, c),
    ensures
        row_le(a, c),
{
    if a.public_port == c.public_port && text_lt(c.app, a.app) {
        crate::text::lemma_text_lt_total(a.app, b.app);
        if b.app != a.app {
            crate::text::lemma_text_lt_transitive(c.app, a.app, b.app);
        }
    }
}

proof fn multiset_step(out: Seq<PortMapEntry>, pending: Seq<PortMapEntry>, j: int)
    requires
        pending.len() > 0,
        0 <= j <= out.len(),
    ensures
        out.insert(j, pending[0]).to_multiset().add(pending.remove(0).to_multiset()) == out.to_multiset().add(
            pending.to_multiset(),
        ),
{
    broadcast use vstd::seq_lib::group_to_multiset_ensures;
    broadcast use vstd::multiset::group_multiset_axioms;
    vstd::seq_lib::to_multiset_insert(out, j, pending[0]);
    vstd::seq_lib::to_multiset_remove(pending, 0);
    assert(pending.to_multiset().contains(pending[0]));
    assert(out.insert(j, pending[0]).to_multiset().add(pending.remove(0).to_multiset()) =~= out.to_multiset().add(
        pending.to_multiset(),
    ));
}

/// The table sorted by public port, then by app.
fn sort_table(table: Vec<PortMapEntry>) -> (r: Vec<PortMapEntry>)
    requires
        ports_unique(rows(table@)),
    ensures
        ports_unique(rows(r@)),
        r@.to_multiset() == table@.to_multiset(),
        rows(r@) == sort_rows(rows(table@)),
        forall|a: int, b: int| 0 <= a < b < r@.len() ==> row_le(r@[a]@, r@[b]@),
{
    broadcast use vstd::seq_lib::group_to_multiset_ensures;
    let ghost input = table@;
    let mut pending = table;
    let mut out: Vec<PortMapEntry> = Vec::new();
    assert(out@ + pending@ =~= input);
    let total = pending.len();
    let mut i: usize = 0;
    while pending.len() > 0
        invariant
            input.len() == total,
            i <= total,
            pending@ == input.skip(i as int),
            rows(out@) == sort_rows(rows(input.take(i as int))),
            ports_unique(rows(out@ + pending@)),
            out@.to_multiset().add(pending@.to_multiset()) == input.to_multiset(),
            forall|a: int, b: int| 0 <= a < b < out@.len() ==> row_le(out@[a]@, out@[b]@),
        decreases pending@.len(),
    {
        let ghost c = out@ + pending@;
        let ghost old_out = out@;
        let ghost old_pending = pending@;
        let e = pending.remove(0);
        let mut j: usize = out.len();
        while j > 0 && row_less(&e, &out[j - 1])
            invariant
                j <= out@.len(),
                out@ == old_out,
                forall|k: int| j <= k < out@.len() ==> row_lt(e@, (#[trigger] out@[k])@),
            decreases j,
        {
            j = j - 1;
        }
        proof {
            assert(input[i as int] == e);
            if j > 0 {
                assert(rows(old_out)[j - 1] == old_out[j - 1]@);
            }
            assert forall|k: int| j <= k < rows(old_out).len() implies row_lt(e@, #[trigger] rows(old_out)[k]) by {
                assert(rows(old_out)[k] == old_out[k]@);
            }
            lemma_insert_row_at(rows(old_out), e@, j as int);
            assert(rows(input.take(i + 1)).drop_last() =~= rows(input.take(i as int)));
            assert(rows(input.take(i + 1)).last() == e@);
        }
        out.insert(j, e);
        proof {
            assert(rows(out@) =~= rows(old_out).insert(j as int, e@));
            assert(input.skip(i as int).remove(0) =~= input.skip(i + 1));
            let c2 = out@ + pending@;
            let n = old_out.len() as int;
            assert(c[n] == e);
            assert forall|a: int| 0 <= a < c2.len() implies #[trigger] c2[a] == c[if a < j {
                a
            } else if a == j {
                n
            } else if a <= n {
                a - 1
            } else {
                a
            }] by {
                if a <= n {
                    assert(c2[a] == out@[a]);
                } else {
                    assert(c2[a] == pending@[a - n - 1]);
                }
            }
            assert forall|a: int, b: int|
                0 <= a < c2.len() && 0 <= b < c2.len() && a != b && rows(c2)[a].public_port
                    == rows(c2)[b].public_port implies shareable(rows(c2)[a], rows(c2)[b]) by {
                let sa = if a < j { a } else if a == j { n } else if a <= n { a - 1 } else { a };
                let sb = if b < j { b } else if b == j { n } else if b <= n { b - 1 } else { b };
                assert(c2[a] == c[sa]);
                assert(c2[b] == c[sb]);
                assert(rows(c)[sa] == rows(c2)[a]);
                assert(rows(c)[sb] == rows(c2)[b]);
            }
            assert forall|a: int| 0 <= a < c2.len() implies !reserved(#[trigger] rows(c2)[a].public_port) by {
                let sa = if a < j { a } else if a == j { n } else if a <= n { a - 1 } else { a };
                assert(c2[a] == c[sa]);
                assert(rows(c)[sa] == rows(c2)[a]);
            }
            assert(old_pending.remove(0) =~= pending@);
            multiset_step(old_out, old_pending, j as int);
            assert forall|a: int, b: int| 0 <= a < b < out@.len() implies row_le(out@[a]@, out@[b]@) by {
                if b < j {
                    assert(out@[a] == old_out[a] && out@[b] == old_out[b]);
                } else if b == j {
                    assert(out@[a] == old_out[a]);
                    assert(!row_lt(e@, old_out[j - 1]@));
                    if a < j - 1 {
                        lemma_row_le_transitive(old_out[a]@, old_out[j - 1]@, e@);
                    }
                } else if a == j {
                    assert(out@[b] == old_out[b - 1]);
                    assert(row_lt(e@, old_out[b - 1]@));
                    crate::text::lemma_text_lt_total(e.app@, old_out[b - 1].app@);
                } else if a < j {
                    assert(out@[a] == old_out[a] && out@[b] == old_out[b - 1]);
                } else {
                    assert(out@[a] == old_out[a - 1] && out@[b] == old_out[b - 1]);
                }
            }
        }
        i = i + 1;
    }
    assert(input.take(i as int) =~= input);
    assert(out@ + pending@ =~= out@);
    assert(pending@.to_multiset() =~= Multiset::empty());
    assert(out@.to_multiset().add(Multiset::empty()) =~= out@.to_multiset());
    out
}

/// The requests in the order of processing: installed apps first, then by app id.
fn request_goes_before(e: &PortMapEntry, f: &PortMapEntry, installed: &[String]) -> (r: bool)
    ensures
        r == goes_before(e@, f@, views(installed@)),
{
    let ie = contains_text(installed, e.app.as_str());
    let if_ = contains_text(installed, f.app.as_str());
    (ie && !if_) || (ie == if_ && text_less(e.app.as_str(), f.app.as_str()))
}

fn order_requests(entries: Vec<PortMapEntry>, installed: &[String]) -> (r: Vec<PortMapEntry>)
    ensures
        r@.to_multiset() == entries@.to_multiset(),
        rows(r@) == request_order(rows(entries@), views(installed@)),
{
    broadcast use vstd::seq_lib::group_to_multiset_ensures;
    let ghost input = entries@;
    let ghost inst = views(installed@);
    let mut pending = entries;
    let mut out: Vec<PortMapEntry> = Vec::new();
    let total = pending.len();
    let mut i: usize = 0;
    while pending.len() > 0
        invariant
            input.len() == total,
            i <= total,
            pending@ == input.skip(i as int),
            inst == views(installed@),
            out@.to_multiset().add(pending@.to_multiset()) == input.to_multiset(),
            rows(out@) == request_order(rows(input.take(i as int)), inst),
        decreases pending@.len(),
    {
        let ghost old_out = out@;
        let ghost old_pending = pending@;
        let e = pending.remove(0);
        assert(input[i as int] == e);
        let mut j: usize = out.len();
        while j > 0 && request_goes_before(&e, &out[j - 1], installed)
            invariant
                j <= out@.len(),
                out@ == old_out,
                inst == views(installed@),
                forall|k: int| j <= k < out@.len() ==> goes_before(e@, (#[trigger] out@[k])@, inst),
            decreases j,
        {
            j = j - 1;
        }
        proof {
            if j > 0 {
                assert(rows(old_out)[j - 1] == old_out[j - 1]@);
            }
            assert forall|k: int| j <= k < rows(old_out).len() implies goes_before(e@, #[trigger] rows(old_out)[k], inst) by {
                assert(rows(old_out)[k] == old_out[k]@);
            }
            lemma_insert_request_at(rows(old_out), e@, inst, j as int);
            assert(rows(input.take(i + 1)).drop_last() =~= rows(input.take(i as int)));
            assert(rows(input.take(i + 1)).last() == e@);
        }
        out.insert(j, e);
        assert(old_pending.remove(0) =~= pending@);
        assert(input.skip(i as int).remove(0) =~= input.skip(i + 1));
        proof {
            multiset_step(old_out, old_pending, j as int);
            assert(rows(out@) =~= rows(old_out).insert(j as int, e@));
        }
        i = i + 1;
    }
    assert(pending@.to_multiset() =~= Multiset::empty());
    assert(out@.to_multiset().add(Multiset::empty()) =~= out@.to_multiset());
    assert(input.take(i as int) =~= input);
    out
}

/// `x` is one of the first `n` requests of `reqs`, on whatever public port.
pub open spec fn from_request(reqs: Seq<PortMapEntry>, n: int, x: PortRow) -> bool {
    exists|k: int| 0 <= k < n && same_request(x, #[trigger] reqs[k]@)
}

/// `a` is the app of one of the first `n` requests of `reqs`.
pub open spec fn app_requested(reqs: Seq<PortMapEntry>, n: int, a: Seq<char>) -> bool {
    exists|k: int| 0 <= k < n && #[trigger] reqs[k].app@ == a
}

/// Some row of `t` is the request `e`, on whatever public port.
pub open spec fn represented(t: Seq<PortMapEntry>, e: PortRow) -> bool {
    exists|i: int| 0 <= i < t.len() && same_request(#[trigger] t[i]@, e)
}

/// What holds of the table after the first `i` requests of `ord`.
#[verifier::opaque]
spec fn table_ok(
    ord: Seq<PortMapEntry>,
    i: int,
    table: Seq<PortMapEntry>,
    conflicts: Seq<Seq<char>>,
) -> bool {
    &&& ports_unique(rows(table))
    &&& forall|t: int| 0 <= t < table.len() ==> from_request(ord, i, table[t]@)
    &&& forall|t: int| 0 <= t < table.len() ==> !conflicts.contains(#[trigger] table[t].app@)
    &&& forall|k: int| 0 <= k < i ==> conflicts.contains(#[trigger] ord[k].app@) || represented(table, ord[k]@)
    &&& forall|c: int| 0 <= c < conflicts.len() ==> app_requested(ord, i, conflicts[c])
}

proof fn lemma_push_unique(table: Seq<PortMapEntry>, x: PortMapEntry)
    requires
        ports_unique(rows(table)),
        !reserved(x.public_port),
        forall|t: int| 0 <= t < table.len() && (#[trigger] table[t]).public_port == x.public_port ==> shareable(table[t]@, x@),
    ensures
        ports_unique(rows(table.push(x))),
{
    let t2 = table.push(x);
    assert(t2[table.len() as int] == x);
    assert forall|a: int, b: int|
        0 <= a < t2.len() && 0 <= b < t2.len() && a != b && rows(t2)[a].public_port == rows(t2)[b].public_port
            implies shareable(rows(t2)[a], rows(t2)[b]) by {
        assert(rows(t2)[a] == t2[a]@ && rows(t2)[b] == t2[b]@);
        if a < table.len() && b < table.len() {
            assert(t2[a] == table[a] && t2[b] == table[b]);
            lemma_unique_pair(table, a, b);
        } else if a < table.len() {
            assert(t2[a] == table[a]);
        } else {
            assert(t2[b] == table[b]);
        }
    }
    assert forall|a: int| 0 <= a < t2.len() implies !reserved(#[trigger] rows(t2)[a].public_port) by {
        assert(rows(t2)[a] == t2[a]@);
        if a < table.len() {
            assert(rows(table)[a] == table[a]@);
        }
    }
}

proof fn lemma_ok_unique(ord: Seq<PortMapEntry>, i: int, table: Seq<PortMapEntry>, conflicts: Seq<Seq<char>>)
    requires
        table_ok(ord, i, table, conflicts),
    ensures
        ports_unique(rows(table)),
{
    reveal(table_ok);
}

proof fn lemma_push_row(
    ord: Seq<PortMapEntry>,
    i: int,
    table: Seq<PortMapEntry>,
    conflicts: Seq<Seq<char>>,
    x: PortMapEntry,
)
    requires
        0 <= i < ord.len(),
        table_ok(ord, i, table, conflicts),
        same_request(x@, ord[i]@),
        !conflicts.contains(x.app@),
        !reserved(x.public_port),
        forall|t: int| 0 <= t < table.len() && (#[trigger] table[t]).public_port == x.public_port ==> shareable(table[t]@, x@),
    ensures
        table_ok(ord, i + 1, table.push(x), conflicts),
{
    reveal(table_ok);
    let t2 = table.push(x);
    assert(t2[table.len() as int] == x);
    lemma_push_unique(table, x);
    assert forall|t: int| 0 <= t < t2.len() implies from_request(ord, i + 1, t2[t]@) by {
        if t < table.len() {
            assert(t2[t] == table[t]);
        } else {
            assert(same_request(t2[t]@, ord[i]@));
        }
    }
    assert forall|t: int| 0 <= t < t2.len() implies !conflicts.contains(#[trigger] t2[t].app@) by {
        if t < table.len() {
            assert(t2[t] == table[t]);
        }
    }
    assert forall|k: int| 0 <= k < i + 1 implies conflicts.contains(#[trigger] ord[k].app@) || represented(t2, ord[k]@) by {
        if k < i {
            if !conflicts.contains(ord[k].app@) {
                let w = choose|w: int| 0 <= w < table.len() && same_request(#[trigger] table[w]@, ord[k]@);
                assert(t2[w] == table[w]);
            }
        } else {
            assert(same_request(t2[table.len() as int]@, ord[k]@));
        }
    }
}

proof fn lemma_conflict(
    ord: Seq<PortMapEntry>,
    i: int,
    table: Seq<PortMapEntry>,
    conflicts: Seq<Seq<char>>,
    t2: Seq<PortMapEntry>,
)
    requires
        0 <= i < ord.len(),
        table_ok(ord, i, table, conflicts),
        ports_unique(rows(t2)),
        forall|k: int| 0 <= k < t2.len() ==> table.contains(#[trigger] t2[k]) && t2[k].app@ != ord[i].app@,
        forall|k: int| 0 <= k < table.len() && (#[trigger] table[k]).app@ != ord[i].app@ ==> t2.contains(table[k]),
    ensures
        table_ok(ord, i + 1, t2, conflicts.push(ord[i].app@)),
{
    reveal(table_ok);
    let c2 = conflicts.push(ord[i].app@);
    assert(c2[conflicts.len() as int] == ord[i].app@);
    assert forall|t: int| 0 <= t < t2.len() implies from_request(ord, i + 1, t2[t]@) by {
        let w = choose|w: int| 0 <= w < table.len() && table[w] == t2[t];
        let k = choose|k: int| 0 <= k < i && same_request(#[trigger] table[w]@, ord[k]@);
        assert(same_request(t2[t]@, ord[k]@));
    }
    assert forall|t: int| 0 <= t < t2.len() implies !c2.contains(#[trigger] t2[t].app@) by {
        let w = choose|w: int| 0 <= w < table.len() && table[w] == t2[t];
        assert(!conflicts.contains(table[w].app@));
        if c2.contains(t2[t].app@) {
            let z = choose|z: int| 0 <= z < c2.len() && c2[z] == t2[t].app@;
            if z < conflicts.len() {
                assert(conflicts[z] == c2[z]);
            }
        }
    }
    assert forall|k: int| 0 <= k < i + 1 implies c2.contains(#[trigger] ord[k].app@) || represented(t2, ord[k]@) by {
        if k < i {
            if conflicts.contains(ord[k].app@) {
                let z = choose|z: int| 0 <= z < conflicts.len() && conflicts[z] == ord[k].app@;
                assert(c2[z] == conflicts[z]);
            } else if ord[k].app@ != ord[i].app@ {
                let w = choose|w: int| 0 <= w < table.len() && same_request(#[trigger] table[w]@, ord[k]@);
                assert(t2.contains(table[w]));
                let v = choose|v: int| 0 <= v < t2.len() && t2[v] == table[w];
                assert(same_request(t2[v]@, ord[k]@));
            }
        }
    }
    assert forall|c: int| 0 <= c < c2.len() implies app_requested(ord, i + 1, c2[c]) by {
        if c < conflicts.len() {
            assert(c2[c] == conflicts[c]);
            let k = choose|k: int| 0 <= k < i && ord[k].app@ == conflicts[c];
        }
    }
}


proof fn lemma_unique_pair(t: Seq<PortMapEntry>, a: int, b: int)
    requires
        ports_unique(rows(t)),
        0 <= a < t.len(),
        0 <= b < t.len(),
        a != b,
        t[a].public_port == t[b].public_port,
    ensures
        shareable(t[a]@, t[b]@),
{
    assert(rows(t)[a] == t[a]@);
    assert(rows(t)[b] == t[b]@);
}

proof fn lemma_skip(ord: Seq<PortMapEntry>, i: int, table: Seq<PortMapEntry>, conflicts: Seq<Seq<char>>)
    requires
        0 <= i < ord.len(),
        table_ok(ord, i, table, conflicts),
        conflicts.contains(ord[i].app@) || represented(table, ord[i]@),
    ensures
        table_ok(ord, i + 1, table, conflicts),
{
    reveal(table_ok);
    assert forall|c: int| 0 <= c < conflicts.len() implies app_requested(ord, i + 1, conflicts[c]) by {
        let k = choose|k: int| 0 <= k < i && ord[k].app@ == conflicts[c];
    }
    assert forall|t: int| 0 <= t < table.len() implies from_request(ord, i + 1, table[t]@) by {
        let k = choose|k: int| 0 <= k < i && same_request(table[t]@, ord[k]@);
    }
}

/// A request may join the rows on its port when it may share with the first of them.
proof fn lemma_share(table: Seq<PortMapEntry>, m: int, x: PortMapEntry)
    requires
        ports_unique(rows(table)),
        0 <= m < table.len(),
        table[m].public_port == x.public_port,
        shareable(table[m]@, x@),
    ensures
        forall|t: int| 0 <= t < table.len() && (#[trigger] table[t]).public_port == x.public_port ==> shareable(table[t]@, x@),
        !reserved(x.public_port),
{
    assert(rows(table)[m] == table[m]@);
    assert(!reserved(rows(table)[m].public_port));
    assert forall|t: int| 0 <= t < table.len() && (#[trigger] table[t]).public_port == x.public_port implies shareable(table[t]@, x@) by {
        if t != m {
            lemma_unique_pair(table, t, m);
        }
    }
}

/// The row `m` moves to the free port `q`; then nothing is left on its old port.
proof fn lemma_move_row(
    ord: Seq<PortMapEntry>,
    i: int,
    t0: Seq<PortMapEntry>,
    conflicts: Seq<Seq<char>>,
    m: int,
    moved: PortMapEntry,
)
    requires
        0 <= i < ord.len(),
        table_ok(ord, i, t0, conflicts),
        0 <= m < t0.len(),
        t0[m]@.priority != PortPriority::Required,
        same_request(moved@, t0[m]@),
        free_in(t0, moved.public_port),
    ensures
        table_ok(ord, i, t0.update(m, moved), conflicts),
        forall|t: int| 0 <= t < t0.len() ==> (#[trigger] t0.update(m, moved)[t]).public_port != t0[m].public_port,
{
    reveal(table_ok);
    let t1 = t0.update(m, moved);
    assert forall|t: int| 0 <= t < t0.len() && t != m implies (#[trigger] t0[t]).public_port != t0[m].public_port by {
        if t0[t].public_port == t0[m].public_port {
            lemma_unique_pair(t0, t, m);
        }
    }
    assert(moved.public_port != t0[m].public_port);
    assert forall|t: int| 0 <= t < t0.len() implies (#[trigger] t1[t]).public_port != t0[m].public_port by {
        if t != m {
            assert(t1[t] == t0[t]);
        }
    }
    assert forall|a: int, b: int|
        0 <= a < t1.len() && 0 <= b < t1.len() && a != b && rows(t1)[a].public_port == rows(t1)[b].public_port
            implies shareable(rows(t1)[a], rows(t1)[b]) by {
        assert(rows(t1)[a] == t1[a]@ && rows(t1)[b] == t1[b]@);
        if a != m && b != m {
            lemma_unique_pair(t0, a, b);
        } else if a == m {
            assert(t1[b] == t0[b]);
        } else {
            assert(t1[a] == t0[a]);
        }
    }
    assert forall|a: int| 0 <= a < t1.len() implies !reserved(#[trigger] rows(t1)[a].public_port) by {
        assert(rows(t1)[a] == t1[a]@);
        if a != m {
            assert(rows(t0)[a] == t0[a]@);
        }
    }
    assert forall|t: int| 0 <= t < t1.len() implies from_request(ord, i, t1[t]@) by {
        let k = choose|k: int| 0 <= k < i && same_request(t0[t]@, ord[k]@);
        assert(same_request(t1[t]@, ord[k]@));
    }
    assert forall|t: int| 0 <= t < t1.len() implies !conflicts.contains(#[trigger] t1[t].app@) by {
        assert(!conflicts.contains(t0[t].app@));
    }
    assert forall|k: int| 0 <= k < i implies conflicts.contains(#[trigger] ord[k].app@) || represented(t1, ord[k]@) by {
        if !conflicts.contains(ord[k].app@) {
            let w = choose|w: int| 0 <= w < t0.len() && same_request(#[trigger] t0[w]@, ord[k]@);
            assert(same_request(t1[w]@, ord[k]@));
        }
    }
}

proof fn lemma_table_start(ord: Seq<PortMapEntry>)
    ensures
        table_ok(ord, 0, seq![], seq![]),
{
    reveal(table_ok);
}

proof fn lemma_table_end(ord: Seq<PortMapEntry>, table: Seq<PortMapEntry>, conflicts: Seq<Seq<char>>)
    requires
        table_ok(ord, ord.len() as int, table, conflicts),
    ensures
        ports_unique(rows(table)),
        forall|t: int| 0 <= t < table.len() ==> from_request(ord, ord.len() as int, table[t]@),
        forall|t: int| 0 <= t < table.len() ==> !conflicts.contains(#[trigger] table[t].app@),
        forall|k: int| 0 <= k < ord.len() ==> conflicts.contains(#[trigger] ord[k].app@) || represented(table, ord[k]@),
        forall|c: int| 0 <= c < conflicts.len() ==> app_requested(ord, ord.len() as int, conflicts[c]),
{
    reveal(table_ok);
    assert forall|t: int| 0 <= t < table.len() implies from_request(ord, ord.len() as int, table[t]@) by {
        let k = choose|k: int| 0 <= k < ord.len() as int && same_request(#[trigger] table[t]@, ord[k]@);
        assert(0 <= k < ord.len() && same_request(table[t]@, ord[k]@));
    }
    assert forall|c: int| 0 <= c < conflicts.len() implies app_requested(ord, ord.len() as int, conflicts[c]) by {
        let k = choose|k: int| 0 <= k < ord.len() as int && ord[k].app@ == #[trigger] conflicts[c];
        assert(0 <= k < ord.len() && ord[k].app@ == conflicts[c]);
    }
}


/// Two Required requests for one public port that may not share it.
pub open spec fn clash(a: PortRow, b: PortRow) -> bool {
    &&& a.priority == PortPriority::Required
    &&& b.priority == PortPriority::Required
    &&& a.public_port == b.public_port
    &&& a != b
    &&& !shareable(a, b)
}

/// Why request `k` may put its app in conflict: it is Required and asks for a
/// reserved port, or it clashes with another request, or the ports from its
/// own upwards are too few for all the requests.
pub open spec fn conflict_reason(reqs: Seq<PortMapEntry>, k: int) -> bool {
    ||| reqs[k].priority == PortPriority::Required && reserved(reqs[k].public_port)
    ||| exists|j: int| 0 <= j < reqs.len() && #[trigger] clash(reqs[j]@, reqs[k]@)
    ||| reqs[k].public_port + reqs.len() >= 65534
}

/// Some request of `app` gives a reason for a conflict.
pub open spec fn conflict_justified(reqs: Seq<PortMapEntry>, app: Seq<char>) -> bool {
    exists|k: int| 0 <= k < reqs.len() && #[trigger] reqs[k].app@ == app && conflict_reason(reqs, k)
}

/// `x` is exactly one of the first `n` requests.
pub open spec fn exact_request(reqs: Seq<PortMapEntry>, n: int, x: PortRow) -> bool {
    exists|k: int| 0 <= k < n && #[trigger] reqs[k]@ == x
}

/// More of what holds of the table after the first `i` requests of `ord`:
/// no more rows than requests, Required rows exactly as requested, and a
/// reason for each conflict.
#[verifier::opaque]
spec fn table_extra(ord: Seq<PortMapEntry>, i: int, table: Seq<PortMapEntry>, conflicts: Seq<Seq<char>>) -> bool {
    &&& table.len() <= i
    &&& forall|t: int|
        0 <= t < table.len() && (#[trigger] table[t]).priority == PortPriority::Required ==> exact_request(ord, i, table[t]@)
    &&& forall|c: int| 0 <= c < conflicts.len() ==> conflict_justified(ord, #[trigger] conflicts[c])
    &&& conflicts.no_duplicates()
    &&& forall|k: int|
        0 <= k < i && (#[trigger] ord[k]).priority == PortPriority::Required && reserved(ord[k].public_port) ==> conflicts.contains(
            ord[k].app@,
        )
}

proof fn lemma_extra_start(ord: Seq<PortMapEntry>)
    ensures
        table_extra(ord, 0, seq![], seq![]),
{
    reveal(table_extra);
}

proof fn lemma_extra_facts(ord: Seq<PortMapEntry>, i: int, table: Seq<PortMapEntry>, conflicts: Seq<Seq<char>>)
    requires
        table_extra(ord, i, table, conflicts),
    ensures
        table.len() <= i,
        forall|t: int|
            0 <= t < table.len() && (#[trigger] table[t]).priority == PortPriority::Required ==> exact_request(ord, i, table[t]@),
        forall|c: int| 0 <= c < conflicts.len() ==> conflict_justified(ord, #[trigger] conflicts[c]),
        conflicts.no_duplicates(),
        forall|k: int|
            0 <= k < i && (#[trigger] ord[k]).priority == PortPriority::Required && reserved(ord[k].public_port) ==> conflicts.contains(
                ord[k].app@,
            ),
{
    reveal(table_extra);
}

proof fn lemma_extra_skip(ord: Seq<PortMapEntry>, i: int, table: Seq<PortMapEntry>, conflicts: Seq<Seq<char>>)
    requires
        0 <= i < ord.len(),
        table_extra(ord, i, table, conflicts),
        ord[i].priority == PortPriority::Required && reserved(ord[i].public_port) ==> conflicts.contains(ord[i].app@),
    ensures
        table_extra(ord, i + 1, table, conflicts),
{
    reveal(table_extra);
    assert forall|t: int|
        0 <= t < table.len() && (#[trigger] table[t]).priority == PortPriority::Required implies exact_request(ord, i + 1, table[t]@) by {
        let k = choose|k: int| 0 <= k < i && #[trigger] ord[k]@ == table[t]@;
    }
}

proof fn lemma_extra_push(ord: Seq<PortMapEntry>, i: int, table: Seq<PortMapEntry>, conflicts: Seq<Seq<char>>, x: PortMapEntry)
    requires
        0 <= i < ord.len(),
        table_extra(ord, i, table, conflicts),
        !(ord[i].priority == PortPriority::Required && reserved(ord[i].public_port)),
        x.priority == PortPriority::Required ==> x@ == ord[i]@,
    ensures
        table_extra(ord, i + 1, table.push(x), conflicts),
{
    reveal(table_extra);
    let t2 = table.push(x);
    assert forall|t: int|
        0 <= t < t2.len() && (#[trigger] t2[t]).priority == PortPriority::Required implies exact_request(ord, i + 1, t2[t]@) by {
        if t < table.len() {
            assert(t2[t] == table[t]);
            let k = choose|k: int| 0 <= k < i && #[trigger] ord[k]@ == table[t]@;
        } else {
            assert(t2[t] == x);
            assert(ord[i]@ == t2[t]@);
        }
    }
}

proof fn lemma_extra_move(
    ord: Seq<PortMapEntry>,
    i: int,
    t0: Seq<PortMapEntry>,
    conflicts: Seq<Seq<char>>,
    m: int,
    moved: PortMapEntry,
)
    requires
        table_extra(ord, i, t0, conflicts),
        0 <= m < t0.len(),
        moved.priority == t0[m].priority,
        t0[m].priority != PortPriority::Required,
    ensures
        table_extra(ord, i, t0.update(m, moved), conflicts),
{
    reveal(table_extra);
    let t1 = t0.update(m, moved);
    assert forall|t: int|
        0 <= t < t1.len() && (#[trigger] t1[t]).priority == PortPriority::Required implies exact_request(ord, i, t1[t]@) by {
        assert(t != m);
        assert(t1[t] == t0[t]);
    }
}

proof fn lemma_extra_conflict(
    ord: Seq<PortMapEntry>,
    i: int,
    table: Seq<PortMapEntry>,
    conflicts: Seq<Seq<char>>,
    t2: Seq<PortMapEntry>,
)
    requires
        0 <= i < ord.len(),
        table_extra(ord, i, table, conflicts),
        t2.len() <= table.len(),
        forall|k: int| 0 <= k < t2.len() ==> table.contains(#[trigger] t2[k]),
        conflict_reason(ord, i),
        !conflicts.contains(ord[i].app@),
    ensures
        table_extra(ord, i + 1, t2, conflicts.push(ord[i].app@)),
{
    reveal(table_extra);
    let c2 = conflicts.push(ord[i].app@);
    assert forall|t: int|
        0 <= t < t2.len() && (#[trigger] t2[t]).priority == PortPriority::Required implies exact_request(ord, i + 1, t2[t]@) by {
        let w = choose|w: int| 0 <= w < table.len() && table[w] == t2[t];
        let k = choose|k: int| 0 <= k < i && #[trigger] ord[k]@ == table[w]@;
    }
    assert forall|c: int| 0 <= c < c2.len() implies conflict_justified(ord, #[trigger] c2[c]) by {
        if c < conflicts.len() {
            assert(c2[c] == conflicts[c]);
        } else {
            assert(c2[c] == ord[i].app@);
            assert(ord[i].app@ == c2[c] && conflict_reason(ord, i));
        }
    }
    assert(c2[conflicts.len() as int] == ord[i].app@);
    assert forall|k: int|
        0 <= k < i + 1 && (#[trigger] ord[k]).priority == PortPriority::Required && reserved(ord[k].public_port) implies c2.contains(
            ord[k].app@,
        ) by {
        if k < i {
            let z = choose|z: int| 0 <= z < conflicts.len() && conflicts[z] == ord[k].app@;
            assert(c2[z] == conflicts[z]);
        }
    }
    assert forall|a: int, b: int| 0 <= a < c2.len() && 0 <= b < c2.len() && a != b implies c2[a] != c2[b] by {
        if a < conflicts.len() && b < conflicts.len() {
        } else if a < conflicts.len() {
            assert(c2[a] == conflicts[a]);
        } else {
            assert(c2[b] == conflicts[b]);
        }
    }
}

/// The row `r` on public port `p`.
pub open spec fn with_port(r: PortRow, p: u16) -> PortRow {
    PortRow {
        app: r.app,
        internal_port: r.internal_port,
        public_port: p,
        container: r.container,
        implements: r.implements,
        priority: r.priority,
    }
}

/// The index of the first row on public port `p`, if any.
pub open spec fn first_row(t: Seq<PortRow>, p: u16) -> Option<int>
    decreases t.len(),
{
    if t.len() == 0 {
        None
    } else {
        match first_row(t.drop_last(), p) {
            Some(i) => Some(i),
            None => if t.last().public_port == p {
                Some(t.len() - 1)
            } else {
                None
            },
        }
    }
}

proof fn lemma_first_row(t: Seq<PortRow>, p: u16)
    ensures
        match first_row(t, p) {
            Some(i) => 0 <= i < t.len() && t[i].public_port == p && forall|k: int| 0 <= k < i ==> t[k].public_port != p,
            None => forall|k: int| 0 <= k < t.len() ==> t[k].public_port != p,
        },
    decreases t.len(),
{
    if t.len() > 0 {
        lemma_first_row(t.drop_last(), p);
        assert forall|k: int| 0 <= k < t.len() - 1 implies t[k] == t.drop_last()[k] by {}
    }
}

/// A public port that is not reserved and that no row has.
pub open spec fn port_free(t: Seq<PortRow>, p: u16) -> bool {
    !reserved(p) && forall|k: int| 0 <= k < t.len() ==> t[k].public_port != p
}

/// The first free port at or above `p`, if any.
pub open spec fn free_from(t: Seq<PortRow>, p: u16) -> Option<u16>
    decreases 65535 - p,
{
    if port_free(t, p) {
        Some(p)
    } else if p >= 65535 {
        None
    } else {
        free_from(t, (p + 1) as u16)
    }
}

proof fn lemma_free_from(t: Seq<PortRow>, p: u16, r: Option<u16>)
    requires
        match r {
            Some(q) => p <= q && port_free(t, q) && forall|x: u16| p <= x < q ==> !port_free(t, x),
            None => forall|x: u16| p <= x ==> !port_free(t, x),
        },
    ensures
        free_from(t, p) == r,
    decreases 65535 - p,
{
    if !port_free(t, p) && p < 65535 {
        lemma_free_from(t, (p + 1) as u16, r);
    }
}

/// The rows of `t` whose app is not `app`, in order.
pub open spec fn drop_app(t: Seq<PortRow>, app: Seq<char>) -> Seq<PortRow>
    decreases t.len(),
{
    if t.len() == 0 {
        seq![]
    } else if t.last().app == app {
        drop_app(t.drop_last(), app)
    } else {
        drop_app(t.drop_last(), app).push(t.last())
    }
}

/// Two Required requests implementing the same thing share a port.
pub open spec fn may_share(e: PortRow, o: PortRow) -> bool {
    e.implements is Some && e.implements == o.implements && e.priority == o.priority && e.priority == PortPriority::Required
}

/// Request `e` takes the port of row `o`: a higher priority, or, between equal
/// priorities below Required, the smaller app id.
pub open spec fn takes_over(e: PortRow, o: PortRow) -> bool {
    level(e.priority) > level(o.priority) || (e.priority == o.priority && e.priority != PortPriority::Required && text_lt(
        e.app,
        o.app,
    ))
}

/// The app of `e` is put in conflict: its rows go.
pub open spec fn in_conflict(st: (Seq<PortRow>, Seq<Seq<char>>), e: PortRow) -> (Seq<PortRow>, Seq<Seq<char>>) {
    (drop_app(st.0, e.app), st.1.push(e.app))
}

/// `e` goes on the first free port at or above `p`, or its app is put in conflict.
pub open spec fn probe(st: (Seq<PortRow>, Seq<Seq<char>>), e: PortRow, p: u16) -> (Seq<PortRow>, Seq<Seq<char>>) {
    match free_from(st.0, p) {
        Some(q) => (st.0.push(with_port(e, q)), st.1),
        None => in_conflict(st, e),
    }
}

/// One request processed against the table and the apps in conflict.
pub open spec fn step(st: (Seq<PortRow>, Seq<Seq<char>>), e: PortRow) -> (Seq<PortRow>, Seq<Seq<char>>) {
    let (t, c) = st;
    if c.contains(e.app) {
        st
    } else if reserved(e.public_port) {
        if e.priority == PortPriority::Required {
            in_conflict(st, e)
        } else {
            probe(st, e, e.public_port)
        }
    } else {
        match first_row(t, e.public_port) {
            None => (t.push(e), c),
            Some(m) => {
                let o = t[m];
                if o == e {
                    st
                } else if may_share(e, o) {
                    (t.push(e), c)
                } else if takes_over(e, o) {
                    match free_from(t, e.public_port) {
                        Some(q) => (t.update(m, with_port(o, q)).push(e), c),
                        None => in_conflict(st, e),
                    }
                } else if e.priority != PortPriority::Required {
                    probe(st, e, e.public_port)
                } else {
                    in_conflict(st, e)
                }
            },
        }
    }
}

/// The table and the apps in conflict after the requests, in order.
pub open spec fn run(reqs: Seq<PortRow>) -> (Seq<PortRow>, Seq<Seq<char>>)
    decreases reqs.len(),
{
    if reqs.len() == 0 {
        (seq![], seq![])
    } else {
        step(run(reqs.drop_last()), reqs.last())
    }
}

/// Request `e` is processed before `f`: installed apps first, then by app id.
pub open spec fn goes_before(e: PortRow, f: PortRow, installed: Seq<Seq<char>>) -> bool {
    let ie = installed.contains(e.app);
    let if_ = installed.contains(f.app);
    (ie && !if_) || (ie == if_ && text_lt(e.app, f.app))
}

/// `s` with `e` placed after every request that does not go after it.
pub open spec fn insert_request(s: Seq<PortRow>, e: PortRow, installed: Seq<Seq<char>>) -> Seq<PortRow>
    decreases s.len(),
{
    if s.len() == 0 {
        seq![e]
    } else if goes_before(e, s.last(), installed) {
        insert_request(s.drop_last(), e, installed).push(s.last())
    } else {
        s.push(e)
    }
}

/// The requests in processing order; requests of equal rank keep their order.
pub open spec fn request_order(s: Seq<PortRow>, installed: Seq<Seq<char>>) -> Seq<PortRow>
    decreases s.len(),
{
    if s.len() == 0 {
        seq![]
    } else {
        insert_request(request_order(s.drop_last(), installed), s.last(), installed)
    }
}

/// `s` with `r` placed after every row that does not come after it.
pub open spec fn insert_row(s: Seq<PortRow>, r: PortRow) -> Seq<PortRow>
    decreases s.len(),
{
    if s.len() == 0 {
        seq![r]
    } else if row_lt(r, s.last()) {
        insert_row(s.drop_last(), r).push(s.last())
    } else {
        s.push(r)
    }
}

/// The rows sorted by public port, then app; equal rows keep their order.
pub open spec fn sort_rows(s: Seq<PortRow>) -> Seq<PortRow>
    decreases s.len(),
{
    if s.len() == 0 {
        seq![]
    } else {
        insert_row(sort_rows(s.drop_last()), s.last())
    }
}

/// The port table and the apps in conflict for the requests `entries`, with
/// `installed` the installed apps.
pub open spec fn resolved(entries: Seq<PortRow>, installed: Seq<Seq<char>>) -> (Seq<PortRow>, Seq<Seq<char>>) {
    let st = run(request_order(entries, installed));
    (sort_rows(st.0), st.1)
}

proof fn lemma_insert_request_at(s: Seq<PortRow>, e: PortRow, installed: Seq<Seq<char>>, j: int)
    requires
        0 <= j <= s.len(),
        forall|k: int| j <= k < s.len() ==> goes_before(e, #[trigger] s[k], installed),
        j > 0 ==> !goes_before(e, s[j - 1], installed),
    ensures
        insert_request(s, e, installed) == s.insert(j, e),
    decreases s.len(),
{
    if s.len() == 0 {
        assert(s.insert(j, e) =~= seq![e]);
    } else if j == s.len() {
        assert(s.insert(j, e) =~= s.push(e));
    } else {
        lemma_insert_request_at(s.drop_last(), e, installed, j);
        assert(s.drop_last().insert(j, e).push(s.last()) =~= s.insert(j, e));
    }
}

proof fn lemma_insert_row_at(s: Seq<PortRow>, r: PortRow, j: int)
    requires
        0 <= j <= s.len(),
        forall|k: int| j <= k < s.len() ==> row_lt(r, #[trigger] s[k]),
        j > 0 ==> !row_lt(r, s[j - 1]),
    ensures
        insert_row(s, r) == s.insert(j, r),
    decreases s.len(),
{
    if s.len() == 0 {
        assert(s.insert(j, r) =~= seq![r]);
    } else if j == s.len() {
        assert(s.insert(j, r) =~= s.push(r));
    } else {
        lemma_insert_row_at(s.drop_last(), r, j);
        assert(s.drop_last().insert(j, r).push(s.last()) =~= s.insert(j, r));
    }
}

proof fn lemma_rows_push(t: Seq<PortMapEntry>, x: PortMapEntry)
    ensures
        rows(t.push(x)) == rows(t).push(x@),
{
    assert(rows(t.push(x)) =~= rows(t).push(x@));
}

/// Assigns public ports so that no two apps clash.
///
/// Requests are taken installed apps first, then by app id. A request on a
/// reserved port moves up to the next free port, or puts its app in conflict
/// when it is Required. On a taken port: an identical request is dropped; two
/// Required requests implementing the same thing share the port; otherwise the
/// higher priority keeps the port and the other moves up, a Required request
/// against a Required one puts its app in conflict, and between equal lower
/// priorities the smaller app id keeps the port. A request that finds no free
/// port above its own puts its app in conflict. An app in conflict loses all its
/// rows. The table comes back sorted by public port, then app.
pub fn resolve_port_conflicts(entries: Vec<PortMapEntry>, installed_apps: &[String]) -> (r: (
    Vec<PortMapEntry>,
    Vec<String>,
))
    ensures
        ports_unique(rows(r.0@)),
        forall|a: int, b: int| 0 <= a < b < r.0@.len() ==> row_le(r.0@[a]@, r.0@[b]@),
        forall|t: int| 0 <= t < r.0@.len() ==> from_request(entries@, entries@.len() as int, #[trigger] r.0@[t]@),
        forall|t: int| 0 <= t < r.0@.len() ==> !views(r.1@).contains(#[trigger] r.0@[t].app@),
        forall|k: int| 0 <= k < entries@.len() ==> views(r.1@).contains(#[trigger] entries@[k].app@) || represented(r.0@, entries@[k]@),
        rows(r.0@) == resolved(rows(entries@), views(installed_apps@)).0,
        views(r.1@) == resolved(rows(entries@), views(installed_apps@)).1,
        forall|c: int| 0 <= c < r.1@.len() ==> conflict_justified(entries@, (#[trigger] r.1@[c])@),
        views(r.1@).no_duplicates(),
        forall|k: int|
            0 <= k < entries@.len() && (#[trigger] entries@[k]).priority == PortPriority::Required && reserved(entries@[k].public_port)
                ==> views(r.1@).contains(entries@[k].app@),
        forall|t: int|
            0 <= t < r.0@.len() && (#[trigger] r.0@[t]).priority == PortPriority::Required ==> exact_request(
                entries@,
                entries@.len() as int,
                r.0@[t]@,
            ),
{
    broadcast use vstd::seq_lib::group_to_multiset_ensures;
    let ord_vec = order_requests(entries, installed_apps);
    let ghost ord = ord_vec@;
    let mut pending = ord_vec;
    let mut table: Vec<PortMapEntry> = Vec::new();
    let mut conflicts: Vec<String> = Vec::new();
    let total = pending.len();
    let mut i: usize = 0;
    proof {
        lemma_table_start(ord);
        lemma_extra_start(ord);
        assert(views(conflicts@) =~= seq![]);
        assert(rows(ord).take(0) =~= seq![]);
        assert(rows(table@) =~= seq![]);
    }
    while pending.len() > 0
        invariant
            ord.len() == total,
            i <= total,
            pending@ == ord.skip(i as int),
            table_ok(ord, i as int, table@, views(conflicts@)),
            table_extra(ord, i as int, table@, views(conflicts@)),
            rows(table@) == run(rows(ord).take(i as int)).0,
            views(conflicts@) == run(rows(ord).take(i as int)).1,
        decreases pending@.len(),
    {
        let e = pending.remove(0);
        assert(ord[i as int] == e);
        assert(ord.skip(i as int).remove(0) =~= ord.skip(i + 1));
        let ghost cv = views(conflicts@);
        let ghost st = run(rows(ord).take(i as int));
        proof {
            assert(rows(ord).take(i + 1).drop_last() =~= rows(ord).take(i as int));
            assert(rows(ord).take(i + 1).last() == e@);
            assert(run(rows(ord).take(i + 1)) == step(st, e@));
            lemma_ok_unique(ord, i as int, table@, cv);
            lemma_extra_facts(ord, i as int, table@, cv);
        }
        // where the request ends up: Some(port) for a new row, None for a conflict
        let mut place: Option<u16> = None;
        let mut skip = false;
        if contains_text(conflicts.as_slice(), e.app.as_str()) {
            skip = true;
            proof {
                lemma_skip(ord, i as int, table@, cv);
                lemma_extra_skip(ord, i as int, table@, cv);
            }
        } else if is_reserved(e.public_port) {
            if e.priority != PortPriority::Required {
                place = free_port_from(&table, e.public_port);
                proof {
                    if place is None {
                        lemma_full_table(table@, e.public_port);
                    }
                }
            }
        } else {
            match row_at(&table, e.public_port) {
                None => {
                    place = Some(e.public_port);
                },
                Some(m) => {
                    proof {
                        assert(rows(table@)[m as int] == table@[m as int]@);
                    }
                    let shares = e.implements.is_some() && same_opt(&e.implements, &table[m].implements)
                        && e.priority == table[m].priority && e.priority == PortPriority::Required;
                    let takes_over = e.priority.rank() > table[m].priority.rank() || (e.priority
                        == table[m].priority && e.priority != PortPriority::Required && text_less(
                        e.app.as_str(),
                        table[m].app.as_str(),
                    ));
                    if e.same_as(&table[m]) {
                        skip = true;
                        proof {
                            assert(same_request(table@[m as int]@, ord[i as int]@));
                            lemma_skip(ord, i as int, table@, cv);
                            lemma_extra_skip(ord, i as int, table@, cv);
                        }
                    } else if shares {
                        proof {
                            lemma_share(table@, m as int, e);
                        }
                        skip = true;
                        let x = e.moved_to(e.public_port);
                        proof {
                            assert(x@ == e@);
                            lemma_rows_push(table@, x);
                            assert(x@ == e@);
                            lemma_push_row(ord, i as int, table@, cv, x);
                            lemma_extra_push(ord, i as int, table@, cv, x);
                        }
                        table.push(x);
                    } else if takes_over {
                        match free_port_from(&table, e.public_port) {
                            Some(q) => {
                                let moved = table[m].moved_to(q);
                                proof {
                                    assert(moved@ == with_port(rows(table@)[m as int], q));
                                    assert(rows(table@.update(m as int, moved)) =~= rows(table@).update(m as int, moved@));
                                    lemma_move_row(ord, i as int, table@, cv, m as int, moved);
                                    lemma_extra_move(ord, i as int, table@, cv, m as int, moved);
                                }
                                table.set(m, moved);
                                place = Some(e.public_port);
                            },
                            None => {
                                proof {
                                    lemma_full_table(table@, e.public_port);
                                }
                            },
                        }
                    } else if e.priority != PortPriority::Required {
                        place = free_port_from(&table, e.public_port);
                        proof {
                            if place is None {
                                lemma_full_table(table@, e.public_port);
                            }
                        }
                    } else {
                        proof {
                            let mr = table@[m as int];
                            assert(mr.priority == PortPriority::Required);
                            let k = choose|k: int| 0 <= k < i && #[trigger] ord[k]@ == mr@;
                            assert(mr@ != e@);
                            assert(!shareable(mr@, e@));
                            assert(clash(ord[k]@, ord[i as int]@));
                        }
                    }
                },
            }
        }
        if !skip {
            match place {
                Some(q) => {
                    let x = e.moved_to(q);
                    proof {
                        assert(x@ == with_port(e@, q));
                        lemma_rows_push(table@, x);
                        assert forall|t: int| 0 <= t < table@.len() && (#[trigger] table@[t]).public_port == x.public_port implies shareable(table@[t]@, x@) by {}
                        lemma_push_row(ord, i as int, table@, cv, x);
                        assert(e.priority == PortPriority::Required ==> q == e.public_port);
                        assert(x.priority == PortPriority::Required ==> x@ == e@);
                        assert(!(e.priority == PortPriority::Required && reserved(e.public_port)));
                        lemma_extra_push(ord, i as int, table@, cv, x);
                    }
                    table.push(x);
                },
                None => {
                    proof {
                        lemma_ok_unique(ord, i as int, table@, cv);
                    }
                    let t2 = without_app(table, e.app.as_str());
                    proof {
                        lemma_conflict(ord, i as int, table@, cv, t2@);
                        assert(conflict_reason(ord, i as int));
                        assert(!cv.contains(e.app@));
                        lemma_extra_conflict(ord, i as int, table@, cv, t2@);
                    }
                    conflicts.push(e.app);
                    assert(views(conflicts@) =~= cv.push(e.app@));
                    table = t2;
                    assert(rows(table@) == drop_app(st.0, e@.app));
                },
            }
        }
        proof {
            assert(rows(table@) == step(st, e@).0 && views(conflicts@) == step(st, e@).1);
        }
        i = i + 1;
    }
    proof {
        assert(i == ord.len());
        lemma_table_end(ord, table@, views(conflicts@));
    }
    proof {
        assert(rows(ord).take(ord.len() as int) =~= rows(ord));
    }
    let result = sort_table(table);
    proof {
        lemma_table_end(ord, table@, views(conflicts@));
        assert(ord.to_multiset() == entries@.to_multiset());
        assert forall|k: int| 0 <= k < ord.len() implies entries@.contains(#[trigger] ord[k]) by {
            assert(ord.to_multiset().contains(ord[k]));
        }
        assert forall|k: int| 0 <= k < entries@.len() implies ord.contains(#[trigger] entries@[k]) by {
            assert(entries@.to_multiset().contains(entries@[k]));
        }
        assert forall|t: int| 0 <= t < result@.len() implies table@.contains(#[trigger] result@[t]) by {
            assert(result@.to_multiset().contains(result@[t]));
        }
        assert forall|t: int| 0 <= t < table@.len() implies result@.contains(#[trigger] table@[t]) by {
            assert(table@.to_multiset().contains(table@[t]));
        }
        assert forall|t: int| 0 <= t < result@.len() implies from_request(entries@, entries@.len() as int, #[trigger] result@[t]@) by {
            assert(table@.contains(result@[t]));
            let w = choose|w: int| 0 <= w < table@.len() && table@[w] == result@[t];
            let k = choose|k: int| 0 <= k < ord.len() && same_request(#[trigger] table@[w]@, ord[k]@);
            assert(entries@.contains(ord[k]));
            let k2 = choose|k2: int| 0 <= k2 < entries@.len() && entries@[k2] == ord[k];
            assert(same_request(result@[t]@, entries@[k2]@));
        }
        assert forall|t: int| 0 <= t < result@.len() implies !views(conflicts@).contains(#[trigger] result@[t].app@) by {
            assert(table@.contains(result@[t]));
            let w = choose|w: int| 0 <= w < table@.len() && table@[w] == result@[t];
            assert(!views(conflicts@).contains(table@[w].app@));
        }
        assert forall|k: int| 0 <= k < entries@.len() implies views(conflicts@).contains(#[trigger] entries@[k].app@) || represented(result@, entries@[k]@) by {
            assert(ord.contains(entries@[k]));
            let o = choose|o: int| 0 <= o < ord.len() && ord[o] == entries@[k];
            assert(views(conflicts@).contains(ord[o].app@) || represented(table@, ord[o]@));
            if represented(table@, ord[o]@) {
                let w = choose|w: int| 0 <= w < table@.len() && same_request(#[trigger] table@[w]@, ord[o]@);
                assert(result@.contains(table@[w]));
                let v = choose|v: int| 0 <= v < result@.len() && result@[v] == table@[w];
                assert(same_request(result@[v]@, entries@[k]@));
            }
        }
        lemma_extra_facts(ord, ord.len() as int, table@, views(conflicts@));
        assert(ord.to_multiset().len() == entries@.to_multiset().len());
        assert(ord.len() == entries@.len());
        assert forall|c: int| 0 <= c < conflicts@.len() implies conflict_justified(entries@, (#[trigger] conflicts@[c])@) by {
            assert(views(conflicts@)[c] == conflicts@[c]@);
            assert(conflict_justified(ord, views(conflicts@)[c]));
            let k = choose|k: int| 0 <= k < ord.len() && #[trigger] ord[k].app@ == views(conflicts@)[c] && conflict_reason(ord, k);
            assert(entries@.contains(ord[k]));
            let k2 = choose|k2: int| 0 <= k2 < entries@.len() && entries@[k2] == ord[k];
            if exists|j: int| 0 <= j < ord.len() && #[trigger] clash(ord[j]@, ord[k]@) {
                let j = choose|j: int| 0 <= j < ord.len() && #[trigger] clash(ord[j]@, ord[k]@);
                assert(entries@.contains(ord[j]));
                let j2 = choose|j2: int| 0 <= j2 < entries@.len() && entries@[j2] == ord[j];
                assert(clash(entries@[j2]@, entries@[k2]@));
            }
            assert(conflict_reason(entries@, k2));
            assert(entries@[k2].app@ == conflicts@[c]@);
        }
        assert forall|k: int|
            0 <= k < entries@.len() && (#[trigger] entries@[k]).priority == PortPriority::Required && reserved(entries@[k].public_port)
                implies views(conflicts@).contains(entries@[k].app@) by {
            assert(ord.contains(entries@[k]));
            let o = choose|o: int| 0 <= o < ord.len() && ord[o] == entries@[k];
            assert(ord[o].priority == PortPriority::Required && reserved(ord[o].public_port));
        }
        assert forall|t: int|
            0 <= t < result@.len() && (#[trigger] result@[t]).priority == PortPriority::Required implies exact_request(
                entries@,
                entries@.len() as int,
                result@[t]@,
            ) by {
            assert(table@.contains(result@[t]));
            let w = choose|w: int| 0 <= w < table@.len() && table@[w] == result@[t];
            assert(table@[w].priority == PortPriority::Required);
            let k = choose|k: int| 0 <= k < ord.len() && #[trigger] ord[k]@ == table@[w]@;
            assert(entries@.contains(ord[k]));
            let k2 = choose|k2: int| 0 <= k2 < entries@.len() && entries@[k2] == ord[k];
            assert(entries@[k2]@ == result@[t]@);
        }
    }
    (result, conflicts)
}

/// When no port from `start` upwards is free, the table holds at least as many
/// rows as there are ports there, but for the two reserved ones.
proof fn lemma_full_table(table: Seq<PortMapEntry>, start: u16)
    requires
        forall|x: u16| start <= x ==> !free_in(table, x),
    ensures
        table.len() + start >= 65534,
{
    broadcast use vstd::seq_lib::seq_to_set_is_finite;
    let ports = table.map_values(|e: PortMapEntry| e.public_port as int);
    let taken = ports.to_set();
    let reserved_set = set![80int, 443int];
    let range = vstd::set_lib::set_int_range(start as int, 65536);
    ports.lemma_cardinality_of_set();
    vstd::set_lib::lemma_int_range(start as int, 65536);
    assert(reserved_set.finite() && reserved_set.len() <= 2) by {
        assert(set![80int].insert(443int) == reserved_set);
    }
    assert(range.subset_of(taken.union(reserved_set))) by {
        assert forall|y: int| range.contains(y) implies taken.union(reserved_set).contains(y) by {
            let x = y as u16;
            assert(x as int == y);
            assert(!free_in(table, x));
            if !reserved(x) {
                let k = choose|k: int| 0 <= k < table.len() && (#[trigger] table[k]).public_port == x;
                assert(ports[k] == y);
                assert(taken.contains(y));
            }
        }
    }
    vstd::set_lib::lemma_len_union(taken, reserved_set);
    vstd::set_lib::lemma_len_subset(range, taken.union(reserved_set));
}


/// The rows of `t` that belong to `app`, in order.
pub open spec fn rows_of_app(t: Seq<PortRow>, app: Seq<char>) -> Seq<PortRow>
    decreases t.len(),
{
    if t.len() == 0 {
        seq![]
    } else if t.last().app == app {
        rows_of_app(t.drop_last(), app).push(t.last())
    } else {
        rows_of_app(t.drop_last(), app)
    }
}

/// The rows of the resolved port table that belong to `app`, in order.
pub fn ports_of_app(table: &[PortMapEntry], app: &str) -> (r: Vec<PortMapEntry>)
    ensures
        rows(r@) == rows_of_app(rows(table@), app@),
{
    let mut out: Vec<PortMapEntry> = Vec::new();
    let mut i: usize = 0;
    proof {
        assert(rows(table@).take(0) =~= seq![]);
        assert(rows(out@) =~= seq![]);
    }
    while i < table.len()
        invariant
            i <= table@.len(),
            rows(out@) == rows_of_app(rows(table@).take(i as int), app@),
        decreases table@.len() - i,
    {
        proof {
            assert(rows(table@).take(i + 1).drop_last() =~= rows(table@).take(i as int));
            assert(rows(table@).take(i + 1).last() == table@[i as int]@);
        }
        if same_text(table[i].app.as_str(), app) {
            let x = table[i].moved_to(table[i].public_port);
            assert(x@ == table@[i as int]@);
            proof {
                lemma_rows_push(out@, x);
            }
            out.push(x);
        }
        i = i + 1;
    }
    assert(rows(table@).take(i as int) =~= rows(table@));
    out
}

} // verus!
