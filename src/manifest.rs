use vstd::prelude::*;
use crate::env_vars::{env_refs, find_env_vars};
use crate::permissions::{Permission, VarValue};
use crate::ports::{opt_view, rows, PortMapEntry, PortPriority, PortRow};
use crate::text::views;

verus! {

/// A command line: one string for a shell, or its words.
#[derive(Clone, Debug)]
pub enum Command {
    SimpleCmd(String),
    ArraySyntax(Vec<String>),
}

/// The references of each string of `parts`, one after the other.
pub open spec fn refs_of_all(parts: Seq<Seq<char>>) -> Seq<Seq<char>>
    decreases parts.len(),
{
    if parts.len() == 0 {
        seq![]
    } else {
        refs_of_all(parts.drop_last()) + env_refs(parts.last())
    }
}

/// The environment variables that a command refers to, in order.
pub open spec fn command_refs(c: Command) -> Seq<Seq<char>> {
    match c {
        Command::SimpleCmd(s) => env_refs(s@),
        Command::ArraySyntax(v) => refs_of_all(views(v@)),
    }
}

impl Command {
    /// The environment variables that this command refers to, in order.
    pub fn get_env_vars(&self) -> (r: Vec<String>)
        ensures
            views(r@) == command_refs(*self),
    {
        match self {
            Command::SimpleCmd(cmd) => find_env_vars(cmd.as_str()),
            Command::ArraySyntax(cmd) => {
                let mut env_vars: Vec<String> = Vec::new();
                let mut i: usize = 0;
                while i < cmd.len()
                    invariant
                        i <= cmd@.len(),
                        views(env_vars@) == refs_of_all(views(cmd@).take(i as int)),
                    decreases cmd@.len() - i,
                {
                    let mut found = find_env_vars(cmd[i].as_str());
                    let ghost before = env_vars@;
                    env_vars.append(&mut found);
                    proof {
                        let t = views(cmd@).take(i + 1);
                        assert(t.drop_last() =~= views(cmd@).take(i as int));
                        assert(views(env_vars@) =~= views(before) + env_refs(cmd@[i as int]@));
                    }
                    i = i + 1;
                }
                assert(views(cmd@).take(i as int) =~= views(cmd@));
                env_vars
            },
        }
    }
}

/// Another app that an app depends on, or a choice of them.
#[derive(Clone, Debug)]
pub enum Dependency {
    OneDependency(String),
    AlternativeDependency(Vec<String>),
}

/// Public ports an app needs, each mapped to a container port.
pub struct PortsDefinition {
    /// Ports that may not be proxied
    pub direct_tcp: Vec<(u16, u16)>,
    /// TCP ports that may be proxied (and support TLS)
    pub tcp: Vec<(u16, u16)>,
    pub http: Vec<(u16, u16)>,
    pub udp: Vec<(u16, u16)>,
}

impl PortsDefinition {
    pub fn is_empty(&self) -> (r: bool)
        ensures
            r == (self.direct_tcp@.len() == 0 && self.tcp@.len() == 0 && self.http@.len() == 0
                && self.udp@.len() == 0),
    {
        self.direct_tcp.len() == 0 && self.tcp.len() == 0 && self.http.len() == 0 && self.udp.len() == 0
    }
}

/// A mount: a single path, or a map of host directories to container directories.
pub enum StringOrMap {
    String(String),
    Mapping(Vec<(String, String)>),
}

/// A container as an app declares it.
pub struct Container {
    // copied without validation
    pub image: String,
    pub user: Option<String>,
    pub stop_grace_period: Option<String>,
    pub stop_signal: Option<String>,
    pub depends_on: Option<Vec<String>>,
    pub restart: Option<String>,
    pub init: Option<bool>,
    pub extra_hosts: Option<Vec<String>>,
    pub working_dir: Option<String>,
    pub shm_size: Option<VarValue>,
    // checked before use
    pub entrypoint: Option<Command>,
    pub command: Option<Command>,
    pub environment: Vec<(String, VarValue)>,
    pub cap_add: Vec<String>,
    pub network_mode: Option<String>,
    // converted
    pub port: Option<u16>,
    pub port_priority: Option<PortPriority>,
    pub required_ports: PortsDefinition,
    /// Mounts by name; each entry is taken as it comes, in order
    pub mounts: Vec<(String, StringOrMap)>,
    /// Proxy traffic on the TCP layer instead of handling HTTP
    pub direct_tcp: bool,
    pub disable_caddy: bool,
}

/// The metadata an app declares.
pub struct InputMetadata {
    pub name: String,
    pub version: String,
    pub category: String,
    pub tagline: String,
    pub developers: Vec<(String, String)>,
    pub description: String,
    pub dependencies: Vec<Dependency>,
    pub repo: Vec<(String, String)>,
    pub support: String,
    pub gallery: Option<Vec<String>>,
    pub path: Option<String>,
    pub default_username: Option<String>,
    pub default_password: Option<String>,
    pub tor_only: bool,
    pub update_containers: Option<Vec<String>>,
    pub implements: Option<String>,
    pub version_control: Option<String>,
    pub release_notes: Vec<(String, String)>,
    pub shared_dir: Option<String>,
    /// Permissions the app's first-stage template has
    pub app_yml_jinja_permissions: Vec<String>,
}

/// What an app exposes and needs besides its containers.
pub struct AppYmlMetadata {
    /// Permissions this app exposes
    pub permissions: Vec<Permission>,
    /// Permissions this app's config templates have
    pub jinja_config_permissions: Vec<String>,
    /// Permissions this app has
    pub has_permissions: Vec<String>,
}

/// An app definition: its containers and what it exposes.
pub struct AppYml {
    pub version: u8,
    /// Containers by name; the first one named `main` is the main container
    pub services: Vec<(String, Container)>,
    pub metadata: AppYmlMetadata,
}

/// An app's metadata file.
pub struct MetadataYml {
    pub version: u8,
    pub metadata: InputMetadata,
}

/// The registry record of an app.
pub struct OutputMetadata {
    pub id: String,
    pub name: String,
    pub version: String,
    pub category: String,
    pub tagline: String,
    pub developers: Vec<(String, String)>,
    pub description: String,
    pub dependencies: Vec<Dependency>,
    /// Permissions the app has
    pub has_permissions: Vec<String>,
    pub repo: Vec<(String, String)>,
    pub support: String,
    pub gallery: Option<Vec<String>>,
    pub path: Option<String>,
    pub default_username: Option<String>,
    pub default_password: Option<String>,
    pub tor_only: bool,
    pub update_containers: Option<Vec<String>>,
    pub implements: Option<String>,
    pub version_control: Option<String>,
    /// All dependencies are installed
    pub compatible: bool,
    pub port: u16,
    pub internal_port: u16,
    pub release_notes: Vec<(String, String)>,
    pub supports_https: bool,
}

/// A route of the reverse proxy to a container port.
pub struct CaddyEntry {
    pub public_port: u16,
    pub internal_port: u16,
    pub container_name: String,
    pub is_primary: bool,
    pub is_l4: bool,
}

pub struct NetworkEntry {
    pub ipv4_address: Option<String>,
}

/// A service of the generated compose file.
pub struct Service {
    pub cap_add: Vec<String>,
    pub command: Option<Command>,
    pub depends_on: Option<Vec<String>>,
    pub entrypoint: Option<Command>,
    pub environment: Vec<(String, VarValue)>,
    pub extra_hosts: Option<Vec<String>>,
    pub hostname: Option<String>,
    pub image: String,
    pub init: Option<bool>,
    pub network_mode: Option<String>,
    pub networks: Option<Vec<(String, NetworkEntry)>>,
    pub ports: Vec<String>,
    pub restart: Option<String>,
    pub stop_grace_period: Option<String>,
    pub stop_signal: Option<String>,
    pub user: Option<String>,
    pub volumes: Vec<String>,
    pub working_dir: Option<String>,
    pub shm_size: Option<VarValue>,
}

/// The services of a compose file.
pub struct ComposeSpecification {
    pub services: Vec<(String, Service)>,
}

/// Everything generated for one app.
pub struct ResultYml {
    pub caddy_entries: Vec<CaddyEntry>,
    pub spec: ComposeSpecification,
    pub metadata: OutputMetadata,
}

/// A port of an app's port map.
pub struct PortMapElement {
    pub internal_port: u16,
    pub public_port: u16,
    pub dynamic: bool,
}

/// The first element of the port map for the given container port.
pub fn get_host_port(port_map: &[PortMapElement], internal_port: u16) -> (r: Option<&PortMapElement>)
    ensures
        match r {
            Some(e) => exists|k: int|
                0 <= k < port_map@.len() && port_map@[k] == *e && e.internal_port == internal_port && forall|j: int|
                    0 <= j < k ==> (#[trigger] port_map@[j]).internal_port != internal_port,
            None => forall|j: int| 0 <= j < port_map@.len() ==> (#[trigger] port_map@[j]).internal_port != internal_port,
        },
{
    let mut i: usize = 0;
    while i < port_map.len()
        invariant
            i <= port_map@.len(),
            forall|j: int| 0 <= j < i ==> (#[trigger] port_map@[j]).internal_port != internal_port,
        decreases port_map@.len() - i,
    {
        if port_map[i].internal_port == internal_port {
            return Some(&port_map[i]);
        }
        i = i + 1;
    }
    None
}

/// The port requests of an app: the main port of each container that has one,
/// then its required TCP ports, then its UDP and HTTP ones unless another
/// request of the app already has that public port.
pub fn app_ports(app: &AppYml, own_id: &str, implements: &Option<String>) -> (r: Vec<PortMapEntry>)
    ensures
        forall|k: int| 0 <= k < r@.len() ==> (#[trigger] r@[k]).app@ == own_id@ && opt_view(r@[k].implements)
            == opt_view(*implements),
        forall|k: int|
            0 <= k < r@.len() ==> (#[trigger] r@[k]).priority == PortPriority::Required || exists|c: int|
                0 <= c < app.services@.len() && app.services@[c].1.port == Some(r@[k].internal_port) && r@[k].public_port
                    == r@[k].internal_port && r@[k].container@ == app.services@[c].0@,
        forall|c: int| 0 <= c < app.services@.len() && (#[trigger] app.services@[c]).1.port is Some ==> exists|k: int|
            0 <= k < r@.len() && r@[k].container@ == app.services@[c].0@ && r@[k].internal_port == app.services@[c].1.port->0,
        forall|c: int| 0 <= c < app.services@.len() ==> service_rows(r@, (#[trigger] app.services@[c]).0@, app.services@[c].1),
        rows(r@) == app_requests(app.services@, own_id@, opt_view(*implements)),
{
    proof {
        assert(app.services@.take(0) =~= seq![]);
        assert(rows(Seq::<PortMapEntry>::empty()) =~= seq![]);
    }
    let mut ports: Vec<PortMapEntry> = Vec::new();
    let mut c: usize = 0;
    while c < app.services.len()
        invariant
            c <= app.services@.len(),
            forall|k: int| 0 <= k < ports@.len() ==> (#[trigger] ports@[k]).app@ == own_id@ && opt_view(ports@[k].implements)
                == opt_view(*implements),
            forall|k: int|
                0 <= k < ports@.len() ==> (#[trigger] ports@[k]).priority == PortPriority::Required || exists|c2: int|
                    0 <= c2 < app.services@.len() && app.services@[c2].1.port == Some(ports@[k].internal_port)
                        && ports@[k].public_port == ports@[k].internal_port && ports@[k].container@ == app.services@[c2].0@,
            forall|c2: int| 0 <= c2 < c && (#[trigger] app.services@[c2]).1.port is Some ==> exists|k: int|
                0 <= k < ports@.len() && ports@[k].container@ == app.services@[c2].0@ && ports@[k].internal_port == app.services@[c2].1.port->0,
            forall|c2: int| 0 <= c2 < c ==> service_rows(ports@, (#[trigger] app.services@[c2]).0@, app.services@[c2].1),
            rows(ports@) == app_requests(app.services@.take(c as int), own_id@, opt_view(*implements)),
        decreases app.services@.len() - c,
    {
        let name = &app.services[c].0;
        let container = &app.services[c].1;
        let ghost before = ports@;
        if let Some(port) = container.port {
            let priority = match container.port_priority {
                Some(p) => p,
                None => PortPriority::Optional,
            };
            ports.push(entry(own_id, port, port, name.as_str(), implements, priority));
            assert(ports@[before.len() as int].container@ == app.services@[c as int].0@);
        }
        proof {
            if container.port is Some {
                assert(ports@[before.len() as int]@ == request_row(own_id@, name@, container.port->0, container.port->0, opt_view(*implements), main_priority(*container)));
                assert(rows(ports@) =~= rows(before).push(ports@[before.len() as int]@));
            }
        }
        let ghost mid = ports@;
        proof {
            if container.port is Some {
                let n = before.len() as int;
                assert(mid[n].container@ == name@);
                assert(has_row(mid, name@, container.port->0, container.port->0, main_priority(*container)));
            }
        }
        add_required(&mut ports, &container.required_ports.direct_tcp, own_id, name.as_str(), implements, false);
        let ghost p1 = ports@;
        add_required(&mut ports, &container.required_ports.tcp, own_id, name.as_str(), implements, false);
        let ghost p2 = ports@;
        add_required(&mut ports, &container.required_ports.udp, own_id, name.as_str(), implements, true);
        let ghost p3 = ports@;
        add_required(&mut ports, &container.required_ports.http, own_id, name.as_str(), implements, true);
        proof {
            lemma_rows_extend(mid, p1);
            lemma_rows_extend(p1, p2);
            lemma_rows_extend(p2, p3);
            lemma_rows_extend(p3, ports@);
            lemma_rows_extend(before, ports@);
            let cc = *container;
            assert forall|j: int| 0 <= j < cc.required_ports.direct_tcp@.len() implies has_row(
                ports@, name@, (#[trigger] cc.required_ports.direct_tcp@[j]).0, cc.required_ports.direct_tcp@[j].1, PortPriority::Required) by {
                assert(has_row(p1, name@, cc.required_ports.direct_tcp@[j].0, cc.required_ports.direct_tcp@[j].1, PortPriority::Required));
            }
            assert forall|j: int| 0 <= j < cc.required_ports.tcp@.len() implies has_row(
                ports@, name@, (#[trigger] cc.required_ports.tcp@[j]).0, cc.required_ports.tcp@[j].1, PortPriority::Required) by {
                assert(has_row(p2, name@, cc.required_ports.tcp@[j].0, cc.required_ports.tcp@[j].1, PortPriority::Required));
            }
            assert forall|j: int| 0 <= j < cc.required_ports.udp@.len() implies port_taken(ports@, (#[trigger] cc.required_ports.udp@[j]).0) by {
                assert(port_taken(p3, cc.required_ports.udp@[j].0));
            }
            assert(service_rows(ports@, name@, cc));
            assert forall|c2: int| 0 <= c2 < c + 1 implies service_rows(ports@, (#[trigger] app.services@[c2]).0@, app.services@[c2].1) by {
                if c2 < c {
                    assert(service_rows(before, app.services@[c2].0@, app.services@[c2].1));
                }
            }
        }
        proof {
            assert forall|c2: int| 0 <= c2 < c + 1 && (#[trigger] app.services@[c2]).1.port is Some implies exists|k: int|
                0 <= k < ports@.len() && ports@[k].container@ == app.services@[c2].0@ && ports@[k].internal_port == app.services@[c2].1.port->0 by {
                if c2 < c {
                    let k = choose|k: int|
                        0 <= k < before.len() && before[k].container@ == app.services@[c2].0@ && before[k].internal_port == app.services@[c2].1.port->0;
                    assert(ports@[k] == before[k]);
                } else {
                    assert(ports@[before.len() as int] == mid[before.len() as int]);
                }
            }
        }
        proof {
            let t1 = app.services@.take(c + 1);
            assert(t1.drop_last() =~= app.services@.take(c as int));
            assert(t1.last() == app.services@[c as int]);
        }
        c = c + 1;
    }
    proof {
        assert(app.services@.take(c as int) =~= app.services@);
    }
    ports
}

fn entry(
    app: &str,
    internal_port: u16,
    public_port: u16,
    container: &str,
    implements: &Option<String>,
    priority: PortPriority,
) -> (r: PortMapEntry)
    ensures
        r.app@ == app@,
        r.internal_port == internal_port,
        r.public_port == public_port,
        r.container@ == container@,
        opt_view(r.implements) == opt_view(*implements),
        r.priority == priority,
{
    PortMapEntry {
        app: String::from_str(app),
        internal_port,
        public_port,
        container: String::from_str(container),
        implements: match implements {
            Some(s) => Some(s.clone()),
            None => None,
        },
        priority,
    }
}

/// Some request of `container` asks for public port `public` for its port `internal`, with `priority`.
pub open spec fn has_row(r: Seq<PortMapEntry>, container: Seq<char>, public: u16, internal: u16, priority: PortPriority) -> bool {
    exists|k: int|
        0 <= k < r.len() && #[trigger] r[k].container@ == container && r[k].public_port == public && r[k].internal_port
            == internal && r[k].priority == priority
}

/// The priority of a container's main port: Optional unless it says otherwise.
pub open spec fn main_priority(c: Container) -> PortPriority {
    match c.port_priority {
        Some(p) => p,
        None => PortPriority::Optional,
    }
}

/// The requests of container `name`: its main port, on the same public port,
/// with its priority; each direct TCP and TCP port, Required; and each UDP and
/// HTTP public port, unless some request already has it.
pub open spec fn service_rows(r: Seq<PortMapEntry>, name: Seq<char>, c: Container) -> bool {
    &&& c.port is Some ==> has_row(r, name, c.port->0, c.port->0, main_priority(c))
    &&& forall|j: int|
        0 <= j < c.required_ports.direct_tcp@.len() ==> has_row(
            r,
            name,
            (#[trigger] c.required_ports.direct_tcp@[j]).0,
            c.required_ports.direct_tcp@[j].1,
            PortPriority::Required,
        )
    &&& forall|j: int|
        0 <= j < c.required_ports.tcp@.len() ==> has_row(
            r,
            name,
            (#[trigger] c.required_ports.tcp@[j]).0,
            c.required_ports.tcp@[j].1,
            PortPriority::Required,
        )
    &&& forall|j: int| 0 <= j < c.required_ports.udp@.len() ==> port_taken(r, (#[trigger] c.required_ports.udp@[j]).0)
    &&& forall|j: int| 0 <= j < c.required_ports.http@.len() ==> port_taken(r, (#[trigger] c.required_ports.http@[j]).0)
}

proof fn lemma_rows_extend(a: Seq<PortMapEntry>, b: Seq<PortMapEntry>)
    requires
        a.len() <= b.len(),
        forall|k: int| 0 <= k < a.len() ==> b[k] == a[k],
    ensures
        forall|n: Seq<char>, p: u16, i: u16, pr: PortPriority| has_row(a, n, p, i, pr) ==> has_row(b, n, p, i, pr),
        forall|p: u16| port_taken(a, p) ==> port_taken(b, p),
        forall|n: Seq<char>, c: Container| service_rows(a, n, c) ==> service_rows(b, n, c),
{
    assert forall|n: Seq<char>, p: u16, i: u16, pr: PortPriority| has_row(a, n, p, i, pr) implies has_row(b, n, p, i, pr) by {
        let k = choose|k: int|
            0 <= k < a.len() && #[trigger] a[k].container@ == n && a[k].public_port == p && a[k].internal_port == i && a[k].priority == pr;
        assert(b[k] == a[k]);
    }
    assert forall|p: u16| port_taken(a, p) implies port_taken(b, p) by {
        let k = choose|k: int| 0 <= k < a.len() && (#[trigger] a[k]).public_port == p;
        assert(b[k] == a[k]);
    }
}

/// The request of `app`'s container `container` for public port `public` on
/// its port `internal`.
pub open spec fn request_row(
    app: Seq<char>,
    container: Seq<char>,
    public: u16,
    internal: u16,
    implements: Option<Seq<char>>,
    priority: PortPriority,
) -> PortRow {
    PortRow { app, internal_port: internal, public_port: public, container, implements, priority }
}

/// Some request of `t` has public port `p`.
pub open spec fn row_port_taken(t: Seq<PortRow>, p: u16) -> bool {
    exists|k: int| 0 <= k < t.len() && (#[trigger] t[k]).public_port == p
}

/// `acc` with a Required request for each pair, in order; with
/// `unless_taken`, only for a public port that no request has yet.
pub open spec fn add_pairs(
    acc: Seq<PortRow>,
    pairs: Seq<(u16, u16)>,
    app: Seq<char>,
    container: Seq<char>,
    implements: Option<Seq<char>>,
    unless_taken: bool,
) -> Seq<PortRow>
    decreases pairs.len(),
{
    if pairs.len() == 0 {
        acc
    } else {
        let o = add_pairs(acc, pairs.drop_last(), app, container, implements, unless_taken);
        let p = pairs.last();
        if unless_taken && row_port_taken(o, p.0) {
            o
        } else {
            o.push(request_row(app, container, p.0, p.1, implements, PortPriority::Required))
        }
    }
}

/// `acc` with the requests of container `name`: its main port, then its
/// direct TCP, TCP, UDP and HTTP ports.
pub open spec fn service_requests(acc: Seq<PortRow>, app: Seq<char>, name: Seq<char>, c: Container, implements: Option<Seq<char>>) -> Seq<PortRow> {
    let a1 = if c.port is Some {
        acc.push(request_row(app, name, c.port->0, c.port->0, implements, main_priority(c)))
    } else {
        acc
    };
    let a2 = add_pairs(a1, c.required_ports.direct_tcp@, app, name, implements, false);
    let a3 = add_pairs(a2, c.required_ports.tcp@, app, name, implements, false);
    let a4 = add_pairs(a3, c.required_ports.udp@, app, name, implements, true);
    add_pairs(a4, c.required_ports.http@, app, name, implements, true)
}

/// The port requests of an app, container after container.
pub open spec fn app_requests(services: Seq<(String, Container)>, app: Seq<char>, implements: Option<Seq<char>>) -> Seq<PortRow>
    decreases services.len(),
{
    if services.len() == 0 {
        seq![]
    } else {
        service_requests(app_requests(services.drop_last(), app, implements), app, services.last().0@, services.last().1, implements)
    }
}

/// Some request has public port `p`.
pub open spec fn port_taken(ports: Seq<PortMapEntry>, p: u16) -> bool {
    exists|k: int| 0 <= k < ports.len() && (#[trigger] ports[k]).public_port == p
}

fn has_public_port(ports: &Vec<PortMapEntry>, p: u16) -> (r: bool)
    ensures
        r == port_taken(ports@, p),
{
    let mut k: usize = 0;
    while k < ports.len()
        invariant
            k <= ports@.len(),
            forall|x: int| 0 <= x < k ==> (#[trigger] ports@[x]).public_port != p,
        decreases ports@.len() - k,
    {
        if ports[k].public_port == p {
            return true;
        }
        k = k + 1;
    }
    false
}

/// Adds a Required request for each `(public, container)` pair; with
/// `unless_taken`, only for a public port that no request has yet.
fn add_required(
    ports: &mut Vec<PortMapEntry>,
    pairs: &Vec<(u16, u16)>,
    app: &str,
    container: &str,
    implements: &Option<String>,
    unless_taken: bool,
)
    ensures
        old(ports)@.len() <= final(ports)@.len(),
        forall|k: int| 0 <= k < old(ports)@.len() ==> final(ports)@[k] == old(ports)@[k],
        forall|k: int|
            old(ports)@.len() <= k < final(ports)@.len() ==> (#[trigger] final(ports)@[k]).app@ == app@ && opt_view(
                final(ports)@[k].implements,
            ) == opt_view(*implements) && final(ports)@[k].priority == PortPriority::Required,
        forall|j: int| 0 <= j < pairs@.len() ==> port_taken(final(ports)@, (#[trigger] pairs@[j]).0),
        !unless_taken ==> forall|j: int|
            0 <= j < pairs@.len() ==> has_row(final(ports)@, container@, (#[trigger] pairs@[j]).0, pairs@[j].1, PortPriority::Required),
        rows(final(ports)@) == add_pairs(rows(old(ports)@), pairs@, app@, container@, opt_view(*implements), unless_taken),
{
    let ghost start = ports@;
    proof {
        assert(pairs@.take(0) =~= seq![]);
    }
    let mut i: usize = 0;
    while i < pairs.len()
        invariant
            i <= pairs@.len(),
            start.len() <= ports@.len(),
            forall|k: int| 0 <= k < start.len() ==> ports@[k] == start[k],
            forall|k: int|
                start.len() <= k < ports@.len() ==> (#[trigger] ports@[k]).app@ == app@ && opt_view(ports@[k].implements)
                    == opt_view(*implements) && ports@[k].priority == PortPriority::Required,
            forall|j: int| 0 <= j < i ==> port_taken(ports@, (#[trigger] pairs@[j]).0),
            !unless_taken ==> forall|j: int|
                0 <= j < i ==> has_row(ports@, container@, (#[trigger] pairs@[j]).0, pairs@[j].1, PortPriority::Required),
            rows(ports@) == add_pairs(rows(start), pairs@.take(i as int), app@, container@, opt_view(*implements), unless_taken),
        decreases pairs@.len() - i,
    {
        let (public_port, container_port) = pairs[i];
        let taken = unless_taken && has_public_port(ports, public_port);
        let ghost before = ports@;
        proof {
            assert(pairs@.take(i + 1).drop_last() =~= pairs@.take(i as int));
            assert(pairs@.take(i + 1).last() == pairs@[i as int]);
            assert(port_taken(before, public_port) == row_port_taken(rows(before), public_port)) by {
                if port_taken(before, public_port) {
                    let k = choose|k: int| 0 <= k < before.len() && (#[trigger] before[k]).public_port == public_port;
                    assert(rows(before)[k] == before[k]@);
                }
                if row_port_taken(rows(before), public_port) {
                    let k = choose|k: int| 0 <= k < rows(before).len() && (#[trigger] rows(before)[k]).public_port == public_port;
                    assert(rows(before)[k] == before[k]@);
                }
            }
        }
        if !taken {
            ports.push(entry(app, container_port, public_port, container, implements, PortPriority::Required));
            assert(ports@[before.len() as int].public_port == public_port);
        }
        proof {
            assert forall|j: int| 0 <= j < i + 1 implies port_taken(ports@, (#[trigger] pairs@[j]).0) by {
                if j < i {
                    let k = choose|k: int| 0 <= k < before.len() && (#[trigger] before[k]).public_port == pairs@[j].0;
                    assert(ports@[k] == before[k]);
                } else if !taken {
                    assert(ports@[before.len() as int].public_port == pairs@[j].0);
                } else {
                    let k = choose|k: int| 0 <= k < before.len() && (#[trigger] before[k]).public_port == public_port;
                    assert(ports@[k] == before[k]);
                }
            }
            lemma_rows_extend(before, ports@);
            if !taken {
                assert(ports@[before.len() as int]@ == request_row(app@, container@, public_port, container_port, opt_view(*implements), PortPriority::Required));
                assert(rows(ports@) =~= rows(before).push(ports@[before.len() as int]@));
            } else {
                assert(ports@ == before);
            }
            if !unless_taken {
                assert(has_row(ports@, container@, public_port, container_port, PortPriority::Required)) by {
                    let n = before.len() as int;
                    assert(ports@[n].container@ == container@);
                }
            }
        }
        i = i + 1;
    }
    proof {
        assert(pairs@.take(i as int) =~= pairs@);
    }
}

} // verus!
