use vstd::prelude::*;
use crate::convert::{convert_app_yml, ConvertError};
use crate::manifest::{app_ports, Dependency, OutputMetadata, ResultYml};
use crate::permissions::{AppPermissions, Permission};
use crate::ports::PortMapEntry;
use crate::text::views;

verus! {

/// The only version of the manifest formats that is supported.
pub const SUPPORTED_VERSION: i64 = 1;

/// Whether a manifest of this version can be read.
pub fn version_supported(version: i64) -> (r: bool)
    ensures
        r == (version == SUPPORTED_VERSION),
{
    version == SUPPORTED_VERSION
}

/// An app definition, by format version.
pub enum AppYml {
    V1(crate::manifest::AppYml),
}

impl AppYml {
    pub open spec fn v1(&self) -> crate::manifest::AppYml {
        match self {
            AppYml::V1(app) => *app,
        }
    }

    pub fn get_config_jinja_permissions(&self) -> (r: &Vec<String>)
        ensures
            *r == self.v1().metadata.jinja_config_permissions,
    {
        match self {
            AppYml::V1(app) => &app.metadata.jinja_config_permissions,
        }
    }

    pub fn into_config_jinja_permissions(self) -> (r: Vec<String>)
        ensures
            r == self.v1().metadata.jinja_config_permissions,
    {
        match self {
            AppYml::V1(app) => app.metadata.jinja_config_permissions,
        }
    }

    pub fn get_exported_permissions(&self) -> (r: &Vec<Permission>)
        ensures
            *r == self.v1().metadata.permissions,
    {
        match self {
            AppYml::V1(app) => &app.metadata.permissions,
        }
    }

    pub fn into_exported_permissions(self) -> (r: Vec<Permission>)
        ensures
            r == self.v1().metadata.permissions,
    {
        match self {
            AppYml::V1(app) => app.metadata.permissions,
        }
    }

    /// The port requests of the app.
    pub fn get_ports(&self, app_id: &str, implements: Option<String>) -> (r: Vec<PortMapEntry>)
        ensures
            crate::ports::rows(r@) == crate::manifest::app_requests(
                self.v1().services@,
                app_id@,
                crate::ports::opt_view(implements),
            ),
            forall|k: int| 0 <= k < r@.len() ==> (#[trigger] r@[k]).app@ == app_id@ && crate::ports::opt_view(r@[k].implements)
                == crate::ports::opt_view(implements),
            forall|c: int|
                0 <= c < self.v1().services@.len() ==> crate::manifest::service_rows(
                    r@,
                    (#[trigger] self.v1().services@[c]).0@,
                    self.v1().services@[c].1,
                ),
    {
        match self {
            AppYml::V1(app) => app_ports(app, app_id, &implements),
        }
    }

    /// Assembles the manifest of the app; see `convert_app_yml`.
    pub fn convert(
        &self,
        app_id: &str,
        port_map: &[PortMapEntry],
        metadata: MetadataYml,
        available_permissions: &[AppPermissions],
    ) -> (r: Result<ResultYml, ConvertError>)
        ensures
            r is Ok <==> crate::convert::assemblable(self.v1(), port_map@),
            r == Err::<ResultYml, ConvertError>(ConvertError::NoMainContainer) <==> crate::convert::main_index(
                self.v1().services@,
            ) == self.v1().services@.len(),
            r matches Ok(res) ==> crate::convert::assembled(app_id@, self.v1(), metadata.v1().metadata, port_map@, res),
    {
        match (self, metadata) {
            (AppYml::V1(app), MetadataYml::V1(metadata)) => convert_app_yml(
                app_id,
                app,
                metadata.metadata,
                port_map,
                available_permissions,
            ),
        }
    }
}

/// An app's metadata, by format version.
pub enum MetadataYml {
    V1(crate::manifest::MetadataYml),
}

/// The registry record of an app that cannot be installed as it stands: the
/// declared metadata, no port, and not compatible.
pub open spec fn basic_record(m: crate::manifest::InputMetadata, id: String, r: OutputMetadata) -> bool {
    &&& r.id == id
    &&& r.name@ == m.name@
    &&& r.version@ == m.version@
    &&& r.category@ == m.category@
    &&& r.tagline@ == m.tagline@
    &&& r.description@ == m.description@
    &&& r.support@ == m.support@
    &&& r.tor_only == m.tor_only
    &&& views(r.has_permissions@) == views(m.app_yml_jinja_permissions@)
    &&& pair_views(r.developers@) == pair_views(m.developers@)
    &&& dependency_views(r.dependencies@) == dependency_views(m.dependencies@)
    &&& pair_views(r.repo@) == pair_views(m.repo@)
    &&& crate::convert::opt_views(r.gallery) == crate::convert::opt_views(m.gallery)
    &&& crate::ports::opt_view(r.path) == crate::ports::opt_view(m.path)
    &&& crate::ports::opt_view(r.default_username) == crate::ports::opt_view(m.default_username)
    &&& crate::ports::opt_view(r.default_password) == crate::ports::opt_view(m.default_password)
    &&& crate::convert::opt_views(r.update_containers) == crate::convert::opt_views(m.update_containers)
    &&& crate::ports::opt_view(r.version_control) == crate::ports::opt_view(m.version_control)
    &&& pair_views(r.release_notes@) == pair_views(m.release_notes@)
    &&& crate::ports::opt_view(r.implements) == crate::ports::opt_view(m.implements)
    &&& !r.compatible
    &&& r.port == 0
    &&& r.internal_port == 0
    &&& !r.supports_https
}

/// The contents of a list of pairs of strings.
pub open spec fn pair_views(s: Seq<(String, String)>) -> Seq<(Seq<char>, Seq<char>)> {
    s.map_values(|p: (String, String)| (p.0@, p.1@))
}

/// The contents of a dependency: the apps it names, and whether any one of them will do.
pub open spec fn dependency_view(d: Dependency) -> (Seq<Seq<char>>, bool) {
    match d {
        Dependency::OneDependency(s) => (seq![s@], false),
        Dependency::AlternativeDependency(v) => (views(v@), true),
    }
}

pub open spec fn dependency_views(s: Seq<Dependency>) -> Seq<(Seq<Seq<char>>, bool)> {
    s.map_values(|d: Dependency| dependency_view(d))
}

fn copy_pairs(v: &Vec<(String, String)>) -> (r: Vec<(String, String)>)
    ensures
        pair_views(r@) == pair_views(v@),
{
    let mut out: Vec<(String, String)> = Vec::new();
    let mut i: usize = 0;
    while i < v.len()
        invariant
            i <= v@.len(),
            pair_views(out@) == pair_views(v@).take(i as int),
        decreases v@.len() - i,
    {
        let ghost before = out@;
        let p = (v[i].0.clone(), v[i].1.clone());
        out.push(p);
        assert(pair_views(out@) =~= pair_views(before).push((p.0@, p.1@)));
        assert(pair_views(out@) =~= pair_views(v@).take(i + 1));
        i = i + 1;
    }
    assert(pair_views(v@).take(i as int) =~= pair_views(v@));
    out
}

fn copy_dependencies(v: &Vec<Dependency>) -> (r: Vec<Dependency>)
    ensures
        dependency_views(r@) == dependency_views(v@),
{
    let mut out: Vec<Dependency> = Vec::new();
    let mut i: usize = 0;
    while i < v.len()
        invariant
            i <= v@.len(),
            dependency_views(out@) == dependency_views(v@).take(i as int),
        decreases v@.len() - i,
    {
        let ghost before = out@;
        let d = match &v[i] {
            Dependency::OneDependency(s) => Dependency::OneDependency(s.clone()),
            Dependency::AlternativeDependency(a) => Dependency::AlternativeDependency(copy_strings_pub(a)),
        };
        assert(dependency_view(d) == dependency_view(v@[i as int]));
        out.push(d);
        assert(dependency_views(out@) =~= dependency_views(before).push(dependency_view(d)));
        assert(dependency_views(out@) =~= dependency_views(v@).take(i + 1));
        i = i + 1;
    }
    assert(dependency_views(v@).take(i as int) =~= dependency_views(v@));
    out
}

fn copy_opt_list(o: &Option<Vec<String>>) -> (r: Option<Vec<String>>)
    ensures
        crate::convert::opt_views(r) == crate::convert::opt_views(*o),
{
    match o {
        Some(v) => Some(copy_strings_pub(v)),
        None => None,
    }
}

pub fn copy_strings_pub(v: &Vec<String>) -> (r: Vec<String>)
    ensures
        views(r@) == views(v@),
{
    let mut out: Vec<String> = Vec::new();
    let mut i: usize = 0;
    while i < v.len()
        invariant
            i <= v@.len(),
            views(out@) == views(v@).take(i as int),
        decreases v@.len() - i,
    {
        let ghost before = out@;
        let s = v[i].clone();
        assert(s@ == views(v@)[i as int]);
        out.push(s);
        assert(views(out@) =~= views(before).push(s@));
        assert(views(out@) =~= views(v@).take(i + 1));
        i = i + 1;
    }
    assert(views(v@).take(i as int) =~= views(v@));
    out
}

impl MetadataYml {
    pub open spec fn v1(&self) -> crate::manifest::MetadataYml {
        match self {
            MetadataYml::V1(m) => *m,
        }
    }

    pub fn get_app_yml_jinja_permissions(&self) -> (r: &Vec<String>)
        ensures
            *r == self.v1().metadata.app_yml_jinja_permissions,
    {
        match self {
            MetadataYml::V1(metadata) => &metadata.metadata.app_yml_jinja_permissions,
        }
    }

    pub fn into_app_yml_jinja_permissions(self) -> (r: Vec<String>)
        ensures
            r == self.v1().metadata.app_yml_jinja_permissions,
    {
        match self {
            MetadataYml::V1(metadata) => metadata.metadata.app_yml_jinja_permissions,
        }
    }

    pub fn into_basic_output_metadata(self, app_id: String) -> (r: OutputMetadata)
        ensures
            basic_record(self.v1().metadata, app_id, r),
    {
        match self {
            MetadataYml::V1(metadata) => {
                let m = metadata.metadata;
                OutputMetadata {
                    id: app_id,
                    name: m.name,
                    version: m.version,
                    category: m.category,
                    tagline: m.tagline,
                    developers: m.developers,
                    description: m.description,
                    dependencies: m.dependencies,
                    has_permissions: m.app_yml_jinja_permissions,
                    repo: m.repo,
                    support: m.support,
                    gallery: m.gallery,
                    path: m.path,
                    default_username: m.default_username,
                    default_password: m.default_password,
                    tor_only: m.tor_only,
                    update_containers: m.update_containers,
                    implements: m.implements,
                    version_control: m.version_control,
                    compatible: false,
                    release_notes: m.release_notes,
                    port: 0,
                    internal_port: 0,
                    supports_https: false,
                }
            },
        }
    }

    pub fn get_basic_output_metadata(&self, app_id: String) -> (r: OutputMetadata)
        ensures
            basic_record(self.v1().metadata, app_id, r),
    {
        match self {
            MetadataYml::V1(metadata) => {
                let m = &metadata.metadata;
                OutputMetadata {
                    id: app_id,
                    name: m.name.clone(),
                    version: m.version.clone(),
                    category: m.category.clone(),
                    tagline: m.tagline.clone(),
                    developers: copy_pairs(&m.developers),
                    description: m.description.clone(),
                    dependencies: copy_dependencies(&m.dependencies),
                    has_permissions: copy_strings_pub(&m.app_yml_jinja_permissions),
                    repo: copy_pairs(&m.repo),
                    support: m.support.clone(),
                    gallery: copy_opt_list(&m.gallery),
                    path: crate::ports::copy_opt(&m.path),
                    default_username: crate::ports::copy_opt(&m.default_username),
                    default_password: crate::ports::copy_opt(&m.default_password),
                    tor_only: m.tor_only,
                    update_containers: copy_opt_list(&m.update_containers),
                    implements: crate::ports::copy_opt(&m.implements),
                    version_control: crate::ports::copy_opt(&m.version_control),
                    compatible: false,
                    release_notes: copy_pairs(&m.release_notes),
                    port: 0,
                    internal_port: 0,
                    supports_https: false,
                }
            },
        }
    }
}

} // verus!
