use composegen::convert::{convert_app_yml, ConvertError};
use composegen::manifest::{
    get_host_port, AppYml, AppYmlMetadata, Command, Container, InputMetadata, MetadataYml, PortMapElement,
    PortsDefinition, StringOrMap,
};
use composegen::permissions::{AppPermissions, Permission, VarValue};
use composegen::ports::{PortMapEntry, PortPriority};
use composegen::versioned;

fn no_ports() -> PortsDefinition {
    PortsDefinition { direct_tcp: vec![], tcp: vec![], http: vec![], udp: vec![] }
}

fn container(image: &str, port: Option<u16>) -> Container {
    Container {
        image: image.to_string(),
        user: Some("1000:1000".to_string()),
        stop_grace_period: None,
        stop_signal: None,
        depends_on: None,
        restart: Some("on-failure".to_string()),
        init: Some(true),
        extra_hosts: None,
        working_dir: Some("/data".to_string()),
        shm_size: None,
        entrypoint: None,
        command: None,
        environment: vec![],
        cap_add: vec![],
        network_mode: None,
        port,
        port_priority: None,
        required_ports: no_ports(),
        mounts: vec![],
        direct_tcp: false,
        disable_caddy: false,
    }
}

fn metadata() -> InputMetadata {
    InputMetadata {
        name: "Example".to_string(),
        version: "1.0.0".to_string(),
        category: "tools".to_string(),
        tagline: "An example".to_string(),
        developers: vec![("Dev".to_string(), "https://example.com".to_string())],
        description: "Example app".to_string(),
        dependencies: vec![],
        repo: vec![],
        support: "https://example.com/support".to_string(),
        gallery: None,
        path: None,
        default_username: None,
        default_password: None,
        tor_only: false,
        update_containers: None,
        implements: None,
        version_control: None,
        release_notes: vec![],
        shared_dir: None,
        app_yml_jinja_permissions: vec!["lnd".to_string()],
    }
}

fn app(services: Vec<(String, Container)>) -> AppYml {
    AppYml {
        version: 1,
        services,
        metadata: AppYmlMetadata { permissions: vec![], jinja_config_permissions: vec![], has_permissions: vec![] },
    }
}

fn row(container: &str, internal: u16, public: u16) -> PortMapEntry {
    PortMapEntry {
        app: "example".to_string(),
        internal_port: internal,
        public_port: public,
        container: container.to_string(),
        implements: None,
        priority: PortPriority::Optional,
    }
}

#[test]
fn pass_through_fields_are_kept() {
    let mut worker = container("example/worker:2", None);
    worker.restart = Some("always".to_string());
    worker.working_dir = None;
    let definition = app(vec![
        ("main".to_string(), container("example/web:1", Some(3000))),
        ("worker".to_string(), worker),
    ]);
    let result = convert_app_yml("example", &definition, metadata(), &[row("main", 3000, 3001)], &[]).unwrap();
    assert_eq!(result.metadata.id, "example");
    assert_eq!(result.metadata.port, 3001);
    assert_eq!(result.metadata.internal_port, 3000);
    assert!(result.metadata.compatible);
    assert!(result.metadata.supports_https);
    let services = &result.spec.services;
    assert_eq!(services.len(), 2);
    assert_eq!(services[0].0, "main");
    assert_eq!(services[0].1.image, "example/web:1");
    assert_eq!(services[0].1.restart.as_deref(), Some("on-failure"));
    assert_eq!(services[0].1.working_dir.as_deref(), Some("/data"));
    assert_eq!(services[1].1.image, "example/worker:2");
    assert_eq!(services[1].1.restart.as_deref(), Some("always"));
    assert_eq!(services[1].1.working_dir, None);
    assert_eq!(result.caddy_entries.len(), 1);
    assert_eq!(result.caddy_entries[0].public_port, 3001);
    assert!(result.caddy_entries[0].is_primary);
    assert_eq!(result.metadata.has_permissions, vec!["lnd"]);
}

#[test]
fn missing_main_container_fails() {
    let definition = app(vec![("web".to_string(), container("x", Some(1)))]);
    let r = convert_app_yml("example", &definition, metadata(), &[row("web", 1, 1)], &[]);
    assert!(matches!(r, Err(ConvertError::NoMainContainer)));
}

#[test]
fn main_container_without_port_fails() {
    let definition = app(vec![("main".to_string(), container("x", None))]);
    let r = convert_app_yml("example", &definition, metadata(), &[], &[]);
    assert!(matches!(r, Err(ConvertError::NoMainPort)));
}

#[test]
fn unmapped_required_port_fails() {
    let mut main = container("x", Some(3000));
    main.required_ports.udp = vec![(9735, 9735)];
    let definition = app(vec![("main".to_string(), main)]);
    let r = convert_app_yml("example", &definition, metadata(), &[row("main", 3000, 3000)], &[]);
    assert!(matches!(r, Err(ConvertError::NoPortMapEntry(9735))));
}

#[test]
fn only_host_network_mode_is_accepted() {
    let mut main = container("x", Some(3000));
    main.network_mode = Some("bridge".to_string());
    let definition = app(vec![("main".to_string(), main)]);
    let r = convert_app_yml("example", &definition, metadata(), &[row("main", 3000, 3000)], &[]);
    assert!(matches!(r, Err(ConvertError::UnsupportedNetworkMode)));

    let mut main = container("x", Some(3000));
    main.network_mode = Some("host".to_string());
    main.cap_add = vec!["CAP_NET_RAW".to_string(), "CAP_SYS_ADMIN".to_string()];
    let definition = app(vec![("main".to_string(), main)]);
    let result = convert_app_yml("example", &definition, metadata(), &[row("main", 3000, 3000)], &[]).unwrap();
    assert_eq!(result.metadata.has_permissions, vec!["lnd", "network", "root"]);
}

#[test]
fn ports_are_published_or_proxied() {
    let mut main = container("x", Some(3000));
    main.required_ports.direct_tcp = vec![(9735, 9736)];
    main.required_ports.udp = vec![(5000, 5001)];
    main.required_ports.tcp = vec![(8333, 8334)];
    main.disable_caddy = true;
    let definition = app(vec![("main".to_string(), main)]);
    let rows = vec![row("main", 3000, 3005), row("main", 9736, 9735), row("main", 5001, 5000), row("main", 8334, 8333)];
    let result = convert_app_yml("example", &definition, metadata(), &rows, &[]).unwrap();
    assert_eq!(result.spec.services[0].1.ports, vec!["3005:3000", "9735:9736", "5000:5001/udp"]);
    assert_eq!(result.caddy_entries.len(), 1);
    assert!(result.caddy_entries[0].is_l4);
    assert_eq!(result.caddy_entries[0].public_port, 8333);
}

#[test]
fn mounts_become_volumes_and_permissions() {
    let mut main = container("x", Some(3000));
    main.mounts = vec![
        (
            "data".to_string(),
            StringOrMap::Mapping(vec![
                ("db".to_string(), "/var/db".to_string()),
                ("../etc".to_string(), "/etc".to_string()),
                ("${HOME}".to_string(), "/home".to_string()),
            ]),
        ),
        ("jwt-pubkey".to_string(), StringOrMap::String("/jwt.pem".to_string())),
        ("bitcoin/blocks".to_string(), StringOrMap::String("/blocks".to_string())),
        ("lnd".to_string(), StringOrMap::String("/lnd".to_string())),
        ("bad:name".to_string(), StringOrMap::String("/x".to_string())),
        ("a/b/c".to_string(), StringOrMap::String("/y".to_string())),
    ];
    let definition = app(vec![("main".to_string(), main)]);
    let available = vec![AppPermissions {
        app: "bitcoin".to_string(),
        permissions: vec![Permission {
            id: "chain".to_string(),
            name: "Chain".to_string(),
            description: String::new(),
            includes: vec![],
            variables: vec![],
            files: vec!["blocks".to_string()],
            hidden: false,
        }],
    }];
    let result = convert_app_yml("example", &definition, metadata(), &[row("main", 3000, 3000)], &available).unwrap();
    assert_eq!(
        result.spec.services[0].1.volumes,
        vec![
            "${APP_DATA_DIR}/db:/var/db",
            "${JWT_PUBKEY}:/jwt.pem",
            "${APPS_DATA_DIR}/bitcoin/blocks:/blocks",
            "${APPS_DATA_DIR}/lnd:/lnd",
        ]
    );
    assert_eq!(result.metadata.has_permissions, vec!["lnd", "bitcoin/chain"]);
}

#[test]
fn environment_references_need_permissions() {
    let mut main = container("x", Some(3000));
    main.command = Some(Command::SimpleCmd("serve --rpc $APP_BITCOIN_RPC".to_string()));
    main.environment = vec![
        ("IP".to_string(), VarValue::Text("$DEVICE_IP".to_string())),
        ("NODE".to_string(), VarValue::Text("${APP_LND_NODE_ID}".to_string())),
        ("COUNT".to_string(), VarValue::Json(serde_json::Value::from(3))),
    ];
    main.entrypoint = Some(Command::ArraySyntax(vec!["$SECRET".to_string()]));
    let definition = app(vec![("main".to_string(), main)]);
    let available = vec![AppPermissions {
        app: "BITCOIN".to_string(),
        permissions: vec![Permission {
            id: "rpc".to_string(),
            name: "RPC".to_string(),
            description: String::new(),
            includes: vec![],
            variables: vec![("APP_BITCOIN_RPC".to_string(), VarValue::Text("$APP_BITCOIN_RPC".to_string()))],
            files: vec![],
            hidden: false,
        }],
    }];
    let result = convert_app_yml("example", &definition, metadata(), &[row("main", 3000, 3000)], &available).unwrap();
    assert_eq!(result.metadata.has_permissions, vec!["lnd", "BITCOIN/rpc", "root"]);
}

#[test]
fn host_port_lookup() {
    let map = vec![
        PortMapElement { internal_port: 3000, public_port: 3000, dynamic: true },
        PortMapElement { internal_port: 4000, public_port: 4001, dynamic: false },
    ];
    assert_eq!(get_host_port(&map, 4000).map(|e| e.public_port), Some(4001));
    assert!(get_host_port(&map, 5000).is_none());
}

#[test]
fn ports_definition_emptiness() {
    assert!(no_ports().is_empty());
    let mut p = no_ports();
    p.http = vec![(80, 8080)];
    assert!(!p.is_empty());
}

#[test]
fn app_ports_requests() {
    let mut main = container("x", Some(3000));
    main.port_priority = Some(PortPriority::Recommended);
    main.required_ports.tcp = vec![(9735, 9735)];
    main.required_ports.udp = vec![(9735, 9735), (5353, 5353)];
    let definition = versioned::AppYml::V1(app(vec![("main".to_string(), main)]));
    let ports = definition.get_ports("lnd", Some("lightning".to_string()));
    assert_eq!(ports.len(), 3);
    assert_eq!(ports[0].public_port, 3000);
    assert_eq!(ports[0].priority, PortPriority::Recommended);
    assert_eq!(ports[1].public_port, 9735);
    assert_eq!(ports[1].priority, PortPriority::Required);
    assert_eq!(ports[2].public_port, 5353);
    assert_eq!(ports[2].implements.as_deref(), Some("lightning"));
}

#[test]
fn basic_registry_record() {
    let m = versioned::MetadataYml::V1(MetadataYml { version: 1, metadata: metadata() });
    let record = m.get_basic_output_metadata("example".to_string());
    assert_eq!(record.id, "example");
    assert_eq!(record.name, "Example");
    assert!(!record.compatible);
    assert_eq!(record.port, 0);
    assert_eq!(m.get_app_yml_jinja_permissions(), &vec!["lnd".to_string()]);
    let moved = m.into_basic_output_metadata("other".to_string());
    assert_eq!(moved.id, "other");
    assert_eq!(moved.has_permissions, vec!["lnd"]);
    assert!(versioned::version_supported(1));
    assert!(!versioned::version_supported(2));
}
