use policy_transform::config::{
    ClientMetadata, ConfigError, FileProviderConfig, GrpcProviderConfig, HttpProviderConfig,
    PolicyConfig, PolicyMode, PolicyProviderConfig, ProviderConfig,
};
use policy_transform::field_mapping::FieldMapping;
use policy_transform::path::ConfigValuePath;
use std::collections::HashMap;

fn http(id: &str) -> HttpProviderConfig {
    HttpProviderConfig {
        id: id.into(),
        url: "https://policy.example/sync".into(),
        headers: Vec::new(),
        poll_interval_secs: None,
        content_type: None,
        resource_attributes: HashMap::new(),
        labels: HashMap::new(),
    }
}

fn grpc(id: &str) -> GrpcProviderConfig {
    GrpcProviderConfig {
        id: id.into(),
        url: "https://policy.example".into(),
        headers: Vec::new(),
        poll_interval_secs: None,
        resource_attributes: HashMap::new(),
        labels: HashMap::new(),
    }
}

fn file(id: &str) -> FileProviderConfig {
    FileProviderConfig {
        id: id.into(),
        path: "/tmp/p.json".into(),
        poll_interval_secs: None,
    }
}

fn map(pairs: &[(&str, &str)]) -> HashMap<String, String> {
    pairs.iter().map(|(k, v)| ((*k).into(), (*v).into())).collect()
}

fn policy_config_with_metadata(client_metadata: ClientMetadata) -> PolicyConfig {
    PolicyConfig {
        policy_providers: Vec::new(),
        mode: PolicyMode::Flat,
        field_mapping: FieldMapping::default(),
        client_metadata,
    }
}

/// Reads a configuration as the transform's TOML has it.
fn config(text: &str) -> PolicyConfig {
    let table: toml::Table = text.parse().unwrap();
    let mut config = policy_config_with_metadata(ClientMetadata::default());
    for provider in table["policy_providers"].as_array().unwrap() {
        let text = |key: &str| provider[key].as_str().unwrap().to_string();
        config.policy_providers.push(match provider["type"].as_str().unwrap() {
            "file" => PolicyProviderConfig::file(&text("id"), &text("path")),
            "http" => {
                let mut own = http(&text("id"));
                own.url = text("url");
                PolicyProviderConfig(ProviderConfig::Http(own))
            }
            other => panic!("unexpected provider type {other}"),
        });
    }
    if let Some(attributes) = table
        .get("client_metadata")
        .and_then(|metadata| metadata.get("resource_attributes"))
        .and_then(|attributes| attributes.as_table())
    {
        for (key, value) in attributes {
            config
                .client_metadata
                .resource_attributes
                .insert(key.clone(), value.as_str().unwrap().to_string());
        }
    }
    if let Some(body) = table
        .get("field_mapping")
        .and_then(|mapping| mapping.get("body"))
        .and_then(|body| body.as_str())
    {
        config.field_mapping.body = ConfigValuePath::try_from(body.to_string()).unwrap();
    }
    config
}

#[test]
fn generate_config() {
    let example = PolicyConfig::example();
    let providers = example.provider_configs().unwrap();
    assert_eq!(providers.len(), 1);
    let ProviderConfig::File(local) = &providers[0] else {
        panic!("expected File variant");
    };
    assert_eq!(local.id, "local");
    assert_eq!(local.path, "/etc/vector/policies.json");
    assert_eq!(local.poll_interval_secs, None);
    assert_eq!(example.mode, PolicyMode::Flat);
    assert_eq!(example.field_mapping, FieldMapping::default());
    assert!(example.client_metadata.is_empty());
}

#[test]
fn deserialize_minimal() {
    let config = config(
        r#"
[[policy_providers]]
id = "local"
type = "file"
path = "/tmp/policies.json"
"#,
    );
    let providers = config.provider_configs().unwrap();
    assert_eq!(providers.len(), 1);
    assert!(matches!(providers[0], ProviderConfig::File(_)));
    assert_eq!(config.field_mapping, FieldMapping::default());
}

#[test]
fn deserialize_with_field_mapping_overrides() {
    let config = config(
        r#"
[[policy_providers]]
id = "local"
type = "file"
path = "/tmp/policies.json"

[field_mapping]
body = "log.body"
"#,
    );
    assert_eq!(config.field_mapping.body.to_text(), "log.body");
}

#[test]
fn empty_config_has_no_provider_configs() {
    let config = config(
        r#"
policy_providers = []
"#,
    );
    let result = config.provider_configs();
    assert!(result.is_err(), "policy_providers must not be empty");
    assert_eq!(result, Err(ConfigError::NoPolicyProvider));
    assert_eq!(
        ConfigError::NoPolicyProvider.message(),
        "policy transform requires at least one policy provider",
    );
}

#[test]
fn deserialize_multiple_policy_providers() {
    let config = config(
        r#"
[[policy_providers]]
id = "primary"
type = "file"
path = "/etc/vector/primary.json"

[[policy_providers]]
id = "secondary"
type = "file"
path = "/etc/vector/secondary.json"
"#,
    );
    let providers = config.provider_configs().unwrap();
    assert_eq!(providers.len(), 2);
    assert!(providers
        .iter()
        .all(|p| matches!(p, ProviderConfig::File(_))));
    let ProviderConfig::File(second) = &providers[1] else {
        panic!("expected File variant");
    };
    assert_eq!(second.id, "secondary");
}

#[test]
fn apply_client_metadata_empty_is_noop() {
    let cfg = policy_config_with_metadata(ClientMetadata::default());
    let ProviderConfig::Http(out) =
        cfg.apply_client_metadata(ProviderConfig::Http(http("h")))
    else {
        panic!("expected Http variant");
    };
    assert!(out.resource_attributes.is_empty());
    assert!(out.labels.is_empty());
}

#[test]
fn apply_client_metadata_fans_into_http() {
    let cfg = policy_config_with_metadata(ClientMetadata {
        resource_attributes: map(&[("service.name", "vector")]),
        labels: map(&[("env", "prod")]),
    });
    let ProviderConfig::Http(out) =
        cfg.apply_client_metadata(ProviderConfig::Http(http("h")))
    else {
        panic!("expected Http variant");
    };
    assert_eq!(out.resource_attributes, map(&[("service.name", "vector")]));
    assert_eq!(out.labels, map(&[("env", "prod")]));
}

#[test]
fn apply_client_metadata_fans_into_grpc() {
    let cfg = policy_config_with_metadata(ClientMetadata {
        resource_attributes: map(&[("service.instance.id", "host-1")]),
        labels: map(&[("team", "platform")]),
    });
    let ProviderConfig::Grpc(out) =
        cfg.apply_client_metadata(ProviderConfig::Grpc(grpc("g")))
    else {
        panic!("expected Grpc variant");
    };
    assert_eq!(
        out.resource_attributes,
        map(&[("service.instance.id", "host-1")])
    );
    assert_eq!(out.labels, map(&[("team", "platform")]));
}

#[test]
fn apply_client_metadata_leaves_file_provider_untouched() {
    // File providers have no resource_attributes/labels — the helper must
    // pass them through unchanged even when client_metadata is set.
    let cfg = policy_config_with_metadata(ClientMetadata {
        resource_attributes: map(&[("service.name", "vector")]),
        labels: HashMap::new(),
    });
    let ProviderConfig::File(out) =
        cfg.apply_client_metadata(ProviderConfig::File(file("f")))
    else {
        panic!("expected File variant");
    };
    assert_eq!(out.id, "f");
    assert_eq!(out.path, "/tmp/p.json");
}

#[test]
fn apply_client_metadata_overrides_per_provider_values() {
    // Transform-level values win over anything the provider declared
    // individually when the transform-level field is non-empty.
    let cfg = policy_config_with_metadata(ClientMetadata {
        resource_attributes: map(&[("service.name", "vector")]),
        labels: map(&[("env", "prod")]),
    });
    let mut provider = http("h");
    provider.resource_attributes = map(&[("service.name", "stale"), ("svc.ver", "1")]);
    provider.labels = map(&[("env", "stale")]);

    let ProviderConfig::Http(out) =
        cfg.apply_client_metadata(ProviderConfig::Http(provider))
    else {
        panic!("expected Http variant");
    };
    assert_eq!(out.resource_attributes, map(&[("service.name", "vector")]));
    assert_eq!(out.labels, map(&[("env", "prod")]));
}

#[test]
fn apply_client_metadata_preserves_per_provider_when_transform_map_empty() {
    // Only the non-empty transform-level map overrides — the other side
    // keeps whatever the provider already had. Lets you set, e.g.,
    // resource_attributes transform-wide while keeping labels per-provider.
    let cfg = policy_config_with_metadata(ClientMetadata {
        resource_attributes: map(&[("service.name", "vector")]),
        labels: HashMap::new(),
    });
    let mut provider = http("h");
    provider.labels = map(&[("env", "kept")]);

    let ProviderConfig::Http(out) =
        cfg.apply_client_metadata(ProviderConfig::Http(provider))
    else {
        panic!("expected Http variant");
    };
    assert_eq!(out.resource_attributes, map(&[("service.name", "vector")]));
    assert_eq!(out.labels, map(&[("env", "kept")]));
}

#[test]
fn provider_configs_fans_metadata_end_to_end() {
    let config = config(
        r#"
[[policy_providers]]
type = "http"
id = "remote"
url = "https://policy.example/sync"

[[policy_providers]]
type = "file"
id = "local"
path = "/tmp/p.json"

[client_metadata.resource_attributes]
"service.name" = "vector"
"service.instance.id" = "pod-1"
"#,
    );

    let providers = config.provider_configs().unwrap();
    assert_eq!(providers.len(), 2);

    let ProviderConfig::Http(http_cfg) = &providers[0] else {
        panic!("first provider should be Http");
    };
    assert_eq!(
        http_cfg.resource_attributes,
        map(&[("service.name", "vector"), ("service.instance.id", "pod-1")])
    );
    // labels weren't set, so they stay empty.
    assert!(http_cfg.labels.is_empty());

    // File provider was passed through untouched.
    assert!(matches!(&providers[1], ProviderConfig::File(_)));
}
