//! The configuration of the policy transform.

use crate::field_mapping::FieldMapping;
use std::collections::HashMap;
use vstd::prelude::*;

verus! {

/// How events are taken apart into records.
#[derive(Clone, Copy, Debug, PartialEq, Eq, Structural)]
pub enum PolicyMode {
    /// One event is one log record. Its fields are found by the field mapping. Every scalar is
    /// matched as text, and every value there is counts as present.
    Flat,
    /// One event is an OTLP envelope of many records. Only non-empty strings are matched. An
    /// empty string counts as absent.
    Otel,
}

impl Default for PolicyMode {
    fn default() -> (r: PolicyMode)
        ensures
            r == PolicyMode::Flat,
    {
        PolicyMode::Flat
    }
}

/// The identity that is passed to remote policy providers.
#[derive(Debug, PartialEq, Eq)]
pub struct ClientMetadata {
    /// Attributes that describe this instance.
    pub resource_attributes: HashMap<String, String>,
    /// Free-form labels.
    pub labels: HashMap<String, String>,
}

impl Default for ClientMetadata {
    /// No attributes and no labels.
    fn default() -> (r: ClientMetadata)
        ensures
            r.has_nothing(),
    {
        ClientMetadata { resource_attributes: HashMap::new(), labels: HashMap::new() }
    }
}

impl ClientMetadata {
    /// There is neither an attribute nor a label.
    pub open spec fn has_nothing(self) -> bool {
        self.resource_attributes@.is_empty() && self.labels@.is_empty()
    }

    /// Whether there is neither an attribute nor a label.
    pub fn is_empty(&self) -> (r: bool)
        ensures
            r == self.has_nothing(),
    {
        self.resource_attributes.is_empty() && self.labels.is_empty()
    }
}

/// A header of requests to a provider.
#[derive(Debug, PartialEq, Eq)]
pub struct Header {
    pub name: String,
    pub value: String,
}

/// A provider that reads policies from a file.
#[derive(Debug, PartialEq, Eq)]
pub struct FileProviderConfig {
    pub id: String,
    pub path: String,
    pub poll_interval_secs: Option<u64>,
}

/// A provider that fetches policies over HTTP.
#[derive(Debug, PartialEq, Eq)]
pub struct HttpProviderConfig {
    pub id: String,
    pub url: String,
    pub headers: Vec<Header>,
    pub poll_interval_secs: Option<u64>,
    pub content_type: Option<String>,
    pub resource_attributes: HashMap<String, String>,
    pub labels: HashMap<String, String>,
}

/// A provider that fetches policies over gRPC.
#[derive(Debug, PartialEq, Eq)]
pub struct GrpcProviderConfig {
    pub id: String,
    pub url: String,
    pub headers: Vec<Header>,
    pub poll_interval_secs: Option<u64>,
    pub resource_attributes: HashMap<String, String>,
    pub labels: HashMap<String, String>,
}

/// Where policies come from.
#[derive(Debug, PartialEq, Eq)]
pub enum ProviderConfig {
    File(FileProviderConfig),
    Http(HttpProviderConfig),
    Grpc(GrpcProviderConfig),
}

/// What a [`ProviderConfig`] is.
#[verifier::ext_equal]
pub enum ProviderTree {
    File { id: Seq<char>, path: Seq<char>, poll_interval_secs: Option<u64> },
    Http {
        id: Seq<char>,
        url: Seq<char>,
        headers: Seq<(Seq<char>, Seq<char>)>,
        poll_interval_secs: Option<u64>,
        content_type: Option<Seq<char>>,
        resource_attributes: Map<String, String>,
        labels: Map<String, String>,
    },
    Grpc {
        id: Seq<char>,
        url: Seq<char>,
        headers: Seq<(Seq<char>, Seq<char>)>,
        poll_interval_secs: Option<u64>,
        resource_attributes: Map<String, String>,
        labels: Map<String, String>,
    },
}

/// What headers are.
pub open spec fn header_pairs(headers: Seq<Header>) -> Seq<(Seq<char>, Seq<char>)> {
    headers.map_values(|header: Header| (header.name@, header.value@))
}

/// `given`, where there is something in it, else `own`.
pub open spec fn overridden(
    own: Map<String, String>,
    given: Map<String, String>,
) -> Map<String, String> {
    if given.is_empty() {
        own
    } else {
        given
    }
}

impl ProviderTree {
    /// The provider with client metadata: attributes and labels that are not empty go over the
    /// provider's own. A file provider has none.
    pub open spec fn with_metadata(
        self,
        attributes: Map<String, String>,
        given_labels: Map<String, String>,
    ) -> ProviderTree {
        match self {
            ProviderTree::File { .. } => self,
            ProviderTree::Http {
                id,
                url,
                headers,
                poll_interval_secs,
                content_type,
                resource_attributes,
                labels,
            } => ProviderTree::Http {
                id,
                url,
                headers,
                poll_interval_secs,
                content_type,
                resource_attributes: overridden(resource_attributes, attributes),
                labels: overridden(labels, given_labels),
            },
            ProviderTree::Grpc {
                id,
                url,
                headers,
                poll_interval_secs,
                resource_attributes,
                labels,
            } => ProviderTree::Grpc {
                id,
                url,
                headers,
                poll_interval_secs,
                resource_attributes: overridden(resource_attributes, attributes),
                labels: overridden(labels, given_labels),
            },
        }
    }
}

impl ProviderConfig {
    /// What the configuration is.
    pub open spec fn view(self) -> ProviderTree {
        match self {
            ProviderConfig::File(config) => ProviderTree::File {
                id: config.id@,
                path: config.path@,
                poll_interval_secs: config.poll_interval_secs,
            },
            ProviderConfig::Http(config) => ProviderTree::Http {
                id: config.id@,
                url: config.url@,
                headers: header_pairs(config.headers@),
                poll_interval_secs: config.poll_interval_secs,
                content_type: crate::value::text_of(config.content_type),
                resource_attributes: config.resource_attributes@,
                labels: config.labels@,
            },
            ProviderConfig::Grpc(config) => ProviderTree::Grpc {
                id: config.id@,
                url: config.url@,
                headers: header_pairs(config.headers@),
                poll_interval_secs: config.poll_interval_secs,
                resource_attributes: config.resource_attributes@,
                labels: config.labels@,
            },
        }
    }
}

fn copy_headers(headers: &Vec<Header>) -> (r: Vec<Header>)
    ensures
        header_pairs(r@) == header_pairs(headers@),
{
    let mut copies: Vec<Header> = Vec::new();
    let mut i: usize = 0;
    while i < headers.len()
        invariant
            i <= headers@.len(),
            copies@.len() == i,
            forall|j: int|
                0 <= j < i ==> (#[trigger] copies@[j]).name@ == headers@[j].name@
                    && copies@[j].value@ == headers@[j].value@,
        decreases headers@.len() - i,
    {
        copies.push(Header { name: headers[i].name.clone(), value: headers[i].value.clone() });
        i = i + 1;
    }
    assert(header_pairs(copies@) =~= header_pairs(headers@));
    copies
}

impl Clone for ProviderConfig {
    /// The same configuration again.
    fn clone(&self) -> (r: ProviderConfig)
        ensures
            r@ == self@,
    {
        match self {
            ProviderConfig::File(config) => ProviderConfig::File(
                FileProviderConfig {
                    id: config.id.clone(),
                    path: config.path.clone(),
                    poll_interval_secs: config.poll_interval_secs,
                },
            ),
            ProviderConfig::Http(config) => ProviderConfig::Http(
                HttpProviderConfig {
                    id: config.id.clone(),
                    url: config.url.clone(),
                    headers: copy_headers(&config.headers),
                    poll_interval_secs: config.poll_interval_secs,
                    content_type: match &config.content_type {
                        Some(content_type) => Some(content_type.clone()),
                        None => None,
                    },
                    resource_attributes: config.resource_attributes.clone(),
                    labels: config.labels.clone(),
                },
            ),
            ProviderConfig::Grpc(config) => ProviderConfig::Grpc(
                GrpcProviderConfig {
                    id: config.id.clone(),
                    url: config.url.clone(),
                    headers: copy_headers(&config.headers),
                    poll_interval_secs: config.poll_interval_secs,
                    resource_attributes: config.resource_attributes.clone(),
                    labels: config.labels.clone(),
                },
            ),
        }
    }
}

/// A provider as the transform's configuration names it.
#[derive(Debug, PartialEq, Eq)]
pub struct PolicyProviderConfig(pub ProviderConfig);

impl PolicyProviderConfig {
    /// A provider that reads policies from a file, without polling.
    pub fn file(id: &str, path: &str) -> (r: PolicyProviderConfig)
        ensures
            r.0@ == (ProviderTree::File { id: id@, path: path@, poll_interval_secs: None }),
    {
        PolicyProviderConfig(
            ProviderConfig::File(
                FileProviderConfig {
                    id: id.to_string(),
                    path: path.to_string(),
                    poll_interval_secs: None,
                },
            ),
        )
    }

    /// The provider's own configuration.
    pub fn into_inner(self) -> (r: ProviderConfig)
        ensures
            r == self.0,
    {
        self.0
    }
}

/// What is wrong with a configuration.
#[derive(Clone, Copy, Debug, PartialEq, Eq, Structural)]
pub enum ConfigError {
    NoPolicyProvider,
}

impl ConfigError {
    /// The error in words.
    pub fn message(self) -> (r: &'static str)
        ensures
            r@ == "policy transform requires at least one policy provider"@,
    {
        "policy transform requires at least one policy provider"
    }
}

/// The configuration of the policy transform.
#[derive(Debug, PartialEq, Eq)]
pub struct PolicyConfig {
    /// Where policies come from.
    pub policy_providers: Vec<PolicyProviderConfig>,
    /// How events are taken apart into records.
    pub mode: PolicyMode,
    /// Where the fields of a log event stand. Only the flat mode uses it.
    pub field_mapping: FieldMapping,
    /// The identity that is passed to remote providers, over what they declare themselves.
    pub client_metadata: ClientMetadata,
}

impl PolicyConfig {
    /// What becomes of a provider's configuration.
    pub open spec fn applied(self, config: ProviderTree) -> ProviderTree {
        config.with_metadata(
            self.client_metadata.resource_attributes@,
            self.client_metadata.labels@,
        )
    }

    /// A configuration to start from: one file provider, and defaults for the rest.
    pub fn example() -> (r: PolicyConfig)
        ensures
            r.policy_providers@.len() == 1,
            r.policy_providers@[0].0@ == (ProviderTree::File {
                id: "local"@,
                path: "/etc/vector/policies.json"@,
                poll_interval_secs: None,
            }),
            r.mode == PolicyMode::Flat,
            r.field_mapping.is_default(),
            r.client_metadata.has_nothing(),
    {
        let mut policy_providers: Vec<PolicyProviderConfig> = Vec::new();
        policy_providers.push(PolicyProviderConfig::file("local", "/etc/vector/policies.json"));
        PolicyConfig {
            policy_providers,
            mode: PolicyMode::default(),
            field_mapping: FieldMapping::default(),
            client_metadata: ClientMetadata::default(),
        }
    }

    /// The providers' configurations, in order, with the client metadata in them.
    pub fn provider_configs(&self) -> (r: Result<Vec<ProviderConfig>, ConfigError>)
        ensures
            match r {
                Ok(configs) => {
                    &&& self.policy_providers@.len() > 0
                    &&& configs@.len() == self.policy_providers@.len()
                    &&& forall|i: int|
                        0 <= i < configs@.len() ==> (#[trigger] configs@[i])@ == self.applied(
                            self.policy_providers@[i].0@,
                        )
                },
                Err(error) => error == ConfigError::NoPolicyProvider
                    && self.policy_providers@.len() == 0,
            },
    {
        if self.policy_providers.len() == 0 {
            return Err(ConfigError::NoPolicyProvider);
        }
        let mut configs: Vec<ProviderConfig> = Vec::new();
        let mut i: usize = 0;
        while i < self.policy_providers.len()
            invariant
                i <= self.policy_providers@.len(),
                configs@.len() == i,
                forall|j: int|
                    0 <= j < i ==> (#[trigger] configs@[j])@ == self.applied(
                        self.policy_providers@[j].0@,
                    ),
            decreases self.policy_providers@.len() - i,
        {
            configs.push(self.apply_client_metadata(self.policy_providers[i].0.clone()));
            i = i + 1;
        }
        Ok(configs)
    }

    /// Puts the client metadata into a provider's configuration.
    pub fn apply_client_metadata(&self, config: ProviderConfig) -> (r: ProviderConfig)
        ensures
            r@ == self.applied(config@),
    {
        if self.client_metadata.is_empty() {
            return config;
        }
        match config {
            ProviderConfig::Http(own) => {
                let mut config = own;
                if !self.client_metadata.resource_attributes.is_empty() {
                    config.resource_attributes = self.client_metadata.resource_attributes.clone();
                }
                if !self.client_metadata.labels.is_empty() {
                    config.labels = self.client_metadata.labels.clone();
                }
                ProviderConfig::Http(config)
            },
            ProviderConfig::Grpc(own) => {
                let mut config = own;
                if !self.client_metadata.resource_attributes.is_empty() {
                    config.resource_attributes = self.client_metadata.resource_attributes.clone();
                }
                if !self.client_metadata.labels.is_empty() {
                    config.labels = self.client_metadata.labels.clone();
                }
                ProviderConfig::Grpc(config)
            },
            other => other,
        }
    }
}

/// Empty client metadata leaves every provider as it is.
pub proof fn law_empty_metadata(config: ProviderTree)
    ensures
        config.with_metadata(Map::empty(), Map::empty()) == config,
{
    assert(Map::<String, String>::empty().is_empty());
}

/// Client metadata leaves a file provider as it is.
pub proof fn law_file_provider_stays(
    config: ProviderTree,
    attributes: Map<String, String>,
    labels: Map<String, String>,
)
    requires
        config is File,
    ensures
        config.with_metadata(attributes, labels) == config,
{
}

/// Putting the same client metadata in again changes nothing.
pub proof fn law_metadata_again(
    config: ProviderTree,
    attributes: Map<String, String>,
    labels: Map<String, String>,
)
    ensures
        config.with_metadata(attributes, labels).with_metadata(attributes, labels)
            == config.with_metadata(attributes, labels),
{
}

/// Client metadata goes into an HTTP or gRPC provider: attributes that are not empty in place of
/// the provider's own, labels likewise. Empty ones leave the provider's own, and nothing else of
/// the provider changes.
pub proof fn law_metadata_goes_over(
    config: ProviderTree,
    attributes: Map<String, String>,
    labels: Map<String, String>,
)
    ensures
        config is Http ==> ({
            let now = config.with_metadata(attributes, labels);
            &&& now is Http
            &&& now->Http_resource_attributes == if attributes == Map::<String, String>::empty() {
                config->Http_resource_attributes
            } else {
                attributes
            }
            &&& now->Http_labels == if labels == Map::<String, String>::empty() {
                config->Http_labels
            } else {
                labels
            }
            &&& now->Http_id == config->Http_id
            &&& now->Http_url == config->Http_url
            &&& now->Http_headers == config->Http_headers
            &&& now->Http_poll_interval_secs == config->Http_poll_interval_secs
            &&& now->content_type == config->content_type
        }),
        config is Grpc ==> ({
            let now = config.with_metadata(attributes, labels);
            &&& now is Grpc
            &&& now->Grpc_resource_attributes == if attributes == Map::<String, String>::empty() {
                config->Grpc_resource_attributes
            } else {
                attributes
            }
            &&& now->Grpc_labels == if labels == Map::<String, String>::empty() {
                config->Grpc_labels
            } else {
                labels
            }
            &&& now->Grpc_id == config->Grpc_id
            &&& now->Grpc_url == config->Grpc_url
            &&& now->Grpc_headers == config->Grpc_headers
            &&& now->Grpc_poll_interval_secs == config->Grpc_poll_interval_secs
        }),
{
    assert(attributes.is_empty() <==> attributes =~= Map::<String, String>::empty());
    assert(labels.is_empty() <==> labels =~= Map::<String, String>::empty());
}

/// A transform's client metadata is what goes into its providers.
pub proof fn law_own_metadata_is_applied(config: PolicyConfig, provider: ProviderTree)
    ensures
        config.applied(provider) == provider.with_metadata(
            config.client_metadata.resource_attributes@,
            config.client_metadata.labels@,
        ),
{
}

/// Headers are pairs of a name and a value, in order.
pub proof fn law_headers(headers: Seq<Header>, i: int)
    ensures
        header_pairs(headers).len() == headers.len(),
        0 <= i < headers.len() ==> header_pairs(headers)[i] == (headers[i].name@, headers[i].value@),
{
}

/// What a provider is takes in every field of its configuration.
pub proof fn law_provider_fields(
    file: FileProviderConfig,
    http: HttpProviderConfig,
    grpc: GrpcProviderConfig,
)
    ensures
        ProviderConfig::File(file)@ == (ProviderTree::File {
            id: file.id@,
            path: file.path@,
            poll_interval_secs: file.poll_interval_secs,
        }),
        ProviderConfig::Http(http)@ == (ProviderTree::Http {
            id: http.id@,
            url: http.url@,
            headers: header_pairs(http.headers@),
            poll_interval_secs: http.poll_interval_secs,
            content_type: match http.content_type {
                Some(content_type) => Some(content_type@),
                None => None,
            },
            resource_attributes: http.resource_attributes@,
            labels: http.labels@,
        }),
        ProviderConfig::Grpc(grpc)@ == (ProviderTree::Grpc {
            id: grpc.id@,
            url: grpc.url@,
            headers: header_pairs(grpc.headers@),
            poll_interval_secs: grpc.poll_interval_secs,
            resource_attributes: grpc.resource_attributes@,
            labels: grpc.labels@,
        }),
{
}

/// Client metadata is empty exactly if it has neither an attribute nor a label.
pub proof fn law_empty_client_metadata(metadata: ClientMetadata)
    ensures
        metadata.has_nothing() <==> metadata.resource_attributes@ == Map::<String, String>::empty()
            && metadata.labels@ == Map::<String, String>::empty(),
{
    assert(metadata.resource_attributes@.is_empty() <==> metadata.resource_attributes@
        =~= Map::<String, String>::empty());
    assert(metadata.labels@.is_empty() <==> metadata.labels@ =~= Map::<String, String>::empty());
}

} // verus!
