//! The docker-backed schema-registry service of the development tool: the
//! container configuration a service definition expands to.

use vstd::prelude::*;
use vstd::string::*;

use crate::text::dec_rep;

verus! {

/// A kafka service the registry depends on.
pub struct KafkaConfig {
    pub port: u16,
}

/// The development-tool configuration of one schema-registry service.
pub struct SchemaRegistryConfig {
    pub id: String,
    pub user_managed: bool,
    pub image: String,
    pub port: u16,
    pub provide_kafka: Option<Vec<KafkaConfig>>,
}

impl SchemaRegistryConfig {
    pub fn id(&self) -> (r: String)
        ensures
            r@ == self.id@,
    {
        self.id.clone()
    }

    pub fn is_user_managed(&self) -> (r: bool)
        ensures
            r == self.user_managed,
    {
        self.user_managed
    }

    pub fn image(&self) -> (r: String)
        ensures
            r@ == self.image@,
    {
        self.image.clone()
    }

    /// The container environment: the registry's host name and listener,
    /// the kafka bootstrap server it stores its schemas in, and the debug
    /// flag. The service needs exactly one kafka.
    pub fn envs(&self) -> (r: Vec<(String, String)>)
        requires
            self.provide_kafka matches Some(k) && k@.len() == 1,
        ensures
            r@.len() == 4,
            r@[0].0@ == "SCHEMA_REGISTRY_HOST_NAME"@ && r@[0].1@ == "localhost"@,
            r@[1].0@ == "SCHEMA_REGISTRY_LISTENERS"@ && r@[1].1@ == "http://0.0.0.0:"@ + dec_rep(
                self.port as int,
            ),
            r@[2].0@ == "SCHEMA_REGISTRY_KAFKASTORE_BOOTSTRAP_SERVERS"@ && ({
                let kafka = (match self.provide_kafka {
                    Some(k) => k,
                    None => arbitrary(),
                });
                r@[2].1@ == "PLAINTEXT://localhost:"@ + dec_rep(kafka@[0].port as int)
            }),
            r@[3].0@ == "SCHEMA_REGISTRY_DEBUG"@ && r@[3].1@ == "true"@,
    {
        let kafka_port = match &self.provide_kafka {
            Some(k) => k[0].port,
            None => {
                proof {
                    assert(false);
                }
                0
            },
        };
        let mut r: Vec<(String, String)> = Vec::new();
        r.push(
            (
                String::from_str("SCHEMA_REGISTRY_HOST_NAME"),
                String::from_str("localhost"),
            ),
        );
        let mut listener = String::from_str("http://0.0.0.0:");
        let port_str = crate::text::u64_to_string(self.port as u64);
        listener.append(port_str.as_str());
        r.push((String::from_str("SCHEMA_REGISTRY_LISTENERS"), listener));
        let mut bootstrap = String::from_str("PLAINTEXT://localhost:");
        let kafka_port_str = crate::text::u64_to_string(kafka_port as u64);
        bootstrap.append(kafka_port_str.as_str());
        r.push(
            (
                String::from_str("SCHEMA_REGISTRY_KAFKASTORE_BOOTSTRAP_SERVERS"),
                bootstrap,
            ),
        );
        r.push((String::from_str("SCHEMA_REGISTRY_DEBUG"), String::from_str("true")));
        r
    }

    /// No extra port mappings: the service joins the host network.
    pub fn ports(&self) -> (r: Vec<(String, String)>)
        ensures
            r@.len() == 0,
    {
        Vec::new()
    }

    /// The registry keeps no data of its own on disk.
    pub fn data_path(&self) -> (r: Option<String>)
        ensures
            r is None,
    {
        None
    }

    pub fn use_host_network(&self) -> (r: bool)
        ensures
            r,
    {
        true
    }
}

} // verus!

