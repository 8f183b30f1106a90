//! Configuration for the streaming bus connection; the producer itself and
//! the publish call live with the process wiring, outside the library.
use vstd::prelude::*;

verus! {

/// SASL authentication settings.
#[derive(Debug)]
pub struct SaslAuth {
    pub username: String,
    pub password: String,
    pub mechanism: String,
}

/// How the bus connection authenticates.
#[derive(Debug)]
pub enum KafkaAuth {
    SaslPlainText(SaslAuth),
    PlainText,
}

/// Where probes are published.
#[derive(Debug)]
pub struct KafkaConfig {
    pub brokers: String,
    pub topic: String,
    pub auth: KafkaAuth,
}

impl Default for KafkaConfig {
    /// A local plaintext broker and the plain probes topic.
    fn default() -> (r: KafkaConfig)
        ensures
            r.brokers@ == "localhost:9092"@,
            r.topic@ == "probes"@,
            r.auth is PlainText,
    {
        KafkaConfig {
            brokers: String::from_str("localhost:9092"),
            topic: String::from_str("probes"),
            auth: KafkaAuth::PlainText,
        }
    }
}

} // verus!
