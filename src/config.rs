//! Configuration values of the server and the client. Reading and writing them as TOML is
//! done by the program around the library.
use vstd::prelude::*;

verus! {

/// Address a server binds to when none is configured.
pub const DEFAULT_ADDRESS: &'static str = "127.0.0.1:8080";

/// The server's settings.
#[derive(Debug, Clone)]
pub struct ServerConfig {
    /// `host:port` to listen on.
    pub bind_address: String,
    /// Base64 of the server's 32-byte private key.
    pub privkey: String,
    /// Directory of the engine's store.
    pub storage_path: String,
    /// Base64 public keys of the clients allowed to connect.
    pub clients: Vec<String>,
}

/// The client's settings.
#[derive(Debug, Clone)]
pub struct ClientConfig {
    /// Base64 of the client's private key.
    pub privkey: String,
    /// `host:port` of the server.
    pub server_address: String,
    /// Base64 of the server's public key.
    pub server_pubkey: String,
}

impl ServerConfig {
    /// The settings used when no configuration file exists.
    pub fn fallback(storage_path: String) -> (r: ServerConfig)
        ensures
            r.bind_address@ == DEFAULT_ADDRESS@,
            r.privkey@.len() == 0,
            r.storage_path@ == storage_path@,
            r.clients@.len() == 0,
    {
        ServerConfig {
            bind_address: DEFAULT_ADDRESS.to_owned(),
            privkey: String::new(),
            storage_path,
            clients: Vec::new(),
        }
    }
}

impl ClientConfig {
    /// The settings used when no configuration file exists.
    pub fn fallback() -> (r: ClientConfig)
        ensures
            r.privkey@.len() == 0,
            r.server_address@ == DEFAULT_ADDRESS@,
            r.server_pubkey@.len() == 0,
    {
        ClientConfig {
            privkey: String::new(),
            server_address: DEFAULT_ADDRESS.to_owned(),
            server_pubkey: String::new(),
        }
    }
}

/// Type-state marker of a client that has not been started.
#[derive(Debug, Clone, Copy)]
pub struct Stopped;

/// Type-state marker of a running client.
#[derive(Debug, Clone, Copy)]
pub struct Running;

} // verus!
