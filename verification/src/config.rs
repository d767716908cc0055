use vstd::prelude::*;
use vstd::string::StringExecFns;

verus! {

pub const P2P_PORT: u16 = 9000;

pub const RPC_PORT: u16 = 9001;

pub const EXPLORER_PORT: u16 = 3000;

/// Most peers to connect to.
pub const MAX_PEERS: usize = 12;

/// Largest message, in bytes.
pub const MAX_MESSAGE_SIZE: usize = 1_048_576;

/// The RPC server listens on the local interface only.
pub const RPC_BIND_ADDRESS: &'static str = "127.0.0.1";

/// Name of the file that holds the RPC token.
pub const RPC_COOKIE_FILE: &'static str = ".cookie";

/// Where the P2P port listens unless told otherwise.
pub const P2P_BIND_ADDRESS_DEFAULT: &'static str = "0.0.0.0";

/// The data directory below the home directory.
pub const DATA_DIR: &'static str = ".knotcoin/mainnet";

/// Ports and data directory of a node.
pub struct NetworkConfig {
    pub p2p_port: u16,
    pub rpc_port: u16,
    pub data_dir: String,
}

impl NetworkConfig {
    /// The mainnet configuration of a node whose home directory is `home`.
    pub fn mainnet(home: &str) -> (c: Self)
        ensures
            c.p2p_port == 9000,
            c.rpc_port == 9001,
            c.data_dir@ == home@ + "/"@ + ".knotcoin/mainnet"@,
    {
        NetworkConfig { p2p_port: P2P_PORT, rpc_port: RPC_PORT, data_dir: default_data_dir(home) }
    }
}

/// The data directory of a node whose home directory is `home`.
pub fn default_data_dir(home: &str) -> (dir: String)
    ensures
        dir@ == home@ + "/"@ + ".knotcoin/mainnet"@,
{
    let mut dir = String::from_str(home);
    dir.append("/");
    dir.append(DATA_DIR);
    dir
}

/// Picks a setting by precedence: the command-line flag, then the
/// environment variable, then the default.
pub fn resolve_setting(flag: Option<String>, env: Option<String>, default: &str) -> (value: String)
    ensures
        value@ == (match flag {
            Some(f) => f@,
            None => match env {
                Some(e) => e@,
                None => default@,
            },
        }),
{
    match flag {
        Some(f) => f,
        None => match env {
            Some(e) => e,
            None => String::from_str(default),
        },
    }
}

} // verus!
