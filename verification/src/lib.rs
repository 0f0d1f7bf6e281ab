//! The engine of an eD2k/Kad client.
pub mod aich;
pub mod aich_tree;
pub mod block_sources;
pub mod hash;
pub mod kad_live;
pub mod kad_lookup;
pub mod kad_publish;
pub mod kad_serve;
pub mod kad_wire;
pub mod known2_store;
pub mod link;
pub mod multi_source;
pub mod net;
pub mod obf_handshake;
pub mod part_file;
pub mod part_store;
pub mod peer;
pub mod peer_conn;
pub mod peer_session;
pub mod portmap;
pub mod proto;
pub mod query;
pub mod retry;
pub mod search;
pub mod tags;
pub mod text;
pub mod wire;
