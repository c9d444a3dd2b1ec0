use crate::decimal::{append_decimal, decimal};
use crate::node_id::NodeId;
use vstd::prelude::*;
use vstd::string::*;

verus! {

/// Where a node of the cluster can be reached over HTTP.
#[derive(Clone, Debug, PartialEq, Eq)]
pub struct RemoteNodeRef {
    pub id: NodeId,
    pub host: String,
    pub port: u16,
}

/// `http://<host>:<port>`, the port in decimal.
pub open spec fn base_url_of(host: Seq<char>, port: u16) -> Seq<char> {
    "http://"@ + host + ":"@ + decimal(port as nat)
}

/// The endpoint that accepts node-to-node messages: the base URL followed by `/raft`.
pub open spec fn raft_url_of(host: Seq<char>, port: u16) -> Seq<char> {
    base_url_of(host, port) + "/raft"@
}

impl RemoteNodeRef {
    pub fn new(id: NodeId, host: String, port: u16) -> (r: Self)
        ensures
            r.id == id,
            r.host == host,
            r.port == port,
    {
        Self { id, host, port }
    }

    pub fn base_url(&self) -> (url: String)
        ensures
            url@ == base_url_of(self.host@, self.port),
    {
        let mut url = String::from_str("http://");
        url.append(self.host.as_str());
        url.append(":");
        append_decimal(&mut url, self.port as u64);
        url
    }

    pub fn url(&self) -> (url: String)
        ensures
            url@ == raft_url_of(self.host@, self.port),
    {
        let mut url = self.base_url();
        url.append("/raft");
        url
    }
}

} // verus!
