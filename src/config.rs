//! Runtime configuration of a node.
use vstd::prelude::*;
use vstd::string::StringExecFns;
use once_cell::sync::OnceCell;

verus! {

/// One member of the cluster.
#[derive(Debug)]
pub struct NodeConfig {
    pub id: u64,
    pub addr: String,
}

/// Settings of this node and the members of its cluster.
#[derive(Debug)]
pub struct RuntimeConfig {
    pub id: u64,
    pub start_with_leader: bool,
    pub addr: String,
    pub metrics_addr: String,
    pub base_path: String,
    pub node_list: Vec<NodeConfig>,
}

#[verifier::external_type_specification]
#[verifier::external_body]
#[verifier::reject_recursive_types(T)]
pub struct ExOnceCell<T>(OnceCell<T>);

/// Relies on `once_cell::sync::OnceCell::get_or_init`: the value the cell
/// holds, after storing `RuntimeConfig::new()` in it if it was empty.
#[verifier::external_body]
fn cell_get_or_default(cell: &OnceCell<RuntimeConfig>) -> (r: &RuntimeConfig) {
    cell.get_or_init(RuntimeConfig::new)
}

/// The configuration that `cell` holds, the defaults if none was set: the
/// process-wide configuration is initialised once and only read after.
pub fn instance(cell: &OnceCell<RuntimeConfig>) -> (r: &RuntimeConfig) {
    cell_get_or_default(cell)
}

impl RuntimeConfig {
    /// The defaults: node 1, a follower, listening on port 4000 with
    /// metrics on 4010, data under `./data`, no other members.
    pub fn new() -> (r: RuntimeConfig)
        ensures
            r.id == 1,
            !r.start_with_leader,
            r.addr@ == "0.0.0.0:4000"@,
            r.metrics_addr@ == "0.0.0.0:4010"@,
            r.base_path@ == "./data"@,
            r.node_list@.len() == 0,
    {
        RuntimeConfig {
            id: 1,
            start_with_leader: false,
            addr: String::from_str("0.0.0.0:4000"),
            metrics_addr: String::from_str("0.0.0.0:4010"),
            base_path: String::from_str("./data"),
            node_list: Vec::new(),
        }
    }

    /// The ids of the other members, in the order of the list: the nodes a
    /// bootstrap leader adds to its cluster.
    pub fn follower_ids(&self) -> (r: Vec<u64>)
        ensures
            r@ == self.node_list@.map_values(|n: NodeConfig| n.id).filter(|i: u64| i != self.id),
    {
        let ghost ids = self.node_list@.map_values(|n: NodeConfig| n.id);
        let mut r: Vec<u64> = Vec::new();
        let n = self.node_list.len();
        let mut k: usize = 0;
        while k < n
            invariant
                n == self.node_list@.len(),
                ids == self.node_list@.map_values(|n: NodeConfig| n.id),
                0 <= k <= n,
                r@ == ids.subrange(0, k as int).filter(|i: u64| i != self.id),
            decreases n - k,
        {
            let id = self.node_list[k].id;
            proof {
                let p = ids.subrange(0, k + 1);
                assert(p.drop_last() =~= ids.subrange(0, k as int));
                assert(p.last() == id);
                reveal(Seq::filter);
            }
            if id != self.id {
                r.push(id);
            }
            k += 1;
        }
        proof {
            assert(ids.subrange(0, n as int) =~= ids);
        }
        r
    }

    /// The address of member `to`: entry `to - 1` of the list.
    pub fn peer_addr(&self, to: u64) -> (r: Option<&String>)
        ensures
            (1 <= to <= self.node_list@.len()) ==> r == Some(&self.node_list@[to - 1].addr),
            !(1 <= to <= self.node_list@.len()) ==> r is None,
    {
        if to >= 1 && to - 1 < self.node_list.len() as u64 {
            Some(&self.node_list[(to - 1) as usize].addr)
        } else {
            None
        }
    }
}

} // verus!
