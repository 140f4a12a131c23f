//! Node identity: role classification and the fixed hierarchical partition
//! that assigns every cluster node its peer links.
//!
//! The cluster is split into clusters of five consecutive nodes; the first
//! node of each cluster is a hub. Hubs form a chain (each links to the
//! previous and next hub) and every other node links only to its owning hub.
//! The partition is a pure function of the numeric suffix of the node
//! identifier; an identifier it does not recognise yields no links at all,
//! so the node degrades to "no peers" instead of failing.

use crate::text::all_digits;
use crate::text::digits_val;
use crate::text::parse_digits_from;
use crate::text::spec_decimal;
use crate::text::u64_to_string;
use vstd::prelude::*;

verus! {

/// How many consecutive identifiers form one hub cluster.
pub const CLUSTER_SIZE: u64 = 5;

/// Whether the identifier names a client (externally-originated requests):
/// its distinguished prefix is the letter `c`.
pub open spec fn spec_is_customer(s: Seq<char>) -> bool {
    s.len() > 0 && s[0] == 'c'
}

/// Whether `node_id` names a client.
pub fn is_customer_node(node_id: &str) -> (r: bool)
    ensures
        r == spec_is_customer(node_id@),
{
    if node_id.unicode_len() == 0 {
        false
    } else {
        node_id.get_char(0) == 'c'
    }
}

/// Whether the identifier names one of the hub (backbone) nodes.
pub open spec fn spec_is_main(s: Seq<char>) -> bool {
    ||| s == "n0"@
    ||| s == "n5"@
    ||| s == "n10"@
    ||| s == "n15"@
    ||| s == "n20"@
}

/// String equality against a literal.
fn str_eq(a: &String, b: &str) -> (r: bool)
    ensures
        r == (a@ == b@),
{
    a.eq(&b.to_owned())
}

/// Whether `node_id` names a hub node. The hubs are a fixed, enumerated set.
pub fn is_main_node(node_id: &String) -> (r: bool)
    ensures
        r == spec_is_main(node_id@),
{
    str_eq(node_id, "n0") || str_eq(node_id, "n5") || str_eq(node_id, "n10") || str_eq(
        node_id,
        "n15",
    ) || str_eq(node_id, "n20")
}

/// The numeric suffix of a node identifier: everything after the first
/// character, read as a decimal number. `None` when there is no recognisable
/// number there.
pub open spec fn spec_node_index(s: Seq<char>) -> Option<u64> {
    if s.len() >= 2 {
        let suffix = s.subrange(1, s.len() as int);
        if all_digits(suffix) && digits_val(suffix) <= u64::MAX {
            Some(digits_val(suffix) as u64)
        } else {
            None
        }
    } else {
        None
    }
}

/// Reads the numeric suffix of `node_id`.
pub fn parse_node_index(node_id: &String) -> (r: Option<u64>)
    ensures
        r == spec_node_index(node_id@),
{
    let s = node_id.as_str();
    if s.unicode_len() < 2 {
        return None;
    }
    parse_digits_from(s, 1)
}

/// The identifier of cluster node `k`: the letter `n` followed by `k` in
/// decimal.
pub open spec fn spec_node_name(k: u64) -> Seq<char> {
    seq!['n'] + spec_decimal(k as nat)
}

/// Builds the identifier of cluster node `k`.
pub fn node_name(k: u64) -> (s: String)
    ensures
        s@ == spec_node_name(k),
{
    proof {
        reveal_strlit("n");
    }
    let mut s = String::from_str("n");
    let d = u64_to_string(k);
    s.append(d.as_str());
    proof {
        assert(s@ =~= spec_node_name(k));
    }
    s
}

/// The peer links of cluster node `index` in a cluster of `node_count`
/// nodes: for a hub, the previous hub (if any), its leaves, then the next
/// hub (if any); for a leaf, its owning hub alone; for an index outside the
/// cluster, nothing.
pub open spec fn spec_links(index: u64, node_count: u64) -> Seq<Seq<char>> {
    if index >= node_count {
        Seq::empty()
    } else if index % CLUSTER_SIZE == 0 {
        let prev = if index >= CLUSTER_SIZE {
            seq![spec_node_name((index - CLUSTER_SIZE) as u64)]
        } else {
            Seq::<Seq<char>>::empty()
        };
        let next = if index + CLUSTER_SIZE < node_count {
            seq![spec_node_name((index + CLUSTER_SIZE) as u64)]
        } else {
            Seq::<Seq<char>>::empty()
        };
        prev + spec_leaves(index, node_count) + next
    } else {
        seq![spec_node_name((index - index % CLUSTER_SIZE) as u64)]
    }
}

/// The leaves owned by hub `hub`: the next `CLUSTER_SIZE - 1` identifiers,
/// cut off at the cluster's size.
pub open spec fn spec_leaves(hub: u64, node_count: u64) -> Seq<Seq<char>> {
    Seq::new(spec_leaf_count(hub, node_count), |i: int| spec_node_name((hub + 1 + i) as u64))
}

/// How many leaves hub `hub` owns.
pub open spec fn spec_leaf_count(hub: u64, node_count: u64) -> nat {
    if hub >= node_count {
        0
    } else if node_count - 1 - hub >= CLUSTER_SIZE - 1 {
        (CLUSTER_SIZE - 1) as nat
    } else {
        (node_count - 1 - hub) as nat
    }
}

/// Computes the peer links of the node with numeric suffix `index`, in a
/// cluster of `node_count` nodes.
pub fn compute_links(index: u64, node_count: u64) -> (links: Vec<String>)
    ensures
        links.deep_view() == spec_links(index, node_count),
{
    let mut links: Vec<String> = Vec::new();
    if index >= node_count {
        proof {
            assert(links.deep_view() =~= spec_links(index, node_count));
        }
        return links;
    }
    if index % CLUSTER_SIZE == 0 {
        if index >= CLUSTER_SIZE {
            links.push(node_name(index - CLUSTER_SIZE));
        }
        let ghost prev_len = links@.len() as int;
        let leaf_count: u64 = if node_count - 1 - index >= CLUSTER_SIZE - 1 {
            CLUSTER_SIZE - 1
        } else {
            node_count - 1 - index
        };
        assert(leaf_count == spec_leaf_count(index, node_count));
        let mut i: u64 = 0;
        while i < leaf_count
            invariant
                0 <= i <= leaf_count,
                leaf_count == spec_leaf_count(index, node_count),
                index < node_count,
                index % CLUSTER_SIZE == 0,
                index + leaf_count < node_count,
                links@.len() == prev_len + i,
                prev_len == if index >= CLUSTER_SIZE {
                    1int
                } else {
                    0int
                },
                prev_len == 1 ==> links.deep_view()[0] == spec_node_name(
                    (index - CLUSTER_SIZE) as u64,
                ),
                forall|k: int|
                    0 <= k < i ==> links.deep_view()[prev_len + k] == spec_leaves(
                        index,
                        node_count,
                    )[k],
            decreases leaf_count - i,
        {
            links.push(node_name(index + 1 + i));
            i = i + 1;
        }
        if index + CLUSTER_SIZE < node_count {
            links.push(node_name(index + CLUSTER_SIZE));
        }
        proof {
            assert(links.deep_view() =~= spec_links(index, node_count));
        }
    } else {
        links.push(node_name(index - index % CLUSTER_SIZE));
        proof {
            assert(links.deep_view() =~= spec_links(index, node_count));
        }
    }
    links
}

/// Distinct cluster nodes have distinct identifiers.
pub proof fn lemma_node_name_injective(a: u64, b: u64)
    requires
        spec_node_name(a) == spec_node_name(b),
    ensures
        a == b,
{
    assert(spec_node_name(a).subrange(1, spec_node_name(a).len() as int) =~= spec_decimal(
        a as nat,
    ));
    assert(spec_node_name(b).subrange(1, spec_node_name(b).len() as int) =~= spec_decimal(
        b as nat,
    ));
    crate::text::lemma_decimal_injective(a as nat, b as nat);
}

/// The partition never assigns the same peer twice.
pub proof fn lemma_links_distinct(index: u64, node_count: u64)
    ensures
        forall|a: int, b: int|
            0 <= a < spec_links(index, node_count).len() && 0 <= b < spec_links(
                index,
                node_count,
            ).len() && a != b ==> #[trigger] spec_links(index, node_count)[a]
                != #[trigger] spec_links(index, node_count)[b],
{
    let links = spec_links(index, node_count);
    assert forall|a: int, b: int|
        0 <= a < links.len() && 0 <= b < links.len() && a != b implies #[trigger] links[a]
        != #[trigger] links[b] by {
        let ka = spec_link_index(index, node_count, a);
        let kb = spec_link_index(index, node_count, b);
        assert(links[a] == spec_node_name(ka));
        assert(links[b] == spec_node_name(kb));
        assert(ka != kb);
        if links[a] == links[b] {
            lemma_node_name_injective(ka, kb);
        }
    }
}

/// The cluster index behind position `a` of the link list.
pub open spec fn spec_link_index(index: u64, node_count: u64, a: int) -> u64 {
    if index % CLUSTER_SIZE == 0 {
        let has_prev = index >= CLUSTER_SIZE;
        let leaves = spec_leaf_count(index, node_count) as int;
        if has_prev && a == 0 {
            (index - CLUSTER_SIZE) as u64
        } else {
            let off = if has_prev {
                a - 1
            } else {
                a
            };
            if off < leaves {
                (index + 1 + off) as u64
            } else {
                (index + CLUSTER_SIZE) as u64
            }
        }
    } else {
        (index - index % CLUSTER_SIZE) as u64
    }
}

/// The peer links a node with identifier `node_id` derives for itself:
/// the partition applied to its numeric suffix, or no links at all when the
/// identifier is not recognised.
pub open spec fn spec_links_of_id(id: Seq<char>, node_count: u64) -> Seq<Seq<char>> {
    match spec_node_index(id) {
        Some(index) => spec_links(index, node_count),
        None => Seq::empty(),
    }
}

/// Derives the peer links for `node_id` in a cluster of `node_count` nodes.
pub fn links_of_id(node_id: &String, node_count: u64) -> (links: Vec<String>)
    ensures
        links.deep_view() == spec_links_of_id(node_id@, node_count),
{
    match parse_node_index(node_id) {
        Some(index) => compute_links(index, node_count),
        None => {
            let links: Vec<String> = Vec::new();
            proof {
                assert(links.deep_view() =~= spec_links_of_id(node_id@, node_count));
            }
            links
        },
    }
}

} // verus!
