//! Which virtual node each application stream goes to.

use vstd::prelude::*;
use std::collections::HashMap;
use crate::maps;

verus! {

/// A logical audio endpoint (virtual sink or source created in PipeWire).
#[derive(Debug, Clone)]
pub struct VirtualNode {
    pub id: u32,
    pub name: String,
    pub kind: NodeKind,
}

#[derive(Debug, Clone, Copy)]
pub enum NodeKind {
    Sink,
    Source,
}

/// Maps application stream PipeWire node IDs to virtual node IDs.
#[derive(Debug)]
pub struct Router {
    nodes: HashMap<u32, VirtualNode>,
    /// stream_id -> virtual_node_id
    routes: HashMap<u32, u32>,
}

/// The virtual nodes under their ids, and for each routed stream the id of a
/// virtual node, which need not be there.
#[verifier::ext_equal]
pub struct RouterView {
    pub nodes: Map<u32, VirtualNode>,
    pub routes: Map<u32, u32>,
}

impl View for Router {
    type V = RouterView;

    closed spec fn view(&self) -> RouterView {
        RouterView { nodes: self.nodes@, routes: self.routes@ }
    }
}

/// The routes but those to `target`.
pub open spec fn routes_without(routes: Map<u32, u32>, target: u32) -> Map<u32, u32> {
    Map::new(|k: u32| routes.contains_key(k) && routes[k] != target, |k: u32| routes[k])
}

impl RouterView {
    /// The virtual node that a stream goes to: the one it is routed to, where
    /// that is there.
    pub open spec fn target(self, stream_id: u32) -> Option<VirtualNode> {
        if self.routes.contains_key(stream_id) && self.nodes.contains_key(self.routes[stream_id]) {
            Some(self.nodes[self.routes[stream_id]])
        } else {
            None
        }
    }

    pub open spec fn added(self, node: VirtualNode) -> RouterView {
        RouterView { nodes: self.nodes.insert(node.id, node), ..self }
    }

    pub open spec fn removed(self, node_id: u32) -> RouterView {
        RouterView {
            nodes: self.nodes.remove(node_id),
            routes: routes_without(self.routes, node_id),
        }
    }

    pub open spec fn routed(self, stream_id: u32, target: u32) -> RouterView {
        RouterView { routes: self.routes.insert(stream_id, target), ..self }
    }

    pub open spec fn unrouted(self, stream_id: u32) -> RouterView {
        RouterView { routes: self.routes.remove(stream_id), ..self }
    }
}

/// A stream that is routed to a node goes there, and no other stream moves.
pub proof fn route_reaches_node(r: RouterView, stream_id: u32, target: u32, other: u32)
    requires
        r.nodes.contains_key(target),
        other != stream_id,
    ensures
        r.routed(stream_id, target).target(stream_id) == Some(r.nodes[target]),
        r.routed(stream_id, target).target(other) == r.target(other),
{
}

/// A stream whose route is removed goes nowhere, and no other stream moves.
pub proof fn unroute_frees_stream(r: RouterView, stream_id: u32, other: u32)
    requires
        other != stream_id,
    ensures
        r.unrouted(stream_id).target(stream_id) is None,
        r.unrouted(stream_id).target(other) == r.target(other),
{
}

/// After a node has been removed no stream is routed to it, not even when a node
/// of the same id comes back; streams that went elsewhere still go there.
pub proof fn removed_node_is_forgotten(r: RouterView, node: VirtualNode, stream_id: u32)
    ensures
        !(r.removed(node.id).routes.contains_key(stream_id) && r.removed(
            node.id,
        ).routes[stream_id] == node.id),
        r.routes.contains_key(stream_id) && r.routes[stream_id] == node.id ==> r.removed(
            node.id,
        ).added(node).target(stream_id) is None,
        !(r.routes.contains_key(stream_id) && r.routes[stream_id] == node.id) ==> r.removed(
            node.id,
        ).target(stream_id) == r.target(stream_id),
{
}

impl Router {
    pub fn add_node(&mut self, node: VirtualNode)
        ensures
            final(self)@ == old(self)@.added(node),
    {
        self.nodes.insert(node.id, node);
    }

    pub fn remove_node(&mut self, node_id: u32)
        ensures
            final(self)@ == old(self)@.removed(node_id),
    {
        self.nodes.remove(&node_id);
        let ids = maps::sorted_ids(&self.routes);
        let ghost was = self.routes@;
        for i in 0..ids.len()
            invariant
                forall|k: u32| #[trigger] ids@.contains(k) <==> was.contains_key(k),
                forall|j: int|
                    0 <= j < i ==> !self.routes@.contains_key(#[trigger] ids@[j])
                        || self.routes@[ids@[j]] != node_id,
                forall|k: u32| #[trigger]
                    self.routes@.contains_key(k) ==> was.contains_key(k) && self.routes@[k]
                        == was[k],
                forall|k: u32| #[trigger]
                    was.contains_key(k) && was[k] != node_id ==> self.routes@.contains_key(k),
                self.nodes@ == old(self).nodes@.remove(node_id),
        {
            let goes_there = match self.routes.get(&ids[i]) {
                Some(target) => *target == node_id,
                None => false,
            };
            if goes_there {
                self.routes.remove(&ids[i]);
            }
        }
        proof {
            assert forall|k: u32| self.routes@.contains_key(k) implies self.routes@[k] != node_id by {
                assert(ids@.contains(k));
                let j = ids@.index_of(k);
                assert(ids@[j] == k);
            }
            assert(self.routes@ =~= routes_without(was, node_id));
        }
    }

    pub fn route(&mut self, stream_id: u32, target_node_id: u32)
        ensures
            final(self)@ == old(self)@.routed(stream_id, target_node_id),
    {
        self.routes.insert(stream_id, target_node_id);
    }

    pub fn unroute(&mut self, stream_id: u32)
        ensures
            final(self)@ == old(self)@.unrouted(stream_id),
    {
        self.routes.remove(&stream_id);
    }

    pub fn target_for(&self, stream_id: u32) -> (r: Option<&VirtualNode>)
        ensures
            match r {
                Some(n) => self@.target(stream_id) == Some(*n),
                None => self@.target(stream_id) is None,
            },
    {
        match self.routes.get(&stream_id) {
            Some(id) => self.nodes.get(id),
            None => None,
        }
    }
}

impl Default for Router {
    fn default() -> (r: Router)
        ensures
            r@ == (RouterView { nodes: Map::empty(), routes: Map::empty() }),
    {
        Router { nodes: HashMap::new(), routes: HashMap::new() }
    }
}

/// A node that is added is there, under its id; every other node and every route stays.
/// A node that is removed is not there, and every other stays. Routes change no nodes.
pub proof fn changes_keep_the_rest(r: RouterView, node: VirtualNode, other: u32, stream_id: u32)
    requires
        other != node.id,
    ensures
        r.added(node).nodes.contains_key(node.id) && r.added(node).nodes[node.id] == node,
        r.added(node).nodes.contains_key(other) == r.nodes.contains_key(other),
        r.added(node).nodes[other] == r.nodes[other],
        r.added(node).routes == r.routes,
        !r.removed(node.id).nodes.contains_key(node.id),
        r.removed(node.id).nodes.contains_key(other) == r.nodes.contains_key(other),
        r.nodes.contains_key(other) ==> r.removed(node.id).nodes[other] == r.nodes[other],
        r.routed(stream_id, other).nodes == r.nodes,
        r.unrouted(stream_id).nodes == r.nodes,
        r.routed(stream_id, other).routes.contains_key(stream_id) && r.routed(
            stream_id,
            other,
        ).routes[stream_id] == other,
        !r.unrouted(stream_id).routes.contains_key(stream_id),
{
}

} // verus!
