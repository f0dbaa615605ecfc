use std::collections::HashMap;
use vstd::prelude::*;
use crate::layer_orderer::{NodeID, Order, EdgeMap, edge_view, orders_view, all_orders};
use crate::sugiyama_ordering::{arrangements, layer_doms};

verus! {

/// Decides the ordering of the nodes within every layer of a layered drawing, dummy nodes
/// included. Whatever the ordering, every layer keeps its nodes.
pub trait LayerOrdering {
    /// The ordering can order layers with the node sets `doms` and the edges `ev`.
    spec fn accepts_layers(&self, doms: Seq<Set<NodeID>>, ev: Map<NodeID, Map<NodeID, usize>>) -> bool;

    /// `out` is a result that ordering the layers `ls` with the edges `ev`, the dummy id bounds
    /// `group_start` and `edge_start` and the owners `owners` can give.
    spec fn ordered_to(
        &self,
        ls: Seq<Map<NodeID, usize>>,
        ev: Map<NodeID, Map<NodeID, usize>>,
        group_start: NodeID,
        edge_start: NodeID,
        owners: Map<NodeID, NodeID>,
        out: Seq<Map<NodeID, usize>>,
    ) -> bool;

    /// Orders the nodes of every layer. Ids in `dummy_group_start_id..dummy_edge_start_id`
    /// are dummy nodes of groups, ids from `dummy_edge_start_id` on dummy nodes of edges, and
    /// `owners` gives the group that a dummy node belongs to.
    fn order_nodes(
        &self,
        layers: &Vec<Order>,
        edges: &EdgeMap,
        dummy_group_start_id: NodeID,
        dummy_edge_start_id: NodeID,
        owners: &HashMap<NodeID, NodeID>,
    ) -> (out: Vec<Order>)
        requires
            all_orders(orders_view(layers@)),
            self.accepts_layers(layer_doms(orders_view(layers@)), edge_view(edges@)),
        ensures
            arrangements(orders_view(out@), layer_doms(orders_view(layers@))),
            self.ordered_to(orders_view(layers@), edge_view(edges@), dummy_group_start_id, dummy_edge_start_id,
                owners@, orders_view(out@)),
    ;
}

/// Sorts the nodes of the layers such that groups spanning several layers line up.
pub trait LayerGroupSorting {
    /// The sorting can handle the layers `ls` with the owners `owners`.
    spec fn accepts_groups(&self, ls: Seq<Map<NodeID, usize>>, owners: Map<NodeID, NodeID>) -> bool;

    /// `out` is a result that sorting the layers `ls` can give; the other arguments are those of
    /// `LayerOrdering::ordered_to`.
    spec fn aligned_to(
        &self,
        ls: Seq<Map<NodeID, usize>>,
        ev: Map<NodeID, Map<NodeID, usize>>,
        group_start: NodeID,
        edge_start: NodeID,
        owners: Map<NodeID, NodeID>,
        out: Seq<Map<NodeID, usize>>,
    ) -> bool;

    /// Sorts the nodes of every layer; the arguments are those of `LayerOrdering::order_nodes`.
    fn align_cross_layer_nodes(
        &self,
        layers: &Vec<Order>,
        edges: &EdgeMap,
        dummy_group_start_id: NodeID,
        dummy_edge_start_id: NodeID,
        owners: &HashMap<NodeID, NodeID>,
    ) -> (out: Vec<Order>)
        requires
            all_orders(orders_view(layers@)),
            self.accepts_groups(orders_view(layers@), owners@),
        ensures
            arrangements(orders_view(out@), layer_doms(orders_view(layers@))),
            self.aligned_to(orders_view(layers@), edge_view(edges@), dummy_group_start_id, dummy_edge_start_id,
                owners@, orders_view(out@)),
    ;
}

} // verus!
