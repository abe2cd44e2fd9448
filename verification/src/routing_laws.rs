//! What holds of the router whatever the graph does.

use crate::graph::{
    ids_of, link_props, links_to_sink, object_added, object_removed, output_ports, plays_from,
    quiet, route_begun, route_done, routed_released, sink_plan, unroute_done, filter_plan, Graph,
    LinkRequest, ObjectView, PortInfo, PortRecord, Response, TrackedLink, goes_elsewhere,
    id_and_name,
};
use crate::messages::AppRole;
use crate::ports::{is_listed, pair_is_listed, stereo_pair};
use crate::table::{lookup, lookup_with_entry, lookup_without, owned_by_other, without};
use crate::text::{decimal, id_round_trip};
use vstd::prelude::*;

verus! {

/// A link that appears between a routed app and anything but the filter is destroyed, and
/// nothing else changes.
pub proof fn competing_link_is_destroyed<L>(g: Graph<L>, id: u32, from: u32, to: u32)
    requires
        lookup(g.routed_nodes, from) is Some,
        g.filter_node_id != Some(from),
        g.filter_node_id != Some(to),
    ensures
        object_added(
            g,
            id,
            ObjectView::Link {
                output_node: Some(decimal(from as nat)),
                input_node: Some(decimal(to as nat)),
            },
        ) == (g, Response { destroy: Some(id), ..quiet() }),
{
    id_round_trip(from);
    id_round_trip(to);
}

/// The two ends that a link's properties name are the ends of the link that was asked for: a
/// link to or from the filter is known as the router's own when it appears, and is left
/// alone.
pub proof fn own_link_is_left_alone<L>(g: Graph<L>, id: u32, link: LinkRequest)
    requires
        g.filter_node_id == Some(link.out_node) || g.filter_node_id == Some(link.in_node),
    ensures
        object_added(
            g,
            id,
            ObjectView::Link {
                output_node: Some(link_props(link)[0].1),
                input_node: Some(link_props(link)[2].1),
            },
        ) == (g, quiet()),
        link_props(link)[0].0 == "link.output.node"@,
        link_props(link)[2].0 == "link.input.node"@,
{
    id_round_trip(link.out_node);
    id_round_trip(link.in_node);
}

/// The first sink that appears stays the sink.
pub proof fn sink_stays<L>(g: Graph<L>, id: u32, object: ObjectView)
    requires
        g.sink_node_id is Some,
    ensures
        object_added(g, id, object).0.sink_node_id == g.sink_node_id,
        object_removed(g, id).0.sink_node_id == g.sink_node_id,
{
}

/// As long as a link of the filter's output is held, no other is asked for.
pub proof fn output_is_linked_once<L>(g: Graph<L>, id: u32, object: ObjectView)
    requires
        g.output_links.len() > 0,
    ensures
        object_added(g, id, object).1.links.len() == 0,
        object_added(g, id, object).0.output_links == g.output_links,
{
}

/// Nothing of an app is left when its node is gone.
pub proof fn removed_app_leaves_nothing<L>(g: Graph<L>, id: u32)
    requires
        lookup(g.nodes, id) is Some,
    ensures
        ({
            let h = object_removed(g, id).0;
            &&& lookup(h.nodes, id) is None
            &&& lookup(h.active_links, id) is None
            &&& lookup(h.restore_links, id) is None
            &&& lookup(h.routed_nodes, id) is None
            &&& forall|i: int| 0 <= i < h.ports.len() ==> (#[trigger] h.ports[i]).1.node_id != id
            &&& forall|i: int|
                0 <= i < h.existing_links.len() ==> (#[trigger] h.existing_links[i]).1.output_node_id
                    != id
        }),
{
    lookup_without(g.nodes, id, id);
    lookup_without(g.active_links, id, id);
    lookup_without(g.restore_links, id, id);
    lookup_without(g.routed_nodes, id, id);
    let h = object_removed(g, id).0;
    assert forall|i: int| 0 <= i < h.ports.len() implies (#[trigger] h.ports[i]).1.node_id != id by {
        g.ports.lemma_filter_pred(owned_by_other::<PortInfo>(id), i);
    }
    assert forall|i: int|
        0 <= i < h.existing_links.len() implies (#[trigger] h.existing_links[i]).1.output_node_id
        != id by {
        g.existing_links.lemma_filter_pred(owned_by_other::<TrackedLink>(id), i);
    }
}

/// An app that is not in the graph any more is not played from by any plan.
pub proof fn removed_app_is_not_linked<L>(g: Graph<L>, id: u32, linger: bool)
    requires
        lookup(g.nodes, id) is Some,
    ensures
        sink_plan(object_removed(g, id).0, id, linger).len() == 0,
{
    removed_app_leaves_nothing(g, id);
    let h = object_removed(g, id).0;
    lemma_no_outputs(h.ports, id);
}

proof fn lemma_no_outputs(ports: Seq<(u32, PortRecord)>, node: u32)
    requires
        forall|i: int| 0 <= i < ports.len() ==> (#[trigger] ports[i]).1.node_id != node,
    ensures
        output_ports(ports, node).len() == 0,
    decreases ports.len(),
{
    reveal(Seq::filter);
    if ports.len() > 0 {
        let t = ports.drop_last();
        assert(forall|i: int| 0 <= i < t.len() ==> t[i] == ports[i]);
        lemma_no_outputs(t, node);
        assert(ports.last() == ports[ports.len() - 1]);
    }
}

/// Whether a port is an output port of a node.
pub open spec fn is_output_of<L>(g: Graph<L>, node: u32, port: u32) -> bool {
    exists|i: int|
        0 <= i < g.ports.len() && (#[trigger] g.ports[i]).0 == port && g.ports[i].1.node_id == node
            && g.ports[i].1.direction == "out"@
}

/// A listed output port is one.
pub proof fn lemma_listed_output<L>(g: Graph<L>, node: u32, port: u32)
    requires
        is_listed(output_ports(g.ports, node), port),
    ensures
        is_output_of(g, node, port),
{
    let outs = output_ports(g.ports, node);
    let f = g.ports.filter(plays_from(node));
    let i = choose|i: int| 0 <= i < outs.len() && (#[trigger] outs[i]).0 == port;
    assert(outs[i] == id_and_name()(f[i]));
    g.ports.lemma_filter_pred(plays_from(node), i);
    g.ports.lemma_filter_contains_rev(plays_from(node), f[i]);
    let j = choose|j: int| 0 <= j < g.ports.len() && g.ports[j] == f[i];
    assert(g.ports[j].0 == port);
}

/// A link to the sink runs from an output port of the app to an input port of the sink.
pub proof fn sink_links_join_known_ports<L>(g: Graph<L>, node: u32, linger: bool, k: int)
    requires
        0 <= k < sink_plan(g, node, linger).len(),
    ensures
        ({
            let link = sink_plan(g, node, linger)[k];
            &&& link.out_node == node
            &&& g.sink_node_id == Some(link.in_node)
            &&& link.linger == linger
            &&& is_output_of(g, node, link.out_port)
            &&& is_listed(g.sink_input_ports, link.in_port)
        }),
{
    let outs = output_ports(g.ports, node);
    pair_is_listed(outs);
    pair_is_listed(g.sink_input_ports);
    let pair = stereo_pair(outs);
    lemma_listed_output(g, node, pair.0->0);
    if pair.1 is Some {
        lemma_listed_output(g, node, pair.1->0);
    }
}

/// A link to the filter runs from an output port of the app to the filter's input of the
/// role.
pub proof fn filter_links_join_known_ports<L>(g: Graph<L>, node: u32, role: AppRole, k: int)
    requires
        filter_plan(g, node, role) is Ok,
        0 <= k < filter_plan(g, node, role)->Ok_0.len(),
    ensures
        filter_plan(g, node, role)->Ok_0.len() == 2,
        ({
            let link = filter_plan(g, node, role)->Ok_0[k];
            &&& link.out_node == node
            &&& g.filter_node_id == Some(link.in_node)
            &&& !link.linger
            &&& is_output_of(g, node, link.out_port)
            &&& g.filter_input_ports.contains_value(link.in_port)
        }),
{
    let outs = output_ports(g.ports, node);
    pair_is_listed(outs);
    let pair = stereo_pair(outs);
    lemma_listed_output(g, node, pair.0->0);
    if pair.1 is Some {
        lemma_listed_output(g, node, pair.1->0);
    }
    let (left, right) = crate::graph::role_ports(role);
    assert(g.filter_input_ports.dom().contains(left));
    assert(g.filter_input_ports.dom().contains(right));
}

/// Routing an app and giving it back leaves it unrouted and without links to the filter, and
/// touches no other app.
pub proof fn route_then_unroute<L>(g: Graph<L>, node: u32, to_filter: Seq<L>, to_sink: Seq<L>, k: u32)
    ensures
        ({
            let h = unroute_done(route_done(route_begun(g, node), node, to_filter), node, to_sink);
            &&& lookup(h.routed_nodes, node) is None
            &&& lookup(h.active_links, node) is None
            &&& k != node ==> {
                &&& lookup(h.routed_nodes, k) == lookup(g.routed_nodes, k)
                &&& lookup(h.active_links, k) == lookup(g.active_links, k)
                &&& lookup(h.restore_links, k) == lookup(g.restore_links, k)
            }
            &&& h.nodes == g.nodes
            &&& h.ports == g.ports
            &&& h.output_links == g.output_links
        }),
{
    let g1 = route_begun(g, node);
    let g2 = route_done(g1, node, to_filter);
    lookup_with_entry(g.routed_nodes, node, (), k);
    lookup_without(g2.routed_nodes, node, node);
    lookup_without(g2.routed_nodes, node, k);
    lookup_without(g.active_links, node, k);
    let cleared = without(g.active_links, node);
    assert(cleared.push((node, to_filter)).drop_last() =~= cleared);
    lookup_without(g2.active_links, node, node);
    lookup_without(g2.active_links, node, k);
    lookup_without(g.restore_links, node, k);
    if to_sink.len() > 0 {
        lookup_with_entry(g2.restore_links, node, to_sink, k);
    }
}

/// Routed is what holds links to the filter: a routed app holds just the links that were made
/// for it last.
pub proof fn routed_app_holds_its_links<L>(g: Graph<L>, node: u32, links: Seq<L>)
    requires
        links.len() > 0,
    ensures
        lookup(route_done(route_begun(g, node), node, links).active_links, node) == Some(links),
        lookup(route_done(route_begun(g, node), node, links).routed_nodes, node) is Some,
        lookup(route_done(route_begun(g, node), node, links).restore_links, node) is None,
        links_to_sink(route_done(route_begun(g, node), node, links), node).len() == 0,
{
    lookup_with_entry(g.routed_nodes, node, (), node);
    lookup_without(g.restore_links, node, node);
    let g1 = route_begun(g, node);
    if g1.sink_node_id is Some {
        let sink = g1.sink_node_id->0;
        let kept = g1.existing_links.filter(goes_elsewhere(node, sink));
        assert forall|i: int| 0 <= i < kept.len() implies goes_elsewhere(node, sink)(
            #[trigger] kept[i],
        ) by {
            g1.existing_links.lemma_filter_pred(goes_elsewhere(node, sink), i);
        }
        lemma_nothing_to_sink(kept, node, sink);
    }
}

proof fn lemma_nothing_to_sink(s: Seq<(u32, TrackedLink)>, node: u32, sink: u32)
    requires
        forall|i: int| 0 <= i < s.len() ==> goes_elsewhere(node, sink)(#[trigger] s[i]),
    ensures
        s.filter(crate::graph::goes_to_sink(node, sink)).len() == 0,
    decreases s.len(),
{
    reveal(Seq::filter);
    if s.len() > 0 {
        let t = s.drop_last();
        assert(forall|i: int| 0 <= i < t.len() ==> t[i] == s[i]);
        lemma_nothing_to_sink(t, node, sink);
        assert(goes_elsewhere(node, sink)(s[s.len() - 1]));
    }
}

/// The graph after the first routed apps of a list have been let go.
pub open spec fn all_released<L>(g: Graph<L>, nodes: Seq<u32>) -> Graph<L>
    decreases nodes.len(),
{
    if nodes.len() == 0 {
        g
    } else {
        routed_released(all_released(g, nodes.drop_last()), nodes.last())
    }
}

/// When all routed apps have been let go, none is routed and none of them holds a link to
/// the filter.
pub proof fn shutdown_releases_all<L>(g: Graph<L>, k: u32)
    ensures
        lookup(all_released(g, ids_of(g.routed_nodes)).routed_nodes, k) is None,
        lookup(g.routed_nodes, k) is Some ==> lookup(
            all_released(g, ids_of(g.routed_nodes)).active_links,
            k,
        ) is None,
{
    let nodes = ids_of(g.routed_nodes);
    lemma_released(g, nodes, k);
    crate::table::lemma_lookup_absent(g.routed_nodes, k);
    if lookup(g.routed_nodes, k) is Some {
        let i = choose|i: int| 0 <= i < g.routed_nodes.len() && g.routed_nodes[i] == (k, ());
        assert(nodes[i] == k);
    }
}

proof fn lemma_released<L>(g: Graph<L>, nodes: Seq<u32>, k: u32)
    ensures
        nodes.contains(k) ==> lookup(all_released(g, nodes).routed_nodes, k) is None && lookup(
            all_released(g, nodes).active_links,
            k,
        ) is None,
        lookup(g.routed_nodes, k) is None ==> lookup(all_released(g, nodes).routed_nodes, k)
            is None,
    decreases nodes.len(),
{
    if nodes.len() > 0 {
        let t = nodes.drop_last();
        lemma_released(g, t, k);
        let h = all_released(g, t);
        lookup_without(h.routed_nodes, nodes.last(), k);
        lookup_without(h.active_links, nodes.last(), k);
        if nodes.contains(k) && k != nodes.last() {
            let i = choose|i: int| 0 <= i < nodes.len() && nodes[i] == k;
            assert(t[i] == k);
        }
    }
}

/// While an app's links to the filter are not made, the links that gave it back to the sink are
/// held, also where it cannot be routed. With the links to the filter they are let go.
pub proof fn sink_links_are_held_until_routed<L>(g: Graph<L>, node: u32, links: Seq<L>, k: u32)
    ensures
        lookup(route_begun(g, node).restore_links, k) == lookup(g.restore_links, k),
        lookup(route_done(route_begun(g, node), node, links).restore_links, node) is None,
        k != node ==> lookup(route_done(route_begun(g, node), node, links).restore_links, k)
            == lookup(g.restore_links, k),
{
    lookup_without(g.restore_links, node, node);
    lookup_without(g.restore_links, node, k);
}

} // verus!
