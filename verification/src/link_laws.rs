//! Which ends the planned links have, and what becomes of what appears in the graph.

use crate::apps::{app_with_port, note_taken, port_other_than, role_given, Board};
use crate::graph::{
    display_name, filter_plan, goes_elsewhere, goes_to_sink, ids_of, link_props, links_to_sink,
    object_added, object_removed, output_plan, output_ports, plays_audio, route_done, sink_plan,
    Graph, LinkRequest, ObjectView, PortRecord, RouteRefusal, TrackedLink,
};
use crate::messages::{AppRole, AppView, Note};
use crate::ports::{
    ascending, first_left, first_right, left_named, lemma_ascending, lemma_first_left_is_first,
    lemma_first_left_in_range, lemma_first_left_named, lemma_first_right_in_range,
    lemma_first_right_named, lemma_some_right, pair_is_listed, right_named, stereo_pair, PortView,
};
use crate::routing_laws::{is_output_of, lemma_listed_output};
use crate::table::{lookup, lookup_with_entry, lookup_without, with_entry};
use crate::text::{decimal, has_text, id_round_trip};
use vstd::prelude::*;
use vstd::relations::*;
use vstd::seq_lib::*;

verus! {

/// Whether two links feed a left and a right input of one node from the outputs of another: the
/// first link ends at the left input and the second one at the right input. An app with one
/// output feeds both from it.
pub open spec fn feeds_both_sides<L>(
    g: Graph<L>,
    links: Seq<LinkRequest>,
    out_node: u32,
    in_node: u32,
    left: u32,
    right: u32,
    linger: bool,
) -> bool {
    &&& links.len() == 2
    &&& links[0].in_port == left
    &&& links[1].in_port == right
    &&& forall|k: int|
        0 <= k < 2 ==> {
            &&& (#[trigger] links[k]).out_node == out_node
            &&& links[k].in_node == in_node
            &&& links[k].linger == linger
            &&& is_output_of(g, out_node, links[k].out_port)
        }
    &&& output_ports(g.ports, out_node).len() == 1 ==> links[0].out_port == links[1].out_port
}

/// What a pair of ports of a node is made of.
proof fn lemma_pair_of<L>(g: Graph<L>, node: u32)
    ensures
        ({
            let (l, r) = stereo_pair(output_ports(g.ports, node));
            &&& l matches Some(p) ==> is_output_of(g, node, p)
            &&& r matches Some(p) ==> is_output_of(g, node, p)
            &&& output_ports(g.ports, node).len() == 1 ==> l is None || r is None
        }),
{
    let outs = output_ports(g.ports, node);
    pair_is_listed(outs);
    let pair = stereo_pair(outs);
    if pair.0 is Some {
        lemma_listed_output(g, node, pair.0->0);
    }
    if pair.1 is Some {
        lemma_listed_output(g, node, pair.1->0);
    }
    lemma_first_left_in_range(outs);
    lemma_first_right_in_range(outs, first_left(outs));
}

/// Whenever a role can be given to an app, both inputs of that role are fed: the first planned
/// link ends at the filter's left input of the role and the second one at its right input, by
/// the names of those inputs, whether the app has two output ports or one.
pub proof fn role_feeds_both_inputs<L>(g: Graph<L>, node: u32, role: AppRole)
    requires
        filter_plan(g, node, role) is Ok,
    ensures
        ({
            let left = if role == AppRole::Voice {
                "voice_left"@
            } else {
                "music_left"@
            };
            let right = if role == AppRole::Voice {
                "voice_right"@
            } else {
                "music_right"@
            };
            &&& g.filter_node_id is Some
            &&& g.filter_input_ports.contains_key(left)
            &&& g.filter_input_ports.contains_key(right)
            &&& feeds_both_sides(
                g,
                filter_plan(g, node, role)->Ok_0,
                node,
                g.filter_node_id->0,
                g.filter_input_ports[left],
                g.filter_input_ports[right],
                false,
            )
        }),
{
    lemma_pair_of(g, node);
}

/// A role can be given to an app once the filter and both of its inputs of the role are known
/// and the app has an output port, unless the only sides that are named are right ones.
pub proof fn role_can_be_given<L>(g: Graph<L>, node: u32, role: AppRole)
    requires
        g.filter_node_id is Some,
        role == AppRole::Voice ==> g.filter_input_ports.contains_key("voice_left"@)
            && g.filter_input_ports.contains_key("voice_right"@),
        role != AppRole::Voice ==> g.filter_input_ports.contains_key("music_left"@)
            && g.filter_input_ports.contains_key("music_right"@),
        output_ports(g.ports, node).len() > 0,
        (exists|i: int|
            0 <= i < output_ports(g.ports, node).len() && left_named(
                (#[trigger] output_ports(g.ports, node)[i]).1,
            )) || (forall|i: int|
            0 <= i < output_ports(g.ports, node).len() ==> !right_named(
                (#[trigger] output_ports(g.ports, node)[i]).1,
            )),
    ensures
        filter_plan(g, node, role) is Ok,
{
    let outs = output_ports(g.ports, node);
    if exists|i: int| 0 <= i < outs.len() && left_named((#[trigger] outs[i]).1) {
        let i = choose|i: int| 0 <= i < outs.len() && left_named((#[trigger] outs[i]).1);
        lemma_first_left_is_first(outs, i);
    } else {
        lemma_first_right_named(outs, first_left(outs));
        if first_right(outs, first_left(outs)) is Some {
            let j = first_right(outs, first_left(outs))->0;
            assert(right_named(outs[j].1));
        }
    }
}

/// Whenever an app can be linked straight to the sink, it plays on both of its sides: the first
/// planned link ends at the sink's left input and the second one at its right input. The links
/// outlive the process where that is asked for.
pub proof fn sink_gets_both_sides<L>(g: Graph<L>, node: u32, linger: bool)
    requires
        sink_plan(g, node, linger).len() > 0,
    ensures
        ({
            let (left, right) = stereo_pair(g.sink_input_ports);
            &&& g.sink_node_id is Some
            &&& left is Some
            &&& feeds_both_sides(
                g,
                sink_plan(g, node, linger),
                node,
                g.sink_node_id->0,
                left->0,
                if right is Some {
                    right->0
                } else {
                    left->0
                },
                linger,
            )
        }),
{
    lemma_pair_of(g, node);
}

/// The filter plays on both sides of the sink: its left output is linked to the sink's left
/// input and its right output to the right one, once all of them are known and as long as no
/// such link is held.
pub proof fn filter_plays_on_both_sides<L>(g: Graph<L>)
    ensures
        ({
            let (left, right) = stereo_pair(g.sink_input_ports);
            let links = output_plan(g);
            &&& links.len() > 0 <==> g.output_links.len() == 0 && g.filter_node_id is Some
                && g.sink_node_id is Some && left is Some && g.filter_output_ports.contains_key(
                "output_left"@,
            ) && g.filter_output_ports.contains_key("output_right"@)
            &&& links.len() > 0 ==> {
                &&& links.len() == 2
                &&& links[0].out_port == g.filter_output_ports["output_left"@]
                &&& links[1].out_port == g.filter_output_ports["output_right"@]
                &&& links[0].in_port == left->0
                &&& links[1].in_port == if right is Some {
                    right->0
                } else {
                    left->0
                }
                &&& forall|k: int|
                    0 <= k < 2 ==> {
                        &&& Some((#[trigger] links[k]).out_node) == g.filter_node_id
                        &&& Some(links[k].in_node) == g.sink_node_id
                        &&& !links[k].linger
                    }
            }
        }),
{
}

/// A side goes to the one port that is named for it; where no port is named for a side, the two
/// lowest ids are left and right, in that order, and a single port is left.
pub proof fn sides_go_by_name_and_then_by_id(ports: Seq<PortView>, i: int)
    requires
        0 <= i < ports.len(),
    ensures
        left_named(ports[i].1) && (forall|j: int|
            0 <= j < ports.len() && left_named((#[trigger] ports[j]).1) ==> j == i)
            ==> stereo_pair(ports).0 == Some(ports[i].0),
        right_named(ports[i].1) && !left_named(ports[i].1) && (forall|j: int|
            0 <= j < ports.len() && right_named((#[trigger] ports[j]).1) ==> j == i)
            ==> stereo_pair(ports).1 == Some(ports[i].0),
        ports.len() == 1 && !right_named(ports[i].1) ==> stereo_pair(ports) == (
            Some(ports[i].0),
            None::<u32>,
        ),
        ports.len() >= 2 && (forall|j: int|
            0 <= j < ports.len() ==> !left_named((#[trigger] ports[j]).1) && !right_named(
                ports[j].1,
            )) ==> {
            let (l, r) = stereo_pair(ports);
            &&& l is Some
            &&& r is Some
            &&& l->0 <= r->0
            &&& ports[i].0 == l->0 || r->0 <= ports[i].0
        },
{
    let l = first_left(ports);
    let r = first_right(ports, l);
    lemma_first_left_named(ports);
    lemma_first_right_named(ports, l);
    if left_named(ports[i].1) {
        lemma_first_left_is_first(ports, i);
        assert(left_named(ports[l->0].1));
    }
    if right_named(ports[i].1) && !left_named(ports[i].1) {
        lemma_some_right(ports, l, i);
        assert(right_named(ports[r->0].1));
    }
    if l is Some {
        assert(left_named(ports[l->0].1));
    }
    if r is Some {
        assert(right_named(ports[r->0].1));
    }
    if ports.len() >= 2 && l is None && r is None {
        let ids = ports.map_values(|p: PortView| p.0);
        lemma_ascending(ids);
        let sorted = ascending(ids);
        let leq = |a: u32, b: u32| a <= b;
        assert(leq(sorted[0], sorted[1]));
        broadcast use group_to_multiset_ensures;

        assert(ids.contains(ids[i]));
        assert(sorted.to_multiset().count(ids[i]) > 0);
        assert(sorted.contains(ids[i]));
        let k = choose|k: int| 0 <= k < sorted.len() && sorted[k] == ids[i];
        if k >= 2 {
            assert(leq(sorted[1], sorted[k]));
        }
    }
}

/// The name of an app is its application name, else its description, else the name of its node,
/// and is told of together with its id.
pub proof fn apps_are_told_of_by_name<L>(
    g: Graph<L>,
    id: u32,
    node_name: Option<Seq<char>>,
    media_class: Seq<char>,
    application_name: Option<Seq<char>>,
    node_description: Option<Seq<char>>,
)
    requires
        plays_audio(media_class),
        media_class != "Audio/Sink"@,
        node_name != Some("SpectralBlend"@),
    ensures
        ({
            let (after, response) = object_added(
                g,
                id,
                ObjectView::Node {
                    node_name,
                    media_class: Some(media_class),
                    application_name,
                    node_description,
                },
            );
            let name = match application_name {
                Some(a) => a,
                None => match node_description {
                    Some(d) => d,
                    None => match node_name {
                        Some(n) => n,
                        None => Seq::<char>::empty(),
                    },
                },
            };
            &&& lookup(after.nodes, id) == Some(name)
            &&& response.note == Some(Note::NodeAdded { node_id: id, name })
            &&& response.links.len() == 0
            &&& response.destroy is None
            &&& after.filter_node_id == g.filter_node_id
            &&& after.sink_node_id == g.sink_node_id
            &&& forall|k: u32| k != id ==> #[trigger] lookup(after.nodes, k) == lookup(g.nodes, k)
        }),
{
    reveal_strlit("SpectralBlend");
    assert("SpectralBlend"@.len() == 13);
    let name = display_name(node_name, application_name, node_description);
    lookup_with_entry(g.nodes, id, name, id);
    assert forall|k: u32| k != id implies #[trigger] lookup(
        with_entry(g.nodes, id, name),
        k,
    ) == lookup(g.nodes, k) by {
        lookup_with_entry(g.nodes, id, name, k);
    }
}

/// The filter is the node of that name, and the sink is the first node of that class.
pub proof fn filter_and_sink_are_known<L>(
    g: Graph<L>,
    id: u32,
    media_class: Option<Seq<char>>,
    application_name: Option<Seq<char>>,
    node_description: Option<Seq<char>>,
    other_name: Option<Seq<char>>,
)
    requires
        other_name != Some("SpectralBlend"@),
    ensures
        ({
            let node = ObjectView::Node {
                node_name: Some("SpectralBlend"@),
                media_class,
                application_name,
                node_description,
            };
            &&& object_added(g, id, node).0 == (Graph { filter_node_id: Some(id), ..g })
            &&& object_added(g, id, node).1.note == Some(Note::FilterReady)
        }),
        ({
            let node = ObjectView::Node {
                node_name: other_name,
                media_class: Some("Audio/Sink"@),
                application_name,
                node_description,
            };
            g.sink_node_id is None ==> object_added(g, id, node).0 == (Graph {
                sink_node_id: Some(id),
                ..g
            })
        }),
{
    reveal_strlit("SpectralBlend");
    assert("SpectralBlend"@.len() == 13);
}

/// A port is kept where it belongs: the filter's inputs and outputs by their names, the sink's
/// inputs by their ids, and the outputs of apps with the app that they belong to.
pub proof fn ports_are_kept_where_they_belong<L>(
    g: Graph<L>,
    id: u32,
    node: u32,
    name: Seq<char>,
)
    ensures
        ({
            let input = ObjectView::Port {
                node_id: Some(decimal(node as nat)),
                port_name: Some(name),
                direction: Some("in"@),
            };
            let output = ObjectView::Port {
                node_id: Some(decimal(node as nat)),
                port_name: Some(name),
                direction: Some("out"@),
            };
            &&& g.filter_node_id == Some(node) ==> object_added(g, id, input).0 == (Graph {
                filter_input_ports: g.filter_input_ports.insert(name, id),
                ..g
            })
            &&& g.filter_node_id == Some(node) ==> object_added(g, id, output).0 == (Graph {
                filter_output_ports: g.filter_output_ports.insert(name, id),
                ..g
            })
            &&& g.filter_node_id != Some(node) && g.sink_node_id == Some(node) ==> lookup(
                object_added(g, id, input).0.sink_input_ports,
                id,
            ) == Some(name)
            &&& g.filter_node_id != Some(node) && lookup(g.nodes, node) is Some ==> {
                let (after, response) = object_added(g, id, output);
                &&& lookup(after.ports, id) matches Some(p) && p.node_id == node && p.name == name
                    && p.direction == "out"@
                &&& response.note == Some(Note::PortAdded { port_id: id, node_id: node })
            }
        }),
{
    reveal_strlit("in");
    reveal_strlit("out");
    assert("in"@.len() == 2);
    assert("out"@.len() == 3);
    id_round_trip(node);
    lookup_with_entry(g.sink_input_ports, id, name, id);
    lookup_with_entry(
        g.ports,
        id,
        PortRecord { node_id: node, name, direction: "out"@ },
        id,
    );
}

/// A link between others is remembered with its two ends.
pub proof fn other_links_are_remembered<L>(g: Graph<L>, id: u32, from: u32, to: u32)
    requires
        lookup(g.routed_nodes, from) is None,
        g.filter_node_id != Some(from),
        g.filter_node_id != Some(to),
    ensures
        ({
            let (after, response) = object_added(
                g,
                id,
                ObjectView::Link {
                    output_node: Some(decimal(from as nat)),
                    input_node: Some(decimal(to as nat)),
                },
            );
            &&& lookup(after.existing_links, id) matches Some(link) && link.output_node_id == from
                && link.input_node_id == to
            &&& response.destroy is None
            &&& response.links.len() == 0
        }),
{
    id_round_trip(from);
    id_round_trip(to);
    lookup_with_entry(
        g.existing_links,
        id,
        TrackedLink { output_node_id: from, input_node_id: to },
        id,
    );
}

/// Whether an id is that of a remembered link between two nodes.
pub open spec fn is_link_between<L>(g: Graph<L>, id: u32, from: u32, to: u32) -> bool {
    exists|j: int|
        0 <= j < g.existing_links.len() && (#[trigger] g.existing_links[j]).0 == id
            && g.existing_links[j].1.output_node_id == from
            && g.existing_links[j].1.input_node_id == to
}

/// When an app is routed, exactly the remembered links from it to the sink are to be destroyed,
/// and all others stay remembered.
pub proof fn routing_destroys_links_to_the_sink<L>(
    g: Graph<L>,
    node: u32,
    links: Seq<L>,
    i: int,
)
    requires
        0 <= i < g.existing_links.len(),
        g.sink_node_id is Some,
    ensures
        ({
            let (id, link) = g.existing_links[i];
            let competes = link.output_node_id == node && link.input_node_id == g.sink_node_id->0;
            &&& competes ==> links_to_sink(g, node).contains(id)
            &&& !competes ==> route_done(g, node, links).existing_links.contains((id, link))
        }),
        forall|k: int|
            0 <= k < links_to_sink(g, node).len() ==> is_link_between(
                g,
                #[trigger] links_to_sink(g, node)[k],
                node,
                g.sink_node_id->0,
            ),
        forall|j: int|
            0 <= j < route_done(g, node, links).existing_links.len() ==> {
                let link = (#[trigger] route_done(g, node, links).existing_links[j]).1;
                !(link.output_node_id == node && link.input_node_id == g.sink_node_id->0)
            },
{
    let sink = g.sink_node_id->0;
    let all = g.existing_links;
    let to = goes_to_sink(node, sink);
    let elsewhere = goes_elsewhere(node, sink);
    let found = all.filter(to);
    let kept = all.filter(elsewhere);
    let e = all[i];
    if to(e) {
        all.lemma_filter_contains(to, i);
        let k = choose|k: int| 0 <= k < found.len() && found[k] == e;
        assert(ids_of(found)[k] == e.0);
    } else {
        assert(elsewhere(e));
        all.lemma_filter_contains(elsewhere, i);
    }
    assert forall|k: int| 0 <= k < links_to_sink(g, node).len() implies is_link_between(
        g,
        #[trigger] links_to_sink(g, node)[k],
        node,
        sink,
    ) by {
        all.lemma_filter_pred(to, k);
        all.lemma_filter_contains_rev(to, found[k]);
        let j = choose|j: int| 0 <= j < all.len() && all[j] == found[k];
        assert(all[j].0 == links_to_sink(g, node)[k]);
    }
    assert forall|j: int| 0 <= j < kept.len() implies {
        let link = (#[trigger] kept[j]).1;
        !(link.output_node_id == node && link.input_node_id == sink)
    } by {
        all.lemma_filter_pred(elsewhere, j);
    }
}

/// The properties of a link name its four ends, and ask that it lingers where that is wanted.
pub proof fn links_are_described_by_their_ends(link: LinkRequest)
    ensures
        ({
            let props = link_props(link);
            &&& props.len() == if link.linger {
                5nat
            } else {
                4
            }
            &&& props[0] == ("link.output.node"@, decimal(link.out_node as nat))
            &&& props[1] == ("link.output.port"@, decimal(link.out_port as nat))
            &&& props[2] == ("link.input.node"@, decimal(link.in_node as nat))
            &&& props[3] == ("link.input.port"@, decimal(link.in_port as nat))
            &&& link.linger ==> props[4] == ("object.linger"@, "true"@)
        }),
{
}

/// Only streams that play audio are apps: what records, what is not a stream and what is not
/// audio is passed over.
pub proof fn only_playing_streams_are_apps<L>(
    g: Graph<L>,
    id: u32,
    node_name: Option<Seq<char>>,
    media_class: Option<Seq<char>>,
    application_name: Option<Seq<char>>,
    node_description: Option<Seq<char>>,
)
    requires
        media_class matches Some(c) ==> !has_text(c, "Stream"@) || !has_text(c, "Output"@)
            || !has_text(c, "Audio"@),
    ensures
        object_added(
            g,
            id,
            ObjectView::Node { node_name, media_class, application_name, node_description },
        ).0.nodes == g.nodes,
{
    reveal_strlit("Stream");
    assert("Stream"@.len() == 6);
}

/// Where something other than an app is gone, its port or link is forgotten and all others stay;
/// it is told of where it was a port.
pub proof fn removed_objects_are_forgotten<L>(g: Graph<L>, id: u32, k: u32)
    requires
        lookup(g.nodes, id) is None,
    ensures
        ({
            let (after, note) = object_removed(g, id);
            &&& lookup(after.ports, id) is None
            &&& lookup(after.existing_links, id) is None
            &&& k != id ==> lookup(after.ports, k) == lookup(g.ports, k)
            &&& k != id ==> lookup(after.existing_links, k) == lookup(g.existing_links, k)
            &&& after.nodes == g.nodes
            &&& after.active_links == g.active_links
            &&& after.routed_nodes == g.routed_nodes
            &&& lookup(g.ports, id) is Some ==> note == Some(Note::PortRemoved { port_id: id })
            &&& lookup(g.ports, id) is None ==> note is None
        }),
{
    lookup_without(g.ports, id, id);
    lookup_without(g.ports, id, k);
    lookup_without(g.existing_links, id, id);
    lookup_without(g.existing_links, id, k);
}

/// The window forgets an app that is gone and a port that is gone, and shows the state that the
/// filter is in.
pub proof fn board_follows_the_graph(b: Board, node: u32, port: u32, state: Seq<char>, i: int)
    requires
        0 <= i < b.apps.len(),
    ensures
        lookup(note_taken(b, Note::NodeRemoved { node_id: node }).0.apps, node) is None,
        note_taken(b, Note::NodeRemoved { node_id: node }).1 is None,
        ({
            let after = note_taken(b, Note::PortRemoved { port_id: port }).0;
            &&& after.apps.len() == b.apps.len()
            &&& after.apps[i].0 == b.apps[i].0
            &&& after.apps[i].1.name == b.apps[i].1.name
            &&& after.apps[i].1.role == b.apps[i].1.role
            &&& !after.apps[i].1.port_ids.contains(port)
            &&& forall|p: u32|
                p != port && b.apps[i].1.port_ids.contains(p)
                    ==> #[trigger] after.apps[i].1.port_ids.contains(p)
        }),
        note_taken(b, Note::FilterState(state)).0 == (Board { filter_state: state, ..b }),
{
    lookup_without(b.apps, node, node);
    let ports = b.apps[i].1.port_ids;
    let other = port_other_than(port);
    let left = ports.filter(other);
    if left.contains(port) {
        let k = choose|k: int| 0 <= k < left.len() && left[k] == port;
        ports.lemma_filter_pred(other, k);
    }
    assert forall|p: u32| p != port && ports.contains(p) implies #[trigger] left.contains(p) by {
        let k = choose|k: int| 0 <= k < ports.len() && ports[k] == p;
        ports.lemma_filter_contains(other, k);
    }
}

/// A role that is given is the role of that app, and no other app has another one for it.
pub proof fn role_is_that_of_the_app(b: Board, node: u32, role: AppRole, k: u32)
    requires
        lookup(b.apps, node) is Some,
        k != node,
    ensures
        lookup(role_given(b, node, role).apps, node) matches Some(app) && app.role == role
            && app.name == lookup(b.apps, node)->0.name && app.port_ids == lookup(
            b.apps,
            node,
        )->0.port_ids,
        lookup(role_given(b, node, role).apps, k) == lookup(b.apps, k),
{
    let app = lookup(b.apps, node)->0;
    lookup_with_entry(b.apps, node, AppView { role, ..app }, node);
    lookup_with_entry(b.apps, node, AppView { role, ..app }, k);
}

/// A role is refused for the first thing that is missing: the filter, its left input of the
/// role, its right one, an output port of the app, or a left side among them.
pub proof fn roles_are_refused_for_a_reason<L>(g: Graph<L>, node: u32, role: AppRole)
    ensures
        ({
            let left = if role == AppRole::Voice {
                "voice_left"@
            } else {
                "music_left"@
            };
            let right = if role == AppRole::Voice {
                "voice_right"@
            } else {
                "music_right"@
            };
            let plan = filter_plan(g, node, role);
            let outs = output_ports(g.ports, node);
            let has_left = g.filter_input_ports.contains_key(left);
            let has_right = g.filter_input_ports.contains_key(right);
            let known = g.filter_node_id is Some;
            &&& plan == Err::<Seq<LinkRequest>, _>(RouteRefusal::FilterNotReady) <==> !known
            &&& plan == Err::<Seq<LinkRequest>, _>(RouteRefusal::LeftPortMissing) <==> known
                && !has_left
            &&& plan == Err::<Seq<LinkRequest>, _>(RouteRefusal::RightPortMissing) <==> known
                && has_left && !has_right
            &&& plan == Err::<Seq<LinkRequest>, _>(RouteRefusal::NoOutputPorts) <==> known
                && has_left && has_right && outs.len() == 0
            &&& plan == Err::<Seq<LinkRequest>, _>(RouteRefusal::Unclassified) <==> known
                && has_left && has_right && outs.len() > 0 && stereo_pair(outs).0 is None
        }),
{
}

/// An app with a role is to be routed when a port makes two of them, and not at any other port;
/// an app without a role never is. The port is listed from then on, after the ones before it.
pub proof fn apps_are_routed_at_their_second_port(b: Board, node: u32, port: u32)
    requires
        lookup(b.apps, node) is Some,
        !lookup(b.apps, node)->0.port_ids.contains(port),
    ensures
        ({
            let app = lookup(b.apps, node)->0;
            let (after, route) = note_taken(b, Note::PortAdded { port_id: port, node_id: node });
            &&& route is Some <==> app.role != AppRole::Unassigned && app.port_ids.len() == 1
            &&& route is Some ==> route == Some((node, app.role))
            &&& lookup(after.apps, node) matches Some(now) && now.port_ids == app.port_ids.push(
                port,
            ) && now.role == app.role && now.name == app.name
        }),
{
    let app = lookup(b.apps, node)->0;
    lookup_with_entry(b.apps, node, app_with_port(app, port), node);
}

} // verus!
