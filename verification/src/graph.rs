//! The PipeWire graph as the router knows it, and the links that follow from it.

use crate::messages::{AppRole, Note};
use crate::ports::{stereo_pair, PortView};
use crate::table::{lookup, owned_by_other, with_entry, without, Owned};
use crate::text::{decimal, format_id, has_text, parsed_id};
use vstd::prelude::*;
use vstd::string::*;

verus! {

/// An app node.
pub struct NodeInfo {
    pub name: String,
}

impl View for NodeInfo {
    type V = Seq<char>;

    open spec fn view(&self) -> Seq<char> {
        self.name@
    }
}

/// A port of an app node.
pub struct PortInfo {
    pub node_id: u32,
    pub name: String,
    pub direction: String,
}

/// A port of an app node, by value.
pub struct PortRecord {
    pub node_id: u32,
    pub name: Seq<char>,
    pub direction: Seq<char>,
}

impl View for PortInfo {
    type V = PortRecord;

    open spec fn view(&self) -> PortRecord {
        PortRecord { node_id: self.node_id, name: self.name@, direction: self.direction@ }
    }
}

impl Owned for PortInfo {
    open spec fn owner_of(v: PortRecord) -> u32 {
        v.node_id
    }

    fn owner(&self) -> (id: u32) {
        self.node_id
    }
}

/// A link between two nodes that somebody else made.
#[derive(Clone, Copy)]
pub struct TrackedLink {
    pub output_node_id: u32,
    pub input_node_id: u32,
}

impl View for TrackedLink {
    type V = TrackedLink;

    open spec fn view(&self) -> TrackedLink {
        *self
    }
}

impl Owned for TrackedLink {
    open spec fn owner_of(v: TrackedLink) -> u32 {
        v.output_node_id
    }

    fn owner(&self) -> (id: u32) {
        self.output_node_id
    }
}

/// A link to be made from an output port to an input port. A lingering link outlives the
/// process that made it.
#[derive(Clone, Copy)]
pub struct LinkRequest {
    pub out_node: u32,
    pub out_port: u32,
    pub in_node: u32,
    pub in_port: u32,
    pub linger: bool,
}

/// All that the router knows of the graph. `L` stands for the handle of a link that the
/// router holds: the link lives as long as its handle.
#[verifier::ext_equal]
#[verifier::reject_recursive_types(L)]
pub struct Graph<L> {
    pub nodes: Seq<(u32, Seq<char>)>,
    pub ports: Seq<(u32, PortRecord)>,
    pub filter_node_id: Option<u32>,
    pub filter_input_ports: Map<Seq<char>, u32>,
    pub filter_output_ports: Map<Seq<char>, u32>,
    pub sink_node_id: Option<u32>,
    pub sink_input_ports: Seq<(u32, Seq<char>)>,
    pub active_links: Seq<(u32, Seq<L>)>,
    pub restore_links: Seq<(u32, Seq<L>)>,
    pub existing_links: Seq<(u32, TrackedLink)>,
    pub routed_nodes: Seq<(u32, ())>,
    pub output_links: Seq<L>,
}

/// What a registry object tells of itself, as far as the router reads it.
pub enum RegistryObject {
    Node {
        node_name: Option<String>,
        media_class: Option<String>,
        application_name: Option<String>,
        node_description: Option<String>,
    },
    Port { node_id: Option<String>, port_name: Option<String>, direction: Option<String> },
    Link { output_node: Option<String>, input_node: Option<String> },
    Other,
}

/// A registry object, by value.
pub enum ObjectView {
    Node {
        node_name: Option<Seq<char>>,
        media_class: Option<Seq<char>>,
        application_name: Option<Seq<char>>,
        node_description: Option<Seq<char>>,
    },
    Port { node_id: Option<Seq<char>>, port_name: Option<Seq<char>>, direction: Option<Seq<char>> },
    Link { output_node: Option<Seq<char>>, input_node: Option<Seq<char>> },
    Other,
}

/// The text of a property, if the object has the property.
pub open spec fn prop(p: Option<String>) -> Option<Seq<char>> {
    match p {
        Some(s) => Some(s@),
        None => None,
    }
}

impl View for RegistryObject {
    type V = ObjectView;

    open spec fn view(&self) -> ObjectView {
        match self {
            RegistryObject::Node {
                node_name,
                media_class,
                application_name,
                node_description,
            } => ObjectView::Node {
                node_name: prop(*node_name),
                media_class: prop(*media_class),
                application_name: prop(*application_name),
                node_description: prop(*node_description),
            },
            RegistryObject::Port { node_id, port_name, direction } => ObjectView::Port {
                node_id: prop(*node_id),
                port_name: prop(*port_name),
                direction: prop(*direction),
            },
            RegistryObject::Link { output_node, input_node } => ObjectView::Link {
                output_node: prop(*output_node),
                input_node: prop(*input_node),
            },
            RegistryObject::Other => ObjectView::Other,
        }
    }
}

/// What the router wants done about an event: links of the filter's output to be made, a
/// link to be destroyed, a message for the window.
#[verifier::ext_equal]
pub struct Response {
    pub links: Seq<LinkRequest>,
    pub destroy: Option<u32>,
    pub note: Option<Note>,
}

/// Nothing to be done.
pub open spec fn quiet() -> Response {
    Response { links: Seq::empty(), destroy: None, note: None }
}

/// The text of a property, empty where the object has no such property.
pub open spec fn text_or_empty(p: Option<Seq<char>>) -> Seq<char> {
    match p {
        Some(s) => s,
        None => Seq::empty(),
    }
}

/// The object id that a property stands for, if there is one.
pub open spec fn id_prop(p: Option<Seq<char>>) -> Option<u32> {
    match p {
        Some(s) => parsed_id(s),
        None => None,
    }
}

/// The sink's left and right input port. A sink with one channel takes both there.
pub open spec fn sink_pair<L>(g: Graph<L>) -> Option<(u32, u32)> {
    match stereo_pair(g.sink_input_ports) {
        (Some(l), Some(r)) => Some((l, r)),
        (Some(l), None) => Some((l, l)),
        _ => None,
    }
}

/// The two links from the filter's output to the sink, once all four ends are known and as
/// long as no such link is held.
pub open spec fn output_plan<L>(g: Graph<L>) -> Seq<LinkRequest> {
    if g.output_links.len() == 0 && g.filter_output_ports.contains_key("output_left"@)
        && g.filter_output_ports.contains_key("output_right"@) {
        match (g.filter_node_id, g.sink_node_id, sink_pair(g)) {
            (Some(filter), Some(sink), Some((left, right))) => seq![
                LinkRequest {
                    out_node: filter,
                    out_port: g.filter_output_ports["output_left"@],
                    in_node: sink,
                    in_port: left,
                    linger: false,
                },
                LinkRequest {
                    out_node: filter,
                    out_port: g.filter_output_ports["output_right"@],
                    in_node: sink,
                    in_port: right,
                    linger: false,
                },
            ],
            _ => Seq::empty(),
        }
    } else {
        Seq::empty()
    }
}

/// Tells the output ports of a node.
pub open spec fn plays_from(node: u32) -> spec_fn((u32, PortRecord)) -> bool {
    |e: (u32, PortRecord)| e.1.node_id == node && e.1.direction == "out"@
}

/// A port by id and name.
pub open spec fn id_and_name() -> spec_fn((u32, PortRecord)) -> PortView {
    |e: (u32, PortRecord)| (e.0, e.1.name)
}

/// The output ports of a node.
pub open spec fn output_ports(ports: Seq<(u32, PortRecord)>, node: u32) -> Seq<PortView> {
    ports.filter(plays_from(node)).map_values(id_and_name())
}

/// The links from a pair of output ports to a pair of input ports. A single output port feeds
/// both inputs.
pub open spec fn pair_links(
    from: (Option<u32>, Option<u32>),
    to: (u32, u32),
    out_node: u32,
    in_node: u32,
    linger: bool,
) -> Seq<LinkRequest> {
    match from {
        (Some(left), Some(right)) => seq![
            LinkRequest { out_node, out_port: left, in_node, in_port: to.0, linger },
            LinkRequest { out_node, out_port: right, in_node, in_port: to.1, linger },
        ],
        (Some(left), None) => seq![
            LinkRequest { out_node, out_port: left, in_node, in_port: to.0, linger },
            LinkRequest { out_node, out_port: left, in_node, in_port: to.1, linger },
        ],
        _ => Seq::empty(),
    }
}

/// The links from an app straight to the sink.
pub open spec fn sink_plan<L>(g: Graph<L>, node: u32, linger: bool) -> Seq<LinkRequest> {
    match (g.sink_node_id, sink_pair(g)) {
        (Some(sink), Some(to)) => pair_links(
            stereo_pair(output_ports(g.ports, node)),
            to,
            node,
            sink,
            linger,
        ),
        _ => Seq::empty(),
    }
}

/// The name that the window shows for an app.
pub open spec fn display_name(
    node_name: Option<Seq<char>>,
    application_name: Option<Seq<char>>,
    node_description: Option<Seq<char>>,
) -> Seq<char> {
    match (application_name, node_description) {
        (Some(a), _) => a,
        (None, Some(d)) => d,
        (None, None) => text_or_empty(node_name),
    }
}

/// Whether a media class is that of an app that plays audio.
pub open spec fn plays_audio(media_class: Seq<char>) -> bool {
    &&& has_text(media_class, "Stream"@)
    &&& has_text(media_class, "Output"@)
    &&& has_text(media_class, "Audio"@)
}

/// A node appears. The filter is known by its name, the sink is the first one to appear, and
/// a stream that plays audio is an app.
pub open spec fn node_added<L>(
    g: Graph<L>,
    id: u32,
    node_name: Option<Seq<char>>,
    media_class: Option<Seq<char>>,
    application_name: Option<Seq<char>>,
    node_description: Option<Seq<char>>,
) -> (Graph<L>, Response) {
    if text_or_empty(node_name) == "SpectralBlend"@ {
        let g1 = Graph { filter_node_id: Some(id), ..g };
        (g1, Response { links: output_plan(g1), destroy: None, note: Some(Note::FilterReady) })
    } else if text_or_empty(media_class) == "Audio/Sink"@ && g.sink_node_id is None {
        let g1 = Graph { sink_node_id: Some(id), ..g };
        (g1, Response { links: output_plan(g1), destroy: None, note: None })
    } else if plays_audio(text_or_empty(media_class)) {
        let name = display_name(node_name, application_name, node_description);
        (
            Graph { nodes: with_entry(g.nodes, id, name), ..g },
            Response { note: Some(Note::NodeAdded { node_id: id, name }), ..quiet() },
        )
    } else {
        (g, quiet())
    }
}

/// A port appears: one of the filter's, one of the sink's inputs, or an output of an app.
pub open spec fn port_added<L>(
    g: Graph<L>,
    id: u32,
    node_id: Option<Seq<char>>,
    port_name: Option<Seq<char>>,
    direction: Option<Seq<char>>,
) -> (Graph<L>, Response) {
    match id_prop(node_id) {
        None => (g, quiet()),
        Some(node) => {
            let name = text_or_empty(port_name);
            let dir = text_or_empty(direction);
            if g.filter_node_id == Some(node) && dir == "in"@ {
                (
                    Graph { filter_input_ports: g.filter_input_ports.insert(name, id), ..g },
                    quiet(),
                )
            } else if g.filter_node_id == Some(node) && dir == "out"@ {
                let g1 = Graph { filter_output_ports: g.filter_output_ports.insert(name, id), ..g };
                (g1, Response { links: output_plan(g1), ..quiet() })
            } else if g.sink_node_id == Some(node) && dir == "in"@ {
                let g1 = Graph { sink_input_ports: with_entry(g.sink_input_ports, id, name), ..g };
                (g1, Response { links: output_plan(g1), ..quiet() })
            } else if lookup(g.nodes, node) is Some && dir == "out"@ {
                (
                    Graph {
                        ports: with_entry(
                            g.ports,
                            id,
                            PortRecord { node_id: node, name, direction: dir },
                        ),
                        ..g
                    },
                    Response {
                        note: Some(Note::PortAdded { port_id: id, node_id: node }),
                        ..quiet()
                    },
                )
            } else {
                (g, quiet())
            }
        },
    }
}

/// A link appears. Links of the filter are the router's own; a link from a routed app
/// competes with them and has to go; any other link is remembered.
pub open spec fn link_added<L>(
    g: Graph<L>,
    id: u32,
    output_node: Option<Seq<char>>,
    input_node: Option<Seq<char>>,
) -> (Graph<L>, Response) {
    match (id_prop(output_node), id_prop(input_node)) {
        (Some(from), Some(to)) => {
            if g.filter_node_id == Some(to) || g.filter_node_id == Some(from) {
                (g, quiet())
            } else if lookup(g.routed_nodes, from) is Some {
                (g, Response { destroy: Some(id), ..quiet() })
            } else {
                (
                    Graph {
                        existing_links: with_entry(
                            g.existing_links,
                            id,
                            TrackedLink { output_node_id: from, input_node_id: to },
                        ),
                        ..g
                    },
                    quiet(),
                )
            }
        },
        _ => (g, quiet()),
    }
}

/// An object appears in the registry.
pub open spec fn object_added<L>(g: Graph<L>, id: u32, object: ObjectView) -> (Graph<L>, Response) {
    match object {
        ObjectView::Node { node_name, media_class, application_name, node_description } =>
            node_added(g, id, node_name, media_class, application_name, node_description),
        ObjectView::Port { node_id, port_name, direction } => port_added(
            g,
            id,
            node_id,
            port_name,
            direction,
        ),
        ObjectView::Link { output_node, input_node } => link_added(g, id, output_node, input_node),
        ObjectView::Other => (g, quiet()),
    }
}

/// An object leaves the registry. With an app go its links, its role, its ports and the links
/// from it.
pub open spec fn object_removed<L>(g: Graph<L>, id: u32) -> (Graph<L>, Option<Note>) {
    if lookup(g.nodes, id) is Some {
        (
            Graph {
                nodes: without(g.nodes, id),
                active_links: without(g.active_links, id),
                restore_links: without(g.restore_links, id),
                routed_nodes: without(g.routed_nodes, id),
                ports: g.ports.filter(owned_by_other::<PortInfo>(id)),
                existing_links: g.existing_links.filter(owned_by_other::<TrackedLink>(id)),
                ..g
            },
            Some(Note::NodeRemoved { node_id: id }),
        )
    } else {
        (
            Graph {
                ports: without(g.ports, id),
                existing_links: without(g.existing_links, id),
                ..g
            },
            if lookup(g.ports, id) is Some {
                Some(Note::PortRemoved { port_id: id })
            } else {
                None
            },
        )
    }
}

/// The filter's input port names for a role.
pub open spec fn role_ports(role: AppRole) -> (Seq<char>, Seq<char>) {
    if role == AppRole::Voice {
        ("voice_left"@, "voice_right"@)
    } else {
        ("music_left"@, "music_right"@)
    }
}

/// Why an app cannot be linked to the filter.
#[derive(Debug, Clone, Copy, PartialEq, Eq, Structural)]
pub enum RouteRefusal {
    FilterNotReady,
    LeftPortMissing,
    RightPortMissing,
    NoOutputPorts,
    Unclassified,
}

impl RouteRefusal {
    /// The refusal of a role for an app, in words.
    pub fn words(&self, role: AppRole, node_id: u32) -> (r: String)
        ensures
            r@ == match *self {
                RouteRefusal::FilterNotReady => "Filter node not ready!"@,
                RouteRefusal::LeftPortMissing => "Filter port '"@ + role_ports(role).0
                    + "' not found!"@,
                RouteRefusal::RightPortMissing => "Filter port '"@ + role_ports(role).1
                    + "' not found!"@,
                RouteRefusal::NoOutputPorts => "No output ports for node="@ + decimal(
                    node_id as nat,
                ) + "!"@,
                RouteRefusal::Unclassified => "Could not classify ports for node="@ + decimal(
                    node_id as nat,
                ) + "!"@,
            },
    {
        let (left, right) = if role == AppRole::Voice {
            ("voice_left", "voice_right")
        } else {
            ("music_left", "music_right")
        };
        match *self {
            RouteRefusal::FilterNotReady => String::from_str("Filter node not ready!"),
            RouteRefusal::LeftPortMissing => between("Filter port '", left, "' not found!"),
            RouteRefusal::RightPortMissing => between("Filter port '", right, "' not found!"),
            RouteRefusal::NoOutputPorts => between(
                "No output ports for node=",
                format_id(node_id).as_str(),
                "!",
            ),
            RouteRefusal::Unclassified => between(
                "Could not classify ports for node=",
                format_id(node_id).as_str(),
                "!",
            ),
        }
    }
}

/// A text between two others.
fn between(before: &str, text: &str, after: &str) -> (r: String)
    ensures
        r@ == before@ + text@ + after@,
{
    let mut r = String::from_str(before);
    r.append(text);
    r.append(after);
    r
}

/// The links from an app to the filter's inputs of a role, or why there can be none.
pub open spec fn filter_plan<L>(g: Graph<L>, node: u32, role: AppRole) -> Result<
    Seq<LinkRequest>,
    RouteRefusal,
> {
    let (left, right) = role_ports(role);
    let outs = output_ports(g.ports, node);
    match g.filter_node_id {
        None => Err(RouteRefusal::FilterNotReady),
        Some(filter) => if !g.filter_input_ports.contains_key(left) {
            Err(RouteRefusal::LeftPortMissing)
        } else if !g.filter_input_ports.contains_key(right) {
            Err(RouteRefusal::RightPortMissing)
        } else if outs.len() == 0 {
            Err(RouteRefusal::NoOutputPorts)
        } else if stereo_pair(outs).0 is None {
            Err(RouteRefusal::Unclassified)
        } else {
            Ok(
                pair_links(
                    stereo_pair(outs),
                    (g.filter_input_ports[left], g.filter_input_ports[right]),
                    node,
                    filter,
                    false,
                ),
            )
        },
    }
}

/// The graph when an app starts to be routed: it counts as routed. The links that gave it back
/// to the sink are still held, so that its sound has no gap.
pub open spec fn route_begun<L>(g: Graph<L>, node: u32) -> Graph<L> {
    Graph {
        routed_nodes: with_entry(g.routed_nodes, node, ()),
        ..g
    }
}

/// Tells the remembered links from a node to the sink.
pub open spec fn goes_to_sink(node: u32, sink: u32) -> spec_fn((u32, TrackedLink)) -> bool {
    |e: (u32, TrackedLink)| e.1.output_node_id == node && e.1.input_node_id == sink
}

/// Tells all other remembered links.
pub open spec fn goes_elsewhere(node: u32, sink: u32) -> spec_fn((u32, TrackedLink)) -> bool {
    |e: (u32, TrackedLink)| !(e.1.output_node_id == node && e.1.input_node_id == sink)
}

/// The ids of the entries of a table.
pub open spec fn ids_of<W>(s: Seq<(u32, W)>) -> Seq<u32> {
    s.map_values(|e: (u32, W)| e.0)
}

/// The ids of the remembered links from a node to the sink.
pub open spec fn links_to_sink<L>(g: Graph<L>, node: u32) -> Seq<u32> {
    match g.sink_node_id {
        Some(sink) => ids_of(g.existing_links.filter(goes_to_sink(node, sink))),
        None => Seq::empty(),
    }
}

/// The remembered links without those from a node to the sink.
pub open spec fn links_kept<L>(g: Graph<L>, node: u32) -> Seq<(u32, TrackedLink)> {
    match g.sink_node_id {
        Some(sink) => g.existing_links.filter(goes_elsewhere(node, sink)),
        None => g.existing_links,
    }
}

/// The handles under a node.
pub open spec fn handles<L>(s: Seq<(u32, Seq<L>)>, node: u32) -> Seq<L> {
    match lookup(s, node) {
        Some(links) => links,
        None => Seq::empty(),
    }
}

/// The graph when the links of a routed app are made: they take the place of the app's old
/// ones and of those that gave it back to the sink, and its links to the sink are forgotten.
pub open spec fn route_done<L>(g: Graph<L>, node: u32, links: Seq<L>) -> Graph<L> {
    Graph {
        active_links: if links.len() > 0 {
            without(g.active_links, node).push((node, links))
        } else {
            without(g.active_links, node)
        },
        restore_links: without(g.restore_links, node),
        existing_links: links_kept(g, node),
        ..g
    }
}

/// The graph when an app is given back to the sink: the links to the sink are held, those to
/// the filter are not.
pub open spec fn unroute_done<L>(g: Graph<L>, node: u32, links: Seq<L>) -> Graph<L> {
    Graph {
        restore_links: if links.len() > 0 {
            with_entry(g.restore_links, node, links)
        } else {
            g.restore_links
        },
        active_links: without(g.active_links, node),
        routed_nodes: without(g.routed_nodes, node),
        ..g
    }
}

/// The graph when a routed app is let go at shutdown.
pub open spec fn routed_released<L>(g: Graph<L>, node: u32) -> Graph<L> {
    Graph {
        active_links: without(g.active_links, node),
        routed_nodes: without(g.routed_nodes, node),
        ..g
    }
}

/// A list of properties, by key and value.
pub open spec fn property_views(s: Seq<(&str, String)>) -> Seq<(Seq<char>, Seq<char>)> {
    s.map_values(|p: (&str, String)| (p.0@, p.1@))
}

/// The properties that describe a link to the link factory.
pub open spec fn link_props(link: LinkRequest) -> Seq<(Seq<char>, Seq<char>)> {
    let ends = seq![
        ("link.output.node"@, decimal(link.out_node as nat)),
        ("link.output.port"@, decimal(link.out_port as nat)),
        ("link.input.node"@, decimal(link.in_node as nat)),
        ("link.input.port"@, decimal(link.in_port as nat)),
    ];
    if link.linger {
        ends.push(("object.linger"@, "true"@))
    } else {
        ends
    }
}

} // verus!
