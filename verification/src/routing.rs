//! The router: it keeps up with the PipeWire registry and decides which links to make and
//! which to destroy.
//!
//! Making a link is somebody else's work. The router says which links it wants, and is handed
//! the handles of those that came about.

use crate::graph::{
    filter_plan, goes_elsewhere, goes_to_sink, handles, id_prop, ids_of, links_kept, links_to_sink,
    link_added, link_props, node_added, object_added, object_removed, port_added, output_plan,
    output_ports, pair_links, plays_from, prop, property_views, route_begun, route_done,
    routed_released, sink_pair, sink_plan, text_or_empty, unroute_done, Graph, LinkRequest,
    NodeInfo, PortInfo, RegistryObject, Response, RouteRefusal, TrackedLink,
};
use crate::messages::{AppRole, PwToGui};
use crate::ports::{classify_stereo_ports, port_views};
use crate::table::{lookup_without, without, IdTable};
use crate::text::{contains_word, format_id, parse_id, same_text};
use vstd::hash_map::StringHashMap;
use vstd::prelude::*;
use vstd::string::*;

verus! {

/// What the router knows of the graph. `L` is the handle of a link that the router holds.
#[verifier::reject_recursive_types(L)]
pub struct PwState<L> {
    pub nodes: IdTable<NodeInfo>,
    pub ports: IdTable<PortInfo>,
    pub filter_node_id: Option<u32>,
    pub filter_input_ports: StringHashMap<u32>,
    pub filter_output_ports: StringHashMap<u32>,
    pub sink_node_id: Option<u32>,
    pub sink_input_ports: IdTable<NodeInfo>,
    pub active_links: IdTable<Vec<L>>,
    /// Links from an app to the sink, held until the app is routed again.
    pub restore_links: IdTable<Vec<L>>,
    pub existing_links: IdTable<TrackedLink>,
    pub routed_nodes: IdTable<()>,
    pub output_links: Vec<L>,
}

impl<L> View for PwState<L> {
    type V = Graph<L>;

    open spec fn view(&self) -> Graph<L> {
        Graph {
            nodes: self.nodes@,
            ports: self.ports@,
            filter_node_id: self.filter_node_id,
            filter_input_ports: self.filter_input_ports@,
            filter_output_ports: self.filter_output_ports@,
            sink_node_id: self.sink_node_id,
            sink_input_ports: self.sink_input_ports@,
            active_links: self.active_links@,
            restore_links: self.restore_links@,
            existing_links: self.existing_links@,
            routed_nodes: self.routed_nodes@,
            output_links: self.output_links@,
        }
    }
}

/// What the router wants done about an event.
pub struct Reaction {
    /// Links of the filter's output, to be made and handed back one by one.
    pub links: Vec<LinkRequest>,
    /// A link to be destroyed.
    pub destroy: Option<u32>,
    /// A message for the window.
    pub message: Option<PwToGui>,
}

impl View for Reaction {
    type V = Response;

    open spec fn view(&self) -> Response {
        Response {
            links: self.links@,
            destroy: self.destroy,
            note: match self.message {
                Some(m) => Some(m@),
                None => None,
            },
        }
    }
}

/// What a role asks for: the links to the sink of an app that is given back to it, the links
/// to the filter of an app that is routed, or why it cannot be routed.
pub enum RolePlan {
    Unroute(Vec<LinkRequest>),
    Route(Vec<LinkRequest>),
    Refused(RouteRefusal),
}

/// The text of a property, empty where the object has no such property.
fn or_empty(p: Option<String>) -> (r: String)
    ensures
        r@ == text_or_empty(prop(p)),
{
    match p {
        Some(s) => s,
        None => String::new(),
    }
}

/// The object id that a property stands for.
fn id_of(p: &Option<String>) -> (r: Option<u32>)
    ensures
        r == id_prop(prop(*p)),
{
    match p {
        Some(s) => parse_id(s.as_str()),
        None => None,
    }
}

/// The output ports of a node, in the order of their arrival.
fn list_outputs<'a>(ports: &'a IdTable<PortInfo>, node: u32) -> (r: Vec<(u32, &'a str)>)
    ensures
        port_views(r@) == output_ports(ports@, node),
{
    let mut r: Vec<(u32, &'a str)> = Vec::new();
    let ghost p = plays_from(node);
    let mut i: usize = 0;
    proof {
        reveal(Seq::filter);
        assert(port_views(r@) =~= output_ports(ports@.take(0), node));
    }
    while i < ports.len()
        invariant
            i <= ports@.len(),
            port_views(r@) == output_ports(ports@.take(i as int), node),
        decreases ports@.len() - i,
    {
        let port = ports.value_at(i);
        proof {
            reveal(Seq::filter);
            assert(ports@.take(i + 1).drop_last() =~= ports@.take(i as int));
        }
        let ghost before = r@;
        if port.node_id == node && same_text(port.direction.as_str(), "out") {
            r.push((ports.id_at(i), port.name.as_str()));
            assert(port_views(r@) =~= port_views(before).push(
                (ports@[i as int].0, ports@[i as int].1.name),
            ));
        }
        assert(port_views(r@) =~= output_ports(ports@.take(i + 1), node));
        i += 1;
    }
    assert(ports@.take(ports@.len() as int) =~= ports@);
    r
}

/// The properties that describe a link to the link factory.
pub fn link_properties(link: LinkRequest) -> (r: Vec<(&'static str, String)>)
    ensures
        property_views(r@) == link_props(link),
{
    let mut r: Vec<(&'static str, String)> = Vec::new();
    r.push(("link.output.node", format_id(link.out_node)));
    r.push(("link.output.port", format_id(link.out_port)));
    r.push(("link.input.node", format_id(link.in_node)));
    r.push(("link.input.port", format_id(link.in_port)));
    if link.linger {
        r.push(("object.linger", String::from_str("true")));
    }
    assert(property_views(r@) =~= link_props(link));
    r
}

/// Whether the daemon's confirmation is the one that shutdown waits for.
pub fn shutdown_confirmed(expected: Option<i32>, seq: i32) -> (r: bool)
    ensures
        r == (expected == Some(seq)),
{
    match expected {
        Some(e) => e == seq,
        None => false,
    }
}

/// The entries of a table as ports.
fn list_names<'a>(ports: &'a IdTable<NodeInfo>) -> (r: Vec<(u32, &'a str)>)
    ensures
        port_views(r@) == ports@,
{
    let mut r: Vec<(u32, &'a str)> = Vec::new();
    let mut i: usize = 0;
    while i < ports.len()
        invariant
            i <= ports@.len(),
            port_views(r@) =~= ports@.take(i as int),
        decreases ports@.len() - i,
    {
        let ghost before = r@;
        let info = ports.value_at(i);
        r.push((ports.id_at(i), info.name.as_str()));
        assert(info@ == ports@[i as int].1);
        assert(port_views(r@) =~= port_views(before).push(ports@[i as int]));
        i += 1;
    }
    assert(ports@.take(ports@.len() as int) =~= ports@);
    r
}

/// The links from a pair of output ports to a pair of input ports.
fn link_pair(
    from: (Option<u32>, Option<u32>),
    to: (u32, u32),
    out_node: u32,
    in_node: u32,
    linger: bool,
) -> (r: Vec<LinkRequest>)
    ensures
        r@ == pair_links(from, to, out_node, in_node, linger),
{
    let mut r: Vec<LinkRequest> = Vec::new();
    match from {
        (Some(left), Some(right)) => {
            r.push(LinkRequest { out_node, out_port: left, in_node, in_port: to.0, linger });
            r.push(LinkRequest { out_node, out_port: right, in_node, in_port: to.1, linger });
        },
        (Some(left), None) => {
            r.push(LinkRequest { out_node, out_port: left, in_node, in_port: to.0, linger });
            r.push(LinkRequest { out_node, out_port: left, in_node, in_port: to.1, linger });
        },
        _ => {},
    }
    assert(r@ =~= pair_links(from, to, out_node, in_node, linger));
    r
}

impl<L> PwState<L> {
    /// No table holds an id twice.
    pub open spec fn wf(&self) -> bool {
        &&& self.nodes.wf()
        &&& self.ports.wf()
        &&& self.sink_input_ports.wf()
        &&& self.active_links.wf()
        &&& self.restore_links.wf()
        &&& self.existing_links.wf()
        &&& self.routed_nodes.wf()
    }

    /// A router that has seen nothing yet.
    pub fn new() -> (r: Self)
        ensures
            r.wf(),
            r@ == (Graph::<L> {
                nodes: Seq::empty(),
                ports: Seq::empty(),
                filter_node_id: None,
                filter_input_ports: Map::empty(),
                filter_output_ports: Map::empty(),
                sink_node_id: None,
                sink_input_ports: Seq::empty(),
                active_links: Seq::empty(),
                restore_links: Seq::empty(),
                existing_links: Seq::empty(),
                routed_nodes: Seq::empty(),
                output_links: Seq::empty(),
            }),
    {
        PwState {
            nodes: IdTable::new(),
            ports: IdTable::new(),
            filter_node_id: None,
            filter_input_ports: StringHashMap::new(),
            filter_output_ports: StringHashMap::new(),
            sink_node_id: None,
            sink_input_ports: IdTable::new(),
            active_links: IdTable::new(),
            restore_links: IdTable::new(),
            existing_links: IdTable::new(),
            routed_nodes: IdTable::new(),
            output_links: Vec::new(),
        }
    }

    /// The sink's left and right input port.
    fn sink_ports(&self) -> (r: Option<(u32, u32)>)
        ensures
            r == sink_pair(self@),
    {
        let ports = list_names(&self.sink_input_ports);
        let (left, right) = classify_stereo_ports(ports.as_slice());
        match (left, right) {
            (Some(l), Some(r)) => Some((l, r)),
            (Some(l), None) => Some((l, l)),
            _ => None,
        }
    }

    /// The links from the filter's output to the sink that are still to be made.
    pub fn try_link_filter_output(&self) -> (r: Vec<LinkRequest>)
        ensures
            r@ == output_plan(self@),
    {
        let mut r: Vec<LinkRequest> = Vec::new();
        if self.output_links.len() > 0 {
            return r;
        }
        let filter = match self.filter_node_id {
            Some(id) => id,
            None => return r,
        };
        let sink = match self.sink_node_id {
            Some(id) => id,
            None => return r,
        };
        let out_left = match self.filter_output_ports.get("output_left") {
            Some(id) => *id,
            None => return r,
        };
        let out_right = match self.filter_output_ports.get("output_right") {
            Some(id) => *id,
            None => return r,
        };
        let (left, right) = match self.sink_ports() {
            Some(pair) => pair,
            None => return r,
        };
        r.push(
            LinkRequest {
                out_node: filter,
                out_port: out_left,
                in_node: sink,
                in_port: left,
                linger: false,
            },
        );
        r.push(
            LinkRequest {
                out_node: filter,
                out_port: out_right,
                in_node: sink,
                in_port: right,
                linger: false,
            },
        );
        assert(r@ =~= output_plan(self@));
        r
    }

    /// Holds a link of the filter's output.
    pub fn hold_output_link(&mut self, link: L)
        requires
            old(self).wf(),
        ensures
            final(self).wf(),
            final(self)@ == (Graph {
                output_links: old(self)@.output_links.push(link),
                ..old(self)@
            }),
    {
        self.output_links.push(link);
    }

    /// The links from an app straight to the sink.
    pub fn create_sink_links(&self, node_id: u32, linger: bool) -> (r: Vec<LinkRequest>)
        ensures
            r@ == sink_plan(self@, node_id, linger),
    {
        let sink = match self.sink_node_id {
            Some(id) => id,
            None => return Vec::new(),
        };
        let to = match self.sink_ports() {
            Some(pair) => pair,
            None => return Vec::new(),
        };
        let app_ports = list_outputs(&self.ports, node_id);
        link_pair(classify_stereo_ports(app_ports.as_slice()), to, node_id, sink, linger)
    }

    /// A node appears in the registry.
    fn on_node(
        &mut self,
        id: u32,
        node_name: Option<String>,
        media_class: Option<String>,
        application_name: Option<String>,
        node_description: Option<String>,
    ) -> (r: Reaction)
        requires
            old(self).wf(),
        ensures
            final(self).wf(),
            (final(self)@, r@) == node_added(
                old(self)@,
                id,
                prop(node_name),
                prop(media_class),
                prop(application_name),
                prop(node_description),
            ),
    {
        let name = or_empty(node_name);
        let class = or_empty(media_class);
        if same_text(name.as_str(), "SpectralBlend") {
            self.filter_node_id = Some(id);
            return Reaction {
                links: self.try_link_filter_output(),
                destroy: None,
                message: Some(PwToGui::FilterReady),
            };
        }
        if self.sink_node_id.is_none() && same_text(class.as_str(), "Audio/Sink") {
            self.sink_node_id = Some(id);
            return Reaction {
                links: self.try_link_filter_output(),
                destroy: None,
                message: None,
            };
        }
        if contains_word(class.as_str(), "Stream") && contains_word(class.as_str(), "Output")
            && contains_word(class.as_str(), "Audio") {
            let shown = match application_name {
                Some(a) => a,
                None => match node_description {
                    Some(d) => d,
                    None => name,
                },
            };
            self.nodes.insert(id, NodeInfo { name: shown.clone() });
            return Reaction {
                links: Vec::new(),
                destroy: None,
                message: Some(PwToGui::NodeAdded { node_id: id, name: shown }),
            };
        }
        Reaction { links: Vec::new(), destroy: None, message: None }
    }

    /// A port appears in the registry.
    fn on_port(
        &mut self,
        id: u32,
        node_id: Option<String>,
        port_name: Option<String>,
        direction: Option<String>,
    ) -> (r: Reaction)
        requires
            old(self).wf(),
        ensures
            final(self).wf(),
            (final(self)@, r@) == port_added(
                old(self)@,
                id,
                prop(node_id),
                prop(port_name),
                prop(direction),
            ),
    {
        let mut r = Reaction { links: Vec::new(), destroy: None, message: None };
        let node = match id_of(&node_id) {
            Some(n) => n,
            None => return r,
        };
        let name = or_empty(port_name);
        let dir = or_empty(direction);
        let is_in = same_text(dir.as_str(), "in");
        let is_out = same_text(dir.as_str(), "out");
        if self.filter_node_id == Some(node) && is_in {
            self.filter_input_ports.insert(name, id);
        } else if self.filter_node_id == Some(node) && is_out {
            self.filter_output_ports.insert(name, id);
            r.links = self.try_link_filter_output();
        } else if self.sink_node_id == Some(node) && is_in {
            self.sink_input_ports.insert(id, NodeInfo { name });
            r.links = self.try_link_filter_output();
        } else if is_out && self.nodes.contains(node) {
            self.ports.insert(id, PortInfo { node_id: node, name, direction: dir });
            r.message = Some(PwToGui::PortAdded { port_id: id, node_id: node });
        }
        r
    }

    /// A link appears in the registry.
    fn on_link(&mut self, id: u32, output_node: Option<String>, input_node: Option<String>) -> (r:
        Reaction)
        requires
            old(self).wf(),
        ensures
            final(self).wf(),
            (final(self)@, r@) == link_added(old(self)@, id, prop(output_node), prop(input_node)),
    {
        let mut r = Reaction { links: Vec::new(), destroy: None, message: None };
        let from = match id_of(&output_node) {
            Some(n) => n,
            None => return r,
        };
        let to = match id_of(&input_node) {
            Some(n) => n,
            None => return r,
        };
        if self.filter_node_id == Some(to) || self.filter_node_id == Some(from) {
            return r;
        }
        if self.routed_nodes.contains(from) {
            r.destroy = Some(id);
        } else {
            self.existing_links.insert(
                id,
                TrackedLink { output_node_id: from, input_node_id: to },
            );
        }
        r
    }

    /// An object appears in the registry.
    pub fn on_global(&mut self, id: u32, object: RegistryObject) -> (r: Reaction)
        requires
            old(self).wf(),
        ensures
            final(self).wf(),
            (final(self)@, r@) == object_added(old(self)@, id, object@),
    {
        match object {
            RegistryObject::Node { node_name, media_class, application_name, node_description } =>
                self.on_node(id, node_name, media_class, application_name, node_description),
            RegistryObject::Port { node_id, port_name, direction } => self.on_port(
                id,
                node_id,
                port_name,
                direction,
            ),
            RegistryObject::Link { output_node, input_node } => self.on_link(
                id,
                output_node,
                input_node,
            ),
            RegistryObject::Other => Reaction {
                links: Vec::new(),
                destroy: None,
                message: None,
            },
        }
    }

    /// An object leaves the registry.
    pub fn on_global_remove(&mut self, id: u32) -> (r: Option<PwToGui>)
        requires
            old(self).wf(),
        ensures
            final(self).wf(),
            final(self)@ == object_removed(old(self)@, id).0,
            r is Some <==> object_removed(old(self)@, id).1 is Some,
            r matches Some(m) ==> object_removed(old(self)@, id).1 == Some(m@),
    {
        if self.nodes.remove(id).is_some() {
            self.active_links.remove(id);
            self.restore_links.remove(id);
            self.routed_nodes.remove(id);
            self.ports.release(id);
            self.existing_links.release(id);
            return Some(PwToGui::NodeRemoved { node_id: id });
        }
        let port = self.ports.remove(id);
        self.existing_links.remove(id);
        if port.is_some() {
            Some(PwToGui::PortRemoved { port_id: id })
        } else {
            None
        }
    }

    /// A user gives an app a role. The plan says which links to make; what was made is handed
    /// to `finish_route` or `finish_unroute`. No link that is held is let go before that.
    pub fn set_role(&mut self, node_id: u32, role: AppRole) -> (r: RolePlan)
        requires
            old(self).wf(),
        ensures
            final(self).wf(),
            role == AppRole::Unassigned ==> {
                &&& final(self)@ == old(self)@
                &&& r matches RolePlan::Unroute(links) && links@ == sink_plan(
                    old(self)@,
                    node_id,
                    false,
                )
            },
            role != AppRole::Unassigned ==> {
                &&& final(self)@ == route_begun(old(self)@, node_id)
                &&& match filter_plan(old(self)@, node_id, role) {
                    Ok(plan) => r matches RolePlan::Route(links) && links@ == plan,
                    Err(e) => r == RolePlan::Refused(e),
                }
            },
    {
        if role == AppRole::Unassigned {
            return RolePlan::Unroute(self.create_sink_links(node_id, false));
        }
        self.routed_nodes.insert(node_id, ());
        match self.plan_route(node_id, role) {
            Ok(links) => RolePlan::Route(links),
            Err(e) => RolePlan::Refused(e),
        }
    }

    /// The links from an app to the filter's inputs of a role.
    fn plan_route(&self, node_id: u32, role: AppRole) -> (r: Result<Vec<LinkRequest>, RouteRefusal>)
        requires
            role != AppRole::Unassigned,
        ensures
            match filter_plan(self@, node_id, role) {
                Ok(plan) => r matches Ok(links) && links@ == plan,
                Err(e) => r matches Err(f) && f == e,
            },
    {
        let (left_name, right_name) = match role {
            AppRole::Voice => ("voice_left", "voice_right"),
            _ => ("music_left", "music_right"),
        };
        let filter = match self.filter_node_id {
            Some(id) => id,
            None => return Err(RouteRefusal::FilterNotReady),
        };
        let left = match self.filter_input_ports.get(left_name) {
            Some(id) => *id,
            None => return Err(RouteRefusal::LeftPortMissing),
        };
        let right = match self.filter_input_ports.get(right_name) {
            Some(id) => *id,
            None => return Err(RouteRefusal::RightPortMissing),
        };
        let app_ports = list_outputs(&self.ports, node_id);
        assert(port_views(app_ports@).len() == app_ports@.len());
        if app_ports.len() == 0 {
            return Err(RouteRefusal::NoOutputPorts);
        }
        let pair = classify_stereo_ports(app_ports.as_slice());
        if pair.0.is_none() {
            return Err(RouteRefusal::Unclassified);
        }
        Ok(link_pair(pair, (left, right), node_id, filter, false))
    }

    /// Forgets the remembered links from an app to the sink, and tells which they were.
    fn destroy_links_to_sink(&mut self, node_id: u32) -> (r: Vec<u32>)
        requires
            old(self).wf(),
        ensures
            final(self).wf(),
            final(self)@ == (Graph {
                existing_links: links_kept(old(self)@, node_id),
                ..old(self)@
            }),
            r@ == links_to_sink(old(self)@, node_id),
    {
        let mut r: Vec<u32> = Vec::new();
        let sink = match self.sink_node_id {
            Some(id) => id,
            None => return r,
        };
        let ghost s = self.existing_links@;
        let ghost keep = goes_elsewhere(node_id, sink);
        let ghost go = goes_to_sink(node_id, sink);
        let ghost mut k: int = 0;
        let mut i: usize = 0;
        proof {
            reveal(Seq::filter);
            assert(s.take(0).filter(keep) =~= s.take(0));
            assert(ids_of(s.take(0).filter(go)) =~= r@);
            assert(s.skip(0) =~= s);
        }
        while i < self.existing_links.len()
            invariant
                0 <= i <= self.existing_links@.len(),
                0 <= k <= s.len(),
                self.existing_links@.len() - i == s.len() - k,
                keep == goes_elsewhere(node_id, sink),
                go == goes_to_sink(node_id, sink),
                self.wf(),
                self@ == (Graph { existing_links: self.existing_links@, ..old(self)@ }),
                self.existing_links@.take(i as int) == s.take(k).filter(keep),
                self.existing_links@.skip(i as int) == s.skip(k),
                r@ == ids_of(s.take(k).filter(go)),
            decreases self.existing_links@.len() - i,
        {
            let ghost t = self.existing_links@;
            proof {
                reveal(Seq::filter);
                assert(t.skip(i as int)[0] == s.skip(k)[0]);
                assert(s.take(k + 1).drop_last() =~= s.take(k));
                assert(s.take(k + 1).last() == t[i as int]);
                assert(s.skip(k + 1) =~= s.skip(k).skip(1));
                assert(t.skip(i as int).skip(1) =~= t.skip(i + 1));
            }
            let ghost before = r@;
            let link = *self.existing_links.value_at(i);
            if link.output_node_id == node_id && link.input_node_id == sink {
                r.push(self.existing_links.id_at(i));
                self.existing_links.remove_at(i);
                proof {
                    assert(self.existing_links@.take(i as int) =~= t.take(i as int));
                    assert(self.existing_links@.skip(i as int) =~= t.skip(i + 1));
                    assert(r@ =~= ids_of(s.take(k + 1).filter(go)));
                }
            } else {
                assert(t.take(i + 1) =~= t.take(i as int).push(t[i as int]));
                i += 1;
            }
            proof {
                k = k + 1;
            }
        }
        proof {
            assert(s.take(k) =~= s);
            assert(self.existing_links@.take(i as int) =~= self.existing_links@);
        }
        r
    }

    /// Takes the handles of the links to the filter that are held for a node.
    fn take_active(&mut self, node_id: u32) -> (r: Vec<L>)
        requires
            old(self).wf(),
        ensures
            final(self).wf(),
            final(self)@ == (Graph {
                active_links: without(old(self)@.active_links, node_id),
                ..old(self)@
            }),
            r@ == handles(old(self)@.active_links, node_id),
    {
        match self.active_links.remove(node_id) {
            Some(links) => links,
            None => Vec::new(),
        }
    }

    /// The links of a routed app are made. What comes back is the handles of the app's old
    /// links to the filter and of those that gave it back to the sink, which are to be let go,
    /// and the ids of its links to the sink, which are to be destroyed.
    pub fn finish_route(&mut self, node_id: u32, links: Vec<L>) -> (r: (Vec<L>, Vec<u32>))
        requires
            old(self).wf(),
        ensures
            final(self).wf(),
            final(self)@ == route_done(old(self)@, node_id, links@),
            r.0@ == handles(old(self)@.active_links, node_id) + handles(
                old(self)@.restore_links,
                node_id,
            ),
            r.1@ == links_to_sink(old(self)@, node_id),
    {
        let mut old_links = self.take_active(node_id);
        if let Some(links) = self.restore_links.remove(node_id) {
            let mut links = links;
            old_links.append(&mut links);
        }
        let doomed = self.destroy_links_to_sink(node_id);
        proof {
            lookup_without(old(self)@.active_links, node_id, node_id);
        }
        if links.len() > 0 {
            self.active_links.insert(node_id, links);
        }
        (old_links, doomed)
    }

    /// An app is linked to the sink again. What comes back is the handles of its links to the
    /// filter, which are to be let go.
    pub fn finish_unroute(&mut self, node_id: u32, links: Vec<L>) -> (r: Vec<L>)
        requires
            old(self).wf(),
        ensures
            final(self).wf(),
            final(self)@ == unroute_done(old(self)@, node_id, links@),
            r@ == handles(old(self)@.active_links, node_id),
    {
        if links.len() > 0 {
            self.restore_links.insert(node_id, links);
        }
        let old_links = self.take_active(node_id);
        self.routed_nodes.remove(node_id);
        old_links
    }

    /// The routed apps.
    pub fn routed(&self) -> (r: Vec<u32>)
        ensures
            r@ == ids_of(self@.routed_nodes),
    {
        let mut r: Vec<u32> = Vec::new();
        let mut i: usize = 0;
        while i < self.routed_nodes.len()
            invariant
                i <= self.routed_nodes@.len(),
                r@ =~= ids_of(self.routed_nodes@.take(i as int)),
            decreases self.routed_nodes@.len() - i,
        {
            r.push(self.routed_nodes.id_at(i));
            i += 1;
        }
        assert(self.routed_nodes@.take(i as int) =~= self.routed_nodes@);
        r
    }

    /// Lets a routed app go at shutdown. What comes back is the handles of its links to the
    /// filter.
    pub fn release_routed(&mut self, node_id: u32) -> (r: Vec<L>)
        requires
            old(self).wf(),
        ensures
            final(self).wf(),
            final(self)@ == routed_released(old(self)@, node_id),
            r@ == handles(old(self)@.active_links, node_id),
    {
        let old_links = self.take_active(node_id);
        self.routed_nodes.remove(node_id);
        old_links
    }

    /// Lets the links of the filter's output go.
    pub fn release_output(&mut self)
        requires
            old(self).wf(),
        ensures
            final(self).wf(),
            final(self)@ == (Graph { output_links: Seq::empty(), ..old(self)@ }),
    {
        self.output_links.clear();
    }
}

} // verus!
