use spectralblend::apps::{toggle_role, GuiApp};
use spectralblend::graph::{LinkRequest, RegistryObject, RouteRefusal};
use spectralblend::messages::{AppRole, GuiToPw, PwToGui};
use spectralblend::routing::{link_properties, shutdown_confirmed, PwState, RolePlan};

fn some(s: &str) -> Option<String> {
    Some(s.to_string())
}

fn node(name: &str, class: &str) -> RegistryObject {
    RegistryObject::Node {
        node_name: some(name),
        media_class: some(class),
        application_name: None,
        node_description: None,
    }
}

fn app(name: &str) -> RegistryObject {
    RegistryObject::Node {
        node_name: some("stream"),
        media_class: some("Stream/Output/Audio"),
        application_name: some(name),
        node_description: some("a description"),
    }
}

fn port(node_id: &str, name: &str, direction: &str) -> RegistryObject {
    RegistryObject::Port { node_id: some(node_id), port_name: some(name), direction: some(direction) }
}

fn link(output: &str, input: &str) -> RegistryObject {
    RegistryObject::Link { output_node: some(output), input_node: some(input) }
}

/// The ends of a link: nodes and ports.
fn ends(l: &LinkRequest) -> (u32, u32, u32, u32, bool) {
    (l.out_node, l.out_port, l.in_node, l.in_port, l.linger)
}

/// A router with a filter (10), a sink (20) and an app (30), all with their ports. Handles of
/// links are plain numbers.
fn router() -> PwState<u32> {
    let mut s: PwState<u32> = PwState::new();
    s.on_global(10, node("SpectralBlend", ""));
    for (id, name) in [(11, "music_left"), (12, "music_right"), (13, "voice_left"), (14, "voice_right")] {
        s.on_global(id, port("10", name, "in"));
    }
    s.on_global(15, port("10", "output_left", "out"));
    s.on_global(16, port("10", "output_right", "out"));
    s.on_global(20, node("alsa", "Audio/Sink"));
    s.on_global(21, port("20", "playback_FL", "in"));
    let r = s.on_global(22, port("20", "playback_FR", "in"));
    for (i, _) in r.links.iter().enumerate() {
        s.hold_output_link(100 + i as u32);
    }
    s.on_global(30, app("Player"));
    s.on_global(31, port("30", "output_FL", "out"));
    s.on_global(32, port("30", "output_FR", "out"));
    s
}

#[test]
fn the_filter_output_is_linked_once() {
    let mut s: PwState<u32> = PwState::new();
    let r = s.on_global(10, node("SpectralBlend", ""));
    assert!(matches!(r.message, Some(PwToGui::FilterReady)));
    assert!(r.links.is_empty());
    s.on_global(15, port("10", "output_left", "out"));
    s.on_global(16, port("10", "output_right", "out"));
    s.on_global(20, node("alsa", "Audio/Sink"));
    let r = s.on_global(21, port("20", "playback_FL", "in"));
    // With one sink port both sides go there.
    assert_eq!(
        r.links.iter().map(ends).collect::<Vec<_>>(),
        vec![(10, 15, 20, 21, false), (10, 16, 20, 21, false)]
    );
    s.hold_output_link(1);
    let r = s.on_global(22, port("20", "playback_FR", "in"));
    assert!(r.links.is_empty());
    // A second sink does not replace the first one.
    s.on_global(40, node("hdmi", "Audio/Sink"));
    assert_eq!(s.sink_node_id, Some(20));
}

#[test]
fn apps_are_told_of() {
    let mut s: PwState<u32> = PwState::new();
    let r = s.on_global(30, app("Player"));
    assert!(matches!(r.message, Some(PwToGui::NodeAdded { node_id: 30, name }) if name == "Player"));
    let r = s.on_global(31, RegistryObject::Node {
        node_name: some("stream"),
        media_class: some("Stream/Output/Audio"),
        application_name: None,
        node_description: None,
    });
    assert!(matches!(r.message, Some(PwToGui::NodeAdded { node_id: 31, name }) if name == "stream"));
    let r = s.on_global(32, node("mic", "Stream/Input/Audio"));
    assert!(r.message.is_none());
    let r = s.on_global(33, port("30", "output_FL", "out"));
    assert!(matches!(r.message, Some(PwToGui::PortAdded { port_id: 33, node_id: 30 })));
    let r = s.on_global(34, port("30", "input", "in"));
    assert!(r.message.is_none());
    let r = s.on_global(35, port("x", "output", "out"));
    assert!(r.message.is_none());
    assert!(s.on_global(36, RegistryObject::Other).message.is_none());
    assert!(matches!(s.on_global_remove(33), Some(PwToGui::PortRemoved { port_id: 33 })));
    assert!(matches!(s.on_global_remove(30), Some(PwToGui::NodeRemoved { node_id: 30 })));
    assert!(s.on_global_remove(30).is_none());
}

#[test]
fn a_role_routes_an_app_through_the_filter() {
    let mut s = router();
    s.on_global(50, link("30", "20"));
    s.on_global(51, link("30", "20"));
    s.on_global(52, link("30", "99"));
    let plan = s.set_role(30, AppRole::Voice);
    let links = match plan {
        RolePlan::Route(links) => links,
        _ => panic!("no route"),
    };
    assert_eq!(
        links.iter().map(ends).collect::<Vec<_>>(),
        vec![(30, 31, 10, 13, false), (30, 32, 10, 14, false)]
    );
    let (old, destroy) = s.finish_route(30, vec![1, 2]);
    assert!(old.is_empty());
    assert_eq!(destroy, vec![50, 51]);
    assert_eq!(s.routed(), vec![30]);
    // Links that others make from a routed app are destroyed, those to the filter are not.
    assert_eq!(s.on_global(60, link("30", "20")).destroy, Some(60));
    assert_eq!(s.on_global(61, link("30", "10")).destroy, None);
    assert_eq!(s.on_global(62, link("10", "20")).destroy, None);
    // A new role gives the old links back.
    let plan = s.set_role(30, AppRole::Music);
    assert!(matches!(plan, RolePlan::Route(l) if l[0].in_port == 11 && l[1].in_port == 12));
    let (old, destroy) = s.finish_route(30, vec![3, 4]);
    assert_eq!(old, vec![1, 2]);
    assert!(destroy.is_empty());
}

#[test]
fn an_app_goes_back_to_the_sink() {
    let mut s = router();
    s.set_role(30, AppRole::Music);
    s.finish_route(30, vec![1, 2]);
    let links = match s.set_role(30, AppRole::Unassigned) {
        RolePlan::Unroute(links) => links,
        _ => panic!("no way back"),
    };
    assert_eq!(
        links.iter().map(ends).collect::<Vec<_>>(),
        vec![(30, 31, 20, 21, false), (30, 32, 20, 22, false)]
    );
    assert_eq!(s.finish_unroute(30, vec![5, 6]), vec![1, 2]);
    assert!(s.routed().is_empty());
    assert_eq!(s.on_global(60, link("30", "20")).destroy, None);
    // Routed once more, the app keeps its links to the sink until those to the filter are made.
    assert!(matches!(s.set_role(30, AppRole::Voice), RolePlan::Route(_)));
    assert_eq!(s.restore_links.get(30), Some(&vec![5, 6]));
    let (old, destroy) = s.finish_route(30, vec![7, 8]);
    assert_eq!(old, vec![5, 6]);
    assert_eq!(destroy, vec![60]);
    assert!(s.restore_links.get(30).is_none());
}

#[test]
fn routes_that_cannot_be_made_are_refused() {
    let mut s: PwState<u32> = PwState::new();
    assert!(matches!(s.set_role(30, AppRole::Music), RolePlan::Refused(RouteRefusal::FilterNotReady)));
    s.on_global(10, node("SpectralBlend", ""));
    assert!(matches!(s.set_role(30, AppRole::Music), RolePlan::Refused(RouteRefusal::LeftPortMissing)));
    s.on_global(11, port("10", "music_left", "in"));
    assert!(matches!(s.set_role(30, AppRole::Music), RolePlan::Refused(RouteRefusal::RightPortMissing)));
    s.on_global(12, port("10", "music_right", "in"));
    assert!(matches!(s.set_role(30, AppRole::Music), RolePlan::Refused(RouteRefusal::NoOutputPorts)));
    s.on_global(30, app("Player"));
    s.on_global(32, port("30", "output_FR", "out"));
    assert!(matches!(s.set_role(30, AppRole::Music), RolePlan::Refused(RouteRefusal::Unclassified)));
    s.on_global(31, port("30", "mono", "out"));
    assert!(matches!(s.set_role(30, AppRole::Music), RolePlan::Route(_)));
}

#[test]
fn shutdown_links_all_apps_to_the_sink() {
    let mut s = router();
    s.set_role(30, AppRole::Music);
    s.finish_route(30, vec![1, 2]);
    for id in s.routed() {
        let links = s.create_sink_links(id, true);
        assert_eq!(links.len(), 2);
        assert!(links[0].linger && links[1].linger);
        assert_eq!(s.release_routed(id), vec![1, 2]);
    }
    s.release_output();
    assert!(s.routed().is_empty());
    assert!(s.output_links.is_empty());
    assert!(shutdown_confirmed(Some(4), 4));
    assert!(!shutdown_confirmed(Some(4), 5));
    assert!(!shutdown_confirmed(None, 4));
}

#[test]
fn links_are_described_by_properties() {
    let l = LinkRequest { out_node: 1, out_port: 2, in_node: 3, in_port: 40, linger: false };
    let p = link_properties(l);
    let text = |p: &[(&'static str, String)]| {
        p.iter().map(|(k, v)| format!("{k}={v}")).collect::<Vec<String>>()
    };
    assert_eq!(
        text(&p),
        vec!["link.output.node=1", "link.output.port=2", "link.input.node=3", "link.input.port=40"]
    );
    let p = link_properties(LinkRequest { linger: true, ..l });
    assert_eq!(p.len(), 5);
    assert_eq!(text(&p)[4], "object.linger=true");
}

#[test]
fn an_app_that_comes_back_is_routed_again() {
    let mut g = GuiApp::new();
    let added = |id: u32, name: &str| PwToGui::NodeAdded { node_id: id, name: name.to_string() };
    assert!(g.drain_pw_messages(vec![
        added(30, "Player"),
        PwToGui::PortAdded { port_id: 31, node_id: 30 },
        PwToGui::PortAdded { port_id: 32, node_id: 30 },
    ]).is_empty());
    assert!(matches!(
        g.give_role(30, AppRole::Music),
        GuiToPw::SetRole { node_id: 30, role: AppRole::Music }
    ));
    let requests = g.drain_pw_messages(vec![
        PwToGui::NodeRemoved { node_id: 30 },
        added(70, "Player"),
        PwToGui::PortAdded { port_id: 71, node_id: 70 },
        PwToGui::PortAdded { port_id: 72, node_id: 70 },
    ]);
    assert_eq!(requests.len(), 1);
    assert!(matches!(requests[0], GuiToPw::SetRole { node_id: 70, role: AppRole::Music }));
    // A role that was taken back is forgotten.
    g.give_role(70, AppRole::Unassigned);
    let requests = g.drain_pw_messages(vec![
        PwToGui::NodeRemoved { node_id: 70 },
        added(80, "Player"),
        PwToGui::PortAdded { port_id: 81, node_id: 80 },
        PwToGui::PortAdded { port_id: 82, node_id: 80 },
    ]);
    assert!(requests.is_empty());
}

#[test]
fn apps_are_shown_by_name() {
    let mut g = GuiApp::new();
    g.drain_pw_messages(vec![
        PwToGui::NodeAdded { node_id: 1, name: "b".to_string() },
        PwToGui::NodeAdded { node_id: 2, name: "a".to_string() },
        PwToGui::NodeAdded { node_id: 3, name: "c".to_string() },
        PwToGui::PortAdded { port_id: 11, node_id: 1 },
        PwToGui::PortAdded { port_id: 12, node_id: 2 },
        PwToGui::FilterReady,
    ]);
    assert_eq!(g.shown_apps(), vec![2, 1]);
    g.drain_pw_messages(vec![PwToGui::PortRemoved { port_id: 12 }]);
    assert_eq!(g.shown_apps(), vec![1]);
    assert_eq!(g.state_color(), (220, 180, 40));
    g.drain_pw_messages(vec![PwToGui::FilterState("Streaming".to_string())]);
    assert_eq!(g.state_color(), (80, 200, 80));
    g.drain_pw_messages(vec![PwToGui::FilterState("Error".to_string())]);
    assert_eq!(g.state_color(), (220, 60, 60));
    assert_eq!(toggle_role(AppRole::Music, AppRole::Music), AppRole::Unassigned);
    assert_eq!(toggle_role(AppRole::Voice, AppRole::Music), AppRole::Music);
    assert_eq!(toggle_role(AppRole::Voice, AppRole::Unassigned), AppRole::Unassigned);
}

#[test]
fn an_app_that_leaves_takes_everything_along() {
    let mut s = router();
    s.on_global(52, link("30", "99"));
    s.set_role(30, AppRole::Music);
    s.finish_route(30, vec![1, 2]);
    assert!(matches!(s.on_global_remove(30), Some(PwToGui::NodeRemoved { node_id: 30 })));
    assert!(s.routed().is_empty());
    assert_eq!(s.ports.len(), 0);
    assert_eq!(s.active_links.len(), 0);
    assert_eq!(s.existing_links.len(), 0);
    assert!(s.create_sink_links(30, false).is_empty());
    assert!(matches!(
        s.set_role(30, AppRole::Music),
        RolePlan::Refused(RouteRefusal::NoOutputPorts)
    ));
}

#[test]
fn refusals_are_put_in_words() {
    let (music, voice) = (AppRole::Music, AppRole::Voice);
    assert_eq!(RouteRefusal::FilterNotReady.words(music, 7), "Filter node not ready!");
    assert_eq!(
        RouteRefusal::LeftPortMissing.words(music, 7),
        "Filter port 'music_left' not found!"
    );
    assert_eq!(
        RouteRefusal::RightPortMissing.words(voice, 7),
        "Filter port 'voice_right' not found!"
    );
    assert_eq!(RouteRefusal::NoOutputPorts.words(voice, 107), "No output ports for node=107!");
    assert_eq!(
        RouteRefusal::Unclassified.words(music, 30),
        "Could not classify ports for node=30!"
    );
}
