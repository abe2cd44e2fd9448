//! The window's list of audio apps and the roles that the user gave them.

use crate::messages::{AppRole, AppView, AudioApp, GuiToPw, Note, PwToGui};
use crate::table::{
    distinct, distinct_kept, lemma_filter_distinct, lemma_lookup_absent, lemma_lookup_at, lookup,
    lookup_with_entry, other_than, with_entry, without, IdTable,
};
use crate::text::{
    comes_before, same_text, text_before, text_order_is_total, text_order_is_transitive,
};
use vstd::hash_map::StringHashMap;
use vstd::prelude::*;
use vstd::string::*;

verus! {

/// What the window knows: the apps, the state of the filter, and the role that each app name
/// was given last.
#[verifier::ext_equal]
pub struct Board {
    pub apps: Seq<(u32, AppView)>,
    pub filter_state: Seq<char>,
    pub remembered_roles: Map<Seq<char>, AppRole>,
}

/// The role that an app name was given last.
pub open spec fn remembered_role(b: Board, name: Seq<char>) -> AppRole {
    if b.remembered_roles.contains_key(name) {
        b.remembered_roles[name]
    } else {
        AppRole::Unassigned
    }
}

/// The ports with one more, unless it is there already.
pub open spec fn port_joined(ports: Seq<u32>, port: u32) -> Seq<u32> {
    if ports.contains(port) {
        ports
    } else {
        ports.push(port)
    }
}

/// The app with one more port.
pub open spec fn app_with_port(app: AppView, port: u32) -> AppView {
    AppView { port_ids: port_joined(app.port_ids, port), ..app }
}

/// Tells all other ports.
pub open spec fn port_other_than(port: u32) -> spec_fn(u32) -> bool {
    |id: u32| id != port
}

/// Takes a port from an app.
pub open spec fn dropping_port(port: u32) -> spec_fn((u32, AppView)) -> (u32, AppView) {
    |e: (u32, AppView)|
        (e.0, AppView { port_ids: e.1.port_ids.filter(port_other_than(port)), ..e.1 })
}

/// A message arrives. An app that appears gets the role that its name was given last. An app
/// with a role that has come to a pair of ports is to be routed.
pub open spec fn note_taken(b: Board, note: Note) -> (Board, Option<(u32, AppRole)>) {
    match note {
        Note::NodeAdded { node_id, name } => if lookup(b.apps, node_id) is Some {
            (b, None)
        } else {
            let app = AppView {
                node_id,
                name,
                role: remembered_role(b, name),
                port_ids: Seq::empty(),
            };
            (Board { apps: b.apps.push((node_id, app)), ..b }, None)
        },
        Note::NodeRemoved { node_id } => (Board { apps: without(b.apps, node_id), ..b }, None),
        Note::PortAdded { port_id, node_id } => match lookup(b.apps, node_id) {
            None => (b, None),
            Some(app) => {
                let app1 = app_with_port(app, port_id);
                (
                    Board { apps: with_entry(b.apps, node_id, app1), ..b },
                    if app1.role != AppRole::Unassigned && app1.port_ids.len() == 2 {
                        Some((node_id, app1.role))
                    } else {
                        None
                    },
                )
            },
        },
        Note::PortRemoved { port_id } => (
            Board { apps: b.apps.map_values(dropping_port(port_id)), ..b },
            None,
        ),
        Note::FilterReady => (b, None),
        Note::FilterState(s) => (Board { filter_state: s, ..b }, None),
    }
}

/// The board after a row of messages.
pub open spec fn board_after(b: Board, notes: Seq<Note>) -> Board
    decreases notes.len(),
{
    if notes.len() == 0 {
        b
    } else {
        note_taken(board_after(b, notes.drop_last()), notes.last()).0
    }
}

/// The apps to be routed after a row of messages, in order.
pub open spec fn routes_after(b: Board, notes: Seq<Note>) -> Seq<(u32, AppRole)>
    decreases notes.len(),
{
    if notes.len() == 0 {
        Seq::empty()
    } else {
        let before = routes_after(b, notes.drop_last());
        match note_taken(board_after(b, notes.drop_last()), notes.last()).1 {
            Some(route) => before.push(route),
            None => before,
        }
    }
}

/// The user gives an app a role: the app takes it, and its name is remembered for it.
pub open spec fn role_given(b: Board, node: u32, role: AppRole) -> Board {
    match lookup(b.apps, node) {
        None => b,
        Some(app) => Board {
            apps: with_entry(b.apps, node, AppView { role, ..app }),
            remembered_roles: if role != AppRole::Unassigned {
                b.remembered_roles.insert(app.name, role)
            } else {
                b.remembered_roles.remove(app.name)
            },
            ..b
        },
    }
}

/// The notes of a row of messages.
pub open spec fn notes_of(msgs: Seq<PwToGui>) -> Seq<Note> {
    msgs.map_values(|m: PwToGui| m@)
}

/// The requests that route apps.
pub open spec fn route_requests(routes: Seq<(u32, AppRole)>) -> Seq<GuiToPw> {
    routes.map_values(|r: (u32, AppRole)| GuiToPw::SetRole { node_id: r.0, role: r.1 })
}

/// The window's side of the routing.
pub struct GuiApp {
    pub apps: IdTable<AudioApp>,
    pub filter_state: String,
    /// App name to role, for apps that come back.
    pub remembered_roles: StringHashMap<AppRole>,
}

impl View for GuiApp {
    type V = Board;

    open spec fn view(&self) -> Board {
        Board {
            apps: self.apps@,
            filter_state: self.filter_state@,
            remembered_roles: self.remembered_roles@,
        }
    }
}

/// Whether a list of ports holds a port.
fn has_port(ports: &Vec<u32>, port: u32) -> (r: bool)
    ensures
        r == ports@.contains(port),
{
    let mut i: usize = 0;
    while i < ports.len()
        invariant
            i <= ports@.len(),
            forall|k: int| 0 <= k < i ==> ports@[k] != port,
        decreases ports.len() - i,
    {
        if ports[i] == port {
            return true;
        }
        i += 1;
    }
    false
}

/// A list of ports without one of them.
fn ports_without(ports: &Vec<u32>, port: u32) -> (r: Vec<u32>)
    ensures
        r@ == ports@.filter(port_other_than(port)),
{
    let mut r: Vec<u32> = Vec::new();
    let mut i: usize = 0;
    assert(r@ =~= ports@.take(0).filter(port_other_than(port))) by {
        reveal(Seq::filter);
    }
    while i < ports.len()
        invariant
            i <= ports@.len(),
            r@ == ports@.take(i as int).filter(port_other_than(port)),
        decreases ports.len() - i,
    {
        proof {
            reveal(Seq::filter);
            assert(ports@.take(i + 1).drop_last() =~= ports@.take(i as int));
        }
        if ports[i] != port {
            r.push(ports[i]);
        }
        i += 1;
    }
    assert(ports@.take(ports@.len() as int) =~= ports@);
    r
}

/// The role after a click on a role's label: a second click takes the role back.
pub fn toggle_role(current: AppRole, clicked: AppRole) -> (r: AppRole)
    ensures
        r == if current == clicked {
            AppRole::Unassigned
        } else {
            clicked
        },
{
    if current == clicked {
        AppRole::Unassigned
    } else {
        clicked
    }
}

impl GuiApp {
    /// No app is listed twice.
    pub open spec fn wf(&self) -> bool {
        self.apps.wf()
    }

    /// A window that has seen nothing yet.
    pub fn new() -> (r: Self)
        ensures
            r.wf(),
            r@ == (Board {
                apps: Seq::empty(),
                filter_state: "Connecting"@,
                remembered_roles: Map::empty(),
            }),
    {
        GuiApp {
            apps: IdTable::new(),
            filter_state: String::from_str("Connecting"),
            remembered_roles: StringHashMap::new(),
        }
    }

    /// Takes one message. What comes back is an app to be routed, with its role.
    fn take_message(&mut self, msg: PwToGui) -> (r: Option<(u32, AppRole)>)
        requires
            old(self).wf(),
        ensures
            final(self).wf(),
            (final(self)@, r) == note_taken(old(self)@, msg@),
    {
        match msg {
            PwToGui::NodeAdded { node_id, name } => {
                if !self.apps.contains(node_id) {
                    let role = match self.remembered_roles.get(name.as_str()) {
                        Some(role) => *role,
                        None => AppRole::Unassigned,
                    };
                    let app = AudioApp { node_id, name, role, port_ids: Vec::new() };
                    self.apps.insert(node_id, app);
                }
                None
            },
            PwToGui::NodeRemoved { node_id } => {
                self.apps.remove(node_id);
                None
            },
            PwToGui::PortAdded { port_id, node_id } => self.take_port(port_id, node_id),
            PwToGui::PortRemoved { port_id } => {
                self.drop_port(port_id);
                None
            },
            PwToGui::FilterReady => None,
            PwToGui::FilterState(s) => {
                self.filter_state = s;
                None
            },
        }
    }

    /// An app has one more port.
    fn take_port(&mut self, port_id: u32, node_id: u32) -> (r: Option<(u32, AppRole)>)
        requires
            old(self).wf(),
        ensures
            final(self).wf(),
            (final(self)@, r) == note_taken(old(self)@, Note::PortAdded { port_id, node_id }),
    {
        let at = match self.apps.find(node_id) {
            Some(i) => i,
            None => return None,
        };
        let ghost s = self.apps@;
        let app = self.apps.value_mut(at);
        if !has_port(&app.port_ids, port_id) {
            app.port_ids.push(port_id);
        }
        let role = app.role;
        let pair = app.port_ids.len() == 2;
        proof {
            lemma_update_is_with_entry(s, at as int, app_with_port(s[at as int].1, port_id));
        }
        if role != AppRole::Unassigned && pair {
            Some((node_id, role))
        } else {
            None
        }
    }

    /// A port is gone from every app.
    fn drop_port(&mut self, port_id: u32)
        requires
            old(self).wf(),
        ensures
            final(self).wf(),
            final(self)@ == (Board {
                apps: old(self)@.apps.map_values(dropping_port(port_id)),
                ..old(self)@
            }),
    {
        let ghost s = self.apps@;
        let mut i: usize = 0;
        while i < self.apps.len()
            invariant
                i <= self.apps@.len(),
                self.apps@.len() == s.len(),
                self.wf(),
                s == old(self)@.apps,
                self@ == (Board { apps: self.apps@, ..old(self)@ }),
                forall|k: int|
                    0 <= k < i ==> #[trigger] self.apps@[k] == dropping_port(port_id)(s[k]),
                forall|k: int| i <= k < s.len() ==> #[trigger] self.apps@[k] == s[k],
            decreases self.apps@.len() - i,
        {
            let ghost before = self.apps@;
            let app = self.apps.value_mut(i);
            let kept = ports_without(&app.port_ids, port_id);
            app.port_ids = kept;
            proof {
                assert(self.apps@[i as int] == dropping_port(port_id)(s[i as int]));
            }
            i += 1;
        }
        assert(self.apps@ =~= s.map_values(dropping_port(port_id)));
    }

    /// Takes a row of messages. What comes back is the requests that route the apps which have
    /// come back.
    pub fn drain_pw_messages(&mut self, msgs: Vec<PwToGui>) -> (r: Vec<GuiToPw>)
        requires
            old(self).wf(),
        ensures
            final(self).wf(),
            final(self)@ == board_after(old(self)@, notes_of(msgs@)),
            r@ == route_requests(routes_after(old(self)@, notes_of(msgs@))),
    {
        let ghost notes = notes_of(msgs@);
        let ghost all = msgs@;
        let mut r: Vec<GuiToPw> = Vec::new();
        assert(r@ =~= route_requests(routes_after(self@, notes.take(0))));
        for msg in it: msgs
            invariant
                it.seq() == all,
                notes == notes_of(all),
                self.wf(),
                self@ == board_after(old(self)@, notes.take(it.index() as int)),
                r@ == route_requests(routes_after(old(self)@, notes.take(it.index() as int))),
        {
            let ghost n = it.index() as int;
            let ghost before = r@;
            proof {
                assert(notes.take(n + 1).drop_last() =~= notes.take(n));
                assert(notes.take(n + 1).last() == msg@);
            }
            match self.take_message(msg) {
                Some((node_id, role)) => {
                    r.push(GuiToPw::SetRole { node_id, role });
                    assert(r@ =~= route_requests(routes_after(old(self)@, notes.take(n + 1))));
                },
                None => {},
            }
        }
        assert(notes.take(notes.len() as int) =~= notes);
        r
    }

    /// The user gives an app a role. What comes back is the request that routes it.
    pub fn give_role(&mut self, node_id: u32, role: AppRole) -> (r: GuiToPw)
        requires
            old(self).wf(),
        ensures
            final(self).wf(),
            final(self)@ == role_given(old(self)@, node_id, role),
            r == (GuiToPw::SetRole { node_id, role }),
    {
        match self.apps.find(node_id) {
            Some(at) => {
                let ghost s = self.apps@;
                let app = self.apps.value_mut(at);
                app.role = role;
                let name = app.name.clone();
                proof {
                    lemma_update_is_with_entry(
                        s,
                        at as int,
                        AppView { role, ..s[at as int].1 },
                    );
                }
                if role != AppRole::Unassigned {
                    self.remembered_roles.insert(name, role);
                } else {
                    self.remembered_roles.remove(name.as_str());
                }
            },
            None => {},
        }
        GuiToPw::SetRole { node_id, role }
    }

    /// The apps that have ports, in the order in which the window shows them: by name, and
    /// apps of one name in the order of their arrival.
    pub fn shown_apps(&self) -> (r: Vec<u32>)
        requires
            self.wf(),
        ensures
            is_display_order(self@.apps, r@),
    {
        let mut rows: Vec<usize> = Vec::new();
        let ghost apps = self.apps@;
        let mut i: usize = 0;
        while i < self.apps.len()
            invariant
                i <= apps.len(),
                apps == self.apps@,
                rows_ordered(apps, rows@),
                forall|k: int| 0 <= k < rows@.len() ==> #[trigger] rows@[k] < i,
                forall|m: int|
                    0 <= m < i && has_ports(#[trigger] apps[m]) ==> rows@.contains(m as usize),
            decreases apps.len() - i,
        {
            if self.apps.value_at(i).port_ids.len() > 0 {
                let mut at: usize = 0;
                let name = self.apps.value_at(i).name.as_str();
                while at < rows.len() && !comes_before(
                    name,
                    self.apps.value_at(rows[at]).name.as_str(),
                )
                    invariant
                        at <= rows@.len(),
                        i < apps.len(),
                        name@ == apps[i as int].1.name,
                        apps == self.apps@,
                        rows_ordered(apps, rows@),
                        forall|k: int|
                            0 <= k < at ==> !text_before(
                                apps[i as int].1.name,
                                apps[#[trigger] rows@[k] as int].1.name,
                            ),
                    decreases rows.len() - at,
                {
                    at += 1;
                }
                let ghost before = rows@;
                rows.insert(at, i);
                proof {
                    lemma_row_inserted(apps, before, at as int, i);
                    assert forall|m: int|
                        0 <= m < i + 1 && has_ports(#[trigger] apps[m]) implies rows@.contains(
                        m as usize,
                    ) by {
                        if m == i {
                            assert(rows@[at as int] == i);
                        } else {
                            let k = choose|k: int| 0 <= k < before.len() && before[k] == m as usize;
                            assert(rows@[if k < at { k } else { k + 1 }] == m as usize);
                        }
                    }
                }
            }
            i += 1;
        }
        let mut r: Vec<u32> = Vec::new();
        let mut j: usize = 0;
        while j < rows.len()
            invariant
                j <= rows@.len(),
                apps == self.apps@,
                rows_ordered(apps, rows@),
                r@.len() == j,
                forall|k: int| 0 <= k < j ==> r@[k] == apps[#[trigger] rows@[k] as int].0,
            decreases rows.len() - j,
        {
            r.push(self.apps.id_at(rows[j]));
            j += 1;
        }
        assert(shown_by(apps, rows@, r@));
        r
    }

    /// The colour of the filter's state.
    pub fn state_color(&self) -> (r: (u8, u8, u8))
        ensures
            r == color_of(self@.filter_state),
    {
        let s = self.filter_state.as_str();
        if same_text(s, "Streaming") {
            (80, 200, 80)
        } else if same_text(s, "Paused") || same_text(s, "Connecting") {
            (220, 180, 40)
        } else {
            (220, 60, 60)
        }
    }
}

/// Red, green and blue of a filter state: green when it streams, amber while it waits, red
/// otherwise.
pub open spec fn color_of(state: Seq<char>) -> (u8, u8, u8) {
    if state == "Streaming"@ {
        (80, 200, 80)
    } else if state == "Paused"@ || state == "Connecting"@ {
        (220, 180, 40)
    } else {
        (220, 60, 60)
    }
}

/// Whether an app has a port.
pub open spec fn has_ports(e: (u32, AppView)) -> bool {
    e.1.port_ids.len() > 0
}

/// Whether one row of the list of apps is shown before another: by name, then by arrival.
pub open spec fn shown_before(apps: Seq<(u32, AppView)>, i: usize, j: usize) -> bool {
    let a = apps[i as int].1.name;
    let b = apps[j as int].1.name;
    text_before(a, b) || (a == b && i < j)
}

/// Rows of apps with ports, in the order in which they are shown.
pub open spec fn rows_ordered(apps: Seq<(u32, AppView)>, rows: Seq<usize>) -> bool {
    &&& forall|k: int|
        0 <= k < rows.len() ==> 0 <= #[trigger] rows[k] < apps.len() && has_ports(
            apps[rows[k] as int],
        )
    &&& forall|k: int, m: int| 0 <= k < m < rows.len() ==> shown_before(apps, rows[k], rows[m])
}

/// Whether the ids are those of the rows, and the rows are all the apps with ports, in order.
pub open spec fn shown_by(apps: Seq<(u32, AppView)>, rows: Seq<usize>, ids: Seq<u32>) -> bool {
    &&& rows_ordered(apps, rows)
    &&& forall|m: int|
        0 <= m < apps.len() && has_ports(#[trigger] apps[m]) ==> rows.contains(m as usize)
    &&& ids.len() == rows.len()
    &&& forall|k: int| 0 <= k < ids.len() ==> ids[k] == apps[#[trigger] rows[k] as int].0
}

/// Whether the ids are those of all the apps with ports, by name and then by arrival.
pub open spec fn is_display_order(apps: Seq<(u32, AppView)>, ids: Seq<u32>) -> bool {
    exists|rows: Seq<usize>| #[trigger] shown_by(apps, rows, ids)
}

/// A row stays in order when it goes behind all rows that it does not come before.
proof fn lemma_row_inserted(apps: Seq<(u32, AppView)>, rows: Seq<usize>, at: int, i: usize)
    requires
        rows_ordered(apps, rows),
        0 <= at <= rows.len(),
        i < apps.len(),
        has_ports(apps[i as int]),
        forall|k: int| 0 <= k < rows.len() ==> #[trigger] rows[k] < i,
        forall|k: int|
            0 <= k < at ==> !text_before(
                apps[i as int].1.name,
                apps[#[trigger] rows[k] as int].1.name,
            ),
        at < rows.len() ==> text_before(apps[i as int].1.name, apps[rows[at] as int].1.name),
    ensures
        rows_ordered(apps, rows.insert(at, i)),
{
    let next = rows.insert(at, i);
    let name = apps[i as int].1.name;
    assert forall|k: int, m: int| 0 <= k < m < next.len() implies shown_before(
        apps,
        next[k],
        next[m],
    ) by {
        if m == at {
            assert(next[k] == rows[k]);
            text_order_is_total(name, apps[rows[k] as int].1.name);
        } else if k == at {
            assert(next[m] == rows[m - 1]);
            let first = apps[rows[at] as int].1.name;
            if m - 1 > at {
                assert(shown_before(apps, rows[at], rows[m - 1]));
                if text_before(first, apps[rows[m - 1] as int].1.name) {
                    text_order_is_transitive(name, first, apps[rows[m - 1] as int].1.name);
                }
            }
        } else {
            let k0 = if k < at { k } else { k - 1 };
            let m0 = if m < at { m } else { m - 1 };
            assert(next[k] == rows[k0] && next[m] == rows[m0]);
            assert(shown_before(apps, rows[k0], rows[m0]));
        }
    }
    assert forall|k: int| 0 <= k < next.len() implies 0 <= #[trigger] next[k] < apps.len()
        && has_ports(apps[next[k] as int]) by {
        if k < at {
            assert(next[k] == rows[k]);
        } else if k > at {
            assert(next[k] == rows[k - 1]);
        }
    }
}

/// Changing the value at an id's position puts a value under the id.
proof fn lemma_update_is_with_entry<W>(s: Seq<(u32, W)>, at: int, w: W)
    requires
        distinct(s),
        0 <= at < s.len(),
    ensures
        s.update(at, (s[at].0, w)) == with_entry(s, s[at].0, w),
{
    lemma_lookup_at(s, at);
    let id = s[at].0;
    assert forall|k: int| 0 <= k < s.len() implies #[trigger] s.update(at, (id, w))[k]
        == with_entry(s, id, w)[k] by {
        if k != at {
            assert(s[k].0 != s[at].0);
        }
    }
    assert(s.update(at, (id, w)) =~= with_entry(s, id, w));
}

/// A role that is given to an app is remembered for its name, and a role that is taken back
/// is forgotten. No other name is touched.
pub proof fn role_is_remembered(b: Board, node: u32, role: AppRole, name: Seq<char>)
    requires
        lookup(b.apps, node) is Some,
    ensures
        remembered_role(role_given(b, node, role), name) == if name == lookup(b.apps, node)->0.name {
            role
        } else {
            remembered_role(b, name)
        },
        lookup(role_given(b, node, role).apps, node) is Some,
        lookup(role_given(b, node, role).apps, node)->0.role == role,
{
    lookup_with_entry(
        b.apps,
        node,
        AppView { role, ..lookup(b.apps, node)->0 },
        node,
    );
}

/// An app that appears under a name with a role is routed to it as soon as it has a pair of
/// ports, and not before.
pub proof fn returning_app_is_routed(b: Board, node_id: u32, name: Seq<char>, p: u32, q: u32)
    requires
        lookup(b.apps, node_id) is None,
        remembered_role(b, name) != AppRole::Unassigned,
        p != q,
    ensures
        routes_after(b, seq![Note::NodeAdded { node_id, name }]).len() == 0,
        routes_after(
            b,
            seq![Note::NodeAdded { node_id, name }, Note::PortAdded { port_id: p, node_id }],
        ).len() == 0,
        routes_after(
            b,
            seq![
                Note::NodeAdded { node_id, name },
                Note::PortAdded { port_id: p, node_id },
                Note::PortAdded { port_id: q, node_id },
            ],
        ) == seq![(node_id, remembered_role(b, name))],
{
    let n1 = seq![Note::NodeAdded { node_id, name }];
    let n2 = n1.push(Note::PortAdded { port_id: p, node_id });
    let n3 = n2.push(Note::PortAdded { port_id: q, node_id });
    let app = AppView {
        node_id,
        name,
        role: remembered_role(b, name),
        port_ids: Seq::empty(),
    };
    assert(n1.drop_last() =~= Seq::<Note>::empty());
    assert(n2.drop_last() =~= n1);
    assert(n3.drop_last() =~= n2);
    assert(board_after(b, n1.drop_last()) == b);
    let b1 = board_after(b, n1);
    assert(b1.apps == b.apps.push((node_id, app)));
    assert(b1.apps.drop_last() =~= b.apps);
    assert(lookup(b1.apps, node_id) == Some(app));
    assert(routes_after(b, n1.drop_last()) =~= Seq::<(u32, AppRole)>::empty());
    let app1 = app_with_port(app, p);
    assert(app1.port_ids =~= seq![p]);
    let b2 = board_after(b, n2);
    lookup_with_entry(b1.apps, node_id, app1, node_id);
    let app2 = app_with_port(app1, q);
    assert(!app1.port_ids.contains(q));
    assert(b2.apps == with_entry(b1.apps, node_id, app1));
    assert(routes_after(b, n1) =~= Seq::<(u32, AppRole)>::empty());
    assert(note_taken(b1, n2.last()).1 is None);
    assert(routes_after(b, n2) =~= Seq::<(u32, AppRole)>::empty());
    assert(app2.port_ids.len() == 2);
    assert(note_taken(b2, n3.last()).1 == Some((node_id, remembered_role(b, name))));
    assert(routes_after(b, n3) =~= seq![(node_id, remembered_role(b, name))]);
    assert(n2 =~= seq![
        Note::NodeAdded { node_id, name },
        Note::PortAdded { port_id: p, node_id },
    ]);
    assert(n3 =~= seq![
        Note::NodeAdded { node_id, name },
        Note::PortAdded { port_id: p, node_id },
        Note::PortAdded { port_id: q, node_id },
    ]);
}

/// An entry under the app's own id, with no port listed twice.
pub open spec fn entry_ok(e: (u32, AppView)) -> bool {
    e.0 == e.1.node_id && e.1.port_ids.no_duplicates()
}

/// A board on which no app stands twice, each app stands under its own id, and no app lists a
/// port twice.
pub open spec fn board_ok(b: Board) -> bool {
    &&& distinct(b.apps)
    &&& forall|i: int| 0 <= i < b.apps.len() ==> entry_ok(#[trigger] b.apps[i])
}

/// Every message and every role leave the board in order.
pub proof fn board_stays_ok(b: Board, note: Note, node: u32, role: AppRole)
    requires
        board_ok(b),
    ensures
        board_ok(note_taken(b, note).0),
        board_ok(role_given(b, node, role)),
{
    match note {
        Note::NodeAdded { node_id, name } => {
            lemma_lookup_absent(b.apps, node_id);
        },
        Note::NodeRemoved { node_id } => {
            lemma_filter_distinct(b.apps, other_than(node_id));
            let s = without(b.apps, node_id);
            assert forall|i: int| 0 <= i < s.len() implies entry_ok(#[trigger] s[i]) by {
                b.apps.lemma_filter_contains_rev(other_than(node_id), s[i]);
            }
        },
        Note::PortAdded { port_id, node_id } => {
            if lookup(b.apps, node_id) is Some {
                let app = lookup(b.apps, node_id)->0;
                lemma_lookup_absent(b.apps, node_id);
                assert(entry_ok((node_id, app)));
                let app1 = app_with_port(app, port_id);
                distinct_kept(b.apps, node_id, app1);
                assert(entry_ok((node_id, app1)));
            }
        },
        Note::PortRemoved { port_id } => {
            assert forall|i: int| 0 <= i < b.apps.len() implies entry_ok(
                #[trigger] dropping_port(port_id)(b.apps[i]),
            ) by {
                lemma_filter_no_duplicates(b.apps[i].1.port_ids, port_other_than(port_id));
            }
        },
        Note::FilterReady => {},
        Note::FilterState(s) => {},
    }
    if lookup(b.apps, node) is Some {
        let app = lookup(b.apps, node)->0;
        lemma_lookup_absent(b.apps, node);
        assert(entry_ok((node, app)));
        distinct_kept(b.apps, node, AppView { role, ..app });
    }
}

proof fn lemma_filter_no_duplicates(s: Seq<u32>, p: spec_fn(u32) -> bool)
    requires
        s.no_duplicates(),
    ensures
        s.filter(p).no_duplicates(),
    decreases s.len(),
{
    reveal(Seq::filter);
    if s.len() > 0 {
        let t = s.drop_last();
        lemma_filter_no_duplicates(t, p);
        let f = t.filter(p);
        assert forall|i: int| 0 <= i < f.len() implies #[trigger] f[i] != s.last() by {
            t.lemma_filter_contains_rev(p, f[i]);
            let j = choose|j: int| 0 <= j < t.len() && t[j] == f[i];
            assert(s[j] == f[i]);
        }
    }
}

/// The window shows exactly the apps with ports, and no app stands behind one that comes after
/// it by name.
pub proof fn apps_are_shown_by_name(apps: Seq<(u32, AppView)>, ids: Seq<u32>, k: int, m: int)
    requires
        is_display_order(apps, ids),
        distinct(apps),
        0 <= k < m < ids.len(),
        apps.len() <= usize::MAX,
    ensures
        lookup(apps, ids[k]) matches Some(first) && lookup(apps, ids[m]) matches Some(second)
            && first.port_ids.len() > 0 && second.port_ids.len() > 0 && !text_before(
            second.name,
            first.name,
        ),
        forall|j: int|
            0 <= j < apps.len() && (#[trigger] apps[j]).1.port_ids.len() > 0 ==> ids.contains(
                apps[j].0,
            ),
{
    let rows = choose|rows: Seq<usize>| #[trigger] shown_by(apps, rows, ids);
    let a = rows[k] as int;
    let b = rows[m] as int;
    assert(has_ports(apps[rows[k] as int]) && has_ports(apps[rows[m] as int]));
    lemma_lookup_at(apps, a);
    lemma_lookup_at(apps, b);
    assert(shown_before(apps, rows[k], rows[m]));
    text_order_is_total(apps[a].1.name, apps[b].1.name);
    assert forall|j: int|
        0 <= j < apps.len() && (#[trigger] apps[j]).1.port_ids.len() > 0 implies ids.contains(
        apps[j].0,
    ) by {
        assert(has_ports(apps[j]));
        assert(rows.contains(j as usize));
        let r = choose|r: int| 0 <= r < rows.len() && rows[r] == j as usize;
        assert(ids[r] == apps[rows[r] as int].0);
    }
}

/// An app that appears takes the role that its name was given last, none where it was given
/// none, and begins without ports; an app that is known already stays as it is.
pub proof fn new_apps_take_their_remembered_role(b: Board, node_id: u32, name: Seq<char>)
    ensures
        ({
            let (after, route) = note_taken(b, Note::NodeAdded { node_id, name });
            &&& route is None
            &&& lookup(b.apps, node_id) is Some ==> after == b
            &&& lookup(b.apps, node_id) is None ==> {
                &&& lookup(after.apps, node_id) matches Some(app) && app.name == name
                    && app.node_id == node_id && app.port_ids.len() == 0 && (
                b.remembered_roles.contains_key(name) ==> app.role == b.remembered_roles[name])
                    && (!b.remembered_roles.contains_key(name) ==> app.role
                    == AppRole::Unassigned)
            }
            &&& after.remembered_roles == b.remembered_roles
        }),
{
    if lookup(b.apps, node_id) is None {
        let app = AppView {
            node_id,
            name,
            role: remembered_role(b, name),
            port_ids: Seq::empty(),
        };
        lookup_with_entry(b.apps, node_id, app, node_id);
    }
}

} // verus!
