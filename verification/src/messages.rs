//! What the window and the PipeWire thread tell each other.

use vstd::prelude::*;

verus! {

/// Role a user can assign to an audio app.
#[derive(Debug, Clone, Copy, PartialEq, Eq, Structural)]
pub enum AppRole {
    /// Plays straight to the sink.
    Unassigned,
    Music,
    Voice,
}

/// An audio app discovered in the PipeWire registry.
pub struct AudioApp {
    pub node_id: u32,
    pub name: String,
    pub role: AppRole,
    /// Output port ids belonging to this node.
    pub port_ids: Vec<u32>,
}

/// An audio app, by value.
pub struct AppView {
    pub node_id: u32,
    pub name: Seq<char>,
    pub role: AppRole,
    pub port_ids: Seq<u32>,
}

impl View for AudioApp {
    type V = AppView;

    open spec fn view(&self) -> AppView {
        AppView {
            node_id: self.node_id,
            name: self.name@,
            role: self.role,
            port_ids: self.port_ids@,
        }
    }
}

/// Window to PipeWire thread messages.
pub enum GuiToPw {
    SetRole { node_id: u32, role: AppRole },
    Quit,
}

/// PipeWire thread to window messages.
pub enum PwToGui {
    NodeAdded { node_id: u32, name: String },
    NodeRemoved { node_id: u32 },
    PortAdded { port_id: u32, node_id: u32 },
    PortRemoved { port_id: u32 },
    FilterReady,
    FilterState(String),
}

/// A message to the window, by value.
pub enum Note {
    NodeAdded { node_id: u32, name: Seq<char> },
    NodeRemoved { node_id: u32 },
    PortAdded { port_id: u32, node_id: u32 },
    PortRemoved { port_id: u32 },
    FilterReady,
    FilterState(Seq<char>),
}

impl View for PwToGui {
    type V = Note;

    open spec fn view(&self) -> Note {
        match self {
            PwToGui::NodeAdded { node_id, name } => Note::NodeAdded {
                node_id: *node_id,
                name: name@,
            },
            PwToGui::NodeRemoved { node_id } => Note::NodeRemoved { node_id: *node_id },
            PwToGui::PortAdded { port_id, node_id } => Note::PortAdded {
                port_id: *port_id,
                node_id: *node_id,
            },
            PwToGui::PortRemoved { port_id } => Note::PortRemoved { port_id: *port_id },
            PwToGui::FilterReady => Note::FilterReady,
            PwToGui::FilterState(s) => Note::FilterState(s@),
        }
    }
}

} // verus!
