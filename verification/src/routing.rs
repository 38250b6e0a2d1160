//! Routing the cassette player through the tape simulator of the audio
//! server: the decisions taken on each port that the server announces.
//!
//! The server's events and the creation of the link are the program's I/O;
//! here is what is learnt from each port, and when a link is asked for.
use vstd::prelude::*;

verus! {

/// The name of the tape simulator's input port.
pub open spec fn tape_in_name() -> Seq<char> {
    "Tape Simulator In #1"@
}

/// The name of the tape simulator's output port.
pub open spec fn tape_out_name() -> Seq<char> {
    "Tape Simulator Out #1"@
}

/// The object path of the cassette player's output port.
pub open spec fn cassette_path() -> Seq<char> {
    "alsa_playback.Cassette:output_0"@
}

/// The object path of the playback device's port.
pub open spec fn playback_path() -> Seq<char> {
    "alsa:pcm:1:front:1:playback:playback_0"@
}

/// What an announced port is to the routing.
#[derive(Clone, Copy, Debug, PartialEq, Eq, Structural)]
pub enum PortRole {
    TapeSimulatorIn,
    TapeSimulatorOut,
    CassetteOutput,
    Playback,
    Other,
}

/// The identifiers learnt so far: nodes and ports of the tape simulator, of
/// the playback device and of the cassette player.
#[derive(Clone, Copy, Debug, PartialEq, Eq, Structural)]
pub struct PortIds {
    pub tape_node: Option<u32>,
    pub tape_in_port: Option<u32>,
    pub tape_out_port: Option<u32>,
    pub playback_node: Option<u32>,
    pub playback_port: Option<u32>,
    pub cassette_node: Option<u32>,
    pub cassette_port: Option<u32>,
}

/// A link to create, from an output port to an input port.
#[derive(Clone, Copy, Debug, PartialEq, Eq, Structural)]
pub struct LinkRequest {
    pub output_node: u32,
    pub output_port: u32,
    pub input_node: u32,
    pub input_port: u32,
}

/// The role of a port with the given object path and name, and whether it
/// announces its port and node identifiers.  A port is only considered when
/// all four are there; its name is looked at before its path.
pub open spec fn role_of(
    path: Option<Seq<char>>,
    name: Option<Seq<char>>,
    has_port_id: bool,
    has_node_id: bool,
) -> PortRole {
    if !(path is Some && name is Some && has_port_id && has_node_id) {
        PortRole::Other
    } else if name->0 == tape_in_name() {
        PortRole::TapeSimulatorIn
    } else if name->0 == tape_out_name() {
        PortRole::TapeSimulatorOut
    } else if path->0 == cassette_path() {
        PortRole::CassetteOutput
    } else if path->0 == playback_path() {
        PortRole::Playback
    } else {
        PortRole::Other
    }
}

/// Which ports the routing acts on: only a port announcing its path, name,
/// port and node identifiers is considered.  It is the tape simulator's input
/// or output only when named "Tape Simulator In #1" or "Tape Simulator Out #1",
/// the cassette player's output only when its path is exactly
/// "alsa_playback.Cassette:output_0" (the other channels are left alone), and
/// the playback device only when its path is exactly
/// "alsa:pcm:1:front:1:playback:playback_0"; any other port is ignored.
pub proof fn lemma_port_roles(
    path: Option<Seq<char>>,
    name: Option<Seq<char>>,
    has_port_id: bool,
    has_node_id: bool,
)
    ensures
        ({
            let r = role_of(path, name, has_port_id, has_node_id);
            let complete = path is Some && name is Some && has_port_id && has_node_id;
            &&& r != PortRole::Other ==> complete
            &&& r == PortRole::TapeSimulatorIn ==> name->0 == "Tape Simulator In #1"@
            &&& r == PortRole::TapeSimulatorOut ==> name->0 == "Tape Simulator Out #1"@
            &&& r == PortRole::CassetteOutput ==> path->0 == "alsa_playback.Cassette:output_0"@
                && name->0 != "Tape Simulator In #1"@ && name->0 != "Tape Simulator Out #1"@
            &&& r == PortRole::Playback ==> path->0 == "alsa:pcm:1:front:1:playback:playback_0"@
                && name->0 != "Tape Simulator In #1"@ && name->0 != "Tape Simulator Out #1"@
            &&& (complete && name->0 == "Tape Simulator In #1"@) ==> r == PortRole::TapeSimulatorIn
            &&& (complete && path->0 == "alsa_playback.Cassette:output_0"@ && name->0
                != "Tape Simulator In #1"@ && name->0 != "Tape Simulator Out #1"@) ==> r
                == PortRole::CassetteOutput
            &&& (path is Some && name is Some && name->0 != "Tape Simulator In #1"@ && name->0
                != "Tape Simulator Out #1"@ && path->0 != "alsa_playback.Cassette:output_0"@
                && path->0 != "alsa:pcm:1:front:1:playback:playback_0"@) ==> r == PortRole::Other
        }),
{
}

/// A text taken by its view, when there is one.
pub open spec fn text_view(s: Option<String>) -> Option<Seq<char>> {
    match s {
        Some(t) => Some(t@),
        None => None,
    }
}

/// Whether `s` is there and reads `expected`.
fn is_text(s: &Option<String>, expected: &str) -> (res: bool)
    ensures
        res == (s is Some && s->0@ == expected@),
{
    match s {
        Some(t) => {
            let e = expected.to_owned();
            *t == e
        },
        None => false,
    }
}

impl PortIds {
    /// Nothing learnt yet.
    pub fn new() -> (res: Self)
        ensures
            res.tape_node is None && res.tape_in_port is None && res.tape_out_port is None,
            res.playback_node is None && res.playback_port is None,
            res.cassette_node is None && res.cassette_port is None,
    {
        PortIds {
            tape_node: None,
            tape_in_port: None,
            tape_out_port: None,
            playback_node: None,
            playback_port: None,
            cassette_node: None,
            cassette_port: None,
        }
    }
}

/// The role of an announced port (see `role_of`).
pub fn port_role(
    path: &Option<String>,
    name: &Option<String>,
    has_port_id: bool,
    has_node_id: bool,
) -> (res: PortRole)
    ensures
        res == role_of(text_view(*path), text_view(*name), has_port_id, has_node_id),
{
    if path.is_none() || name.is_none() || !has_port_id || !has_node_id {
        PortRole::Other
    } else if is_text(name, "Tape Simulator In #1") {
        PortRole::TapeSimulatorIn
    } else if is_text(name, "Tape Simulator Out #1") {
        PortRole::TapeSimulatorOut
    } else if is_text(path, "alsa_playback.Cassette:output_0") {
        PortRole::CassetteOutput
    } else if is_text(path, "alsa:pcm:1:front:1:playback:playback_0") {
        PortRole::Playback
    } else {
        PortRole::Other
    }
}

/// What is learnt from a port of the given role with node `node_id` and port
/// `port_id`, and the link to create:
/// - the tape simulator's ports give its node and its input or output port;
/// - the playback device's port gives its node and port;
/// - the cassette player's output gives its node and port, and asks for a
///   link from it to the tape simulator's input, which must be known by then;
/// - any other port changes nothing.
pub fn port_event(state: PortIds, role: PortRole, node_id: u32, port_id: u32) -> (res: (
    PortIds,
    Option<LinkRequest>,
))
    requires
        role == PortRole::CassetteOutput ==> state.tape_node is Some && state.tape_in_port is Some,
    ensures
        role == PortRole::TapeSimulatorIn ==> res == (
        PortIds { tape_node: Some(node_id), tape_in_port: Some(port_id), ..state },
        None::<LinkRequest>,
        ),
        role == PortRole::TapeSimulatorOut ==> res == (
        PortIds { tape_node: Some(node_id), tape_out_port: Some(port_id), ..state },
        None::<LinkRequest>,
        ),
        role == PortRole::Playback ==> res == (
        PortIds { playback_node: Some(node_id), playback_port: Some(port_id), ..state },
        None::<LinkRequest>,
        ),
        role == PortRole::CassetteOutput ==> res == (
        PortIds { cassette_node: Some(node_id), cassette_port: Some(port_id), ..state },
        Some(
            LinkRequest {
                output_node: node_id,
                output_port: port_id,
                input_node: state.tape_node->0,
                input_port: state.tape_in_port->0,
            },
        ),
        ),
        role == PortRole::Other ==> res == (state, None::<LinkRequest>),
{
    match role {
        PortRole::TapeSimulatorIn => (
            PortIds { tape_node: Some(node_id), tape_in_port: Some(port_id), ..state },
            None,
        ),
        PortRole::TapeSimulatorOut => (
            PortIds { tape_node: Some(node_id), tape_out_port: Some(port_id), ..state },
            None,
        ),
        PortRole::Playback => (
            PortIds { playback_node: Some(node_id), playback_port: Some(port_id), ..state },
            None,
        ),
        PortRole::CassetteOutput => {
            let input_node = state.tape_node.unwrap();
            let input_port = state.tape_in_port.unwrap();
            (
                PortIds { cassette_node: Some(node_id), cassette_port: Some(port_id), ..state },
                Some(
                    LinkRequest {
                        output_node: node_id,
                        output_port: port_id,
                        input_node,
                        input_port,
                    },
                ),
            )
        },
        PortRole::Other => (state, None),
    }
}

} // verus!
