//! Nodes and links of the audio graph, and the events that report on them.

use vstd::prelude::*;
use std::sync::Arc;
use crate::level::Level;
use crate::maps;
use crate::maps::TextMap;
use crate::number;
use crate::text;

verus! {

// ── Nodes ────────────────────────────────────────────────────────────────────

/// Snapshot of a single PipeWire node we care about.
#[derive(Debug)]
pub struct AudioNode {
    pub id: u32,
    pub media_class: Option<String>,
    pub node_name: Option<String>,
    pub node_description: Option<String>,
    pub node_nick: Option<String>,
    pub application_name: Option<String>,
    pub application_process_id: Option<u32>,
    pub application_process_binary: Option<String>,
    pub media_name: Option<String>,
    pub client_id: Option<u32>,
    pub device_id: Option<u32>,
    pub serial: Option<u64>,
    pub state: NodeState,
    pub n_input_ports: u32,
    pub n_output_ports: u32,
    /// The volume, once it has been read.
    pub volume: Option<Level>,
    /// Whether the node is muted, once that has been read.
    pub mute: Option<bool>,
    /// Raw key-value properties for anything not covered above.
    pub extra_props: TextMap<String>,
}

#[derive(Debug, PartialEq, Eq)]
pub enum NodeState {
    Creating,
    Suspended,
    Idle,
    Running,
    Error(String),
}

/// What a node state says, over character sequences.
#[verifier::ext_equal]
pub enum StateView {
    Creating,
    Suspended,
    Idle,
    Running,
    Error(Seq<char>),
}

impl View for NodeState {
    type V = StateView;

    open spec fn view(&self) -> StateView {
        match *self {
            NodeState::Creating => StateView::Creating,
            NodeState::Suspended => StateView::Suspended,
            NodeState::Idle => StateView::Idle,
            NodeState::Running => StateView::Running,
            NodeState::Error(e) => StateView::Error(e@),
        }
    }
}

/// The words for a node state.
pub open spec fn state_text(s: StateView) -> Seq<char> {
    match s {
        StateView::Creating => "creating"@,
        StateView::Suspended => "suspended"@,
        StateView::Idle => "idle"@,
        StateView::Running => "running"@,
        StateView::Error(e) => "error: "@ + e,
    }
}

impl NodeState {
    /// The state in words.
    pub fn to_text(&self) -> (r: String)
        ensures
            r@ == state_text(self@),
    {
        match self {
            NodeState::Creating => "creating".to_owned(),
            NodeState::Suspended => "suspended".to_owned(),
            NodeState::Idle => "idle".to_owned(),
            NodeState::Running => "running".to_owned(),
            NodeState::Error(e) => {
                let mut r = "error: ".to_owned();
                r.append(e.as_str());
                r
            },
        }
    }
}

impl Clone for NodeState {
    fn clone(&self) -> (r: NodeState)
        ensures
            r == *self,
    {
        match self {
            NodeState::Creating => NodeState::Creating,
            NodeState::Suspended => NodeState::Suspended,
            NodeState::Idle => NodeState::Idle,
            NodeState::Running => NodeState::Running,
            NodeState::Error(e) => NodeState::Error(e.clone()),
        }
    }
}

/// A kind of node, derived from `media.class`.
#[derive(Debug, Clone, PartialEq, Eq)]
pub enum NodeKind {
    Sink,
    Source,
    StreamOutput,
    StreamInput,
    Duplex,
    Other(String),
}

/// What a node kind says, over character sequences.
#[verifier::ext_equal]
pub enum KindView {
    Sink,
    Source,
    StreamOutput,
    StreamInput,
    Duplex,
    Other(Seq<char>),
}

impl View for NodeKind {
    type V = KindView;

    open spec fn view(&self) -> KindView {
        match *self {
            NodeKind::Sink => KindView::Sink,
            NodeKind::Source => KindView::Source,
            NodeKind::StreamOutput => KindView::StreamOutput,
            NodeKind::StreamInput => KindView::StreamInput,
            NodeKind::Duplex => KindView::Duplex,
            NodeKind::Other(c) => KindView::Other(c@),
        }
    }
}

/// The kind of node that a media class stands for.
pub open spec fn kind_of_class(class: Seq<char>) -> KindView {
    if class == "Audio/Sink"@ {
        KindView::Sink
    } else if class == "Audio/Source"@ {
        KindView::Source
    } else if class == "Stream/Output/Audio"@ {
        KindView::StreamOutput
    } else if class == "Stream/Input/Audio"@ {
        KindView::StreamInput
    } else if class == "Audio/Duplex"@ {
        KindView::Duplex
    } else {
        KindView::Other(class)
    }
}

impl NodeKind {
    pub fn from_media_class(class: &str) -> (r: NodeKind)
        ensures
            r@ == kind_of_class(class@),
    {
        if text::same_text(class, "Audio/Sink") {
            NodeKind::Sink
        } else if text::same_text(class, "Audio/Source") {
            NodeKind::Source
        } else if text::same_text(class, "Stream/Output/Audio") {
            NodeKind::StreamOutput
        } else if text::same_text(class, "Stream/Input/Audio") {
            NodeKind::StreamInput
        } else if text::same_text(class, "Audio/Duplex") {
            NodeKind::Duplex
        } else {
            NodeKind::Other(class.to_owned())
        }
    }
}

/// What a node says, over character sequences.
#[verifier::ext_equal]
pub struct NodeView {
    pub id: u32,
    pub media_class: Option<Seq<char>>,
    pub node_name: Option<Seq<char>>,
    pub node_description: Option<Seq<char>>,
    pub node_nick: Option<Seq<char>>,
    pub application_name: Option<Seq<char>>,
    pub application_process_id: Option<u32>,
    pub application_process_binary: Option<Seq<char>>,
    pub media_name: Option<Seq<char>>,
    pub client_id: Option<u32>,
    pub device_id: Option<u32>,
    pub serial: Option<u64>,
    pub state: StateView,
    pub n_input_ports: u32,
    pub n_output_ports: u32,
    pub volume: Option<Level>,
    pub mute: Option<bool>,
    pub extra_props: Map<Seq<char>, Seq<char>>,
}

impl View for AudioNode {
    type V = NodeView;

    open spec fn view(&self) -> NodeView {
        NodeView {
            id: self.id,
            media_class: text::opt_text(self.media_class),
            node_name: text::opt_text(self.node_name),
            node_description: text::opt_text(self.node_description),
            node_nick: text::opt_text(self.node_nick),
            application_name: text::opt_text(self.application_name),
            application_process_id: self.application_process_id,
            application_process_binary: text::opt_text(self.application_process_binary),
            media_name: text::opt_text(self.media_name),
            client_id: self.client_id,
            device_id: self.device_id,
            serial: self.serial,
            state: self.state@,
            n_input_ports: self.n_input_ports,
            n_output_ports: self.n_output_ports,
            volume: self.volume,
            mute: self.mute,
            extra_props: maps::text_values(self.extra_props@),
        }
    }
}

impl Clone for AudioNode {
    fn clone(&self) -> (r: AudioNode)
        ensures
            r@ == self@,
    {
        let extra_props = self.extra_props.clone();
        proof {
            assert(maps::text_values(extra_props@) =~= maps::text_values(self.extra_props@)) by {
                assert forall|k: Seq<char>| extra_props@.contains_key(k) implies #[trigger]
                    extra_props@[k] == self.extra_props@[k] by {
                    assert(cloned::<String>(self.extra_props@[k], extra_props@[k]));
                }
            }
        }
        AudioNode {
            id: self.id,
            media_class: self.media_class.clone(),
            node_name: self.node_name.clone(),
            node_description: self.node_description.clone(),
            node_nick: self.node_nick.clone(),
            application_name: self.application_name.clone(),
            application_process_id: self.application_process_id,
            application_process_binary: self.application_process_binary.clone(),
            media_name: self.media_name.clone(),
            client_id: self.client_id,
            device_id: self.device_id,
            serial: self.serial,
            state: self.state.clone(),
            n_input_ports: self.n_input_ports,
            n_output_ports: self.n_output_ports,
            volume: self.volume,
            mute: self.mute,
            extra_props,
        }
    }
}

// ── Properties ───────────────────────────────────────────────────────────────

/// The keys and values of a list of properties.
pub open spec fn props_view(props: Seq<(String, String)>) -> Seq<(Seq<char>, Seq<char>)> {
    Seq::new(props.len(), |i: int| (props[i].0@, props[i].1@))
}

/// The value of `key`: where a key stands twice, the later value counts.
pub open spec fn prop(props: Seq<(Seq<char>, Seq<char>)>, key: Seq<char>) -> Option<Seq<char>>
    decreases props.len(),
{
    if props.len() == 0 {
        None
    } else if props.last().0 == key {
        Some(props.last().1)
    } else {
        prop(props.drop_last(), key)
    }
}

/// The value of `key` as a 32 bit number, where it is one.
pub open spec fn prop_u32(props: Seq<(Seq<char>, Seq<char>)>, key: Seq<char>) -> Option<u32> {
    match prop(props, key) {
        Some(v) => match number::parse_unsigned(v, u32::MAX as nat) {
            Some(n) => Some(n as u32),
            None => None,
        },
        None => None,
    }
}

/// The value of `key` as a 64 bit number, where it is one.
pub open spec fn prop_u64(props: Seq<(Seq<char>, Seq<char>)>, key: Seq<char>) -> Option<u64> {
    match prop(props, key) {
        Some(v) => match number::parse_unsigned(v, u64::MAX as nat) {
            Some(n) => Some(n as u64),
            None => None,
        },
        None => None,
    }
}

/// The keys that have a field of their own.
pub open spec fn has_field(key: Seq<char>) -> bool {
    ||| key == "media.class"@
    ||| key == "node.name"@
    ||| key == "node.description"@
    ||| key == "node.nick"@
    ||| key == "application.name"@
    ||| key == "application.process.id"@
    ||| key == "application.process.binary"@
    ||| key == "media.name"@
    ||| key == "client.id"@
    ||| key == "device.id"@
    ||| key == "object.serial"@
}

/// The properties without a field of their own.
pub open spec fn other_props(props: Seq<(Seq<char>, Seq<char>)>) -> Map<Seq<char>, Seq<char>> {
    Map::new(
        |k: Seq<char>| !has_field(k) && prop(props, k) is Some,
        |k: Seq<char>| prop(props, k)->0,
    )
}

/// The node that a list of properties describes, before anything else is known.
pub open spec fn node_described(id: u32, props: Seq<(Seq<char>, Seq<char>)>) -> NodeView {
    NodeView {
        id,
        media_class: prop(props, "media.class"@),
        node_name: prop(props, "node.name"@),
        node_description: prop(props, "node.description"@),
        node_nick: prop(props, "node.nick"@),
        application_name: prop(props, "application.name"@),
        application_process_id: prop_u32(props, "application.process.id"@),
        application_process_binary: prop(props, "application.process.binary"@),
        media_name: prop(props, "media.name"@),
        client_id: prop_u32(props, "client.id"@),
        device_id: prop_u32(props, "device.id"@),
        serial: prop_u64(props, "object.serial"@),
        state: StateView::Creating,
        n_input_ports: 0,
        n_output_ports: 0,
        volume: None,
        mute: None,
        extra_props: other_props(props),
    }
}

fn get(props: &Vec<(String, String)>, key: &str) -> (r: Option<String>)
    ensures
        text::opt_text(r) == prop(props_view(props@), key@),
{
    let ghost all = props_view(props@);
    let mut n: usize = props.len();
    assert(all.take(n as int) =~= all);
    while n > 0
        invariant
            n <= props@.len(),
            all == props_view(props@),
            prop(all.take(n as int), key@) == prop(all, key@),
        decreases n,
    {
        let ghost t = all.take(n as int);
        assert(t.last() == all[n - 1]);
        assert(t.drop_last() =~= all.take(n - 1));
        if text::same_text(props[n - 1].0.as_str(), key) {
            return Some(props[n - 1].1.clone());
        }
        n -= 1;
    }
    None
}

fn get_u32(props: &Vec<(String, String)>, key: &str) -> (r: Option<u32>)
    ensures
        r == prop_u32(props_view(props@), key@),
{
    match get(props, key) {
        Some(v) => number::read_u32(text::chars_of(v.as_str()).as_slice()),
        None => None,
    }
}

fn get_u64(props: &Vec<(String, String)>, key: &str) -> (r: Option<u64>)
    ensures
        r == prop_u64(props_view(props@), key@),
{
    match get(props, key) {
        Some(v) => number::read_unsigned(text::chars_of(v.as_str()).as_slice(), u64::MAX),
        None => None,
    }
}

fn key_has_field(key: &str) -> (r: bool)
    ensures
        r == has_field(key@),
{
    text::same_text(key, "media.class") || text::same_text(key, "node.name") || text::same_text(
        key,
        "node.description",
    ) || text::same_text(key, "node.nick") || text::same_text(key, "application.name")
        || text::same_text(key, "application.process.id") || text::same_text(
        key,
        "application.process.binary",
    ) || text::same_text(key, "media.name") || text::same_text(key, "client.id")
        || text::same_text(key, "device.id") || text::same_text(key, "object.serial")
}

fn collect_other(props: &Vec<(String, String)>) -> (r: TextMap<String>)
    ensures
        maps::text_values(r@) == other_props(props_view(props@)),
{
    let ghost all = props_view(props@);
    let mut r: TextMap<String> = TextMap::new();
    assert(maps::text_values(r@) =~= other_props(all.take(0)));
    for i in 0..props.len()
        invariant
            all == props_view(props@),
            maps::text_values(r@) == other_props(all.take(i as int)),
    {
        let ghost before = r@;
        let ghost t = all.take(i + 1);
        proof {
            assert(t.last() == (props@[i as int].0@, props@[i as int].1@));
            assert(t.drop_last() =~= all.take(i as int));
        }
        if !key_has_field(props[i].0.as_str()) {
            r.insert(props[i].0.clone(), props[i].1.clone());
        }
        proof {
            let was = other_props(all.take(i as int));
            let x = maps::text_values(r@);
            let y = other_props(t);
            assert forall|k: Seq<char>|
                (#[trigger] x.dom().contains(k)) == y.dom().contains(k) && (x.dom().contains(k)
                    ==> x[k] == y[k]) by {
                assert(maps::text_values(before).dom().contains(k) == was.dom().contains(k));
                if was.dom().contains(k) {
                    assert(maps::text_values(before)[k] == was[k]);
                }
            }
            assert(x.dom() =~= y.dom());
            assert(x =~= y);
        }
    }
    assert(all.take(all.len() as int) =~= all);
    r
}

/// The name to show for a node: nick, description, name or id.
pub open spec fn shown_name(n: NodeView) -> Seq<char> {
    match n.node_nick {
        Some(s) => s,
        None => match n.node_description {
            Some(s) => s,
            None => match n.node_name {
                Some(s) => s,
                None => number::decimal(n.id as nat),
            },
        },
    }
}

/// Whether a media class is one of audio devices or streams.
pub open spec fn audio_class(class: Option<Seq<char>>) -> bool {
    match class {
        Some(c) => text::starts_with(c, "Audio"@) || text::starts_with(c, "Stream"@),
        None => false,
    }
}

impl AudioNode {
    /// Parse a PipeWire property dict into an AudioNode (initial state, no info yet).
    pub fn from_props(id: u32, props: &Vec<(String, String)>) -> (r: AudioNode)
        ensures
            r@ == node_described(id, props_view(props@)),
    {
        AudioNode {
            id,
            media_class: get(props, "media.class"),
            node_name: get(props, "node.name"),
            node_description: get(props, "node.description"),
            node_nick: get(props, "node.nick"),
            application_name: get(props, "application.name"),
            application_process_id: get_u32(props, "application.process.id"),
            application_process_binary: get(props, "application.process.binary"),
            media_name: get(props, "media.name"),
            client_id: get_u32(props, "client.id"),
            device_id: get_u32(props, "device.id"),
            serial: get_u64(props, "object.serial"),
            state: NodeState::Creating,
            n_input_ports: 0,
            n_output_ports: 0,
            volume: None,
            mute: None,
            extra_props: collect_other(props),
        }
    }

    pub fn kind(&self) -> (r: Option<NodeKind>)
        ensures
            match r {
                Some(k) => self@.media_class is Some && k@ == kind_of_class(self@.media_class->0),
                None => self@.media_class is None,
            },
    {
        match &self.media_class {
            Some(c) => Some(NodeKind::from_media_class(c.as_str())),
            None => None,
        }
    }

    pub fn is_audio(&self) -> (r: bool)
        ensures
            r == audio_class(self@.media_class),
    {
        match &self.media_class {
            Some(c) => {
                let cs = text::chars_of(c.as_str());
                text::begins_with(cs.as_slice(), "Audio") || text::begins_with(
                    cs.as_slice(),
                    "Stream",
                )
            },
            None => false,
        }
    }

    /// Human-readable display name: tries nick → description → name → id.
    pub fn display_name(&self) -> (r: String)
        ensures
            r@ == shown_name(self@),
    {
        if let Some(s) = &self.node_nick {
            return s.clone();
        }
        if let Some(s) = &self.node_description {
            return s.clone();
        }
        if let Some(s) = &self.node_name {
            return s.clone();
        }
        let mut r = String::new();
        number::push_decimal(&mut r, self.id as u64);
        assert(r@ =~= number::decimal(self.id as nat));
        r
    }
}

// ── Links ────────────────────────────────────────────────────────────────────

/// A directed connection between two PipeWire nodes.
/// `output_node` sends audio → `input_node` receives it.
#[derive(Debug, Clone, Copy)]
pub struct AudioLink {
    pub id: u32,
    /// Node that produces audio (e.g. a Stream/Output/Audio).
    pub output_node: u32,
    /// Node that consumes audio (e.g. an Audio/Sink).
    pub input_node: u32,
    pub active: bool,
}

// ── Events ───────────────────────────────────────────────────────────────────

/// Events broadcast from the PipeWire engine to any subscriber.
#[derive(Debug)]
pub enum PwEvent {
    NodeAdded(AudioNode),
    NodeUpdated(AudioNode),
    NodeRemoved { id: u32 },
    LinkAdded(AudioLink),
    LinkUpdated(AudioLink),
    LinkRemoved { id: u32 },
    /// Full graph state sent on WebSocket connect and after lag recovery.
    Snapshot {
        nodes: Vec<AudioNode>,
        links: Vec<AudioLink>,
        default_sink: Option<String>,
        default_source: Option<String>,
    },
    DefaultsChanged { sink_name: Option<String>, source_name: Option<String> },
    PlaybackStarted {
        playback_id: String,
        clip_id: String,
        target_node_name: Option<String>,
        duration_ms: u64,
    },
    PlaybackEnded { playback_id: String },
}

/// What an event says, over character sequences.
#[verifier::ext_equal]
pub enum EventView {
    NodeAdded(NodeView),
    NodeUpdated(NodeView),
    NodeRemoved { id: u32 },
    LinkAdded(AudioLink),
    LinkUpdated(AudioLink),
    LinkRemoved { id: u32 },
    Snapshot {
        nodes: Seq<NodeView>,
        links: Seq<AudioLink>,
        default_sink: Option<Seq<char>>,
        default_source: Option<Seq<char>>,
    },
    DefaultsChanged { sink_name: Option<Seq<char>>, source_name: Option<Seq<char>> },
    PlaybackStarted {
        playback_id: Seq<char>,
        clip_id: Seq<char>,
        target_node_name: Option<Seq<char>>,
        duration_ms: u64,
    },
    PlaybackEnded { playback_id: Seq<char> },
}

pub open spec fn nodes_view(v: Seq<AudioNode>) -> Seq<NodeView> {
    Seq::new(v.len(), |i: int| v[i]@)
}

impl View for PwEvent {
    type V = EventView;

    open spec fn view(&self) -> EventView {
        match *self {
            PwEvent::NodeAdded(n) => EventView::NodeAdded(n@),
            PwEvent::NodeUpdated(n) => EventView::NodeUpdated(n@),
            PwEvent::NodeRemoved { id } => EventView::NodeRemoved { id },
            PwEvent::LinkAdded(l) => EventView::LinkAdded(l),
            PwEvent::LinkUpdated(l) => EventView::LinkUpdated(l),
            PwEvent::LinkRemoved { id } => EventView::LinkRemoved { id },
            PwEvent::Snapshot { nodes, links, default_sink, default_source } => EventView::Snapshot {
                nodes: nodes_view(nodes@),
                links: links@,
                default_sink: text::opt_text(default_sink),
                default_source: text::opt_text(default_source),
            },
            PwEvent::DefaultsChanged { sink_name, source_name } => EventView::DefaultsChanged {
                sink_name: text::opt_text(sink_name),
                source_name: text::opt_text(source_name),
            },
            PwEvent::PlaybackStarted { playback_id, clip_id, target_node_name, duration_ms } =>
                EventView::PlaybackStarted {
                playback_id: playback_id@,
                clip_id: clip_id@,
                target_node_name: text::opt_text(target_node_name),
                duration_ms,
            },
            PwEvent::PlaybackEnded { playback_id } => EventView::PlaybackEnded {
                playback_id: playback_id@,
            },
        }
    }
}

impl Clone for PwEvent {
    fn clone(&self) -> (r: PwEvent)
        ensures
            r@ == self@,
    {
        match self {
            PwEvent::NodeAdded(n) => PwEvent::NodeAdded(n.clone()),
            PwEvent::NodeUpdated(n) => PwEvent::NodeUpdated(n.clone()),
            PwEvent::NodeRemoved { id } => PwEvent::NodeRemoved { id: *id },
            PwEvent::LinkAdded(l) => PwEvent::LinkAdded(*l),
            PwEvent::LinkUpdated(l) => PwEvent::LinkUpdated(*l),
            PwEvent::LinkRemoved { id } => PwEvent::LinkRemoved { id: *id },
            PwEvent::Snapshot { nodes, links, default_sink, default_source } => {
                let mut copies: Vec<AudioNode> = Vec::new();
                for i in 0..nodes.len()
                    invariant
                        copies@.len() == i,
                        forall|j: int| 0 <= j < i ==> (#[trigger] copies@[j])@ == nodes@[j]@,
                {
                    copies.push(nodes[i].clone());
                }
                assert(nodes_view(copies@) =~= nodes_view(nodes@));
                let mut link_copies: Vec<AudioLink> = Vec::new();
                for i in 0..links.len()
                    invariant
                        link_copies@ == links@.take(i as int),
                {
                    link_copies.push(links[i]);
                    assert(link_copies@ =~= links@.take(i + 1));
                }
                assert(link_copies@ =~= links@);
                PwEvent::Snapshot {
                    nodes: copies,
                    links: link_copies,
                    default_sink: default_sink.clone(),
                    default_source: default_source.clone(),
                }
            },
            PwEvent::DefaultsChanged { sink_name, source_name } => PwEvent::DefaultsChanged {
                sink_name: sink_name.clone(),
                source_name: source_name.clone(),
            },
            PwEvent::PlaybackStarted { playback_id, clip_id, target_node_name, duration_ms } =>
                PwEvent::PlaybackStarted {
                playback_id: playback_id.clone(),
                clip_id: clip_id.clone(),
                target_node_name: target_node_name.clone(),
                duration_ms: *duration_ms,
            },
            PwEvent::PlaybackEnded { playback_id } => PwEvent::PlaybackEnded {
                playback_id: playback_id.clone(),
            },
        }
    }
}

/// Commands sent from other threads into the PipeWire engine loop. `S` is a
/// sample, `K` what the threads share of the knobs of a playback.
pub enum EngineCmd<S, K> {
    Shutdown,
    PlayClip {
        playback_id: String,
        clip_id: String,
        /// Interleaved stereo samples.
        samples: Arc<Vec<S>>,
        sample_rate: u32,
        target_node_name: Option<String>,
        knobs: K,
    },
    StopPlayback { playback_id: String },
    PlaybackFinished { playback_id: String },
}

// ── What properties tell ─────────────────────────────────────────────────────

/// The last property `key` stands at `i`.
pub open spec fn last_at(props: Seq<(Seq<char>, Seq<char>)>, key: Seq<char>, i: int) -> bool {
    &&& 0 <= i < props.len() && props[i].0 == key
    &&& forall|j: int| i < j < props.len() ==> (#[trigger] props[j]).0 != key
}

/// There is no property `key`.
pub open spec fn untold(props: Seq<(Seq<char>, Seq<char>)>, key: Seq<char>) -> bool {
    forall|j: int| 0 <= j < props.len() ==> (#[trigger] props[j]).0 != key
}

/// Where a property is told several times the last value counts.
pub proof fn last_value_counts(props: Seq<(Seq<char>, Seq<char>)>, key: Seq<char>, i: int)
    ensures
        last_at(props, key, i) ==> prop(props, key) == Some(props[i].1),
        untold(props, key) <==> prop(props, key) is None,
    decreases props.len(),
{
    if props.len() > 0 {
        let front = props.drop_last();
        last_value_counts(front, key, i);
        if last_at(props, key, i) && i < front.len() {
            assert(props[props.len() - 1].0 != key);
            assert forall|j: int| i < j < front.len() implies (#[trigger] front[j]).0 != key by {
                assert(props[j] == front[j]);
            }
        }
        if untold(props, key) {
            assert(props[props.len() - 1].0 != key);
            assert forall|j: int| 0 <= j < front.len() implies (#[trigger] front[j]).0 != key by {
                assert(props[j] == front[j]);
            }
        }
        if untold(front, key) && props.last().0 != key {
            assert forall|j: int| 0 <= j < props.len() implies (#[trigger] props[j]).0 != key by {
                if j < front.len() {
                    assert(front[j] == props[j]);
                }
            }
        }
    }
}

/// Every field of a new node that holds a text is the last value of its own
/// property, and of no other.
pub proof fn node_fields_come_from_their_properties(
    id: u32,
    props: Seq<(Seq<char>, Seq<char>)>,
    i: int,
)
    ensures
        ({
            let n = node_described(id, props);
            &&& n.id == id
            &&& last_at(props, "media.class"@, i) ==> n.media_class == Some(props[i].1)
            &&& last_at(props, "node.name"@, i) ==> n.node_name == Some(props[i].1)
            &&& last_at(props, "node.description"@, i) ==> n.node_description == Some(props[i].1)
            &&& last_at(props, "node.nick"@, i) ==> n.node_nick == Some(props[i].1)
            &&& last_at(props, "application.name"@, i) ==> n.application_name == Some(props[i].1)
            &&& last_at(props, "application.process.binary"@, i) ==> n.application_process_binary
                == Some(props[i].1)
            &&& last_at(props, "media.name"@, i) ==> n.media_name == Some(props[i].1)
            &&& untold(props, "media.class"@) <==> n.media_class is None
            &&& untold(props, "node.name"@) <==> n.node_name is None
            &&& untold(props, "node.description"@) <==> n.node_description is None
            &&& untold(props, "node.nick"@) <==> n.node_nick is None
            &&& untold(props, "application.name"@) <==> n.application_name is None
            &&& untold(props, "application.process.binary"@) <==> n.application_process_binary
                is None
            &&& untold(props, "media.name"@) <==> n.media_name is None
            &&& n.state == StateView::Creating && n.n_input_ports == 0 && n.n_output_ports == 0
            &&& n.volume is None && n.mute is None
        }),
{
    last_value_counts(props, "media.class"@, i);
    last_value_counts(props, "node.name"@, i);
    last_value_counts(props, "node.description"@, i);
    last_value_counts(props, "node.nick"@, i);
    last_value_counts(props, "application.name"@, i);
    last_value_counts(props, "application.process.binary"@, i);
    last_value_counts(props, "media.name"@, i);
}

/// Every number of a new node is the last value of its own property, read in
/// decimal.
pub proof fn node_numbers_come_from_their_properties(
    id: u32,
    props: Seq<(Seq<char>, Seq<char>)>,
    i: int,
    n: nat,
)
    requires
        0 <= i < props.len() ==> props[i].1 == number::decimal(n),
        n <= u64::MAX,
    ensures
        ({
            let d = node_described(id, props);
            let small = if n <= u32::MAX {
                Some(n as u32)
            } else {
                None
            };
            &&& last_at(props, "application.process.id"@, i) ==> d.application_process_id == small
            &&& last_at(props, "client.id"@, i) ==> d.client_id == small
            &&& last_at(props, "device.id"@, i) ==> d.device_id == small
            &&& last_at(props, "object.serial"@, i) ==> d.serial == Some(n as u64)
            &&& untold(props, "application.process.id"@) ==> d.application_process_id is None
            &&& untold(props, "client.id"@) ==> d.client_id is None
            &&& untold(props, "device.id"@) ==> d.device_id is None
            &&& untold(props, "object.serial"@) ==> d.serial is None
        }),
{
    last_value_counts(props, "application.process.id"@, i);
    last_value_counts(props, "client.id"@, i);
    last_value_counts(props, "device.id"@, i);
    last_value_counts(props, "object.serial"@, i);
    if n <= u32::MAX {
        number::decimal_round_trip(n, u32::MAX as nat);
    } else {
        number::large_decimal_is_not_read(n, u32::MAX as nat);
    }
    number::decimal_round_trip(n, u64::MAX as nat);
}

/// A property without a field of its own is kept with its last value, and one that
/// has a field is kept there alone.
pub proof fn other_properties_are_kept(
    id: u32,
    props: Seq<(Seq<char>, Seq<char>)>,
    key: Seq<char>,
    i: int,
)
    ensures
        ({
            let e = node_described(id, props).extra_props;
            let own = key == "media.class"@ || key == "node.name"@ || key == "node.description"@
                || key == "node.nick"@ || key == "application.name"@ || key
                == "application.process.id"@ || key == "application.process.binary"@ || key
                == "media.name"@ || key == "client.id"@ || key == "device.id"@ || key
                == "object.serial"@;
            &&& own ==> !e.contains_key(key)
            &&& untold(props, key) ==> !e.contains_key(key)
            &&& !own && last_at(props, key, i) ==> e.contains_key(key) && e[key] == props[i].1
        }),
{
    last_value_counts(props, key, i);
}

/// A node is shown by its nick; without one by its description; without both by
/// its name; and without any of these by its number.
pub proof fn shown_name_is_the_first_known(n: NodeView)
    ensures
        n.node_nick matches Some(s) ==> shown_name(n) == s,
        n.node_nick is None ==> (n.node_description matches Some(s) ==> shown_name(n) == s),
        n.node_nick is None && n.node_description is None ==> (n.node_name matches Some(s)
            ==> shown_name(n) == s),
        n.node_nick is None && n.node_description is None && n.node_name is None
            ==> number::parse_unsigned(shown_name(n), u32::MAX as nat) == Some(n.id as nat),
{
    number::decimal_round_trip(n.id as nat, u32::MAX as nat);
}

/// A node is one of audio where its class begins with `Audio` or `Stream`.
pub proof fn audio_classes_begin_so(rest: Seq<char>, class: Seq<char>)
    ensures
        audio_class(Some("Audio"@ + rest)),
        audio_class(Some("Stream"@ + rest)),
        !audio_class(None),
        audio_class(Some(class)) ==> class.len() >= 5 && (class[0] == 'A' && class[1] == 'u'
            && class[2] == 'd' && class[3] == 'i' && class[4] == 'o' || class.len() >= 6
            && class[0] == 'S' && class[1] == 't' && class[2] == 'r' && class[3] == 'e' && class[4]
            == 'a' && class[5] == 'm'),
{
    reveal_strlit("Audio");
    reveal_strlit("Stream");
    assert(("Audio"@ + rest).take(5) =~= "Audio"@);
    assert(("Stream"@ + rest).take(6) =~= "Stream"@);
    if text::starts_with(class, "Audio"@) {
        let h = class.take(5);
        assert(h[0] == 'A' && h[1] == 'u' && h[2] == 'd' && h[3] == 'i' && h[4] == 'o');
    }
    if text::starts_with(class, "Stream"@) {
        let h = class.take(6);
        assert(h[0] == 'S' && h[1] == 't' && h[2] == 'r' && h[3] == 'e' && h[4] == 'a' && h[5]
            == 'm');
    }
}

/// The class that a kind of node is named by.
pub open spec fn class_of_kind(k: KindView) -> Seq<char> {
    match k {
        KindView::Sink => "Audio/Sink"@,
        KindView::Source => "Audio/Source"@,
        KindView::StreamOutput => "Stream/Output/Audio"@,
        KindView::StreamInput => "Stream/Input/Audio"@,
        KindView::Duplex => "Audio/Duplex"@,
        KindView::Other(c) => c,
    }
}

/// A kind tells the class that it was read from, and a class that has a kind of its
/// own is read as that kind.
pub proof fn kinds_and_classes_agree(class: Seq<char>, k: KindView)
    ensures
        class_of_kind(kind_of_class(class)) == class,
        k !is Other ==> kind_of_class(class_of_kind(k)) == k,
{
    reveal_strlit("Audio/Sink");
    reveal_strlit("Audio/Source");
    reveal_strlit("Stream/Output/Audio");
    reveal_strlit("Stream/Input/Audio");
    reveal_strlit("Audio/Duplex");
    assert("Audio/Sink"@.len() == 10 && "Audio/Source"@.len() == 12);
    assert("Stream/Output/Audio"@.len() == 19 && "Stream/Input/Audio"@.len() == 18);
    assert("Audio/Duplex"@.len() == 12 && "Audio/Duplex"@[6] == 'D' && "Audio/Source"@[6] == 'S');
}

/// A node says what its fields hold, each for itself.
pub proof fn nodes_say_their_fields(n: AudioNode, key: Seq<char>)
    ensures
        n@.id == n.id && n@.client_id == n.client_id && n@.device_id == n.device_id,
        n@.serial == n.serial && n@.application_process_id == n.application_process_id,
        n@.n_input_ports == n.n_input_ports && n@.n_output_ports == n.n_output_ports,
        n@.volume == n.volume && n@.mute == n.mute,
        n.media_class matches Some(s) ==> n@.media_class == Some(s@),
        n.node_name matches Some(s) ==> n@.node_name == Some(s@),
        n.node_description matches Some(s) ==> n@.node_description == Some(s@),
        n.node_nick matches Some(s) ==> n@.node_nick == Some(s@),
        n.application_name matches Some(s) ==> n@.application_name == Some(s@),
        n.application_process_binary matches Some(s) ==> n@.application_process_binary == Some(s@),
        n.media_name matches Some(s) ==> n@.media_name == Some(s@),
        n.state is Creating <==> n@.state is Creating,
        n.state is Suspended <==> n@.state is Suspended,
        n.state is Idle <==> n@.state is Idle,
        n.state is Running <==> n@.state is Running,
        n.state matches NodeState::Error(e) ==> n@.state == StateView::Error(e@),
        n@.extra_props.contains_key(key) == n.extra_props@.contains_key(key),
        n.extra_props@.contains_key(key) ==> n@.extra_props[key] == n.extra_props@[key]@,
{
}

/// The words tell the states of a node apart, and those for an error hold what it is.
pub proof fn states_are_told_apart(e: Seq<char>)
    ensures
        state_text(StateView::Creating) == "creating"@,
        state_text(StateView::Suspended) == "suspended"@,
        state_text(StateView::Idle) == "idle"@,
        state_text(StateView::Running) == "running"@,
        text::strip_prefix(state_text(StateView::Error(e)), "error: "@) == Some(e),
{
    text::prefixes_come_off(e, "error: "@, e);
}

/// A property that should be a number and is none gives none.
pub proof fn other_texts_are_no_numbers(id: u32, props: Seq<(Seq<char>, Seq<char>)>, i: int)
    requires
        0 <= i < props.len(),
        number::parse_unsigned(props[i].1, u64::MAX as nat) is None,
    ensures
        last_at(props, "application.process.id"@, i) ==> node_described(
            id,
            props,
        ).application_process_id is None,
        last_at(props, "client.id"@, i) ==> node_described(id, props).client_id is None,
        last_at(props, "device.id"@, i) ==> node_described(id, props).device_id is None,
        last_at(props, "object.serial"@, i) ==> node_described(id, props).serial is None,
{
    last_value_counts(props, "application.process.id"@, i);
    last_value_counts(props, "client.id"@, i);
    last_value_counts(props, "device.id"@, i);
    last_value_counts(props, "object.serial"@, i);
}

/// A kind of node says what it is.
pub proof fn kinds_say_what_they_are(k: NodeKind)
    ensures
        k is Sink <==> k@ is Sink,
        k is Source <==> k@ is Source,
        k is StreamOutput <==> k@ is StreamOutput,
        k is StreamInput <==> k@ is StreamInput,
        k is Duplex <==> k@ is Duplex,
        k matches NodeKind::Other(c) ==> k@ == KindView::Other(c@),
{
}

/// An event says what it holds, under its own name.
pub proof fn events_say_what_they_hold(e: PwEvent)
    ensures
        e matches PwEvent::NodeAdded(n) ==> e@ == EventView::NodeAdded(n@),
        e matches PwEvent::NodeUpdated(n) ==> e@ == EventView::NodeUpdated(n@),
        e matches PwEvent::NodeRemoved { id } ==> e@ == (EventView::NodeRemoved { id }),
        e matches PwEvent::LinkAdded(l) ==> e@ == EventView::LinkAdded(l),
        e matches PwEvent::LinkUpdated(l) ==> e@ == EventView::LinkUpdated(l),
        e matches PwEvent::LinkRemoved { id } ==> e@ == (EventView::LinkRemoved { id }),
        e matches PwEvent::Snapshot { nodes, links, default_sink, default_source } ==> e@ == (
        EventView::Snapshot {
            nodes: nodes_view(nodes@),
            links: links@,
            default_sink: text::opt_text(default_sink),
            default_source: text::opt_text(default_source),
        }),
        e matches PwEvent::DefaultsChanged { sink_name, source_name } ==> e@ == (
        EventView::DefaultsChanged {
            sink_name: text::opt_text(sink_name),
            source_name: text::opt_text(source_name),
        }),
        e matches PwEvent::PlaybackEnded { playback_id } ==> e@ == (EventView::PlaybackEnded {
            playback_id: playback_id@,
        }),
{
}

/// Lists of properties and of nodes say what they hold, in their order.
pub proof fn lists_say_what_they_hold(
    props: Seq<(String, String)>,
    nodes: Seq<AudioNode>,
    i: int,
)
    ensures
        props_view(props).len() == props.len() && nodes_view(nodes).len() == nodes.len(),
        0 <= i < props.len() ==> props_view(props)[i].0 == props[i].0@ && props_view(props)[i].1
            == props[i].1@,
        0 <= i < nodes.len() ==> nodes_view(nodes)[i] == nodes[i]@,
{
}

} // verus!
