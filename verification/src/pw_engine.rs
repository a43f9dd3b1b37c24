//! The engine: what it knows of the PipeWire graph, and what it tells its
//! subscribers of every change.

use vstd::prelude::*;
use std::collections::HashMap;
use std::sync::Arc;
use crate::level::Level;
use crate::maps;
use crate::maps::TextMap;
use crate::model;
use crate::model::{AudioLink, AudioNode, EngineCmd, NodeState, PwEvent};
use crate::number;
use crate::number::Number;
use crate::playback;
use crate::text;

verus! {

// ── The graph ────────────────────────────────────────────────────────────────

/// The graph as far as it is known.
pub struct PwEngine {
    pub nodes: HashMap<u32, AudioNode>,
    pub links: HashMap<u32, AudioLink>,
    /// The name of the node of the default sink.
    pub default_sink: Option<String>,
    /// The name of the node of the default source.
    pub default_source: Option<String>,
}

/// What the graph says, over character sequences.
#[verifier::ext_equal]
pub struct GraphView {
    pub nodes: Map<u32, model::NodeView>,
    pub links: Map<u32, AudioLink>,
    pub default_sink: Option<Seq<char>>,
    pub default_source: Option<Seq<char>>,
}

/// What the nodes of a map say.
pub open spec fn node_values(m: Map<u32, AudioNode>) -> Map<u32, model::NodeView> {
    Map::new(|k: u32| m.contains_key(k), |k: u32| m[k]@)
}

impl View for PwEngine {
    type V = GraphView;

    open spec fn view(&self) -> GraphView {
        GraphView {
            nodes: node_values(self.nodes@),
            links: self.links@,
            default_sink: text::opt_text(self.default_sink),
            default_source: text::opt_text(self.default_source),
        }
    }
}

impl GraphView {
    /// Nodes and links stand under their own ids.
    pub open spec fn wf(self) -> bool {
        &&& forall|k: u32| #[trigger] self.nodes.contains_key(k) ==> self.nodes[k].id == k
        &&& forall|k: u32| #[trigger] self.links.contains_key(k) ==> self.links[k].id == k
    }
}

/// The graph of which nothing is known.
pub open spec fn empty_graph() -> GraphView {
    GraphView {
        nodes: Map::empty(),
        links: Map::empty(),
        default_sink: None,
        default_source: None,
    }
}

// ── Following events ─────────────────────────────────────────────────────────

/// The node at `i` has the id `id`.
pub open spec fn node_at(v: Seq<model::NodeView>, id: u32, i: int) -> bool {
    0 <= i < v.len() && v[i].id == id
}

/// The link at `i` has the id `id`.
pub open spec fn link_at(v: Seq<AudioLink>, id: u32, i: int) -> bool {
    0 <= i < v.len() && v[i].id == id
}

/// The nodes of a list under their ids.
pub open spec fn nodes_by_id(v: Seq<model::NodeView>) -> Map<u32, model::NodeView> {
    Map::new(
        |id: u32| exists|i: int| node_at(v, id, i),
        |id: u32| v[choose|i: int| node_at(v, id, i)],
    )
}

/// The links of a list under their ids.
pub open spec fn links_by_id(v: Seq<AudioLink>) -> Map<u32, AudioLink> {
    Map::new(
        |id: u32| exists|i: int| link_at(v, id, i),
        |id: u32| v[choose|i: int| link_at(v, id, i)],
    )
}

/// The graph that a subscriber has after an event.
pub open spec fn follow(g: GraphView, e: model::EventView) -> GraphView {
    match e {
        model::EventView::NodeAdded(n) => GraphView { nodes: g.nodes.insert(n.id, n), ..g },
        model::EventView::NodeUpdated(n) => GraphView { nodes: g.nodes.insert(n.id, n), ..g },
        model::EventView::NodeRemoved { id } => GraphView { nodes: g.nodes.remove(id), ..g },
        model::EventView::LinkAdded(l) => GraphView { links: g.links.insert(l.id, l), ..g },
        model::EventView::LinkUpdated(l) => GraphView { links: g.links.insert(l.id, l), ..g },
        model::EventView::LinkRemoved { id } => GraphView { links: g.links.remove(id), ..g },
        model::EventView::Snapshot { nodes, links, default_sink, default_source } => GraphView {
            nodes: nodes_by_id(nodes),
            links: links_by_id(links),
            default_sink,
            default_source,
        },
        model::EventView::DefaultsChanged { sink_name, source_name } => GraphView {
            default_sink: sink_name,
            default_source: source_name,
            ..g
        },
        model::EventView::PlaybackStarted { .. } => g,
        model::EventView::PlaybackEnded { .. } => g,
    }
}

/// The graph that a subscriber has after one event or none.
pub open spec fn follow_opt(g: GraphView, e: Option<PwEvent>) -> GraphView {
    match e {
        Some(e) => follow(g, e@),
        None => g,
    }
}

/// The graph that a subscriber has after a row of events.
pub open spec fn follow_all(g: GraphView, es: Seq<model::EventView>) -> GraphView
    decreases es.len(),
{
    if es.len() == 0 {
        g
    } else {
        follow(follow_all(g, es.drop_last()), es.last())
    }
}

/// A row of events can be followed in parts.
pub proof fn following_in_parts(
    g: GraphView,
    a: Seq<model::EventView>,
    b: Seq<model::EventView>,
)
    ensures
        follow_all(g, a + b) == follow_all(follow_all(g, a), b),
    decreases b.len(),
{
    if b.len() == 0 {
        assert(a + b =~= a);
    } else {
        following_in_parts(g, a, b.drop_last());
        assert((a + b).drop_last() =~= a + b.drop_last());
    }
}

/// Whatever a subscriber had before, from a snapshot on it has the same graph
/// as every other: a client that lagged recovers.
pub proof fn snapshot_recovers(
    g: GraphView,
    h: GraphView,
    snapshot: model::EventView,
    later: Seq<model::EventView>,
)
    requires
        snapshot is Snapshot,
    ensures
        follow_all(g, seq![snapshot] + later) == follow_all(h, seq![snapshot] + later),
{
    following_in_parts(g, seq![snapshot], later);
    following_in_parts(h, seq![snapshot], later);
    let one = seq![snapshot];
    assert(one.drop_last() =~= Seq::<model::EventView>::empty());
    assert(follow_all(g, one) == follow(g, snapshot));
    assert(follow_all(h, one) == follow(h, snapshot));
}

// ── What changes a node ──────────────────────────────────────────────────────

/// What PipeWire tells of a node.
pub struct NodeInfo {
    pub id: u32,
    pub state: NodeState,
    pub n_input_ports: u32,
    pub n_output_ports: u32,
    pub props: Option<Vec<(String, String)>>,
}

/// The node after one of its properties has changed.
pub open spec fn with_prop(n: model::NodeView, key: Seq<char>, value: Seq<char>) -> model::NodeView {
    if key == "node.nick"@ {
        model::NodeView { node_nick: Some(value), ..n }
    } else if key == "node.description"@ {
        model::NodeView { node_description: Some(value), ..n }
    } else if key == "application.name"@ {
        model::NodeView { application_name: Some(value), ..n }
    } else if key == "media.name"@ {
        model::NodeView { media_name: Some(value), ..n }
    } else {
        model::NodeView { extra_props: n.extra_props.insert(key, value), ..n }
    }
}

/// The node after a row of its properties has changed.
pub open spec fn with_props(
    n: model::NodeView,
    props: Seq<(Seq<char>, Seq<char>)>,
) -> model::NodeView
    decreases props.len(),
{
    if props.len() == 0 {
        n
    } else {
        let p = props.last();
        with_prop(with_props(n, props.drop_last()), p.0, p.1)
    }
}

/// The node after what PipeWire told of it.
pub open spec fn informed(n: model::NodeView, info: NodeInfo) -> model::NodeView {
    let m = model::NodeView {
        state: info.state@,
        n_input_ports: info.n_input_ports,
        n_output_ports: info.n_output_ports,
        ..n
    };
    match info.props {
        Some(props) => with_props(m, model::props_view(props@)),
        None => m,
    }
}

proof fn lemma_with_props_id(n: model::NodeView, props: Seq<(Seq<char>, Seq<char>)>)
    ensures
        with_props(n, props).id == n.id,
    decreases props.len(),
{
    if props.len() > 0 {
        lemma_with_props_id(n, props.drop_last());
    }
}

fn set_prop(n: &mut AudioNode, key: &String, value: &String)
    ensures
        final(n)@ == with_prop(old(n)@, key@, value@),
{
    let k = key.as_str();
    if text::same_text(k, "node.nick") {
        n.node_nick = Some(value.clone());
    } else if text::same_text(k, "node.description") {
        n.node_description = Some(value.clone());
    } else if text::same_text(k, "application.name") {
        n.application_name = Some(value.clone());
    } else if text::same_text(k, "media.name") {
        n.media_name = Some(value.clone());
    } else {
        n.extra_props.insert(key.clone(), value.clone());
        assert(n@.extra_props =~= old(n)@.extra_props.insert(key@, value@));
    }
}

fn set_props(n: &mut AudioNode, props: &Vec<(String, String)>)
    ensures
        final(n)@ == with_props(old(n)@, model::props_view(props@)),
{
    let ghost all = model::props_view(props@);
    for i in 0..props.len()
        invariant
            all == model::props_view(props@),
            n@ == with_props(old(n)@, all.take(i as int)),
    {
        assert(all.take(i + 1).drop_last() =~= all.take(i as int));
        assert(all.take(i + 1).last() == (props@[i as int].0@, props@[i as int].1@));
        set_prop(n, &props[i].0, &props[i].1);
    }
    assert(all.take(all.len() as int) =~= all);
}

proof fn lemma_node_values_insert(m: Map<u32, AudioNode>, k: u32, n: AudioNode)
    ensures
        node_values(m.insert(k, n)) == node_values(m).insert(k, n@),
        node_values(m.remove(k)) == node_values(m).remove(k),
        node_values(m.remove(k).insert(k, n)) == node_values(m).insert(k, n@),
{
    assert(node_values(m.insert(k, n)) =~= node_values(m).insert(k, n@));
    assert(node_values(m.remove(k)) =~= node_values(m).remove(k));
    assert(node_values(m.remove(k).insert(k, n)) =~= node_values(m).insert(k, n@));
}

// ── Changes of the graph ─────────────────────────────────────────────────────

impl PwEngine {
    /// Nothing is known yet.
    pub fn new() -> (r: PwEngine)
        ensures
            r@ == empty_graph(),
            r@.wf(),
    {
        let r = PwEngine {
            nodes: HashMap::new(),
            links: HashMap::new(),
            default_sink: None,
            default_source: None,
        };
        assert(r@ =~= empty_graph());
        r
    }

    /// Wipes what is known from a previous connection, so that subscribers see a
    /// clean reset.
    pub fn reset(&mut self) -> (r: PwEvent)
        ensures
            final(self)@ == empty_graph(),
            final(self)@.wf(),
            r@ == (model::EventView::Snapshot {
                nodes: Seq::empty(),
                links: Seq::empty(),
                default_sink: None,
                default_source: None,
            }),
            final(self)@ == follow(old(self)@, r@),
    {
        self.nodes = HashMap::new();
        self.links = HashMap::new();
        self.default_sink = None;
        self.default_source = None;
        let e = PwEvent::Snapshot {
            nodes: Vec::new(),
            links: Vec::new(),
            default_sink: None,
            default_source: None,
        };
        proof {
            assert(self@ =~= empty_graph());
            assert(e@ =~= (model::EventView::Snapshot {
                nodes: Seq::empty(),
                links: Seq::empty(),
                default_sink: None,
                default_source: None,
            }));
            assert(nodes_by_id(Seq::empty()) =~= Map::empty());
            assert(links_by_id(Seq::empty()) =~= Map::empty());
        }
        e
    }

    /// A node has appeared. One without properties, or one that is not of audio,
    /// is passed over; any other enters the graph.
    pub fn node_appeared(&mut self, id: u32, props: Option<&Vec<(String, String)>>) -> (r: Option<
        PwEvent,
    >)
        requires
            old(self)@.wf(),
        ensures
            final(self)@.wf(),
            match r {
                Some(e) => props matches Some(p) && {
                    let n = model::node_described(id, model::props_view(p@));
                    model::audio_class(n.media_class) && e@ == model::EventView::NodeAdded(n)
                        && final(self)@ == (GraphView {
                        nodes: old(self)@.nodes.insert(id, n),
                        ..old(self)@
                    })
                },
                None => final(self)@ == old(self)@ && (props matches Some(p) ==> !model::audio_class(
                    model::node_described(id, model::props_view(p@)).media_class,
                )),
            },
            final(self)@ == follow_opt(old(self)@, r),
    {
        let props = match props {
            Some(p) => p,
            None => {
                return None;
            },
        };
        let n = AudioNode::from_props(id, props);
        if !n.is_audio() {
            return None;
        }
        let e = PwEvent::NodeAdded(n.clone());
        proof {
            lemma_node_values_insert(self.nodes@, id, n);
        }
        self.nodes.insert(id, n);
        Some(e)
    }

    /// PipeWire has told something of a node.
    pub fn node_informed(&mut self, info: NodeInfo) -> (r: Option<PwEvent>)
        requires
            old(self)@.wf(),
        ensures
            final(self)@.wf(),
            match r {
                Some(e) => old(self)@.nodes.contains_key(info.id) && {
                    let n = informed(old(self)@.nodes[info.id], info);
                    e@ == model::EventView::NodeUpdated(n) && final(self)@ == (GraphView {
                        nodes: old(self)@.nodes.insert(info.id, n),
                        ..old(self)@
                    })
                },
                None => !old(self)@.nodes.contains_key(info.id) && final(self)@ == old(self)@,
            },
            final(self)@ == follow_opt(old(self)@, r),
    {
        let ghost was = self.nodes@;
        match self.nodes.remove(&info.id) {
            Some(n) => {
                let mut n = n;
                let id = info.id;
                assert(old(self)@.nodes.contains_key(id));
                assert(old(self)@.nodes[id] == n@);
                n.state = info.state;
                n.n_input_ports = info.n_input_ports;
                n.n_output_ports = info.n_output_ports;
                let ghost m = n@;
                if let Some(props) = &info.props {
                    set_props(&mut n, props);
                    proof {
                        lemma_with_props_id(m, model::props_view(props@));
                    }
                }
                let e = PwEvent::NodeUpdated(n.clone());
                proof {
                    lemma_node_values_insert(was, id, n);
                }
                self.nodes.insert(id, n);
                Some(e)
            },
            None => {
                assert(was.remove(info.id) =~= was);
                None
            },
        }
    }

    /// The volume of a node has been read. Where it is what was known already,
    /// nothing is told.
    pub fn volume_read(&mut self, id: u32, volume: Level, muted: bool) -> (r: Option<PwEvent>)
        requires
            old(self)@.wf(),
        ensures
            final(self)@.wf(),
            match r {
                Some(e) => old(self)@.nodes.contains_key(id) && !knows_volume(
                    old(self)@.nodes[id],
                    volume,
                    muted,
                ) && {
                    let n = model::NodeView {
                        volume: Some(volume),
                        mute: Some(muted),
                        ..old(self)@.nodes[id]
                    };
                    e@ == model::EventView::NodeUpdated(n) && final(self)@ == (GraphView {
                        nodes: old(self)@.nodes.insert(id, n),
                        ..old(self)@
                    })
                },
                None => final(self)@ == old(self)@ && (old(self)@.nodes.contains_key(id)
                    ==> knows_volume(old(self)@.nodes[id], volume, muted)),
            },
            final(self)@ == follow_opt(old(self)@, r),
    {
        let ghost was = self.nodes@;
        let known = match self.nodes.get(&id) {
            Some(n) => {
                assert(old(self)@.nodes[id] == n@);
                let same_volume = match n.volume {
                    Some(v) => v.same(volume),
                    None => false,
                };
                same_volume && n.mute.is_some() && n.mute.unwrap() == muted
            },
            None => {
                return None;
            },
        };
        if known {
            return None;
        }
        match self.nodes.remove(&id) {
            Some(n) => {
                let mut n = n;
                n.volume = Some(volume);
                n.mute = Some(muted);
                let e = PwEvent::NodeUpdated(n.clone());
                proof {
                    lemma_node_values_insert(was, id, n);
                }
                self.nodes.insert(id, n);
                Some(e)
            },
            None => None,
        }
    }

    /// PipeWire has told something of a link.
    pub fn link_informed(&mut self, link: AudioLink) -> (r: PwEvent)
        requires
            old(self)@.wf(),
        ensures
            final(self)@.wf(),
            r@ == (if old(self)@.links.contains_key(link.id) {
                model::EventView::LinkUpdated(link)
            } else {
                model::EventView::LinkAdded(link)
            }),
            final(self)@ == (GraphView {
                links: old(self)@.links.insert(link.id, link),
                ..old(self)@
            }),
            final(self)@ == follow(old(self)@, r@),
    {
        let is_new = !self.links.contains_key(&link.id);
        self.links.insert(link.id, link);
        if is_new {
            PwEvent::LinkAdded(link)
        } else {
            PwEvent::LinkUpdated(link)
        }
    }

    /// An object has gone: a node or else a link, if it was known at all.
    pub fn removed(&mut self, id: u32) -> (r: Option<PwEvent>)
        requires
            old(self)@.wf(),
        ensures
            final(self)@.wf(),
            match r {
                Some(e) => if old(self)@.nodes.contains_key(id) {
                    e@ == (model::EventView::NodeRemoved { id }) && final(self)@ == (GraphView {
                        nodes: old(self)@.nodes.remove(id),
                        ..old(self)@
                    })
                } else {
                    old(self)@.links.contains_key(id) && e@ == (model::EventView::LinkRemoved {
                        id,
                    }) && final(self)@ == (GraphView {
                        links: old(self)@.links.remove(id),
                        ..old(self)@
                    })
                },
                None => !old(self)@.nodes.contains_key(id) && !old(self)@.links.contains_key(id)
                    && final(self)@ == old(self)@,
            },
            final(self)@ == follow_opt(old(self)@, r),
    {
        let ghost was = self.nodes@;
        match self.nodes.remove(&id) {
            Some(n) => {
                proof {
                    assert(old(self)@.nodes.contains_key(id));
                    lemma_node_values_insert(was, id, n);
                }
                Some(PwEvent::NodeRemoved { id })
            },
            None => {
                assert(was.remove(id) =~= was);
                assert(!old(self)@.nodes.contains_key(id));
                let ghost links = self.links@;
                match self.links.remove(&id) {
                    Some(_) => Some(PwEvent::LinkRemoved { id }),
                    None => {
                        assert(links.remove(id) =~= links);
                        None
                    },
                }
            },
        }
    }

    /// A key of the metadata on defaults has got the node name `name`. Only the
    /// keys of the default sink and source matter.
    pub fn default_named(&mut self, key: Option<&str>, name: Option<String>) -> (r: Option<PwEvent>)
        ensures
            old(self)@.wf() ==> final(self)@.wf(),
            match r {
                Some(e) => (key matches Some(k) && (k@ == "default.audio.sink"@ || k@
                    == "default.audio.source"@)) && final(self)@ == with_default(
                    old(self)@,
                    key->0@,
                    text::opt_text(name),
                ) && e@ == (model::EventView::DefaultsChanged {
                    sink_name: final(self)@.default_sink,
                    source_name: final(self)@.default_source,
                }),
                None => final(self)@ == old(self)@ && (key matches Some(k) ==> k@
                    != "default.audio.sink"@ && k@ != "default.audio.source"@),
            },
            final(self)@ == follow_opt(old(self)@, r),
    {
        let key = match key {
            Some(k) => k,
            None => {
                return None;
            },
        };
        if text::same_text(key, "default.audio.sink") {
            self.default_sink = name;
        } else if text::same_text(key, "default.audio.source") {
            self.default_source = name;
        } else {
            return None;
        }
        Some(
            PwEvent::DefaultsChanged {
                sink_name: self.default_sink.clone(),
                source_name: self.default_source.clone(),
            },
        )
    }

    /// A key of the metadata on defaults has got the given value: a JSON object
    /// like `{"name":"node.name"}`, or a bare node name.
    pub fn default_changed(&mut self, key: Option<&str>, value: Option<&str>) -> (r: Option<PwEvent>)
        ensures
            old(self)@.wf() ==> final(self)@.wf(),
            match r {
                Some(e) => (key matches Some(k) && (k@ == "default.audio.sink"@ || k@
                    == "default.audio.source"@)) && final(self)@ == with_default(
                    old(self)@,
                    key->0@,
                    node_named(text::opt_str(value)),
                ) && e@ == (model::EventView::DefaultsChanged {
                    sink_name: final(self)@.default_sink,
                    source_name: final(self)@.default_source,
                }),
                None => final(self)@ == old(self)@ && (key matches Some(k) ==> k@
                    != "default.audio.sink"@ && k@ != "default.audio.source"@),
            },
            r is Some && (value matches Some(v) && is_bare(v@)) ==> final(self)@ == with_default(
                old(self)@,
                key->0@,
                Some(value->0@),
            ),
            forall|name: Seq<char>|
                r is Some && is_plain(name) && text::opt_str(value) == Some(
                    #[trigger] json_object("name"@, name),
                ) ==> final(self)@ == with_default(old(self)@, key->0@, Some(name)),
            final(self)@ == follow_opt(old(self)@, r),
    {
        proof {
            reveal_strlit("name");
        }
        let name = match value {
            Some(v) => Some(name_in_value(v, json_string_member(v, "name"))),
            None => None,
        };
        self.default_named(key, name)
    }

    /// The whole graph as an event: whoever follows it has the graph.
    pub fn snapshot(&self) -> (r: PwEvent)
        requires
            self@.wf(),
        ensures
            r@ is Snapshot,
            forall|g: GraphView| #[trigger] follow(g, r@) == self@,
            r is Snapshot && ascending_nodes(r->Snapshot_nodes@) && ascending_links(
                r->Snapshot_links@,
            ),
    {
        let node_ids = maps::sorted_ids(&self.nodes);
        let ghost e = node_ids@;
        let mut nodes: Vec<AudioNode> = Vec::new();
        for i in 0..node_ids.len()
            invariant
                e == node_ids@,
                forall|k: u32| #[trigger] e.contains(k) <==> self.nodes@.contains_key(k),
                nodes@.len() == i,
                forall|j: int| 0 <= j < i ==> (#[trigger] nodes@[j])@ == self.nodes@[e[j]]@,
        {
            assert(e.contains(e[i as int]));
            if let Some(n) = self.nodes.get(&node_ids[i]) {
                nodes.push(n.clone());
            }
        }
        let link_ids = maps::sorted_ids(&self.links);
        let ghost f = link_ids@;
        let mut links: Vec<AudioLink> = Vec::new();
        for i in 0..link_ids.len()
            invariant
                f == link_ids@,
                forall|k: u32| #[trigger] f.contains(k) <==> self.links@.contains_key(k),
                links@.len() == i,
                forall|j: int| 0 <= j < i ==> #[trigger] links@[j] == self.links@[f[j]],
        {
            assert(f.contains(f[i as int]));
            if let Some(l) = self.links.get(&link_ids[i]) {
                links.push(*l);
            }
        }
        let r = PwEvent::Snapshot {
            nodes,
            links,
            default_sink: self.default_sink.clone(),
            default_source: self.default_source.clone(),
        };
        proof {
            let v = model::nodes_view(nodes@);
            assert forall|j: int| 0 <= j < v.len() implies (#[trigger] v[j])
                == self@.nodes[e[j]] && v[j].id == e[j] by {
                assert(v[j] == nodes@[j]@);
                assert(e.contains(e[j]));
                assert(self@.nodes.contains_key(e[j]));
            }
            assert forall|j: int| 0 <= j < links@.len() implies (#[trigger] links@[j]).id
                == f[j] by {
                assert(f.contains(f[j]));
                assert(self@.links.contains_key(f[j]));
            }
            let a = nodes_by_id(v);
            assert forall|id: u32|
                (#[trigger] a.dom().contains(id)) == self@.nodes.dom().contains(id) && (
                a.dom().contains(id) ==> a[id] == self@.nodes[id]) by {
                if a.dom().contains(id) {
                    let i = choose|i: int| node_at(v, id, i);
                    assert(node_at(v, id, i));
                    assert(e.contains(e[i]));
                }
                if self@.nodes.dom().contains(id) {
                    assert(e.contains(id));
                    assert(node_at(v, id, e.index_of(id)));
                }
            }
            assert(a.dom() =~= self@.nodes.dom());
            assert(a =~= self@.nodes);
            let b = links_by_id(links@);
            assert forall|id: u32|
                (#[trigger] b.dom().contains(id)) == self@.links.dom().contains(id) && (
                b.dom().contains(id) ==> b[id] == self@.links[id]) by {
                if b.dom().contains(id) {
                    let i = choose|i: int| link_at(links@, id, i);
                    assert(link_at(links@, id, i));
                    assert(f.contains(f[i]));
                }
                if self@.links.dom().contains(id) {
                    assert(f.contains(id));
                    assert(links@[f.index_of(id)].id == id);
                    assert(link_at(links@, id, f.index_of(id)));
                }
            }
            assert(b.dom() =~= self@.links.dom());
            assert(b =~= self@.links);
            assert forall|g: GraphView| #[trigger] follow(g, r@) == self@ by {
                assert(follow(g, r@) =~= self@);
            }
            assert forall|i: int, j: int| 0 <= i < j < nodes@.len() implies (
            #[trigger] nodes@[i]).id < (#[trigger] nodes@[j]).id by {
                assert(v[i] == nodes@[i]@ && v[j] == nodes@[j]@);
                assert(e[i] < e[j]);
            }
            assert forall|i: int, j: int| 0 <= i < j < links@.len() implies (
            #[trigger] links@[i]).id < (#[trigger] links@[j]).id by {
                assert(f[i] < f[j]);
            }
        }
        r
    }

    /// The known nodes, in the order of their ids.
    pub fn list_nodes(&self) -> (r: Vec<&AudioNode>)
        requires
            self@.wf(),
        ensures
            forall|i: int, j: int|
                0 <= i < j < r@.len() ==> (#[trigger] r@[i]).id < (#[trigger] r@[j]).id,
            forall|i: int|
                0 <= i < r@.len() ==> self@.nodes.contains_key((#[trigger] r@[i]).id)
                    && self@.nodes[r@[i].id] == r@[i]@,
            forall|id: u32| #[trigger]
                self@.nodes.contains_key(id) ==> exists|i: int|
                    0 <= i < r@.len() && (#[trigger] r@[i]).id == id,
    {
        let ids = maps::sorted_ids(&self.nodes);
        let ghost e = ids@;
        let mut r: Vec<&AudioNode> = Vec::new();
        for i in 0..ids.len()
            invariant
                e == ids@,
                forall|k: u32| #[trigger] e.contains(k) <==> self.nodes@.contains_key(k),
                r@.len() == i,
                forall|j: int| 0 <= j < i ==> *(#[trigger] r@[j]) == self.nodes@[e[j]],
        {
            assert(e.contains(e[i as int]));
            if let Some(n) = self.nodes.get(&ids[i]) {
                r.push(n);
            }
        }
        proof {
            assert forall|i: int| 0 <= i < r@.len() implies (#[trigger] r@[i]).id == e[i]
                && self@.nodes.contains_key(r@[i].id) && self@.nodes[r@[i].id] == r@[i]@ by {
                assert(e.contains(e[i]));
                assert(self@.nodes.contains_key(e[i]));
            }
            assert forall|i: int, j: int| 0 <= i < j < r@.len() implies (#[trigger] r@[i]).id < (
            #[trigger] r@[j]).id by {
                assert(e[i] < e[j]);
            }
            assert forall|id: u32| #[trigger] self@.nodes.contains_key(id) implies exists|i: int|
                0 <= i < r@.len() && (#[trigger] r@[i]).id == id by {
                assert(e.contains(id));
                assert(r@[e.index_of(id)].id == id);
            }
        }
        r
    }

    /// The name of the node `id`, where it is known.
    pub fn node_name(&self, id: u32) -> (r: Option<String>)
        ensures
            text::opt_text(r) == (if self@.nodes.contains_key(id) {
                self@.nodes[id].node_name
            } else {
                None
            }),
    {
        match self.nodes.get(&id) {
            Some(n) => n.node_name.clone(),
            None => None,
        }
    }
}

/// The nodes stand in ascending order of their ids.
pub open spec fn ascending_nodes(v: Seq<AudioNode>) -> bool {
    forall|i: int, j: int| 0 <= i < j < v.len() ==> (#[trigger] v[i]).id < (#[trigger] v[j]).id
}

/// The links stand in ascending order of their ids.
pub open spec fn ascending_links(v: Seq<AudioLink>) -> bool {
    forall|i: int, j: int| 0 <= i < j < v.len() ==> (#[trigger] v[i]).id < (#[trigger] v[j]).id
}

/// The node has the given volume and is muted or not as given.
pub open spec fn knows_volume(n: model::NodeView, volume: Level, muted: bool) -> bool {
    n.volume is Some && n.volume->0.equals(volume) && n.mute == Some(muted)
}

// ── Defaults ─────────────────────────────────────────────────────────────────

/// The graph after a default has been named.
pub open spec fn with_default(
    g: GraphView,
    key: Seq<char>,
    name: Option<Seq<char>>,
) -> GraphView {
    if key == "default.audio.sink"@ {
        GraphView { default_sink: name, ..g }
    } else {
        GraphView { default_source: name, ..g }
    }
}

/// What the member `key` of the JSON object `text` says, where `text` is a JSON
/// object with such a member and that is a string.
pub uninterp spec fn json_member(text: Seq<char>, key: Seq<char>) -> Option<Seq<char>>;

/// The first character of a text that can be a JSON object.
pub open spec fn may_open_object(c: char) -> bool {
    c == '{' || c == ' ' || c == '\t' || c == '\n' || c == '\r'
}

/// A text that cannot be a JSON object.
pub open spec fn is_bare(s: Seq<char>) -> bool {
    s.len() == 0 || !may_open_object(s[0])
}

/// A text that stands for itself between the quotes of a JSON string.
pub open spec fn is_plain(s: Seq<char>) -> bool {
    forall|i: int|
        0 <= i < s.len() ==> (#[trigger] s[i]) != '"' && s[i] != '\\' && s[i] as int >= 0x20
}

/// The JSON object with the one member `key`, the string `value`.
pub open spec fn json_object(key: Seq<char>, value: Seq<char>) -> Seq<char> {
    "{\""@ + key + "\":\""@ + value + "\"}"@
}

/// `serde_json::from_str`, `Value::get` and `Value::as_str`. The result is named
/// `json_member`, since the grammar of JSON takes pages to state. Of it the
/// contract claims that a text which neither is an object nor begins with white
/// space has no members, and that an object whose only member is a string without
/// escapes, under a key of small letters, gives that string.
#[verifier::external_body]
fn json_string_member(text: &str, key: &str) -> (r: Option<String>)
    ensures
        text::opt_text(r) == json_member(text@, key@),
        is_bare(text@) ==> r is None,
        forall|v: Seq<char>|
            is_plain(v) && (forall|i: int|
                0 <= i < key@.len() ==> text::is_ascii_lower(#[trigger] key@[i])) && text@
                == #[trigger] json_object(key@, v) ==> text::opt_text(r) == Some(v),
{
    let value: serde_json::Value = serde_json::from_str(text).ok()?;
    value.get(key)?.as_str().map(str::to_owned)
}

/// The node name in a value, of which `member` is what its JSON member says.
pub open spec fn value_name(value: Seq<char>, member: Option<Seq<char>>) -> Seq<char> {
    match member {
        Some(n) => n,
        None => value,
    }
}

/// The node name that a metadata value gives.
pub open spec fn node_named(value: Option<Seq<char>>) -> Option<Seq<char>> {
    match value {
        Some(v) => Some(value_name(v, json_member(v, "name"@))),
        None => None,
    }
}

/// The node name in a metadata value: what its JSON member says, else the value
/// itself.
pub fn name_in_value(value: &str, member: Option<String>) -> (r: String)
    ensures
        r@ == value_name(value@, text::opt_text(member)),
{
    match member {
        Some(n) => n,
        None => value.to_owned(),
    }
}

/// `props` mark the metadata object that holds the defaults.
pub open spec fn marks_defaults(props: Seq<(Seq<char>, Seq<char>)>) -> bool {
    props.contains(("metadata.name"@, "default"@))
}

/// Whether `props` mark the metadata object that holds the defaults.
pub fn is_default_metadata(props: &Vec<(String, String)>) -> (r: bool)
    ensures
        r == marks_defaults(model::props_view(props@)),
{
    let ghost all = model::props_view(props@);
    for i in 0..props.len()
        invariant
            all == model::props_view(props@),
            forall|j: int| 0 <= j < i ==> all[j] != ("metadata.name"@, "default"@),
    {
        assert(all[i as int] == (props@[i as int].0@, props@[i as int].1@));
        if text::same_text(props[i].0.as_str(), "metadata.name") && text::same_text(
            props[i].1.as_str(),
            "default",
        ) {
            return true;
        }
    }
    assert(all.len() == props@.len());
    false
}

// ── Volumes ──────────────────────────────────────────────────────────────────

/// What `wpctl get-volume` printed: the literal of the volume, and whether the
/// node is muted.
pub open spec fn volume_printed(output: Seq<char>) -> Option<(Seq<char>, bool)> {
    match text::strip_prefix(text::trim(output), "Volume: "@) {
        Some(rest) => {
            let literal = match text::first_word(rest) {
                Some(w) => w,
                None => "1.0"@,
            };
            if number::is_float_text(literal) {
                Some((literal, text::find(rest, "[MUTED]"@) is Some))
            } else {
                None
            }
        },
        None => None,
    }
}

/// Reads what `wpctl get-volume` printed.
pub fn read_volume(output: &str) -> (r: Option<(Number, bool)>)
    ensures
        match r {
            Some((n, m)) => volume_printed(output@) == Some((n@, m)),
            None => volume_printed(output@) is None,
        },
{
    let cs = text::chars_of(output);
    let line = text::trimmed(cs.as_slice());
    let rest = match text::without_prefix(line, "Volume: ") {
        Some(r) => r,
        None => {
            return None;
        },
    };
    let muted = text::has_text(rest, "[MUTED]");
    let volume = match text::leading_word(rest) {
        Some(w) => Number::read(w),
        None => Number::parse("1.0"),
    };
    match volume {
        Some(n) => Some((n, muted)),
        None => None,
    }
}

/// The ids without their repetitions, each where it came first.
pub open spec fn first_times(ids: Seq<u32>) -> Seq<u32>
    decreases ids.len(),
{
    if ids.len() == 0 {
        seq![]
    } else {
        let before = first_times(ids.drop_last());
        if before.contains(ids.last()) {
            before
        } else {
            before.push(ids.last())
        }
    }
}

/// The ids without their repetitions, in the order in which they came.
pub fn distinct_ids(queued: &Vec<u32>) -> (r: Vec<u32>)
    ensures
        r@ == first_times(queued@),
        r@.no_duplicates(),
        r@.to_set() == queued@.to_set(),
{
    let mut r: Vec<u32> = Vec::new();
    assert(r@.to_set() =~= queued@.take(0).to_set());
    assert(r@ =~= first_times(queued@.take(0)));
    for i in 0..queued.len()
        invariant
            r@ == first_times(queued@.take(i as int)),
            r@.no_duplicates(),
            r@.to_set() == queued@.take(i as int).to_set(),
    {
        let id = queued[i];
        let mut known = false;
        let n: usize = r.len();
        for j in 0..n
            invariant
                n == r@.len(),
                known == r@.take(j as int).contains(id),
        {
            let ghost t = r@.take(j + 1);
            proof {
                if r@.take(j as int).contains(id) {
                    let k = choose|k: int| 0 <= k < j && r@.take(j as int)[k] == id;
                    assert(t[k] == id);
                }
                assert(t[j as int] == r@[j as int]);
                if t.contains(id) && r@[j as int] != id {
                    let k = choose|k: int| 0 <= k < t.len() && t[k] == id;
                    assert(r@.take(j as int)[k] == id);
                }
            }
            if r[j] == id {
                known = true;
            }
        }
        let ghost before = r@;
        assert(r@.take(n as int) =~= r@);
        if !known {
            r.push(id);
        }
        proof {
            let a = queued@.take(i as int);
            let b = queued@.take(i + 1);
            assert(b =~= a.push(id));
            assert(b.drop_last() =~= a);
            assert forall|x: u32| #[trigger] r@.to_set().contains(x) == b.to_set().contains(x) by {
                assert(before.to_set().contains(x) == a.to_set().contains(x));
                if before.contains(x) {
                    let k = choose|k: int| 0 <= k < before.len() && before[k] == x;
                    assert(r@[k] == x);
                }
                if a.contains(x) {
                    let k = choose|k: int| 0 <= k < a.len() && a[k] == x;
                    assert(b[k] == x);
                }
                assert(b[i as int] == id);
                if !known {
                    assert(r@[n as int] == id);
                }
                if b.contains(x) && x != id {
                    let k = choose|k: int| 0 <= k < b.len() && b[k] == x;
                    assert(a[k] == x);
                }
                if r@.contains(x) && x != id {
                    let k = choose|k: int| 0 <= k < r@.len() && r@[k] == x;
                    assert(before[k] == x);
                }
            }
            assert(r@.to_set() =~= b.to_set());
        }
    }
    assert(queued@.take(queued@.len() as int) =~= queued@);
    r
}

// ── The connection ───────────────────────────────────────────────────────────

/// How a connection to PipeWire ended.
#[derive(Debug, Clone, Copy, PartialEq, Eq, Structural)]
pub enum ConnectionOutcome {
    Shutdown,
    Disconnected,
    ConnectFailed,
    Connected,
}

/// Why the loop of a connection is to end.
#[derive(Debug, Clone, Copy)]
pub struct Session {
    pub shutdown: bool,
    pub disconnected: bool,
}

/// What to do about a command.
pub enum CommandStep<S, K> {
    /// Leave the loop.
    Quit,
    /// Start a playback.
    Start {
        playback_id: String,
        clip_id: String,
        samples: Arc<Vec<S>>,
        sample_rate: u32,
        target_node_name: Option<String>,
        knobs: K,
        duration_ms: u64,
    },
    /// End a playback.
    End { playback_id: String },
}

impl Session {
    /// A loop that has no reason to end.
    pub fn new() -> (r: Session)
        ensures
            r == (Session { shutdown: false, disconnected: false }),
    {
        Session { shutdown: false, disconnected: false }
    }

    /// An error of the core: one on the core proxy, and one that says that the
    /// daemon hung up (`EPIPE`), is fatal to the connection.
    pub fn core_error(&mut self, id: u32, res: i32) -> (r: bool)
        ensures
            r == (id == 0 || res == -32),
            *final(self) == (Session { disconnected: old(self).disconnected || r, ..*old(self) }),
    {
        if id == 0 || res == -32 {
            self.disconnected = true;
            true
        } else {
            false
        }
    }

    /// A command from another thread.
    pub fn command<S, K>(&mut self, cmd: EngineCmd<S, K>) -> (r: CommandStep<S, K>)
        requires
            cmd matches EngineCmd::PlayClip { samples, sample_rate, .. } ==> playback::ms_fit(
                samples@.len(),
                sample_rate,
            ),
        ensures
            *final(self) == (Session { shutdown: old(self).shutdown || cmd is Shutdown, ..*old(self) }),
            match cmd {
                EngineCmd::Shutdown => r is Quit,
                EngineCmd::PlayClip {
                    playback_id,
                    clip_id,
                    samples,
                    sample_rate,
                    target_node_name,
                    knobs,
                } => r == (CommandStep::Start {
                    playback_id,
                    clip_id,
                    samples,
                    sample_rate,
                    target_node_name,
                    knobs,
                    duration_ms: playback::clip_ms(samples@.len(), sample_rate) as u64,
                }),
                EngineCmd::StopPlayback { playback_id } => r == (CommandStep::<S, K>::End {
                    playback_id,
                }),
                EngineCmd::PlaybackFinished { playback_id } => r == (CommandStep::<S, K>::End {
                    playback_id,
                }),
            },
    {
        match cmd {
            EngineCmd::Shutdown => {
                self.shutdown = true;
                CommandStep::Quit
            },
            EngineCmd::PlayClip {
                playback_id,
                clip_id,
                samples,
                sample_rate,
                target_node_name,
                knobs,
            } => {
                let duration_ms: u64 = playback::samples_ms(samples.len(), sample_rate);
                CommandStep::Start {
                    playback_id,
                    clip_id,
                    samples,
                    sample_rate,
                    target_node_name,
                    knobs,
                    duration_ms,
                }
            },
            EngineCmd::StopPlayback { playback_id } => CommandStep::End { playback_id },
            EngineCmd::PlaybackFinished { playback_id } => CommandStep::End { playback_id },
        }
    }

    /// How the connection ended, once its loop has.
    pub fn outcome(&self) -> (r: ConnectionOutcome)
        ensures
            r == (if self.shutdown {
                ConnectionOutcome::Shutdown
            } else if self.disconnected {
                ConnectionOutcome::Disconnected
            } else {
                ConnectionOutcome::Connected
            }),
    {
        if self.shutdown {
            ConnectionOutcome::Shutdown
        } else if self.disconnected {
            ConnectionOutcome::Disconnected
        } else {
            ConnectionOutcome::Connected
        }
    }
}

/// The shortest wait before another attempt to connect, in milliseconds.
pub const FIRST_WAIT_MS: u64 = 250;

/// The longest wait before another attempt to connect, in milliseconds.
pub const LONGEST_WAIT_MS: u64 = 5_000;

/// How long to wait before the next attempt to connect.
#[derive(Debug, Clone, Copy)]
pub struct Backoff {
    pub wait_ms: u64,
}

/// What follows the end of a connection.
#[derive(Debug, Clone, Copy, PartialEq, Eq, Structural)]
pub enum Reconnect {
    Stop,
    /// Connect again at once.
    Now,
    /// Connect again after a wait.
    After { wait_ms: u64 },
}

/// The wait after another failure.
pub open spec fn longer(wait_ms: int) -> int {
    if 2 * wait_ms < LONGEST_WAIT_MS {
        2 * wait_ms
    } else {
        LONGEST_WAIT_MS as int
    }
}

/// The wait after `n` failures in a row.
pub open spec fn wait_after(n: nat) -> int
    decreases n,
{
    if n == 0 {
        FIRST_WAIT_MS as int
    } else {
        longer(wait_after((n - 1) as nat))
    }
}

impl Backoff {
    /// The wait lies between the shortest and the longest.
    pub open spec fn wf(self) -> bool {
        FIRST_WAIT_MS <= self.wait_ms <= LONGEST_WAIT_MS
    }

    pub fn new() -> (r: Backoff)
        ensures
            r.wait_ms == wait_after(0),
            r.wf(),
    {
        Backoff { wait_ms: FIRST_WAIT_MS }
    }

    /// What follows the end of a connection: every failure doubles the wait up to
    /// the longest, and a session that was established resets it.
    pub fn ended(&mut self, outcome: ConnectionOutcome) -> (r: Reconnect)
        requires
            old(self).wf(),
        ensures
            final(self).wf(),
            match outcome {
                ConnectionOutcome::Shutdown => r == Reconnect::Stop && *final(self) == *old(self),
                ConnectionOutcome::Disconnected | ConnectionOutcome::ConnectFailed => r == (
                Reconnect::After { wait_ms: old(self).wait_ms }) && final(self).wait_ms == longer(
                    old(self).wait_ms as int,
                ),
                ConnectionOutcome::Connected => r == Reconnect::Now && final(self).wait_ms
                    == FIRST_WAIT_MS,
            },
    {
        match outcome {
            ConnectionOutcome::Shutdown => Reconnect::Stop,
            ConnectionOutcome::Disconnected | ConnectionOutcome::ConnectFailed => {
                let wait_ms: u64 = self.wait_ms;
                self.wait_ms = if wait_ms * 2 < LONGEST_WAIT_MS {
                    wait_ms * 2
                } else {
                    LONGEST_WAIT_MS
                };
                Reconnect::After { wait_ms }
            },
            ConnectionOutcome::Connected => {
                self.wait_ms = FIRST_WAIT_MS;
                Reconnect::Now
            },
        }
    }
}

/// Failures in a row make the wait longer and longer, from the fifth on as long
/// as it gets.
pub proof fn waits_grow(n: nat)
    ensures
        FIRST_WAIT_MS <= wait_after(n) <= LONGEST_WAIT_MS,
        wait_after(n) <= wait_after(n + 1),
        n >= 5 ==> wait_after(n) == LONGEST_WAIT_MS,
    decreases n,
{
    if n > 0 {
        waits_grow((n - 1) as nat);
    }
    if n <= 5 {
        reveal_with_fuel(wait_after, 7);
    }
}

// ── Playbacks ────────────────────────────────────────────────────────────────

/// The active playbacks of a connection with what keeps each of them alive.
#[verifier::reject_recursive_types(T)]
pub struct Playbacks<T> {
    pub streams: TextMap<T>,
}

/// The name of the node of a playback.
pub fn stream_node_name(playback_id: &str) -> (r: String)
    ensures
        r@ == "pw-ctrl.sb."@ + playback_id@,
{
    let mut r = "pw-ctrl.sb.".to_owned();
    r.append(playback_id);
    r
}

impl<T> Playbacks<T> {
    pub fn new() -> (r: Playbacks<T>)
        ensures
            r.streams@ == Map::<Seq<char>, T>::empty(),
    {
        Playbacks { streams: TextMap::new() }
    }

    /// The attempt to start a playback gave `stream`, or nothing.
    pub fn started(
        &mut self,
        playback_id: String,
        clip_id: String,
        target_node_name: Option<String>,
        duration_ms: u64,
        stream: Option<T>,
    ) -> (r: PwEvent)
        ensures
            match stream {
                Some(s) => final(self).streams@ == old(self).streams@.insert(playback_id@, s) && r@
                    == (model::EventView::PlaybackStarted {
                    playback_id: playback_id@,
                    clip_id: clip_id@,
                    target_node_name: text::opt_text(target_node_name),
                    duration_ms,
                }),
                None => final(self).streams@ == old(self).streams@ && r@ == (
                model::EventView::PlaybackEnded { playback_id: playback_id@ }),
            },
    {
        match stream {
            Some(s) => {
                self.streams.insert(playback_id.clone(), s);
                PwEvent::PlaybackStarted { playback_id, clip_id, target_node_name, duration_ms }
            },
            None => PwEvent::PlaybackEnded { playback_id },
        }
    }

    /// A playback ends: what kept it alive, if it was active, and what to tell.
    pub fn ended(&mut self, playback_id: String) -> (r: (Option<T>, PwEvent))
        ensures
            final(self).streams@ == old(self).streams@.remove(playback_id@),
            r.0 == (if old(self).streams@.contains_key(playback_id@) {
                Some(old(self).streams@[playback_id@])
            } else {
                None
            }),
            r.1@ == (model::EventView::PlaybackEnded { playback_id: playback_id@ }),
    {
        let s = self.streams.remove(playback_id.as_str());
        (s, PwEvent::PlaybackEnded { playback_id })
    }
}

// ── Clients ──────────────────────────────────────────────────────────────────

/// What happens on the connection to a client.
pub enum SocketInput {
    /// The engine reports an event.
    Event(PwEvent),
    /// The client was too slow, and events got lost.
    Lagged,
    /// The engine reports no more.
    FeedClosed,
    Ping(Vec<u8>),
    Close,
    /// The client is gone.
    Gone,
    Other,
}

/// What to do about it.
pub enum SocketStep {
    Send(PwEvent),
    /// Send a snapshot of the graph as it is.
    SendSnapshot,
    Pong(Vec<u8>),
    Wait,
    Leave,
}

/// What to do about what happens on the connection to a client.
pub fn socket_step(input: SocketInput) -> (r: SocketStep)
    ensures
        r == (match input {
            SocketInput::Event(e) => SocketStep::Send(e),
            SocketInput::Lagged => SocketStep::SendSnapshot,
            SocketInput::FeedClosed => SocketStep::Leave,
            SocketInput::Ping(data) => SocketStep::Pong(data),
            SocketInput::Close => SocketStep::Leave,
            SocketInput::Gone => SocketStep::Leave,
            SocketInput::Other => SocketStep::Wait,
        }),
{
    match input {
        SocketInput::Event(e) => SocketStep::Send(e),
        SocketInput::Lagged => SocketStep::SendSnapshot,
        SocketInput::FeedClosed => SocketStep::Leave,
        SocketInput::Ping(data) => SocketStep::Pong(data),
        SocketInput::Close => SocketStep::Leave,
        SocketInput::Gone => SocketStep::Leave,
        SocketInput::Other => SocketStep::Wait,
    }
}

// ── What the graph follows ───────────────────────────────────────────────────

/// Of the properties that are told of a node, each of the four that have a field
/// sets that field to its last value and no other; what is not told stays; and
/// every other property is kept under its own name with its last value.
pub proof fn told_properties_are_taken_over(
    n: model::NodeView,
    props: Seq<(Seq<char>, Seq<char>)>,
    key: Seq<char>,
    i: int,
)
    ensures
        ({
            let m = with_props(n, props);
            let own = key == "node.nick"@ || key == "node.description"@ || key
                == "application.name"@ || key == "media.name"@;
            &&& model::last_at(props, "node.nick"@, i) ==> m.node_nick == Some(props[i].1)
            &&& model::untold(props, "node.nick"@) ==> m.node_nick == n.node_nick
            &&& model::last_at(props, "node.description"@, i) ==> m.node_description == Some(
                props[i].1,
            )
            &&& model::untold(props, "node.description"@) ==> m.node_description
                == n.node_description
            &&& model::last_at(props, "application.name"@, i) ==> m.application_name == Some(
                props[i].1,
            )
            &&& model::untold(props, "application.name"@) ==> m.application_name
                == n.application_name
            &&& model::last_at(props, "media.name"@, i) ==> m.media_name == Some(props[i].1)
            &&& model::untold(props, "media.name"@) ==> m.media_name == n.media_name
            &&& !own && model::last_at(props, key, i) ==> m.extra_props.contains_key(key)
                && m.extra_props[key] == props[i].1
            &&& own || model::untold(props, key) ==> m.extra_props.contains_key(key)
                == n.extra_props.contains_key(key) && m.extra_props[key] == n.extra_props[key]
        }),
    decreases props.len(),
{
    reveal_strlit("node.nick");
    reveal_strlit("node.description");
    reveal_strlit("application.name");
    reveal_strlit("media.name");
    assert("node.nick"@.len() == 9 && "node.description"@.len() == 16);
    assert("application.name"@.len() == 16 && "application.name"@[0] == 'a');
    assert("node.description"@[0] == 'n' && "media.name"@.len() == 10);
    if props.len() > 0 {
        let front = props.drop_last();
        told_properties_are_taken_over(n, front, key, i);
        lemma_told_before(props, "node.nick"@, i);
        lemma_told_before(props, "node.description"@, i);
        lemma_told_before(props, "application.name"@, i);
        lemma_told_before(props, "media.name"@, i);
        lemma_told_before(props, key, i);
    }
}

proof fn lemma_told_before(props: Seq<(Seq<char>, Seq<char>)>, key: Seq<char>, i: int)
    requires
        props.len() > 0,
    ensures
        model::untold(props, key) ==> props.last().0 != key && model::untold(
            props.drop_last(),
            key,
        ),
        model::last_at(props, key, i) && i < props.len() - 1 ==> props.last().0 != key
            && model::last_at(props.drop_last(), key, i) && props.drop_last()[i] == props[i],
        model::last_at(props, key, i) && i == props.len() - 1 ==> props.last().0 == key
            && props[i] == props.last(),
{
    let front = props.drop_last();
    let n = props.len() - 1;
    if model::untold(props, key) {
        assert(props[n].0 != key);
        assert forall|j: int| 0 <= j < front.len() implies (#[trigger] front[j]).0 != key by {
            assert(props[j] == front[j]);
        }
    }
    if model::last_at(props, key, i) && i < n {
        assert(props[n].0 != key);
        assert forall|j: int| i < j < front.len() implies (#[trigger] front[j]).0 != key by {
            assert(props[j] == front[j]);
        }
    }
}

/// What is told of a node changes nothing else of it: who it is, what class it
/// has, its process, its client, its device and its volume stay.
pub proof fn told_properties_keep_the_rest(
    n: model::NodeView,
    props: Seq<(Seq<char>, Seq<char>)>,
)
    ensures
        ({
            let m = with_props(n, props);
            &&& m.id == n.id && m.media_class == n.media_class && m.node_name == n.node_name
            &&& m.application_process_id == n.application_process_id
            &&& m.application_process_binary == n.application_process_binary
            &&& m.client_id == n.client_id && m.device_id == n.device_id && m.serial == n.serial
            &&& m.state == n.state && m.n_input_ports == n.n_input_ports && m.n_output_ports
                == n.n_output_ports
            &&& m.volume == n.volume && m.mute == n.mute
        }),
    decreases props.len(),
{
    if props.len() > 0 {
        told_properties_keep_the_rest(n, props.drop_last());
    }
}

/// A node that PipeWire tells of has the state and the numbers of ports that were
/// told, keeps what cannot change, and has each of its four names from the last
/// property of that name, or as it was.
pub proof fn informed_node_is_as_told(n: model::NodeView, info: NodeInfo, i: int)
    ensures
        ({
            let m = informed(n, info);
            let props = match info.props {
                Some(p) => model::props_view(p@),
                None => seq![],
            };
            &&& m.state == info.state@
            &&& m.n_input_ports == info.n_input_ports && m.n_output_ports == info.n_output_ports
            &&& m.id == n.id && m.media_class == n.media_class && m.node_name == n.node_name
            &&& m.client_id == n.client_id && m.device_id == n.device_id && m.serial == n.serial
            &&& m.application_process_id == n.application_process_id
            &&& m.application_process_binary == n.application_process_binary
            &&& m.volume == n.volume && m.mute == n.mute
            &&& model::last_at(props, "node.nick"@, i) ==> m.node_nick == Some(props[i].1)
            &&& model::untold(props, "node.nick"@) ==> m.node_nick == n.node_nick
            &&& model::last_at(props, "node.description"@, i) ==> m.node_description == Some(
                props[i].1,
            )
            &&& model::untold(props, "node.description"@) ==> m.node_description
                == n.node_description
            &&& model::last_at(props, "application.name"@, i) ==> m.application_name == Some(
                props[i].1,
            )
            &&& model::untold(props, "application.name"@) ==> m.application_name
                == n.application_name
            &&& model::last_at(props, "media.name"@, i) ==> m.media_name == Some(props[i].1)
            &&& model::untold(props, "media.name"@) ==> m.media_name == n.media_name
        }),
{
    let m = model::NodeView {
        state: info.state@,
        n_input_ports: info.n_input_ports,
        n_output_ports: info.n_output_ports,
        ..n
    };
    let props = match info.props {
        Some(p) => model::props_view(p@),
        None => seq![],
    };
    told_properties_are_taken_over(m, props, seq![], i);
    told_properties_keep_the_rest(m, props);
}

/// An event of a node puts that node into the graph, or takes it out; every other
/// node, the links and the defaults stay.
pub proof fn node_events_change_one_node(g: GraphView, n: model::NodeView, id: u32, other: u32)
    requires
        other != n.id,
        other != id,
    ensures
        ({
            let added = follow(g, model::EventView::NodeAdded(n));
            let updated = follow(g, model::EventView::NodeUpdated(n));
            let removed = follow(g, model::EventView::NodeRemoved { id });
            &&& added.nodes.contains_key(n.id) && added.nodes[n.id] == n
            &&& updated.nodes.contains_key(n.id) && updated.nodes[n.id] == n
            &&& !removed.nodes.contains_key(id)
            &&& added.nodes.contains_key(other) == g.nodes.contains_key(other)
            &&& added.nodes[other] == g.nodes[other]
            &&& updated.nodes.contains_key(other) == g.nodes.contains_key(other)
            &&& updated.nodes[other] == g.nodes[other]
            &&& removed.nodes.contains_key(other) == g.nodes.contains_key(other)
            &&& g.nodes.contains_key(other) ==> removed.nodes[other] == g.nodes[other]
            &&& added.links == g.links && updated.links == g.links && removed.links == g.links
            &&& added.default_sink == g.default_sink && added.default_source == g.default_source
            &&& updated.default_sink == g.default_sink && updated.default_source
                == g.default_source
            &&& removed.default_sink == g.default_sink && removed.default_source
                == g.default_source
        }),
{
}

/// An event of a link puts that link into the graph, or takes it out; every other
/// link, the nodes and the defaults stay.
pub proof fn link_events_change_one_link(g: GraphView, l: AudioLink, id: u32, other: u32)
    requires
        other != l.id,
        other != id,
    ensures
        ({
            let added = follow(g, model::EventView::LinkAdded(l));
            let updated = follow(g, model::EventView::LinkUpdated(l));
            let removed = follow(g, model::EventView::LinkRemoved { id });
            &&& added.links.contains_key(l.id) && added.links[l.id] == l
            &&& updated.links.contains_key(l.id) && updated.links[l.id] == l
            &&& !removed.links.contains_key(id)
            &&& added.links.contains_key(other) == g.links.contains_key(other)
            &&& added.links[other] == g.links[other]
            &&& updated.links.contains_key(other) == g.links.contains_key(other)
            &&& updated.links[other] == g.links[other]
            &&& removed.links.contains_key(other) == g.links.contains_key(other)
            &&& g.links.contains_key(other) ==> removed.links[other] == g.links[other]
            &&& added.nodes == g.nodes && updated.nodes == g.nodes && removed.nodes == g.nodes
            &&& added.default_sink == g.default_sink && added.default_source == g.default_source
            &&& updated.default_sink == g.default_sink && updated.default_source
                == g.default_source
            &&& removed.default_sink == g.default_sink && removed.default_source
                == g.default_source
        }),
{
}

/// An event of the defaults names both of them and keeps nodes and links; one of
/// playback changes nothing.
pub proof fn other_events_keep_the_graph(
    g: GraphView,
    sink_name: Option<Seq<char>>,
    source_name: Option<Seq<char>>,
    e: model::EventView,
)
    requires
        e is PlaybackStarted || e is PlaybackEnded,
    ensures
        ({
            let d = follow(g, model::EventView::DefaultsChanged { sink_name, source_name });
            &&& d.default_sink == sink_name && d.default_source == source_name
            &&& d.nodes == g.nodes && d.links == g.links
            &&& follow(g, e) == g
        }),
{
}

/// After a snapshot the graph holds the nodes and the links of the snapshot under
/// their ids, and nothing else, and its defaults.
pub proof fn snapshot_is_the_graph(
    g: GraphView,
    nodes: Seq<model::NodeView>,
    links: Seq<AudioLink>,
    default_sink: Option<Seq<char>>,
    default_source: Option<Seq<char>>,
)
    requires
        forall|i: int, j: int|
            0 <= i < j < nodes.len() ==> (#[trigger] nodes[i]).id != (#[trigger] nodes[j]).id,
        forall|i: int, j: int|
            0 <= i < j < links.len() ==> (#[trigger] links[i]).id != (#[trigger] links[j]).id,
    ensures
        ({
            let s = follow(
                g,
                model::EventView::Snapshot { nodes, links, default_sink, default_source },
            );
            &&& forall|i: int|
                0 <= i < nodes.len() ==> s.nodes.contains_key((#[trigger] nodes[i]).id)
                    && s.nodes[nodes[i].id] == nodes[i]
            &&& forall|i: int|
                0 <= i < links.len() ==> s.links.contains_key((#[trigger] links[i]).id)
                    && s.links[links[i].id] == links[i]
            &&& forall|id: u32| #[trigger]
                s.nodes.contains_key(id) ==> exists|i: int|
                    0 <= i < nodes.len() && (#[trigger] nodes[i]).id == id
            &&& forall|id: u32| #[trigger]
                s.links.contains_key(id) ==> exists|i: int|
                    0 <= i < links.len() && (#[trigger] links[i]).id == id
            &&& s.default_sink == default_sink && s.default_source == default_source
        }),
{
    let s = follow(g, model::EventView::Snapshot { nodes, links, default_sink, default_source });
    assert forall|i: int| 0 <= i < nodes.len() implies s.nodes.contains_key(
        (#[trigger] nodes[i]).id,
    ) && s.nodes[nodes[i].id] == nodes[i] by {
        assert(node_at(nodes, nodes[i].id, i));
        let k = choose|k: int| node_at(nodes, nodes[i].id, k);
        assert(nodes[k].id == nodes[i].id);
    }
    assert forall|i: int| 0 <= i < links.len() implies s.links.contains_key(
        (#[trigger] links[i]).id,
    ) && s.links[links[i].id] == links[i] by {
        assert(link_at(links, links[i].id, i));
        let k = choose|k: int| link_at(links, links[i].id, k);
        assert(links[k].id == links[i].id);
    }
    assert forall|id: u32| #[trigger] s.nodes.contains_key(id) implies exists|i: int|
        0 <= i < nodes.len() && (#[trigger] nodes[i]).id == id by {
        let k = choose|k: int| node_at(nodes, id, k);
        assert(nodes[k].id == id);
    }
    assert forall|id: u32| #[trigger] s.links.contains_key(id) implies exists|i: int|
        0 <= i < links.len() && (#[trigger] links[i]).id == id by {
        let k = choose|k: int| link_at(links, id, k);
        assert(links[k].id == id);
    }
}

/// The sink and the source are named apart: naming one keeps the other.
pub proof fn defaults_are_named_apart(g: GraphView, name: Option<Seq<char>>)
    ensures
        with_default(g, "default.audio.sink"@, name).default_sink == name,
        with_default(g, "default.audio.sink"@, name).default_source == g.default_source,
        with_default(g, "default.audio.source"@, name).default_source == name,
        with_default(g, "default.audio.source"@, name).default_sink == g.default_sink,
        with_default(g, "default.audio.sink"@, name).nodes == g.nodes,
        with_default(g, "default.audio.sink"@, name).links == g.links,
        with_default(g, "default.audio.source"@, name).nodes == g.nodes,
        with_default(g, "default.audio.source"@, name).links == g.links,
{
    reveal_strlit("default.audio.sink");
    reveal_strlit("default.audio.source");
    assert("default.audio.sink"@.len() == 18 && "default.audio.source"@.len() == 20);
}

/// A metadata value names a node by its JSON member where it has one, and by
/// itself where it has none; no value names none.
pub proof fn values_name_nodes(value: Seq<char>, name: Seq<char>)
    ensures
        node_named(None) is None,
        json_member(value, "name"@) == Some(name) ==> node_named(Some(value)) == Some(name),
        json_member(value, "name"@) is None ==> node_named(Some(value)) == Some(value),
{
}

/// Only the property `metadata.name` with the value `default` marks the object of
/// the defaults, wherever it stands.
pub proof fn defaults_are_marked_by_name(props: Seq<(Seq<char>, Seq<char>)>)
    ensures
        marks_defaults(props) <==> exists|i: int|
            0 <= i < props.len() && (#[trigger] props[i]).0 == "metadata.name"@ && props[i].1
                == "default"@,
{
    if exists|i: int|
        0 <= i < props.len() && (#[trigger] props[i]).0 == "metadata.name"@ && props[i].1
            == "default"@ {
        let i = choose|i: int|
            0 <= i < props.len() && (#[trigger] props[i]).0 == "metadata.name"@ && props[i].1
                == "default"@;
        assert(props[i] == ("metadata.name"@, "default"@));
    }
    if marks_defaults(props) {
        let i = props.index_of(("metadata.name"@, "default"@));
        assert(props[i].0 == "metadata.name"@);
    }
}

/// The ids without repetitions are the ids, each once, and of two the one that came
/// first is first.
pub proof fn first_times_keep_the_order(ids: Seq<u32>)
    ensures
        ({
            let f = first_times(ids);
            &&& f.no_duplicates()
            &&& forall|id: u32| f.contains(id) <==> ids.contains(id)
            &&& forall|i: int, j: int|
                0 <= i < j < f.len() ==> ids.index_of_first(#[trigger] f[i])->0
                    < ids.index_of_first(#[trigger] f[j])->0
        }),
    decreases ids.len(),
{
    let f = first_times(ids);
    if ids.len() > 0 {
        let front = ids.drop_last();
        let before = first_times(front);
        first_times_keep_the_order(front);
        assert(ids =~= front.push(ids.last()));
        assert forall|id: u32| f.contains(id) <==> ids.contains(id) by {
            if ids.contains(id) {
                let k = ids.index_of(id);
                if k < front.len() {
                    assert(front[k] == id);
                    assert(before.contains(id));
                }
            }
            if front.contains(id) {
                let k = front.index_of(id);
                assert(ids[k] == id);
            }
            if before.contains(id) {
                let k = before.index_of(id);
                assert(f[k] == id);
            }
            if f != before && f.contains(id) {
                let k = f.index_of(id);
                if k < before.len() {
                    assert(before[k] == id);
                } else {
                    assert(ids[ids.len() - 1] == id);
                }
            }
            if !before.contains(ids.last()) {
                assert(f[f.len() - 1] == ids.last());
            }
        }
        assert forall|i: int, j: int| 0 <= i < j < f.len() implies ids.index_of_first(
            #[trigger] f[i],
        )->0 < ids.index_of_first(#[trigger] f[j])->0 by {
            assert(before.contains(before[i]));
            lemma_first_in_front(ids, before[i]);
            if j < before.len() {
                assert(before.contains(before[j]));
                lemma_first_in_front(ids, before[j]);
            } else {
                lemma_first_at_end(ids);
            }
        }
    }
}

proof fn lemma_first_in_front(ids: Seq<u32>, id: u32)
    requires
        ids.len() > 0,
        ids.drop_last().contains(id),
    ensures
        ids.index_of_first(id) == ids.drop_last().index_of_first(id),
        ids.index_of_first(id) is Some,
        ids.index_of_first(id)->0 < ids.len() - 1,
{
    let front = ids.drop_last();
    front.index_of_first_ensures(id);
    ids.index_of_first_ensures(id);
    let k = front.index_of(id);
    assert(ids[k] == id);
    let a = front.index_of_first(id)->0;
    let b = ids.index_of_first(id)->0;
    assert(ids[a] == front[a]);
    if b < a {
        assert(front[b] == ids[b]);
    }
    assert(b <= a);
}

proof fn lemma_first_at_end(ids: Seq<u32>)
    requires
        ids.len() > 0,
        !ids.drop_last().contains(ids.last()),
    ensures
        ids.index_of_first(ids.last()) == Some(ids.len() - 1),
{
    ids.index_of_first_ensures(ids.last());
    assert(ids.contains(ids[ids.len() - 1]));
    let b = ids.index_of_first(ids.last())->0;
    if b < ids.len() - 1 {
        assert(ids.drop_last()[b] == ids.last());
    }
}

/// The wait doubles with every failure until it has reached the longest, at which it
/// stays: it is never shorter than before and never longer than five seconds.
pub proof fn waits_double(n: nat)
    ensures
        wait_after(0) == 250,
        wait_after(n + 1) == 2 * wait_after(n) || wait_after(n + 1) == 5000 && 2 * wait_after(n)
            > 5000,
        wait_after(n) <= wait_after(n + 1) <= 5000,
    decreases n,
{
    if n > 0 {
        waits_double((n - 1) as nat);
    }
}

/// The volume that is printed is the word behind `Volume: `, with a line feed or
/// without, and the node is muted where `[MUTED]` follows.
pub proof fn volume_is_the_word_printed(word: Seq<char>, end: Seq<char>)
    requires
        number::is_float_text(word),
        word.len() > 0,
        forall|i: int|
            0 <= i < word.len() ==> !text::is_white(#[trigger] word[i]) && word[i] != '[',
        text::all_pad(end, text::Pad::White),
    ensures
        volume_printed("Volume: "@ + word + end) == Some((word, false)),
        volume_printed("Volume: "@ + word + " [MUTED]"@ + end) == Some((word, true)),
{
    reveal_strlit("Volume: ");
    reveal_strlit(" [MUTED]");
    reveal_strlit("[MUTED]");
    let none = Seq::<char>::empty();
    let mark = "[MUTED]"@;
    let plain = "Volume: "@ + word;
    assert(plain.last() == word[word.len() - 1]);
    assert(plain[0] == 'V');
    text::trimming_takes_the_padding(none, plain, end, text::Pad::White);
    assert(none + plain + end =~= plain + end);
    text::prefixes_come_off(none, "Volume: "@, word);
    text::first_word_stands_first(none, word, none);
    assert(none + word + none =~= word);
    text::cut_at_the_first_mark(word, mark);
    assert forall|j: int| !text::occurs_at(word, mark, j) by {
        if text::occurs_at(word, mark, j) {
            assert(word.subrange(j, j + mark.len())[0] == word[j]);
            assert(mark[0] == '[');
        }
    }
    let rest = word + " [MUTED]"@;
    let muted = plain + " [MUTED]"@;
    assert(muted.last() == ']');
    text::trimming_takes_the_padding(none, muted, end, text::Pad::White);
    assert(none + muted + end =~= muted + end);
    assert(muted =~= "Volume: "@ + rest);
    text::prefixes_come_off(none, "Volume: "@, rest);
    text::first_word_stands_first(none, word, " [MUTED]"@);
    assert(none + word + " [MUTED]"@ =~= rest);
    text::cut_at_the_first_mark(rest, mark);
    let at = word.len() as int + 1;
    assert(rest.subrange(at, at + mark.len()) =~= mark);
    assert(text::occurs_at(rest, mark, at));
}

/// The graph says what its fields hold: the nodes under their ids, the links and the
/// two defaults.
pub proof fn graphs_say_their_fields(e: PwEngine, id: u32)
    ensures
        e@.nodes.contains_key(id) == e.nodes@.contains_key(id),
        e.nodes@.contains_key(id) ==> e@.nodes[id] == e.nodes@[id]@,
        e@.links == e.links@,
        e.default_sink matches Some(s) ==> e@.default_sink == Some(s@),
        e.default_sink is None <==> e@.default_sink is None,
        e.default_source matches Some(s) ==> e@.default_source == Some(s@),
        e.default_source is None <==> e@.default_source is None,
{
}

/// A volume is known where the node has it and is muted alike; a node without a volume,
/// or of which it is not known whether it is muted, knows none.
pub proof fn known_volumes(n: model::NodeView, volume: Level, muted: bool)
    ensures
        knows_volume(n, volume, muted) <==> (n.volume matches Some(v) && v.equals(volume))
            && n.mute == Some(muted),
        n.volume is None || n.mute is None ==> !knows_volume(n, volume, muted),
        knows_volume(n, volume, muted) ==> !knows_volume(n, volume, !muted),
{
}

/// Of a new graph nothing is known: no node, no link and no default.
pub proof fn nothing_is_known_at_first(id: u32)
    ensures
        !empty_graph().nodes.contains_key(id),
        !empty_graph().links.contains_key(id),
        empty_graph().default_sink is None && empty_graph().default_source is None,
        empty_graph().wf(),
{
}

/// Lists that ascend have smaller ids before larger ones.
pub proof fn lists_ascend(nodes: Seq<AudioNode>, links: Seq<AudioLink>, i: int, j: int)
    ensures
        ascending_nodes(nodes) && 0 <= i < j < nodes.len() ==> nodes[i].id < nodes[j].id,
        ascending_links(links) && 0 <= i < j < links.len() ==> links[i].id < links[j].id,
{
}

/// A subscriber follows the events one by one, and stays where it is without one.
pub proof fn events_are_followed_one_by_one(
    g: GraphView,
    es: Seq<model::EventView>,
    e: model::EventView,
    told: PwEvent,
)
    ensures
        follow_all(g, seq![]) == g,
        follow_all(g, es.push(e)) == follow(follow_all(g, es), e),
        follow_opt(g, None) == g,
        follow_opt(g, Some(told)) == follow(g, told@),
{
    assert(es.push(e).drop_last() =~= es);
    assert(es.push(e).last() == e);
}

} // verus!
