//! Presets: virtual sinks with a chain of effect plugins.

use vstd::prelude::*;
use crate::ids;
use crate::level::Level;
use crate::maps::TextMap;
use crate::number;
use crate::number::Number;
use crate::order;
use crate::text;

verus! {

// ── Channels ─────────────────────────────────────────────────────────────────

#[derive(Debug, Clone, Copy, PartialEq, Eq, Structural)]
pub enum ChannelLayout {
    Stereo,
    Mono,
    Surround51,
    Surround71,
}

impl Default for ChannelLayout {
    fn default() -> (r: ChannelLayout)
        ensures
            r == ChannelLayout::Stereo,
    {
        ChannelLayout::Stereo
    }
}

/// How many channels a layout has.
pub open spec fn channel_count(l: ChannelLayout) -> u8 {
    match l {
        ChannelLayout::Mono => 1,
        ChannelLayout::Stereo => 2,
        ChannelLayout::Surround51 => 6,
        ChannelLayout::Surround71 => 8,
    }
}

/// The positions of the channels of a layout, as PipeWire writes them.
pub open spec fn channel_position(l: ChannelLayout) -> Seq<char> {
    match l {
        ChannelLayout::Mono => "[ MONO ]"@,
        ChannelLayout::Stereo => "[ FL FR ]"@,
        ChannelLayout::Surround51 => "[ FL FR FC LFE RL RR ]"@,
        ChannelLayout::Surround71 => "[ FL FR FC LFE RL RR SL SR ]"@,
    }
}

impl ChannelLayout {
    pub fn channels(&self) -> (r: u8)
        ensures
            r == channel_count(*self),
    {
        match self {
            ChannelLayout::Mono => 1,
            ChannelLayout::Stereo => 2,
            ChannelLayout::Surround51 => 6,
            ChannelLayout::Surround71 => 8,
        }
    }

    pub fn position(&self) -> (r: &'static str)
        ensures
            r@ == channel_position(*self),
    {
        match self {
            ChannelLayout::Mono => "[ MONO ]",
            ChannelLayout::Stereo => "[ FL FR ]",
            ChannelLayout::Surround51 => "[ FL FR FC LFE RL RR ]",
            ChannelLayout::Surround71 => "[ FL FR FC LFE RL RR SL SR ]",
        }
    }
}

// ── Presets ──────────────────────────────────────────────────────────────────

#[derive(Debug)]
pub struct Preset {
    pub id: String,
    pub name: String,
    /// Ordered chain of effect plugins. Audio flows from index 0 → N.
    pub chain: Vec<ChainNode>,
    pub outputs: Vec<OutputAssignment>,
    pub channels: ChannelLayout,
    pub source_inputs: Vec<String>,
}

#[derive(Debug)]
pub struct ChainNode {
    /// Identifier unique within the preset (used as the filter-graph node name).
    pub id: String,
    /// Optional human label; falls back to the plugin name in the UI.
    pub label: Option<String>,
    /// When true the node is replaced by a passthrough in the generated graph.
    pub bypass: bool,
    pub kind: ChainNodeKind,
}

#[derive(Debug)]
pub enum ChainNodeKind {
    /// LV2 plugin referenced by URI. Controls map LV2 symbols → values.
    Lv2 { plugin_uri: String, controls: TextMap<Number> },
    /// Built-in filter-chain primitive (`copy`, `bq_*`, `mixer`, etc.).
    Builtin { label: String, controls: TextMap<Number> },
    /// LADSPA plugin referenced by `.so` path + label. Controls map
    /// LADSPA port *names* (case-sensitive, as printed by `analyseplugin`).
    Ladspa { path: String, label: String, controls: TextMap<Number> },
}

#[derive(Debug)]
pub struct OutputAssignment {
    pub node_name: String,
    pub volume: Level,
}

// ── What presets say ─────────────────────────────────────────────────────────

#[verifier::ext_equal]
pub struct OutputView {
    pub node_name: Seq<char>,
    pub volume: Level,
}

/// What a kind of chain node says, over character sequences; the values of the
/// controls as they are written.
#[verifier::ext_equal]
pub enum ChainKindView {
    Lv2 { plugin_uri: Seq<char>, controls: Map<Seq<char>, Seq<char>> },
    Builtin { label: Seq<char>, controls: Map<Seq<char>, Seq<char>> },
    Ladspa { path: Seq<char>, label: Seq<char>, controls: Map<Seq<char>, Seq<char>> },
}

#[verifier::ext_equal]
pub struct ChainView {
    pub id: Seq<char>,
    pub label: Option<Seq<char>>,
    pub bypass: bool,
    pub kind: ChainKindView,
}

#[verifier::ext_equal]
pub struct PresetView {
    pub id: Seq<char>,
    pub name: Seq<char>,
    pub chain: Seq<ChainView>,
    pub outputs: Seq<OutputView>,
    pub channels: ChannelLayout,
    pub source_inputs: Seq<Seq<char>>,
}

/// The literals that a map of numbers holds.
pub open spec fn number_values(m: Map<Seq<char>, Number>) -> Map<Seq<char>, Seq<char>> {
    Map::new(|k: Seq<char>| m.contains_key(k), |k: Seq<char>| m[k]@)
}

impl View for OutputAssignment {
    type V = OutputView;

    open spec fn view(&self) -> OutputView {
        OutputView { node_name: self.node_name@, volume: self.volume }
    }
}

impl View for ChainNodeKind {
    type V = ChainKindView;

    open spec fn view(&self) -> ChainKindView {
        match *self {
            ChainNodeKind::Lv2 { plugin_uri, controls } => ChainKindView::Lv2 {
                plugin_uri: plugin_uri@,
                controls: number_values(controls@),
            },
            ChainNodeKind::Builtin { label, controls } => ChainKindView::Builtin {
                label: label@,
                controls: number_values(controls@),
            },
            ChainNodeKind::Ladspa { path, label, controls } => ChainKindView::Ladspa {
                path: path@,
                label: label@,
                controls: number_values(controls@),
            },
        }
    }
}

impl View for ChainNode {
    type V = ChainView;

    open spec fn view(&self) -> ChainView {
        ChainView {
            id: self.id@,
            label: text::opt_text(self.label),
            bypass: self.bypass,
            kind: self.kind@,
        }
    }
}

pub open spec fn outputs_view(v: Seq<OutputAssignment>) -> Seq<OutputView> {
    Seq::new(v.len(), |i: int| v[i]@)
}

pub open spec fn chain_view(v: Seq<ChainNode>) -> Seq<ChainView> {
    Seq::new(v.len(), |i: int| v[i]@)
}

impl View for Preset {
    type V = PresetView;

    open spec fn view(&self) -> PresetView {
        PresetView {
            id: self.id@,
            name: self.name@,
            chain: chain_view(self.chain@),
            outputs: outputs_view(self.outputs@),
            channels: self.channels,
            source_inputs: text::texts(self.source_inputs@),
        }
    }
}

fn copied_controls(controls: &TextMap<Number>) -> (r: TextMap<Number>)
    ensures
        number_values(r@) == number_values(controls@),
{
    let r = controls.clone();
    proof {
        assert forall|k: Seq<char>| r@.contains_key(k) implies #[trigger] r@[k]
            == controls@[k] by {
            assert(cloned::<Number>(controls@[k], r@[k]));
        }
        assert(number_values(r@) =~= number_values(controls@));
    }
    r
}

impl Clone for ChainNodeKind {
    fn clone(&self) -> (r: ChainNodeKind)
        ensures
            r@ == self@,
    {
        match self {
            ChainNodeKind::Lv2 { plugin_uri, controls } => ChainNodeKind::Lv2 {
                plugin_uri: plugin_uri.clone(),
                controls: copied_controls(controls),
            },
            ChainNodeKind::Builtin { label, controls } => ChainNodeKind::Builtin {
                label: label.clone(),
                controls: copied_controls(controls),
            },
            ChainNodeKind::Ladspa { path, label, controls } => ChainNodeKind::Ladspa {
                path: path.clone(),
                label: label.clone(),
                controls: copied_controls(controls),
            },
        }
    }
}

impl Clone for ChainNode {
    fn clone(&self) -> (r: ChainNode)
        ensures
            r@ == self@,
    {
        ChainNode {
            id: self.id.clone(),
            label: self.label.clone(),
            bypass: self.bypass,
            kind: self.kind.clone(),
        }
    }
}

impl Clone for OutputAssignment {
    fn clone(&self) -> (r: OutputAssignment)
        ensures
            r == *self,
    {
        OutputAssignment { node_name: self.node_name.clone(), volume: self.volume }
    }
}

impl Clone for Preset {
    fn clone(&self) -> (r: Preset)
        ensures
            r@ == self@,
    {
        let chain = self.chain.clone();
        let outputs = self.outputs.clone();
        let source_inputs = self.source_inputs.clone();
        proof {
            assert forall|i: int| 0 <= i < chain@.len() implies (#[trigger] chain@[i])@
                == self.chain@[i]@ by {
                assert(cloned::<ChainNode>(self.chain@[i], chain@[i]));
            }
            assert forall|i: int| 0 <= i < outputs@.len() implies (#[trigger] outputs@[i])
                == self.outputs@[i] by {
                assert(cloned::<OutputAssignment>(self.outputs@[i], outputs@[i]));
            }
            assert forall|i: int| 0 <= i < source_inputs@.len() implies (
            #[trigger] source_inputs@[i]) == self.source_inputs@[i] by {
                assert(cloned::<String>(self.source_inputs@[i], source_inputs@[i]));
            }
            assert(chain_view(chain@) =~= chain_view(self.chain@));
            assert(outputs_view(outputs@) =~= outputs_view(self.outputs@));
            assert(text::texts(source_inputs@) =~= text::texts(self.source_inputs@));
        }
        Preset {
            id: self.id.clone(),
            name: self.name.clone(),
            chain,
            outputs,
            channels: self.channels,
            source_inputs,
        }
    }
}

/// The ids of the nodes of a chain, in order.
pub open spec fn chain_ids(chain: Seq<ChainView>) -> Seq<Seq<char>> {
    Seq::new(chain.len(), |i: int| chain[i].id)
}

/// The `n`th name for a chain node.
pub open spec fn chain_id(n: nat) -> Seq<char> {
    seq!['n'] + number::decimal(n)
}

/// `id` is the first name for a chain node that is not in use.
pub open spec fn is_next_chain_id(chain: Seq<ChainView>, id: Seq<char>) -> bool {
    exists|n: nat|
        id == #[trigger] chain_id(n) && !chain_ids(chain).contains(id) && forall|m: nat|
            m < n ==> chain_ids(chain).contains(#[trigger] chain_id(m))
}

/// A preset without effects and outputs.
pub open spec fn empty_preset(id: Seq<char>, name: Seq<char>) -> PresetView {
    PresetView {
        id,
        name,
        chain: Seq::empty(),
        outputs: Seq::empty(),
        channels: ChannelLayout::Stereo,
        source_inputs: Seq::empty(),
    }
}

/// The name in PipeWire of the virtual sink of the preset `id`.
pub open spec fn preset_node_name(id: Seq<char>) -> Seq<char> {
    "pw-ctrl.preset."@ + id
}

proof fn lemma_chain_ids_differ(a: nat, b: nat)
    requires
        chain_id(a) == chain_id(b),
    ensures
        a == b,
{
    assert(chain_id(a).skip(1) =~= number::decimal(a));
    assert(chain_id(b).skip(1) =~= number::decimal(b));
    number::decimal_injective(a, b);
}

/// There is always a first name for a chain node that is not in use, and not
/// two of them.
pub proof fn next_chain_id_exists(chain: Seq<ChainView>)
    ensures
        exists|n: nat| n <= chain.len() && !chain_ids(chain).contains(#[trigger] chain_id(n)),
        forall|a: Seq<char>, b: Seq<char>|
            is_next_chain_id(chain, a) && is_next_chain_id(chain, b) ==> a == b,
{
    let names = |n: nat| chain_id(n);
    assert forall|a: nat, b: nat| #[trigger] names(a) == #[trigger] names(b) implies a == b by {
        lemma_chain_ids_differ(a, b);
    }
    ids::some_name_is_free(names, chain_ids(chain));
    let n = choose|n: nat|
        n <= chain_ids(chain).len() && !chain_ids(chain).contains(#[trigger] names(n));
    assert(!chain_ids(chain).contains(chain_id(n)));
    assert forall|a: Seq<char>, b: Seq<char>|
        is_next_chain_id(chain, a) && is_next_chain_id(chain, b) implies a == b by {
        let na = choose|n: nat|
            a == #[trigger] chain_id(n) && forall|m: nat|
                m < n ==> chain_ids(chain).contains(#[trigger] chain_id(m));
        let nb = choose|n: nat|
            b == #[trigger] chain_id(n) && forall|m: nat|
                m < n ==> chain_ids(chain).contains(#[trigger] chain_id(m));
        if na < nb {
            assert(chain_ids(chain).contains(chain_id(na)));
        } else if nb < na {
            assert(chain_ids(chain).contains(chain_id(nb)));
        }
    }
}

impl Preset {
    pub fn new(name: &str) -> (r: Preset)
        ensures
            r@ == empty_preset(ids::id_of(order::lowercase(name@)), name@),
            ids::is_id(r@.id),
            order::ascii_is_lowered(name@),
    {
        let r = Preset {
            id: make_id(name),
            name: name.to_owned(),
            chain: Vec::new(),
            outputs: Vec::new(),
            channels: ChannelLayout::Stereo,
            source_inputs: Vec::new(),
        };
        assert(r@ =~= empty_preset(ids::id_of(order::lowercase(name@)), name@));
        r
    }

    /// Node name used in PipeWire for this preset's virtual sink.
    pub fn pw_node_name(&self) -> (r: String)
        ensures
            r@ == preset_node_name(self@.id),
    {
        let mut r = "pw-ctrl.preset.".to_owned();
        r.append(self.id.as_str());
        r
    }

    fn has_chain_id(&self, id: &str) -> (r: bool)
        ensures
            r == chain_ids(self@.chain).contains(id@),
    {
        for i in 0..self.chain.len()
            invariant
                forall|j: int| 0 <= j < i ==> chain_ids(self@.chain)[j] != id@,
        {
            assert(chain_ids(self@.chain)[i as int] == self.chain@[i as int].id@);
            if text::same_text(self.chain[i].id.as_str(), id) {
                return true;
            }
        }
        assert(chain_ids(self@.chain).len() == self.chain@.len());
        false
    }

    /// Generate a fresh chain-node id that doesn't collide with existing ones.
    pub fn next_chain_id(&self) -> (r: String)
        ensures
            is_next_chain_id(self@.chain, r@),
    {
        let mut n: u64 = 0;
        proof {
            next_chain_id_exists(self@.chain);
        }
        let ghost free = choose|n: nat|
            n <= self@.chain.len() && !chain_ids(self@.chain).contains(#[trigger] chain_id(n));
        let limit: usize = self.chain.len();
        loop
            invariant
                limit == self@.chain.len(),
                free <= limit,
                !chain_ids(self@.chain).contains(chain_id(free)),
                n <= free,
                forall|m: nat| m < n ==> chain_ids(self@.chain).contains(#[trigger] chain_id(m)),
            decreases free - n,
        {
            let mut id = "n".to_owned();
            number::push_decimal(&mut id, n);
            proof {
                reveal_strlit("n");
                assert("n"@ =~= seq!['n']);
                assert(id@ == chain_id(n as nat));
            }
            if !self.has_chain_id(id.as_str()) {
                return id;
            }
            assert(n != free);
            n += 1;
        }
    }
}

/// The id of the preset with the given name, which is also that of the name in
/// lower case.
pub fn make_id(name: &str) -> (r: String)
    ensures
        r@ == ids::id_of(order::lowercase(name@)),
        r@ == ids::id_of(order::lowercase(order::lowercase(name@))),
        order::is_ascii_text(name@) ==> r@ == ids::id_of(text::ascii_lower_all(name@)),
        order::ascii_is_lowered(name@),
        ids::is_id(r@),
        ids::is_id(name@) ==> r@ == name@,
{
    ids::to_id(name)
}

// ── Changes ──────────────────────────────────────────────────────────────────

/// No two nodes of a chain have the same id.
pub open spec fn distinct_chain_ids(chain: Seq<ChainView>) -> bool {
    forall|i: int, j: int|
        0 <= i < j < chain.len() ==> (#[trigger] chain[i]).id != (#[trigger] chain[j]).id
}

/// The controls of a chain node after one has been set.
pub open spec fn with_control(
    kind: ChainKindView,
    symbol: Seq<char>,
    value: Seq<char>,
) -> ChainKindView {
    match kind {
        ChainKindView::Lv2 { plugin_uri, controls } => ChainKindView::Lv2 {
            plugin_uri,
            controls: controls.insert(symbol, value),
        },
        ChainKindView::Builtin { label, controls } => ChainKindView::Builtin {
            label,
            controls: controls.insert(symbol, value),
        },
        ChainKindView::Ladspa { path, label, controls } => ChainKindView::Ladspa {
            path,
            label,
            controls: controls.insert(symbol, value),
        },
    }
}

/// Where a new node goes: at the position asked for, or else at the end.
pub open spec fn insert_position(position: Option<usize>, len: nat) -> int {
    match position {
        Some(p) => if p < len {
            p as int
        } else {
            len as int
        },
        None => len as int,
    }
}

/// Where a moved node goes: at the position asked for, or else last.
pub open spec fn move_position(to: usize, len: nat) -> int {
    if to < len {
        to as int
    } else {
        len - 1
    }
}

/// The chain with the node at `i` moved to `to`.
pub open spec fn moved(chain: Seq<ChainView>, i: int, to: int) -> Seq<ChainView> {
    chain.remove(i).insert(to, chain[i])
}

/// A move keeps the nodes of a chain, each as often as it was there.
pub proof fn move_keeps_nodes(chain: Seq<ChainView>, i: int, to: int)
    requires
        0 <= i < chain.len(),
        0 <= to < chain.len(),
    ensures
        moved(chain, i, to).to_multiset() == chain.to_multiset(),
        moved(chain, i, to)[to] == chain[i],
{
    let c = chain.remove(i);
    let x = chain[i];
    vstd::seq_lib::to_multiset_remove(chain, i);
    vstd::seq_lib::to_multiset_insert(c, to, x);
    assert(chain.to_multiset().contains(x)) by {
        vstd::seq_lib::to_multiset_contains(chain, x);
        assert(chain.contains(x));
    }
    assert(moved(chain, i, to).to_multiset() =~= chain.to_multiset());
}

/// Moving a node and moving it back changes nothing.
pub proof fn move_back(chain: Seq<ChainView>, i: int, to: int)
    requires
        0 <= i < chain.len(),
        0 <= to < chain.len(),
    ensures
        moved(moved(chain, i, to), to, i) == chain,
{
    let m = moved(chain, i, to);
    assert(m.remove(to) =~= chain.remove(i));
    assert(chain.remove(i).insert(i, chain[i]) =~= chain);
}

/// A node with the next free id leaves the ids distinct.
pub proof fn insert_keeps_ids_distinct(chain: Seq<ChainView>, pos: int, node: ChainView)
    requires
        distinct_chain_ids(chain),
        0 <= pos <= chain.len(),
        is_next_chain_id(chain, node.id),
    ensures
        distinct_chain_ids(chain.insert(pos, node)),
{
    let r = chain.insert(pos, node);
    assert forall|i: int, j: int| 0 <= i < j < r.len() implies (#[trigger] r[i]).id != (
    #[trigger] r[j]).id by {
        let oi = if i < pos { i } else { i - 1 };
        let oj = if j < pos { j } else { j - 1 };
        if i == pos {
            assert(chain_ids(chain)[oj] == r[j].id);
        } else if j == pos {
            assert(chain_ids(chain)[oi] == r[i].id);
        } else {
            assert(chain[oi].id != chain[oj].id);
        }
    }
}

/// Removing a node that has just been inserted undoes that.
pub proof fn remove_undoes_insert(chain: Seq<ChainView>, pos: int, node: ChainView)
    requires
        0 <= pos <= chain.len(),
    ensures
        chain.insert(pos, node)[pos] == node,
        chain.insert(pos, node).remove(pos) == chain,
{
    assert(chain.insert(pos, node).remove(pos) =~= chain);
}

/// Removing a node leaves the ids distinct.
pub proof fn remove_keeps_ids_distinct(chain: Seq<ChainView>, pos: int)
    requires
        distinct_chain_ids(chain),
        0 <= pos < chain.len(),
    ensures
        distinct_chain_ids(chain.remove(pos)),
{
    let r = chain.remove(pos);
    assert forall|i: int, j: int| 0 <= i < j < r.len() implies (#[trigger] r[i]).id != (
    #[trigger] r[j]).id by {
        let oi = if i < pos { i } else { i + 1 };
        let oj = if j < pos { j } else { j + 1 };
        assert(chain[oi].id != chain[oj].id);
    }
}

/// Moving a node leaves the ids distinct.
pub proof fn move_keeps_ids_distinct(chain: Seq<ChainView>, i: int, to: int)
    requires
        distinct_chain_ids(chain),
        0 <= i < chain.len(),
        0 <= to < chain.len(),
    ensures
        distinct_chain_ids(moved(chain, i, to)),
{
    let c = chain.remove(i);
    remove_keeps_ids_distinct(chain, i);
    let r = moved(chain, i, to);
    assert forall|a: int, b: int| 0 <= a < b < r.len() implies (#[trigger] r[a]).id != (
    #[trigger] r[b]).id by {
        let oa = if a < to { a } else { a - 1 };
        let ob = if b < to { b } else { b - 1 };
        if a == to {
            let k = if ob < i { ob } else { ob + 1 };
            assert(chain[k] == c[ob]);
            assert(chain[k].id != chain[i].id);
        } else if b == to {
            let k = if oa < i { oa } else { oa + 1 };
            assert(chain[k] == c[oa]);
            assert(chain[k].id != chain[i].id);
        } else {
            assert(c[oa].id != c[ob].id);
        }
    }
}

impl Preset {
    pub fn add_output(&mut self, node_name: String, volume: Level)
        ensures
            final(self)@ == (PresetView {
                outputs: old(self)@.outputs.push(OutputView { node_name: node_name@, volume }),
                ..old(self)@
            }),
    {
        self.outputs.push(OutputAssignment { node_name, volume });
        assert(self@.outputs =~= old(self)@.outputs.push(
            OutputView { node_name: node_name@, volume },
        ));
    }

    /// Removes the output at `idx`; tells whether there was one.
    pub fn remove_output(&mut self, idx: usize) -> (r: bool)
        ensures
            r == (idx < old(self)@.outputs.len()),
            final(self)@ == (if r {
                PresetView { outputs: old(self)@.outputs.remove(idx as int), ..old(self)@ }
            } else {
                old(self)@
            }),
    {
        if idx >= self.outputs.len() {
            return false;
        }
        self.outputs.remove(idx);
        assert(self@.outputs =~= old(self)@.outputs.remove(idx as int));
        true
    }

    /// Sets the volume of the output at `idx`; tells whether there is one.
    pub fn set_output_volume(&mut self, idx: usize, volume: Level) -> (r: bool)
        ensures
            r == (idx < old(self)@.outputs.len()),
            final(self)@ == (if r {
                PresetView {
                    outputs: old(self)@.outputs.update(
                        idx as int,
                        OutputView { volume, ..old(self)@.outputs[idx as int] },
                    ),
                    ..old(self)@
                }
            } else {
                old(self)@
            }),
    {
        if idx >= self.outputs.len() {
            return false;
        }
        self.outputs[idx].volume = volume;
        assert(self@.outputs =~= old(self)@.outputs.update(
            idx as int,
            OutputView { volume, ..old(self)@.outputs[idx as int] },
        ));
        true
    }

    /// Adds a source input, unless it is there; tells whether it was added.
    pub fn add_source_input(&mut self, node_name: String) -> (r: bool)
        ensures
            r == !old(self)@.source_inputs.contains(node_name@),
            final(self)@ == (if r {
                PresetView {
                    source_inputs: old(self)@.source_inputs.push(node_name@),
                    ..old(self)@
                }
            } else {
                old(self)@
            }),
    {
        if text::is_among(self.source_inputs.as_slice(), node_name.as_str()) {
            return false;
        }
        self.source_inputs.push(node_name);
        assert(self@.source_inputs =~= old(self)@.source_inputs.push(node_name@));
        true
    }

    /// Removes the source input at `idx`; tells whether there was one.
    pub fn remove_source_input(&mut self, idx: usize) -> (r: bool)
        ensures
            r == (idx < old(self)@.source_inputs.len()),
            final(self)@ == (if r {
                PresetView {
                    source_inputs: old(self)@.source_inputs.remove(idx as int),
                    ..old(self)@
                }
            } else {
                old(self)@
            }),
    {
        if idx >= self.source_inputs.len() {
            return false;
        }
        self.source_inputs.remove(idx);
        assert(self@.source_inputs =~= old(self)@.source_inputs.remove(idx as int));
        true
    }

    /// Inserts a node under the next free id; tells where it stands.
    pub fn insert_node(
        &mut self,
        kind: ChainNodeKind,
        position: Option<usize>,
        label: Option<String>,
    ) -> (r: usize)
        ensures
            r == insert_position(position, old(self)@.chain.len()),
            exists|id: Seq<char>| #[trigger]
                is_next_chain_id(old(self)@.chain, id) && final(self)@ == (PresetView {
                    chain: old(self)@.chain.insert(
                        r as int,
                        ChainView { id, label: text::opt_text(label), bypass: false, kind: kind@ },
                    ),
                    ..old(self)@
                }),
            distinct_chain_ids(old(self)@.chain) ==> distinct_chain_ids(final(self)@.chain),
    {
        let id = self.next_chain_id();
        let len: usize = self.chain.len();
        let pos: usize = match position {
            Some(p) => if p < len {
                p
            } else {
                len
            },
            None => len,
        };
        let node = ChainNode { id, label, bypass: false, kind };
        let ghost v = node@;
        self.chain.insert(pos, node);
        proof {
            assert(self@.chain =~= old(self)@.chain.insert(pos as int, v));
            if distinct_chain_ids(old(self)@.chain) {
                insert_keeps_ids_distinct(old(self)@.chain, pos as int, v);
            }
            assert(is_next_chain_id(old(self)@.chain, v.id));
        }
        pos
    }

    /// Removes the node at `idx`; tells whether there was one.
    pub fn remove_node(&mut self, idx: usize) -> (r: bool)
        ensures
            r == (idx < old(self)@.chain.len()),
            final(self)@ == (if r {
                PresetView { chain: old(self)@.chain.remove(idx as int), ..old(self)@ }
            } else {
                old(self)@
            }),
            distinct_chain_ids(old(self)@.chain) ==> distinct_chain_ids(final(self)@.chain),
    {
        if idx >= self.chain.len() {
            return false;
        }
        self.chain.remove(idx);
        proof {
            assert(self@.chain =~= old(self)@.chain.remove(idx as int));
            if distinct_chain_ids(old(self)@.chain) {
                remove_keeps_ids_distinct(old(self)@.chain, idx as int);
            }
        }
        true
    }

    /// Moves the node at `idx` to `to`; tells whether there is one.
    pub fn move_node(&mut self, idx: usize, to: usize) -> (r: bool)
        ensures
            r == (idx < old(self)@.chain.len()),
            final(self)@ == (if r {
                PresetView {
                    chain: moved(
                        old(self)@.chain,
                        idx as int,
                        move_position(to, old(self)@.chain.len()),
                    ),
                    ..old(self)@
                }
            } else {
                old(self)@
            }),
            r ==> ({
                let last = old(self)@.chain.len() - 1;
                let at = if to <= last {
                    to as int
                } else {
                    last
                };
                final(self)@.chain[at] == old(self)@.chain[idx as int] && final(self)@.chain.remove(
                    at,
                ) == old(self)@.chain.remove(idx as int)
            }),
            distinct_chain_ids(old(self)@.chain) ==> distinct_chain_ids(final(self)@.chain),
    {
        let len: usize = self.chain.len();
        if idx >= len {
            return false;
        }
        let to: usize = if to < len {
            to
        } else {
            len - 1
        };
        let node = self.chain.remove(idx);
        self.chain.insert(to, node);
        proof {
            assert(self@.chain =~= moved(old(self)@.chain, idx as int, to as int));
            assert(self@.chain.remove(to as int) =~= old(self)@.chain.remove(idx as int));
            if distinct_chain_ids(old(self)@.chain) {
                move_keeps_ids_distinct(old(self)@.chain, idx as int, to as int);
            }
        }
        true
    }

    /// Sets a control of the node at `idx`; tells whether there is one.
    pub fn set_control(&mut self, idx: usize, symbol: String, value: Number) -> (r: bool)
        ensures
            r == (idx < old(self)@.chain.len()),
            final(self)@ == (if r {
                let node = old(self)@.chain[idx as int];
                PresetView {
                    chain: old(self)@.chain.update(
                        idx as int,
                        ChainView { kind: with_control(node.kind, symbol@, value@), ..node },
                    ),
                    ..old(self)@
                }
            } else {
                old(self)@
            }),
            distinct_chain_ids(old(self)@.chain) ==> distinct_chain_ids(final(self)@.chain),
    {
        if idx >= self.chain.len() {
            return false;
        }
        self.chain[idx].kind.set_control(symbol, value);
        proof {
            let node = old(self)@.chain[idx as int];
            assert(self@.chain =~= old(self)@.chain.update(
                idx as int,
                ChainView { kind: with_control(node.kind, symbol@, value@), ..node },
            ));
            assert(forall|i: int|
                0 <= i < self@.chain.len() ==> (#[trigger] self@.chain[i]).id
                    == old(self)@.chain[i].id);
        }
        true
    }

    /// Bypasses the node at `idx` or puts it back; tells whether there is one.
    pub fn set_bypass(&mut self, idx: usize, bypass: bool) -> (r: bool)
        ensures
            r == (idx < old(self)@.chain.len()),
            final(self)@ == (if r {
                PresetView {
                    chain: old(self)@.chain.update(
                        idx as int,
                        ChainView { bypass, ..old(self)@.chain[idx as int] },
                    ),
                    ..old(self)@
                }
            } else {
                old(self)@
            }),
            distinct_chain_ids(old(self)@.chain) ==> distinct_chain_ids(final(self)@.chain),
    {
        if idx >= self.chain.len() {
            return false;
        }
        self.chain[idx].bypass = bypass;
        proof {
            assert(self@.chain =~= old(self)@.chain.update(
                idx as int,
                ChainView { bypass, ..old(self)@.chain[idx as int] },
            ));
            assert(forall|i: int|
                0 <= i < self@.chain.len() ==> (#[trigger] self@.chain[i]).id
                    == old(self)@.chain[i].id);
        }
        true
    }

    /// Sets the label of the node at `idx`; tells whether there is one.
    pub fn set_label(&mut self, idx: usize, label: Option<String>) -> (r: bool)
        ensures
            r == (idx < old(self)@.chain.len()),
            final(self)@ == (if r {
                PresetView {
                    chain: old(self)@.chain.update(
                        idx as int,
                        ChainView {
                            label: text::opt_text(label),
                            ..old(self)@.chain[idx as int]
                        },
                    ),
                    ..old(self)@
                }
            } else {
                old(self)@
            }),
            distinct_chain_ids(old(self)@.chain) ==> distinct_chain_ids(final(self)@.chain),
    {
        if idx >= self.chain.len() {
            return false;
        }
        self.chain[idx].label = label;
        proof {
            assert(self@.chain =~= old(self)@.chain.update(
                idx as int,
                ChainView { label: text::opt_text(label), ..old(self)@.chain[idx as int] },
            ));
            assert(forall|i: int|
                0 <= i < self@.chain.len() ==> (#[trigger] self@.chain[i]).id
                    == old(self)@.chain[i].id);
        }
        true
    }
}

proof fn lemma_number_values_insert(m: Map<Seq<char>, Number>, k: Seq<char>, v: Number)
    ensures
        number_values(m.insert(k, v)) == number_values(m).insert(k, v@),
{
    assert(number_values(m.insert(k, v)) =~= number_values(m).insert(k, v@));
}

impl ChainNodeKind {
    /// Sets a control.
    pub fn set_control(&mut self, symbol: String, value: Number)
        ensures
            final(self)@ == with_control(old(self)@, symbol@, value@),
    {
        match self {
            ChainNodeKind::Lv2 { controls, .. } => {
                proof {
                    lemma_number_values_insert(controls@, symbol@, value);
                }
                controls.insert(symbol, value);
            },
            ChainNodeKind::Builtin { controls, .. } => {
                proof {
                    lemma_number_values_insert(controls@, symbol@, value);
                }
                controls.insert(symbol, value);
            },
            ChainNodeKind::Ladspa { controls, .. } => {
                proof {
                    lemma_number_values_insert(controls@, symbol@, value);
                }
                controls.insert(symbol, value);
            },
        }
    }
}

// ── What changes do ──────────────────────────────────────────────────────────

/// A node that is moved stands where it was asked to stand, or last where the chain
/// is not that long; the other nodes keep their order.
pub proof fn moved_node_stands_where_asked(chain: Seq<ChainView>, i: int, to: usize)
    requires
        0 <= i < chain.len(),
    ensures
        ({
            let r = moved(chain, i, move_position(to, chain.len()));
            let last = chain.len() - 1;
            &&& r.len() == chain.len()
            &&& to <= last ==> r[to as int] == chain[i] && r.remove(to as int) == chain.remove(i)
            &&& to >= last ==> r.last() == chain[i] && r.drop_last() == chain.remove(i)
        }),
{
    let to_at = move_position(to, chain.len());
    let r = moved(chain, i, to_at);
    assert(r.remove(to_at) =~= chain.remove(i));
    assert(r.drop_last() =~= r.remove(r.len() - 1));
}

/// Nodes on one side of both places stay where they are, and those between them
/// give way by one place.
pub proof fn move_shifts_those_between(chain: Seq<ChainView>, i: int, to: usize, j: int)
    requires
        0 <= i < chain.len(),
        to < chain.len(),
        0 <= j < chain.len(),
        j != i,
    ensures
        ({
            let r = moved(chain, i, move_position(to, chain.len()));
            &&& i < j <= to ==> r[j - 1] == chain[j]
            &&& to <= j < i ==> r[j + 1] == chain[j]
            &&& (j < i && j < to) || (j > i && j > to) ==> r[j] == chain[j]
        }),
{
}

/// A new node stands where it was asked to stand, and last where nothing was asked
/// or the chain is not that long.
pub proof fn new_node_stands_where_asked(position: Option<usize>, len: nat)
    ensures
        position is None ==> insert_position(position, len) == len,
        position matches Some(p) ==> (p <= len ==> insert_position(position, len) == p),
        position matches Some(p) ==> (p >= len ==> insert_position(position, len) == len),
{
}

/// The controls of a node, of whatever kind.
pub open spec fn controls_of(kind: ChainKindView) -> Map<Seq<char>, Seq<char>> {
    match kind {
        ChainKindView::Lv2 { controls, .. } => controls,
        ChainKindView::Builtin { controls, .. } => controls,
        ChainKindView::Ladspa { controls, .. } => controls,
    }
}

/// A control that has been set has the value, whatever the kind of the node; every
/// other control is as it was, and the plugin is the same.
pub proof fn set_control_is_told(
    kind: ChainKindView,
    symbol: Seq<char>,
    value: Seq<char>,
    other: Seq<char>,
)
    requires
        other != symbol,
    ensures
        ({
            let was = controls_of(kind);
            let r = with_control(kind, symbol, value);
            let now = controls_of(r);
            &&& now.contains_key(symbol) && now[symbol] == value
            &&& now.contains_key(other) == was.contains_key(other)
            &&& was.contains_key(other) ==> now[other] == was[other]
            &&& kind matches ChainKindView::Lv2 { plugin_uri, .. } ==> r is Lv2
                && r->Lv2_plugin_uri == plugin_uri
            &&& kind matches ChainKindView::Builtin { label, .. } ==> r is Builtin
                && r->Builtin_label == label
            &&& kind matches ChainKindView::Ladspa { path, label, .. } ==> r is Ladspa
                && r->Ladspa_path == path && r->Ladspa_label == label
        }),
{
}

/// Of two values set one after the other for the same control the second counts,
/// and values of different controls do not meet.
pub proof fn controls_are_set_apart(
    kind: ChainKindView,
    a: Seq<char>,
    va: Seq<char>,
    b: Seq<char>,
    vb: Seq<char>,
)
    ensures
        a == b ==> with_control(with_control(kind, a, va), b, vb) == with_control(kind, b, vb),
        a != b ==> with_control(with_control(kind, a, va), b, vb) == with_control(
            with_control(kind, b, vb),
            a,
            va,
        ),
{
    let was = controls_of(kind);
    if a == b {
        assert(was.insert(a, va).insert(b, vb) =~= was.insert(b, vb));
    } else {
        assert(was.insert(a, va).insert(b, vb) =~= was.insert(b, vb).insert(a, va));
    }
}

/// The next id is `n` with a number that is at most the length of the chain; it is
/// not in use, and the ids with a smaller number are.
pub proof fn next_chain_id_is_the_smallest(chain: Seq<ChainView>, id: Seq<char>)
    requires
        is_next_chain_id(chain, id),
    ensures
        forall|i: int| 0 <= i < chain.len() ==> (#[trigger] chain[i]).id != id,
        exists|n: nat|
            n <= chain.len() && id == seq!['n'] + #[trigger] number::decimal(n) && forall|m: nat|
                m < n ==> chain_ids(chain).contains(seq!['n'] + #[trigger] number::decimal(m)),
{
    let ids = chain_ids(chain);
    assert forall|i: int| 0 <= i < chain.len() implies (#[trigger] chain[i]).id != id by {
        assert(ids[i] == chain[i].id);
    }
    let n = choose|n: nat|
        id == #[trigger] chain_id(n) && !ids.contains(id) && forall|m: nat|
            m < n ==> ids.contains(#[trigger] chain_id(m));
    next_chain_id_exists(chain);
    let free = choose|n: nat| n <= chain.len() && !ids.contains(#[trigger] chain_id(n));
    assert(n <= free);
    assert(id == seq!['n'] + number::decimal(n));
    assert forall|m: nat| m < n implies ids.contains(seq!['n'] + #[trigger] number::decimal(m)) by {
        assert(ids.contains(chain_id(m)));
    }
}

/// A new preset has its id and name, is in stereo and has nothing else.
pub proof fn new_preset_is_bare(id: Seq<char>, name: Seq<char>)
    ensures
        ({
            let p = empty_preset(id, name);
            &&& p.id == id && p.name == name
            &&& p.chain.len() == 0 && p.outputs.len() == 0 && p.source_inputs.len() == 0
            &&& p.channels == ChannelLayout::Stereo
        }),
{
}

/// The name of a preset's sink begins with `pw-ctrl.preset.` and ends in its id, so
/// different presets have different sinks.
pub proof fn sinks_have_names_of_their_own(a: Seq<char>, b: Seq<char>)
    ensures
        text::strip_prefix(preset_node_name(a), "pw-ctrl.preset."@) == Some(a),
        preset_node_name(a) == preset_node_name(b) ==> a == b,
{
    let p = "pw-ctrl.preset."@;
    let n = p.len() as int;
    assert(preset_node_name(a).take(n) =~= p);
    assert(preset_node_name(a).skip(n) =~= a);
    assert(preset_node_name(b).skip(n) =~= b);
}

/// How many spaces there are among the first `n` characters.
pub open spec fn spaces(s: Seq<char>, n: nat) -> nat
    decreases n,
{
    if n == 0 {
        0
    } else {
        spaces(s, (n - 1) as nat) + if s[n - 1] == ' ' {
            1nat
        } else {
            0nat
        }
    }
}

/// The positions of a layout name as many channels as it has.
pub proof fn positions_match_channels(l: ChannelLayout)
    ensures
        ({
            let p = channel_position(l);
            &&& p.len() > 4 && p[0] == '[' && p.last() == ']'
            &&& spaces(p, p.len()) == channel_count(l) + 1
        }),
        l == ChannelLayout::Mono <==> channel_count(l) == 1,
        l == ChannelLayout::Stereo <==> channel_count(l) == 2,
        l == ChannelLayout::Surround51 <==> channel_count(l) == 6,
        l == ChannelLayout::Surround71 <==> channel_count(l) == 8,
        text::find(channel_position(l), "MONO"@) is Some <==> l == ChannelLayout::Mono,
{
    reveal_strlit("[ MONO ]");
    reveal_strlit("[ FL FR ]");
    reveal_strlit("[ FL FR FC LFE RL RR ]");
    reveal_strlit("[ FL FR FC LFE RL RR SL SR ]");
    reveal_strlit("MONO");
    let p = channel_position(l);
    assert(spaces(p, p.len()) == channel_count(l) + 1) by {
        reveal_with_fuel(spaces, 30);
    }
    text::lemma_find_from(p, "MONO"@, 0);
    match l {
        ChannelLayout::Mono => {
            assert(p.subrange(2, 6) =~= "MONO"@);
            assert(text::occurs_at(p, "MONO"@, 2));
        },
        _ => {
            assert forall|i: int| 0 <= i && i + 4 <= p.len() implies !text::occurs_at(
                p,
                "MONO"@,
                i,
            ) by {
                if text::occurs_at(p, "MONO"@, i) {
                    assert(p.subrange(i, i + 4)[0] == 'M');
                    assert(p[i] == 'M');
                }
            }
        },
    }
}

/// A preset, an output and a node of a chain say what their fields hold, each for
/// itself.
pub proof fn presets_say_their_fields(p: Preset, o: OutputAssignment, n: ChainNode, i: int)
    ensures
        p@.id == p.id@ && p@.name == p.name@ && p@.channels == p.channels,
        p@.chain.len() == p.chain@.len() && p@.outputs.len() == p.outputs@.len(),
        p@.source_inputs.len() == p.source_inputs@.len(),
        0 <= i < p.chain@.len() ==> p@.chain[i] == p.chain@[i]@,
        0 <= i < p.outputs@.len() ==> p@.outputs[i] == p.outputs@[i]@,
        0 <= i < p.source_inputs@.len() ==> p@.source_inputs[i] == p.source_inputs@[i]@,
        o@.node_name == o.node_name@ && o@.volume == o.volume,
        n@.id == n.id@ && n@.bypass == n.bypass && n@.kind == n.kind@,
        n.label matches Some(s) ==> n@.label == Some(s@),
        n.label is None <==> n@.label is None,
        n.kind matches ChainNodeKind::Lv2 { plugin_uri, controls } ==> n@.kind == (
        ChainKindView::Lv2 { plugin_uri: plugin_uri@, controls: number_values(controls@) }),
        n.kind matches ChainNodeKind::Ladspa { path, label, controls } ==> n@.kind == (
        ChainKindView::Ladspa {
            path: path@,
            label: label@,
            controls: number_values(controls@),
        }),
        n.kind matches ChainNodeKind::Builtin { label, controls } ==> n@.kind == (
        ChainKindView::Builtin { label: label@, controls: number_values(controls@) }),
{
}

/// The controls that a node tells are those that it has, each with its literal.
pub proof fn control_values_are_literals(m: Map<Seq<char>, Number>, k: Seq<char>)
    ensures
        number_values(m).contains_key(k) == m.contains_key(k),
        m.contains_key(k) ==> number_values(m)[k] == m[k]@,
{
}

/// The channels are named front, center, low frequencies, rear and side, each left one
/// before the right one; a larger layout goes on where a smaller one ends.
pub proof fn channels_are_named_in_order(l: ChannelLayout)
    ensures
        l == ChannelLayout::Mono ==> channel_position(l) == "[ MONO ]"@,
        channel_position(ChannelLayout::Stereo) == "[ FL FR"@ + " ]"@,
        channel_position(ChannelLayout::Surround51) == "[ FL FR"@ + " FC LFE RL RR"@ + " ]"@,
        channel_position(ChannelLayout::Surround71) == "[ FL FR"@ + " FC LFE RL RR"@ + " SL SR"@
            + " ]"@,
{
    reveal_strlit("[ FL FR");
    reveal_strlit(" ]");
    reveal_strlit(" FC LFE RL RR");
    reveal_strlit(" SL SR");
    reveal_strlit("[ FL FR ]");
    reveal_strlit("[ FL FR FC LFE RL RR ]");
    reveal_strlit("[ FL FR FC LFE RL RR SL SR ]");
    assert("[ FL FR ]"@ =~= "[ FL FR"@ + " ]"@);
    assert("[ FL FR FC LFE RL RR ]"@ =~= "[ FL FR"@ + " FC LFE RL RR"@ + " ]"@);
    assert("[ FL FR FC LFE RL RR SL SR ]"@ =~= "[ FL FR"@ + " FC LFE RL RR"@ + " SL SR"@ + " ]"@);
}

/// Where the ids of a chain are distinct, no two nodes of it have the same id.
pub proof fn distinct_ids_differ(chain: Seq<ChainView>, i: int, j: int)
    ensures
        distinct_chain_ids(chain) && 0 <= i < chain.len() && 0 <= j < chain.len() && chain[i].id
            == chain[j].id ==> i == j,
        !distinct_chain_ids(chain) ==> exists|a: int, b: int|
            0 <= a < b < chain.len() && (#[trigger] chain[a]).id == (#[trigger] chain[b]).id,
{
}

} // verus!
