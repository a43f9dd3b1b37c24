//! What the requests of clients do to the virtual mics.

use vstd::prelude::*;
use crate::ids;
use crate::level::Level;
use crate::order;
use crate::preset;
use crate::preset::Preset;
use crate::state;
use crate::state::{AppState, Status};
use crate::text;
use crate::virtual_mic;
use crate::virtual_mic::VirtualMic;

verus! {

/// The state with a new virtual mic.
pub open spec fn mic_added(s: state::AppView, id: Seq<char>, name: Seq<char>) -> state::AppView {
    state::AppView {
        virtual_mics: s.virtual_mics.push(
            virtual_mic::MicView { id, name, inputs: Seq::empty() },
        ),
        ..s
    }
}

/// A virtual mic that has been created is found, behind the others and as it was
/// created; every other id leads where it did.
pub proof fn created_mic_is_found(
    s: state::AppView,
    id: Seq<char>,
    name: Seq<char>,
    other: Seq<char>,
)
    requires
        s.mic(id) is None,
        other != id,
    ensures
        mic_added(s, id, name).mic(id) == Some(s.virtual_mics.len() as int),
        mic_added(s, id, name).virtual_mics[s.virtual_mics.len() as int] == (
        virtual_mic::MicView { id, name, inputs: Seq::empty() }),
        mic_added(s, id, name).mic(other) == s.mic(other),
{
    let t = mic_added(s, id, name);
    let was = state::mic_ids(s.virtual_mics);
    assert(state::mic_ids(t.virtual_mics) =~= was.push(id));
    state::lemma_id_from_push(was, id, id, 0);
    state::lemma_id_from_push(was, id, other, 0);
}

impl AppState {
    /// The virtual mic `id`.
    pub fn get_virtual_mic(&self, id: &str) -> (r: Result<&VirtualMic, Status>)
        ensures
            match r {
                Ok(m) => self@.mic(id@) matches Some(i) && m@ == self@.virtual_mics[i],
                Err(e) => self@.mic(id@) is None && e == Status::NotFound,
            },
    {
        match self.find_mic(id) {
            Some(i) => Ok(&self.virtual_mics[i]),
            None => Err(Status::NotFound),
        }
    }

    /// Adds the virtual mic `id`, unless there is one of that id.
    pub fn add_virtual_mic(&mut self, id: String, name: String) -> (r: Result<usize, Status>)
        ensures
            match r {
                Ok(i) => old(self)@.mic(id@) is None && i == old(self)@.virtual_mics.len()
                    && final(self)@ == mic_added(old(self)@, id@, name@),
                Err(e) => old(self)@.mic(id@) is Some && e == Status::Conflict && final(self)@
                    == old(self)@,
            },
            old(self)@.consistent() ==> final(self)@.consistent(),
    {
        if self.find_mic(id.as_str()).is_some() {
            return Err(Status::Conflict);
        }
        let i: usize = self.virtual_mics.len();
        let m = VirtualMic { id, name, inputs: Vec::new() };
        let ghost v = m@;
        self.virtual_mics.push(m);
        proof {
            assert(v.inputs =~= Seq::<virtual_mic::InputView>::empty());
            assert(self@.virtual_mics =~= old(self)@.virtual_mics.push(v));
            state::lemma_id_from(state::mic_ids(old(self)@.virtual_mics), id@, 0);
            assert(state::mic_ids(self@.virtual_mics) =~= state::mic_ids(
                old(self)@.virtual_mics,
            ).push(id@));
        }
        Ok(i)
    }

    /// Creates a virtual mic, unless there is one of the same id; tells where it
    /// stands.
    pub fn create_virtual_mic(&mut self, name: String) -> (r: Result<(Status, usize), Status>)
        ensures
            ({
                let id = ids::id_of(order::lowercase(name@));
                match r {
                    Ok((status, i)) => status == Status::Created && old(self)@.mic(id) is None
                        && i == old(self)@.virtual_mics.len() && final(self)@ == mic_added(old(self)@, id, name@),
                    Err(e) => old(self)@.mic(id) is Some && e == Status::Conflict && final(self)@
                        == old(self)@,
                }
            }),
            order::ascii_is_lowered(name@),
            old(self)@.consistent() ==> final(self)@.consistent(),
    {
        let id = virtual_mic::make_mic_id(name.as_str());
        match self.add_virtual_mic(id, name) {
            Ok(i) => Ok((Status::Created, i)),
            Err(e) => Err(e),
        }
    }

    /// Deletes the virtual mic `id`, whether or not there is one.
    pub fn delete_virtual_mic(&mut self, id: &str) -> (r: Status)
        ensures
            r == Status::NoContent,
            final(self)@ == (state::AppView {
                virtual_mics: state::mics_without(old(self)@.virtual_mics, id@),
                ..old(self)@
            }),
            old(self)@.consistent() ==> final(self)@.consistent(),
    {
        let ghost v = self@.virtual_mics;
        let ghost keep = |m: virtual_mic::MicView| m.id != id@;
        let mut rest: Vec<VirtualMic> = Vec::new();
        core::mem::swap(&mut rest, &mut self.virtual_mics);
        let mut kept: Vec<VirtualMic> = Vec::new();
        proof {
            reveal(Seq::filter);
            assert(state::mics_view(kept@) =~= v.take(0).filter(keep));
            assert(state::mics_view(rest@) =~= v.skip(0));
        }
        while rest.len() > 0
            invariant
                keep == (|m: virtual_mic::MicView| m.id != id@),
                rest@.len() <= v.len(),
                state::mics_view(rest@) == v.skip(v.len() - rest@.len()),
                state::mics_view(kept@) == v.take(v.len() - rest@.len()).filter(keep),
            decreases rest@.len(),
        {
            let ghost n = v.len() - rest@.len();
            let ghost before = state::mics_view(rest@);
            let ghost done = state::mics_view(kept@);
            let m = rest.remove(0);
            proof {
                reveal(Seq::filter);
                assert(before[0] == m@);
                assert(v[n] == m@);
                assert(state::mics_view(rest@) =~= before.skip(1));
                assert(before.skip(1) =~= v.skip(n + 1));
                assert(v.take(n + 1).drop_last() =~= v.take(n));
            }
            if !text::same_text(m.id.as_str(), id) {
                kept.push(m);
                assert(state::mics_view(kept@) =~= done.push(m@));
            }
        }
        self.virtual_mics = kept;
        proof {
            assert(v.take(v.len() as int) =~= v);
            state::deleted_mic_is_gone(old(self)@, id@);
        }
        Status::NoContent
    }

    /// Renames a virtual mic; its id stays.
    pub fn update_virtual_mic(&mut self, id: &str, name: Option<String>) -> (r: Status)
        ensures
            match old(self)@.mic(id@) {
                Some(i) => r == Status::Success && final(self)@ == old(self)@.with_mic(
                    i,
                    virtual_mic::MicView {
                        name: state::or_else(text::opt_text(name), old(self)@.virtual_mics[i].name),
                        ..old(self)@.virtual_mics[i]
                    },
                ),
                None => r == Status::NotFound && final(self)@ == old(self)@,
            },
            old(self)@.consistent() ==> final(self)@.consistent(),
    {
        match self.find_mic(id) {
            Some(i) => {
                if let Some(name) = name {
                    self.virtual_mics[i].name = name;
                }
                proof {
                    let q = self.virtual_mics@[i as int]@;
                    assert(self@.virtual_mics =~= old(self)@.virtual_mics.update(i as int, q));
                    state::lemma_with_mic(old(self)@, i as int, q);
                }
                Status::Success
            },
            None => Status::NotFound,
        }
    }

    /// Adds an input to a virtual mic.
    pub fn add_mic_input(&mut self, id: &str, node_name: String, gain: Level) -> (r: Status)
        ensures
            match old(self)@.mic(id@) {
                Some(i) => r == Status::Success && final(self)@ == old(self)@.with_mic(
                    i,
                    virtual_mic::MicView {
                        inputs: old(self)@.virtual_mics[i].inputs.push(
                            virtual_mic::InputView { node_name: node_name@, gain },
                        ),
                        ..old(self)@.virtual_mics[i]
                    },
                ),
                None => r == Status::NotFound && final(self)@ == old(self)@,
            },
            old(self)@.consistent() ==> final(self)@.consistent(),
    {
        match self.find_mic(id) {
            Some(i) => {
                self.virtual_mics[i].add_input(node_name, gain);
                proof {
                    let q = self.virtual_mics@[i as int]@;
                    assert(self@.virtual_mics =~= old(self)@.virtual_mics.update(i as int, q));
                    state::lemma_with_mic(old(self)@, i as int, q);
                }
                Status::Success
            },
            None => Status::NotFound,
        }
    }

    /// Removes an input of a virtual mic.
    pub fn remove_mic_input(&mut self, id: &str, idx: usize) -> (r: Status)
        ensures
            match old(self)@.mic(id@) {
                Some(i) => if idx < old(self)@.virtual_mics[i].inputs.len() {
                    r == Status::Success && final(self)@ == old(self)@.with_mic(
                        i,
                        virtual_mic::MicView {
                            inputs: old(self)@.virtual_mics[i].inputs.remove(idx as int),
                            ..old(self)@.virtual_mics[i]
                        },
                    )
                } else {
                    r == Status::NotFound && final(self)@ == old(self)@
                },
                None => r == Status::NotFound && final(self)@ == old(self)@,
            },
            old(self)@.consistent() ==> final(self)@.consistent(),
    {
        match self.find_mic(id) {
            Some(i) => {
                let done = self.virtual_mics[i].remove_input(idx);
                proof {
                    let q = self.virtual_mics@[i as int]@;
                    assert(self@.virtual_mics =~= old(self)@.virtual_mics.update(i as int, q));
                    assert(!done ==> self@ =~= old(self)@);
                    state::lemma_with_mic(old(self)@, i as int, q);
                }
                if done {
                    Status::Success
                } else {
                    Status::NotFound
                }
            },
            None => Status::NotFound,
        }
    }

    /// Sets the gain of an input of a virtual mic.
    pub fn update_mic_input_gain(&mut self, id: &str, idx: usize, gain: Level) -> (r: Status)
        ensures
            match old(self)@.mic(id@) {
                Some(i) => if idx < old(self)@.virtual_mics[i].inputs.len() {
                    r == Status::Success && final(self)@ == old(self)@.with_mic(
                        i,
                        virtual_mic::MicView {
                            inputs: old(self)@.virtual_mics[i].inputs.update(
                                idx as int,
                                virtual_mic::InputView { gain, ..old(self)@.virtual_mics[i].inputs[idx as int] },
                            ),
                            ..old(self)@.virtual_mics[i]
                        },
                    )
                } else {
                    r == Status::NotFound && final(self)@ == old(self)@
                },
                None => r == Status::NotFound && final(self)@ == old(self)@,
            },
            old(self)@.consistent() ==> final(self)@.consistent(),
    {
        match self.find_mic(id) {
            Some(i) => {
                let done = self.virtual_mics[i].set_input_gain(idx, gain);
                proof {
                    let q = self.virtual_mics@[i as int]@;
                    assert(self@.virtual_mics =~= old(self)@.virtual_mics.update(i as int, q));
                    assert(!done ==> self@ =~= old(self)@);
                    state::lemma_with_mic(old(self)@, i as int, q);
                }
                if done {
                    Status::Success
                } else {
                    Status::NotFound
                }
            },
            None => Status::NotFound,
        }
    }
}

// ── Remapping ────────────────────────────────────────────────────────────────

/// How a request to remap a virtual mic is answered.
pub enum RemapAnswer {
    NotFound,
    /// The name of the mic gives no id.
    EmptySlug,
    /// The id is the one that the name gives.
    Unchanged,
    /// Another mic has the id that the name gives.
    InUse { new_id: String },
    Changed { new_id: String },
}

/// What an answer says, over character sequences.
#[verifier::ext_equal]
pub enum RemapView {
    NotFound,
    EmptySlug,
    Unchanged,
    InUse { new_id: Seq<char> },
    Changed { new_id: Seq<char> },
}

impl View for RemapAnswer {
    type V = RemapView;

    open spec fn view(&self) -> RemapView {
        match *self {
            RemapAnswer::NotFound => RemapView::NotFound,
            RemapAnswer::EmptySlug => RemapView::EmptySlug,
            RemapAnswer::Unchanged => RemapView::Unchanged,
            RemapAnswer::InUse { new_id } => RemapView::InUse { new_id: new_id@ },
            RemapAnswer::Changed { new_id } => RemapView::Changed { new_id: new_id@ },
        }
    }
}

/// The status of an answer.
pub open spec fn remap_status(a: RemapView) -> Status {
    match a {
        RemapView::NotFound => Status::NotFound,
        RemapView::EmptySlug => Status::BadRequest,
        RemapView::Unchanged => Status::Success,
        RemapView::InUse { .. } => Status::Conflict,
        RemapView::Changed { .. } => Status::Success,
    }
}

/// Why a mic was not remapped, in words.
pub open spec fn remap_refusal(a: RemapView) -> Option<Seq<char>> {
    match a {
        RemapView::NotFound => Some("vmic not found"@),
        RemapView::EmptySlug => Some("name slug is empty"@),
        RemapView::InUse { new_id } => Some("id "@ + new_id + " already in use"@),
        RemapView::Unchanged => None,
        RemapView::Changed { .. } => None,
    }
}

impl RemapAnswer {
    pub fn status(&self) -> (r: Status)
        ensures
            r == remap_status(self@),
    {
        match self {
            RemapAnswer::NotFound => Status::NotFound,
            RemapAnswer::EmptySlug => Status::BadRequest,
            RemapAnswer::Unchanged => Status::Success,
            RemapAnswer::InUse { .. } => Status::Conflict,
            RemapAnswer::Changed { .. } => Status::Success,
        }
    }

    /// Why the mic was not remapped, in words.
    pub fn refusal(&self) -> (r: Option<String>)
        ensures
            text::opt_text(r) == remap_refusal(self@),
    {
        match self {
            RemapAnswer::NotFound => Some("vmic not found".to_owned()),
            RemapAnswer::EmptySlug => Some("name slug is empty".to_owned()),
            RemapAnswer::InUse { new_id } => {
                let mut r = "id ".to_owned();
                r.append(new_id.as_str());
                r.append(" already in use");
                Some(r)
            },
            RemapAnswer::Unchanged => None,
            RemapAnswer::Changed { .. } => None,
        }
    }
}

/// The name of a node after the mic `id` has become `new_id`.
pub open spec fn node_renamed(n: Seq<char>, id: Seq<char>, new_id: Seq<char>) -> Seq<char> {
    if n == virtual_mic::mic_mix_name(id) {
        virtual_mic::mic_mix_name(new_id)
    } else if n == virtual_mic::mic_source_name(id) {
        virtual_mic::mic_source_name(new_id)
    } else {
        n
    }
}

/// The outputs after the mic `id` has become `new_id`.
pub open spec fn outputs_renamed(
    v: Seq<preset::OutputView>,
    id: Seq<char>,
    new_id: Seq<char>,
) -> Seq<preset::OutputView> {
    Seq::new(
        v.len(),
        |i: int|
            preset::OutputView { node_name: node_renamed(v[i].node_name, id, new_id), ..v[i] },
    )
}

/// The source inputs after the mic `id` has become `new_id`.
pub open spec fn inputs_renamed(
    v: Seq<Seq<char>>,
    id: Seq<char>,
    new_id: Seq<char>,
) -> Seq<Seq<char>> {
    Seq::new(v.len(), |i: int| node_renamed(v[i], id, new_id))
}

/// A preset after the mic `id` has become `new_id`.
pub open spec fn preset_renamed(
    p: preset::PresetView,
    id: Seq<char>,
    new_id: Seq<char>,
) -> preset::PresetView {
    preset::PresetView {
        outputs: outputs_renamed(p.outputs, id, new_id),
        source_inputs: inputs_renamed(p.source_inputs, id, new_id),
        ..p
    }
}

/// The state after the mic `id` at `k` has become `new_id`: the mic has the new
/// id, and so does every reference to it.
pub open spec fn remapped(
    s: state::AppView,
    k: int,
    id: Seq<char>,
    new_id: Seq<char>,
) -> state::AppView {
    state::AppView {
        presets: Seq::new(s.presets.len(), |i: int| preset_renamed(s.presets[i], id, new_id)),
        virtual_mics: s.virtual_mics.update(
            k,
            virtual_mic::MicView { id: new_id, ..s.virtual_mics[k] },
        ),
        ..s
    }
}

/// A preset mentions the node `n`.
pub open spec fn mentions(p: preset::PresetView, n: Seq<char>) -> bool {
    ||| p.source_inputs.contains(n)
    ||| exists|i: int| 0 <= i < p.outputs.len() && (#[trigger] p.outputs[i]).node_name == n
}

proof fn lemma_names_differ(a: Seq<char>, b: Seq<char>)
    ensures
        virtual_mic::mic_source_name(a) == virtual_mic::mic_source_name(b) ==> a == b,
        virtual_mic::mic_mix_name(a) == virtual_mic::mic_mix_name(b) ==> a == b,
        virtual_mic::mic_source_name(a) == virtual_mic::mic_mix_name(b) ==> a == b + ".mix"@,
{
    let p = "pw-ctrl.vmic."@;
    let n = p.len() as int;
    let sa = virtual_mic::mic_source_name(a);
    let sb = virtual_mic::mic_source_name(b);
    let ma = virtual_mic::mic_mix_name(a);
    let mb = virtual_mic::mic_mix_name(b);
    assert(sa.skip(n) =~= a);
    assert(sb.skip(n) =~= b);
    assert(mb.skip(n) =~= b + ".mix"@);
    assert(ma.take(sa.len() as int) =~= sa);
    assert(mb.take(sb.len() as int) =~= sb);
}

/// After a mic has got a new id no preset mentions its old nodes, unless the old
/// id is the new one followed by `.mix`.
pub proof fn remap_leaves_no_reference(
    s: state::AppView,
    k: int,
    id: Seq<char>,
    new_id: Seq<char>,
)
    requires
        0 <= k < s.virtual_mics.len(),
        ids::is_id(new_id),
        new_id != id,
        id != new_id + ".mix"@,
    ensures
        forall|i: int|
            0 <= i < s.presets.len() ==> !mentions(
                #[trigger] remapped(s, k, id, new_id).presets[i],
                virtual_mic::mic_source_name(id),
            ) && !mentions(
                remapped(s, k, id, new_id).presets[i],
                virtual_mic::mic_mix_name(id),
            ),
{
    let src = virtual_mic::mic_source_name(id);
    let mix = virtual_mic::mic_mix_name(id);
    lemma_names_differ(new_id, id);
    lemma_names_differ(id, new_id);
    reveal_strlit(".mix");
    if new_id == id + ".mix"@ {
        assert(new_id[id.len() as int] == '.');
    }
    assert forall|n: Seq<char>| #[trigger] node_renamed(n, id, new_id) != src && node_renamed(
        n,
        id,
        new_id,
    ) != mix by {}
    let t = remapped(s, k, id, new_id);
    assert forall|i: int| 0 <= i < s.presets.len() implies !mentions(#[trigger] t.presets[i], src)
        && !mentions(t.presets[i], mix) by {
        let p = s.presets[i];
        let q = t.presets[i];
        assert(q == preset_renamed(p, id, new_id));
        assert forall|j: int| 0 <= j < q.outputs.len() implies (#[trigger] q.outputs[j]).node_name
            != src && q.outputs[j].node_name != mix by {
            assert(q.outputs[j].node_name == node_renamed(p.outputs[j].node_name, id, new_id));
        }
        assert forall|j: int| 0 <= j < q.source_inputs.len() implies (#[trigger] q.source_inputs[j])
            != src && q.source_inputs[j] != mix by {
            assert(q.source_inputs[j] == node_renamed(p.source_inputs[j], id, new_id));
        }
    }
}

/// A mic that has got a new id is found under it, at its place and with its
/// name; and under the old id nothing is found.
pub proof fn remapped_mic_is_found(s: state::AppView, id: Seq<char>, new_id: Seq<char>)
    requires
        s.mic(id) is Some,
        s.mic(new_id) is None,
        s.consistent(),
    ensures
        remapped(s, s.mic(id)->0, id, new_id).mic(new_id) == s.mic(id),
        remapped(s, s.mic(id)->0, id, new_id).virtual_mics[s.mic(id)->0].name
            == s.virtual_mics[s.mic(id)->0].name,
        remapped(s, s.mic(id)->0, id, new_id).mic(id) is None,
{
    let k = s.mic(id)->0;
    let was = state::mic_ids(s.virtual_mics);
    state::lemma_id_from(was, id, 0);
    state::lemma_id_from(was, new_id, 0);
    let t = remapped(s, k, id, new_id);
    let now = state::mic_ids(t.virtual_mics);
    state::lemma_id_from(now, id, 0);
    state::lemma_id_from(now, new_id, 0);
    assert(now =~= was.update(k, new_id));
    assert(now[k] == new_id);
    assert forall|j: int| 0 <= j < now.len() && j != k implies now[j] != id && now[j] != new_id by {
        assert(now[j] == was[j]);
        assert(was[k] == id);
    }
}

fn renamed_node(n: &String, id: &str, new_id: &str) -> (r: String)
    ensures
        r@ == node_renamed(n@, id@, new_id@),
{
    if text::same_text(n.as_str(), virtual_mic::mix_name(id).as_str()) {
        virtual_mic::mix_name(new_id)
    } else if text::same_text(n.as_str(), virtual_mic::source_name(id).as_str()) {
        virtual_mic::source_name(new_id)
    } else {
        n.clone()
    }
}

fn rename_in_preset(p: &mut Preset, id: &str, new_id: &str)
    ensures
        final(p)@ == preset_renamed(old(p)@, id@, new_id@),
{
    let ghost outs = p@.outputs;
    let ghost ins = p@.source_inputs;
    let n: usize = p.outputs.len();
    for i in 0..n
        invariant
            n == p.outputs@.len(),
            p@ == (preset::PresetView { outputs: p@.outputs, ..old(p)@ }),
            outs.len() == n,
            outs == old(p)@.outputs,
            forall|j: int|
                0 <= j < n ==> #[trigger] p@.outputs[j] == (if j < i {
                    preset::OutputView {
                        node_name: node_renamed(outs[j].node_name, id@, new_id@),
                        ..outs[j]
                    }
                } else {
                    outs[j]
                }),
    {
        let ghost before = p@;
        assert(before.outputs[i as int] == p.outputs@[i as int]@);
        let name = renamed_node(&p.outputs[i].node_name, id, new_id);
        p.outputs[i].node_name = name;
        proof {
            assert(p@.outputs =~= before.outputs.update(
                i as int,
                preset::OutputView { node_name: name@, ..before.outputs[i as int] },
            ));
            assert(p@ =~= (preset::PresetView { outputs: p@.outputs, ..old(p)@ }));
        }
    }
    assert(p@.outputs =~= outputs_renamed(outs, id@, new_id@));
    let ghost mid = p@;
    let m: usize = p.source_inputs.len();
    for i in 0..m
        invariant
            m == p.source_inputs@.len(),
            p@ == (preset::PresetView { source_inputs: p@.source_inputs, ..mid }),
            ins.len() == m,
            forall|j: int|
                0 <= j < m ==> #[trigger] p@.source_inputs[j] == (if j < i {
                    node_renamed(ins[j], id@, new_id@)
                } else {
                    ins[j]
                }),
    {
        let ghost before = p@;
        assert(before.source_inputs[i as int] == p.source_inputs@[i as int]@);
        let name = renamed_node(&p.source_inputs[i], id, new_id);
        p.source_inputs[i] = name;
        proof {
            assert(p@.source_inputs =~= before.source_inputs.update(i as int, name@));
            assert(p@ =~= (preset::PresetView { source_inputs: p@.source_inputs, ..mid }));
        }
    }
    assert(p@.source_inputs =~= inputs_renamed(ins, id@, new_id@));
}

/// How a request to give the mic `id` the id `new_id` is answered.
pub open spec fn rename_answer(s: state::AppView, id: Seq<char>, new_id: Seq<char>) -> RemapView {
    if s.mic(id) is None {
        RemapView::NotFound
    } else if new_id.len() == 0 {
        RemapView::EmptySlug
    } else if new_id == id {
        RemapView::Unchanged
    } else if s.mic(new_id) is Some {
        RemapView::InUse { new_id }
    } else {
        RemapView::Changed { new_id }
    }
}

/// The state after a request to give the mic `id` the id `new_id`.
pub open spec fn after_rename(
    s: state::AppView,
    id: Seq<char>,
    new_id: Seq<char>,
) -> state::AppView {
    if rename_answer(s, id, new_id) is Changed {
        remapped(s, s.mic(id)->0, id, new_id)
    } else {
        s
    }
}

/// A new id that is not in use leaves the state consistent.
pub proof fn rename_keeps_consistent(s: state::AppView, id: Seq<char>, new_id: Seq<char>)
    requires
        s.consistent(),
    ensures
        after_rename(s, id, new_id).consistent(),
{
    if rename_answer(s, id, new_id) is Changed {
        let k = s.mic(id)->0;
        let t = remapped(s, k, id, new_id);
        let was = state::mic_ids(s.virtual_mics);
        let now = state::mic_ids(t.virtual_mics);
        state::lemma_id_from(was, id, 0);
        state::lemma_id_from(was, new_id, 0);
        assert(now =~= was.update(k, new_id));
        assert(state::preset_ids(t.presets) =~= state::preset_ids(s.presets));
        assert forall|i: int| 0 <= i < t.presets.len() implies preset::distinct_chain_ids(
            (#[trigger] t.presets[i]).chain,
        ) by {
            assert(t.presets[i].chain == s.presets[i].chain);
        }
    }
}

/// Once the id of a mic is the one that its name gives, remapping it again
/// changes nothing.
pub proof fn remap_settles(s: state::AppView, id: Seq<char>, new_id: Seq<char>)
    requires
        s.consistent(),
        rename_answer(s, id, new_id) is Changed,
    ensures
        rename_answer(after_rename(s, id, new_id), new_id, new_id) is Unchanged,
        after_rename(after_rename(s, id, new_id), new_id, new_id) == after_rename(s, id, new_id),
{
    remapped_mic_is_found(s, id, new_id);
}

impl AppState {
    /// Gives the mic `id` the id `new_id`, and with it every reference to it
    /// (preset outputs and source inputs).
    pub fn rename_virtual_mic(&mut self, id: &str, new_id: String) -> (r: RemapAnswer)
        ensures
            r@ == rename_answer(old(self)@, id@, new_id@),
            final(self)@ == after_rename(old(self)@, id@, new_id@),
            final(self)@.virtual_mics.len() == old(self)@.virtual_mics.len(),
            forall|i: int|
                0 <= i < old(self)@.virtual_mics.len() ==> (
                #[trigger] final(self)@.virtual_mics[i]).inputs
                    == old(self)@.virtual_mics[i].inputs && final(self)@.virtual_mics[i].name
                    == old(self)@.virtual_mics[i].name,
            old(self)@.consistent() ==> final(self)@.consistent(),
    {
        let k = match self.find_mic(id) {
            Some(k) => k,
            None => {
                return RemapAnswer::NotFound;
            },
        };
        let s = new_id.as_str();
        if text::chars_of(s).len() == 0 {
            return RemapAnswer::EmptySlug;
        }
        if text::same_text(s, id) {
            return RemapAnswer::Unchanged;
        }
        if self.find_mic(s).is_some() {
            return RemapAnswer::InUse { new_id };
        }
        let ghost was = self@;
        let n: usize = self.presets.len();
        for i in 0..n
            invariant
                n == self.presets@.len(),
                was == old(self)@,
                was.presets.len() == n,
                self@ == (state::AppView { presets: self@.presets, ..was }),
                k < self.virtual_mics@.len(),
                new_id@ == s@,
                forall|j: int|
                    0 <= j < n ==> #[trigger] self@.presets[j] == (if j < i {
                        preset_renamed(was.presets[j], id@, s@)
                    } else {
                        was.presets[j]
                    }),
        {
            let ghost before = self@;
            assert(before.presets[i as int] == self.presets@[i as int]@);
            rename_in_preset(&mut self.presets[i], id, s);
            proof {
                assert(self@.presets =~= before.presets.update(
                    i as int,
                    preset_renamed(before.presets[i as int], id@, s@),
                ));
                assert(self@ =~= (state::AppView { presets: self@.presets, ..was }));
            }
        }
        let ghost mid = self@;
        assert(was.virtual_mics[k as int] == self@.virtual_mics[k as int]);
        self.virtual_mics[k].id = new_id.clone();
        proof {
            assert(self@.virtual_mics =~= was.virtual_mics.update(
                k as int,
                virtual_mic::MicView { id: s@, ..was.virtual_mics[k as int] },
            ));
            assert(self@.presets =~= remapped(was, k as int, id@, s@).presets);
            assert(self@ =~= remapped(was, k as int, id@, s@));
            if was.consistent() {
                rename_keeps_consistent(was, id@, s@);
            }
        }
        RemapAnswer::Changed { new_id }
    }

    /// Recompute the vmic id from its current name and rewrite every reference
    /// (preset outputs that point at `pw-ctrl.vmic.{old}.mix`).
    pub fn remap_virtual_mic(&mut self, id: &str) -> (r: RemapAnswer)
        ensures
            match old(self)@.mic(id@) {
                Some(k) => {
                    let new_id = ids::id_of(order::lowercase(old(self)@.virtual_mics[k].name));
                    r@ == rename_answer(old(self)@, id@, new_id) && final(self)@ == after_rename(
                        old(self)@,
                        id@,
                        new_id,
                    )
                },
                None => r@ == RemapView::NotFound && final(self)@ == old(self)@,
            },
            r@ matches RemapView::Changed { new_id } ==> ids::is_id(new_id),
            old(self)@.consistent() ==> final(self)@.consistent(),
    {
        match self.find_mic(id) {
            Some(k) => {
                let new_id = virtual_mic::make_mic_id(self.virtual_mics[k].name.as_str());
                self.rename_virtual_mic(id, new_id)
            },
            None => RemapAnswer::NotFound,
        }
    }
}

// ── What remapping does ──────────────────────────────────────────────────────

/// A mic that gets a new id keeps its name and its inputs, node names and gains in
/// order; every other mic is as it was, and so is what has nothing to do with mics.
pub proof fn remap_keeps_mics(s: state::AppView, k: int, id: Seq<char>, new_id: Seq<char>, j: int)
    requires
        0 <= k < s.virtual_mics.len(),
        0 <= j < s.virtual_mics.len(),
        j != k,
    ensures
        ({
            let t = remapped(s, k, id, new_id);
            &&& t.virtual_mics.len() == s.virtual_mics.len()
            &&& t.virtual_mics[k].id == new_id
            &&& t.virtual_mics[k].name == s.virtual_mics[k].name
            &&& t.virtual_mics[k].inputs == s.virtual_mics[k].inputs
            &&& t.virtual_mics[j] == s.virtual_mics[j]
            &&& t.active_profile == s.active_profile
            &&& t.stream_routes == s.stream_routes
            &&& t.clips == s.clips
        }),
{
}

/// As `remap_keeps_mics`, where there is only the one mic.
pub proof fn remap_keeps_the_mic(s: state::AppView, k: int, id: Seq<char>, new_id: Seq<char>)
    requires
        0 <= k < s.virtual_mics.len(),
    ensures
        ({
            let t = remapped(s, k, id, new_id);
            &&& t.virtual_mics[k].id == new_id
            &&& t.virtual_mics[k].name == s.virtual_mics[k].name
            &&& t.virtual_mics[k].inputs == s.virtual_mics[k].inputs
        }),
{
}

/// Of a preset, remapping a mic only changes the names of nodes: outputs and source
/// inputs stay at their places, with their volumes.
pub proof fn remap_keeps_presets(
    s: state::AppView,
    k: int,
    id: Seq<char>,
    new_id: Seq<char>,
    i: int,
    j: int,
)
    requires
        0 <= i < s.presets.len(),
    ensures
        ({
            let p = s.presets[i];
            let t = remapped(s, k, id, new_id);
            let q = t.presets[i];
            &&& t.presets.len() == s.presets.len()
            &&& q.id == p.id && q.name == p.name && q.chain == p.chain && q.channels == p.channels
            &&& q.outputs.len() == p.outputs.len()
            &&& q.source_inputs.len() == p.source_inputs.len()
            &&& 0 <= j < p.outputs.len() ==> q.outputs[j].volume == p.outputs[j].volume
        }),
{
}

/// A name that is not one of the mic's nodes stays; the name of its sink becomes
/// that of the new sink, and the name of its source that of the new source: in an
/// output as in a source input.
pub proof fn remap_follows_names(
    p: preset::PresetView,
    id: Seq<char>,
    new_id: Seq<char>,
    j: int,
    n: Seq<char>,
)
    requires
        0 <= j < p.outputs.len() && p.outputs[j].node_name == n || 0 <= j < p.source_inputs.len()
            && p.source_inputs[j] == n,
    ensures
        ({
            let q = preset_renamed(p, id, new_id);
            let source = "pw-ctrl.vmic."@ + id;
            let mix = "pw-ctrl.vmic."@ + id + ".mix"@;
            let now = if n == mix {
                "pw-ctrl.vmic."@ + new_id + ".mix"@
            } else if n == source {
                "pw-ctrl.vmic."@ + new_id
            } else {
                n
            };
            &&& 0 <= j < p.outputs.len() && p.outputs[j].node_name == n
                ==> q.outputs[j].node_name == now
            &&& 0 <= j < p.source_inputs.len() && p.source_inputs[j] == n ==> q.source_inputs[j]
                == now
        }),
{
}

/// Remapping a mic and then mapping it back gives the state that there was, where
/// no preset mentions the nodes of the new id.
pub proof fn remap_back(s: state::AppView, k: int, id: Seq<char>, new_id: Seq<char>)
    requires
        0 <= k < s.virtual_mics.len(),
        s.virtual_mics[k].id == id,
        id != new_id,
        id != new_id + ".mix"@,
        new_id != id + ".mix"@,
        forall|i: int|
            0 <= i < s.presets.len() ==> !mentions(
                #[trigger] s.presets[i],
                virtual_mic::mic_source_name(new_id),
            ) && !mentions(s.presets[i], virtual_mic::mic_mix_name(new_id)),
    ensures
        remapped(remapped(s, k, id, new_id), k, new_id, id) == s,
{
    lemma_names_differ(new_id, id);
    lemma_names_differ(id, new_id);
    virtual_mic::mic_nodes_have_names_of_their_own(id);
    virtual_mic::mic_nodes_have_names_of_their_own(new_id);
    let t = remapped(s, k, id, new_id);
    let u = remapped(t, k, new_id, id);
    assert forall|i: int| 0 <= i < s.presets.len() implies #[trigger] u.presets[i]
        == s.presets[i] by {
        let p = s.presets[i];
        let q = t.presets[i];
        let r = u.presets[i];
        assert(q == preset_renamed(p, id, new_id));
        assert(r == preset_renamed(q, new_id, id));
        assert forall|j: int| 0 <= j < p.outputs.len() implies #[trigger] r.outputs[j]
            == p.outputs[j] by {
            assert(q.outputs[j].node_name == node_renamed(p.outputs[j].node_name, id, new_id));
        }
        assert forall|j: int| 0 <= j < p.source_inputs.len() implies #[trigger] r.source_inputs[j]
            == p.source_inputs[j] by {
            assert(p.source_inputs.contains(p.source_inputs[j]));
        }
        assert(r.outputs =~= p.outputs);
        assert(r.source_inputs =~= p.source_inputs);
    }
    assert(u.presets =~= s.presets);
    assert(u.virtual_mics =~= s.virtual_mics);
}

/// A mic is asked for in vain where no mic has the id; a new id is refused where it
/// is empty or another mic has it; and what is refused, or is no change, changes
/// nothing.
pub proof fn remap_is_refused(s: state::AppView, id: Seq<char>, new_id: Seq<char>)
    ensures
        ({
            let known = exists|i: int|
                0 <= i < s.virtual_mics.len() && (#[trigger] s.virtual_mics[i]).id == id;
            let used = exists|i: int|
                0 <= i < s.virtual_mics.len() && (#[trigger] s.virtual_mics[i]).id == new_id;
            let a = rename_answer(s, id, new_id);
            &&& a is NotFound <==> !known
            &&& known && new_id.len() == 0 <==> a is EmptySlug
            &&& known && new_id.len() > 0 && new_id == id <==> a is Unchanged
            &&& known && new_id.len() > 0 && new_id != id && used <==> a == (RemapView::InUse {
                new_id,
            })
            &&& known && new_id.len() > 0 && new_id != id && !used <==> a == (RemapView::Changed {
                new_id,
            })
            &&& a !is Changed ==> after_rename(s, id, new_id) == s
        }),
{
    let v = state::mic_ids(s.virtual_mics);
    state::lemma_id_from(v, id, 0);
    state::lemma_id_from(v, new_id, 0);
    assert forall|i: int| 0 <= i < s.virtual_mics.len() implies v[i] == (
    #[trigger] s.virtual_mics[i]).id by {}
    if let Some(k) = s.mic(id) {
        assert(s.virtual_mics[k].id == id);
    }
    if let Some(k) = s.mic(new_id) {
        assert(s.virtual_mics[k].id == new_id);
    }
}

/// A remap that is refused is answered with words and an error, each refusal with
/// its own status; any other is a success without words.
pub proof fn remap_answers_are_told_apart(a: RemapView)
    ensures
        remap_refusal(a) is None <==> remap_status(a) == Status::Success,
        remap_refusal(a) is None <==> a is Unchanged || a is Changed,
        a is NotFound <==> remap_status(a) == Status::NotFound,
        a is InUse <==> remap_status(a) == Status::Conflict,
        a is EmptySlug <==> remap_status(a) == Status::BadRequest,
        a is NotFound ==> remap_refusal(a) == Some("vmic not found"@),
        a is EmptySlug ==> remap_refusal(a) == Some("name slug is empty"@),
        a matches RemapView::InUse { new_id } ==> remap_refusal(a) == Some(
            "id "@ + new_id + " already in use"@,
        ),
{
}

/// A new mic comes last, without inputs; all else is as it was.
pub proof fn created_mic_comes_last(s: state::AppView, id: Seq<char>, name: Seq<char>)
    ensures
        ({
            let t = mic_added(s, id, name);
            &&& t.virtual_mics.drop_last() == s.virtual_mics
            &&& t.virtual_mics.last().id == id && t.virtual_mics.last().name == name
            &&& t.virtual_mics.last().inputs.len() == 0
            &&& t.presets == s.presets && t.clips == s.clips
            &&& t.stream_routes == s.stream_routes && t.active_profile == s.active_profile
        }),
{
    assert(mic_added(s, id, name).virtual_mics.drop_last() =~= s.virtual_mics);
}

/// A remap that is accepted gives the new id to the first mic that has the old one, and
/// follows it everywhere.
pub proof fn accepted_remap_is_done(s: state::AppView, id: Seq<char>, new_id: Seq<char>, k: int)
    requires
        rename_answer(s, id, new_id) is Changed,
        0 <= k < s.virtual_mics.len(),
        s.virtual_mics[k].id == id,
        forall|j: int| 0 <= j < k ==> (#[trigger] s.virtual_mics[j]).id != id,
    ensures
        after_rename(s, id, new_id) == remapped(s, k, id, new_id),
        after_rename(s, id, new_id).virtual_mics[k].id == new_id,
        after_rename(s, id, new_id).virtual_mics[k].inputs == s.virtual_mics[k].inputs,
        after_rename(s, id, new_id).virtual_mics[k].name == s.virtual_mics[k].name,
{
    state::mics_are_found_by_id(s, id);
    let n = s.mic(id)->0;
    assert(n == k) by {
        if n < k {
            assert(s.virtual_mics[n].id != id);
        }
    }
}

/// An answer says what it is and which id it is about.
pub proof fn answers_say_what_they_are(a: RemapAnswer)
    ensures
        a is NotFound <==> a@ is NotFound,
        a is EmptySlug <==> a@ is EmptySlug,
        a is Unchanged <==> a@ is Unchanged,
        a matches RemapAnswer::InUse { new_id } ==> a@ == (RemapView::InUse { new_id: new_id@ }),
        a matches RemapAnswer::Changed { new_id } ==> a@ == (RemapView::Changed {
            new_id: new_id@,
        }),
{
}

} // verus!
