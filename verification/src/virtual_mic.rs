//! Virtual microphones: sources that mix several inputs.

use vstd::prelude::*;
use crate::ids;
use crate::level::Level;
use crate::order;
use crate::text;

verus! {

#[derive(Debug)]
pub struct VirtualMic {
    pub id: String,
    pub name: String,
    pub inputs: Vec<MicInput>,
}

#[derive(Debug)]
pub struct MicInput {
    pub node_name: String,
    pub gain: Level,
}

#[verifier::ext_equal]
pub struct InputView {
    pub node_name: Seq<char>,
    pub gain: Level,
}

#[verifier::ext_equal]
pub struct MicView {
    pub id: Seq<char>,
    pub name: Seq<char>,
    pub inputs: Seq<InputView>,
}

impl View for MicInput {
    type V = InputView;

    open spec fn view(&self) -> InputView {
        InputView { node_name: self.node_name@, gain: self.gain }
    }
}

pub open spec fn inputs_view(v: Seq<MicInput>) -> Seq<InputView> {
    Seq::new(v.len(), |i: int| v[i]@)
}

impl View for VirtualMic {
    type V = MicView;

    open spec fn view(&self) -> MicView {
        MicView { id: self.id@, name: self.name@, inputs: inputs_view(self.inputs@) }
    }
}

impl Clone for MicInput {
    fn clone(&self) -> (r: MicInput)
        ensures
            r == *self,
    {
        MicInput { node_name: self.node_name.clone(), gain: self.gain }
    }
}

impl Clone for VirtualMic {
    fn clone(&self) -> (r: VirtualMic)
        ensures
            r@ == self@,
    {
        let inputs = self.inputs.clone();
        proof {
            assert forall|i: int| 0 <= i < inputs@.len() implies (#[trigger] inputs@[i])
                == self.inputs@[i] by {
                assert(cloned::<MicInput>(self.inputs@[i], inputs@[i]));
            }
            assert(inputs_view(inputs@) =~= inputs_view(self.inputs@));
        }
        VirtualMic { id: self.id.clone(), name: self.name.clone(), inputs }
    }
}

/// The name in PipeWire of the source of the virtual mic `id`.
pub open spec fn mic_source_name(id: Seq<char>) -> Seq<char> {
    "pw-ctrl.vmic."@ + id
}

/// The name in PipeWire of the mixing sink of the virtual mic `id`.
pub open spec fn mic_mix_name(id: Seq<char>) -> Seq<char> {
    mic_source_name(id) + ".mix"@
}

pub fn source_name(id: &str) -> (r: String)
    ensures
        r@ == mic_source_name(id@),
{
    let mut r = "pw-ctrl.vmic.".to_owned();
    r.append(id);
    r
}

pub fn mix_name(id: &str) -> (r: String)
    ensures
        r@ == mic_mix_name(id@),
{
    let mut r = source_name(id);
    r.append(".mix");
    r
}

impl VirtualMic {
    pub fn new(name: &str) -> (r: VirtualMic)
        ensures
            r@ == (MicView {
                id: ids::id_of(order::lowercase(name@)),
                name: name@,
                inputs: Seq::empty(),
            }),
            ids::is_id(r@.id),
            order::ascii_is_lowered(name@),
    {
        let r = VirtualMic { id: make_mic_id(name), name: name.to_owned(), inputs: Vec::new() };
        assert(r@.inputs =~= Seq::<InputView>::empty());
        r
    }
}

impl VirtualMic {
    pub fn add_input(&mut self, node_name: String, gain: Level)
        ensures
            final(self)@ == (MicView {
                inputs: old(self)@.inputs.push(InputView { node_name: node_name@, gain }),
                ..old(self)@
            }),
    {
        self.inputs.push(MicInput { node_name, gain });
        assert(self@.inputs =~= old(self)@.inputs.push(InputView { node_name: node_name@, gain }));
    }

    /// Removes the input at `idx`; tells whether there was one.
    pub fn remove_input(&mut self, idx: usize) -> (r: bool)
        ensures
            r == (idx < old(self)@.inputs.len()),
            final(self)@ == (if r {
                MicView { inputs: old(self)@.inputs.remove(idx as int), ..old(self)@ }
            } else {
                old(self)@
            }),
    {
        if idx >= self.inputs.len() {
            return false;
        }
        self.inputs.remove(idx);
        assert(self@.inputs =~= old(self)@.inputs.remove(idx as int));
        true
    }

    /// Sets the gain of the input at `idx`; tells whether there is one.
    pub fn set_input_gain(&mut self, idx: usize, gain: Level) -> (r: bool)
        ensures
            r == (idx < old(self)@.inputs.len()),
            final(self)@ == (if r {
                MicView {
                    inputs: old(self)@.inputs.update(
                        idx as int,
                        InputView { gain, ..old(self)@.inputs[idx as int] },
                    ),
                    ..old(self)@
                }
            } else {
                old(self)@
            }),
    {
        if idx >= self.inputs.len() {
            return false;
        }
        self.inputs[idx].gain = gain;
        assert(self@.inputs =~= old(self)@.inputs.update(
            idx as int,
            InputView { gain, ..old(self)@.inputs[idx as int] },
        ));
        true
    }
}

/// The id of the virtual mic with the given name, which is also that of the name
/// in lower case.
pub fn make_mic_id(name: &str) -> (r: String)
    ensures
        r@ == ids::id_of(order::lowercase(name@)),
        r@ == ids::id_of(order::lowercase(order::lowercase(name@))),
        order::is_ascii_text(name@) ==> r@ == ids::id_of(text::ascii_lower_all(name@)),
        order::ascii_is_lowered(name@),
        ids::is_id(r@),
        ids::is_id(name@) ==> r@ == name@,
{
    ids::to_id(name)
}

/// The names of the nodes of a mic begin with `pw-ctrl.vmic.` and its id; the sink
/// that mixes is told from the source by `.mix` at the end.
pub proof fn mic_nodes_have_names_of_their_own(id: Seq<char>)
    ensures
        text::strip_prefix(mic_source_name(id), "pw-ctrl.vmic."@) == Some(id),
        text::strip_prefix(mic_mix_name(id), "pw-ctrl.vmic."@) == Some(id + ".mix"@),
        mic_source_name(id) != mic_mix_name(id),
{
    reveal_strlit(".mix");
    let p = "pw-ctrl.vmic."@;
    let n = p.len() as int;
    assert(mic_source_name(id).take(n) =~= p);
    assert(mic_source_name(id).skip(n) =~= id);
    assert(mic_mix_name(id).take(n) =~= p);
    assert(mic_mix_name(id).skip(n) =~= id + ".mix"@);
    assert(mic_mix_name(id).len() == mic_source_name(id).len() + 4);
}

/// A mic and an input say what their fields hold, each for itself.
pub proof fn mics_say_their_fields(m: VirtualMic, n: MicInput, i: int)
    ensures
        m@.id == m.id@ && m@.name == m.name@,
        m@.inputs.len() == m.inputs@.len(),
        0 <= i < m.inputs@.len() ==> m@.inputs[i] == m.inputs@[i]@,
        n@.node_name == n.node_name@ && n@.gain == n.gain,
{
}

} // verus!
