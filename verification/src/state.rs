//! Persistent application state, and what the requests of clients do to it.

use vstd::prelude::*;
use crate::ids;
use crate::ladspa;
use crate::ladspa::{LadspaCatalog, LadspaPlugin};
use crate::level::Level;
use crate::lv2;
use crate::lv2::{Lv2Catalog, Lv2Plugin};
use crate::maps;
use crate::maps::TextMap;
use crate::number::Number;
use crate::order;
use crate::paths;
use crate::preset;
use crate::preset::{ChainNodeKind, ChannelLayout, OutputAssignment, Preset};
use crate::soundboard;
use crate::soundboard::SoundClip;
use crate::text;
use crate::virtual_mic;
use crate::virtual_mic::VirtualMic;

verus! {

// ── State ────────────────────────────────────────────────────────────────────

#[derive(Debug)]
pub struct AppState {
    pub active_profile: Option<String>,
    pub presets: Vec<Preset>,
    pub virtual_mics: Vec<VirtualMic>,
    /// node_name → preset_id — persisted WirePlumber routing rules
    pub stream_routes: TextMap<String>,
    pub clips: Vec<SoundClip>,
}

/// What the state says, over character sequences.
#[verifier::ext_equal]
pub struct AppView {
    pub active_profile: Option<Seq<char>>,
    pub presets: Seq<preset::PresetView>,
    pub virtual_mics: Seq<virtual_mic::MicView>,
    pub stream_routes: Map<Seq<char>, Seq<char>>,
    pub clips: Seq<soundboard::ClipView>,
}

pub open spec fn presets_view(v: Seq<Preset>) -> Seq<preset::PresetView> {
    Seq::new(v.len(), |i: int| v[i]@)
}

pub open spec fn mics_view(v: Seq<VirtualMic>) -> Seq<virtual_mic::MicView> {
    Seq::new(v.len(), |i: int| v[i]@)
}

impl View for AppState {
    type V = AppView;

    open spec fn view(&self) -> AppView {
        AppView {
            active_profile: text::opt_text(self.active_profile),
            presets: presets_view(self.presets@),
            virtual_mics: mics_view(self.virtual_mics@),
            stream_routes: maps::text_values(self.stream_routes@),
            clips: soundboard::clips_view(self.clips@),
        }
    }
}

/// How a request is answered.
#[derive(Debug, Clone, Copy, PartialEq, Eq, Structural)]
pub enum Status {
    Success,
    Created,
    NoContent,
    BadRequest,
    NotFound,
    Conflict,
    ServerError,
}

/// The HTTP status code of an answer.
pub open spec fn status_code(s: Status) -> u16 {
    match s {
        Status::Success => 200,
        Status::Created => 201,
        Status::NoContent => 204,
        Status::BadRequest => 400,
        Status::NotFound => 404,
        Status::Conflict => 409,
        Status::ServerError => 500,
    }
}

impl Status {
    pub fn code(&self) -> (r: u16)
        ensures
            r == status_code(*self),
    {
        match self {
            Status::Success => 200,
            Status::Created => 201,
            Status::NoContent => 204,
            Status::BadRequest => 400,
            Status::NotFound => 404,
            Status::Conflict => 409,
            Status::ServerError => 500,
        }
    }
}

// ── Finding things ───────────────────────────────────────────────────────────

/// The first position at or after `i` of the id `id`.
pub open spec fn id_from(ids: Seq<Seq<char>>, id: Seq<char>, i: int) -> Option<int>
    decreases ids.len() - i,
{
    if i < 0 || i >= ids.len() {
        None
    } else if ids[i] == id {
        Some(i)
    } else {
        id_from(ids, id, i + 1)
    }
}

/// What `id_from` gives: the first position of the id, where there is one.
pub proof fn lemma_id_from(ids: Seq<Seq<char>>, id: Seq<char>, i: int)
    requires
        0 <= i,
    ensures
        id_from(ids, id, i) matches Some(k) ==> i <= k < ids.len() && ids[k] == id && forall|j: int|
            i <= j < k ==> ids[j] != id,
        id_from(ids, id, i) is None ==> forall|j: int| i <= j < ids.len() ==> ids[j] != id,
    decreases ids.len() - i,
{
    if i < ids.len() && ids[i] != id {
        lemma_id_from(ids, id, i + 1);
    }
}

/// One more id behind the others is found only where it was not there before.
pub proof fn lemma_id_from_push(ids: Seq<Seq<char>>, x: Seq<char>, id: Seq<char>, i: int)
    requires
        0 <= i <= ids.len(),
    ensures
        id_from(ids.push(x), id, i) == (match id_from(ids, id, i) {
            Some(k) => Some(k),
            None => if x == id {
                Some(ids.len() as int)
            } else {
                None
            },
        }),
    decreases ids.len() - i,
{
    if i < ids.len() {
        assert(ids.push(x)[i] == ids[i]);
        if ids[i] != id {
            lemma_id_from_push(ids, x, id, i + 1);
        }
    } else {
        assert(id_from(ids.push(x), id, i + 1) is None);
    }
}

pub open spec fn preset_ids(v: Seq<preset::PresetView>) -> Seq<Seq<char>> {
    Seq::new(v.len(), |i: int| v[i].id)
}

pub open spec fn mic_ids(v: Seq<virtual_mic::MicView>) -> Seq<Seq<char>> {
    Seq::new(v.len(), |i: int| v[i].id)
}

pub open spec fn clip_ids(v: Seq<soundboard::ClipView>) -> Seq<Seq<char>> {
    Seq::new(v.len(), |i: int| v[i].id)
}

impl AppView {
    /// The position of the preset `id`.
    pub open spec fn preset(self, id: Seq<char>) -> Option<int> {
        id_from(preset_ids(self.presets), id, 0)
    }

    /// The position of the virtual mic `id`.
    pub open spec fn mic(self, id: Seq<char>) -> Option<int> {
        id_from(mic_ids(self.virtual_mics), id, 0)
    }

    /// The position of the clip `id`.
    pub open spec fn clip(self, id: Seq<char>) -> Option<int> {
        id_from(clip_ids(self.clips), id, 0)
    }

    /// The state with another preset at `i`.
    pub open spec fn with_preset(self, i: int, p: preset::PresetView) -> AppView {
        AppView { presets: self.presets.update(i, p), ..self }
    }

    /// The state with another virtual mic at `i`.
    pub open spec fn with_mic(self, i: int, m: virtual_mic::MicView) -> AppView {
        AppView { virtual_mics: self.virtual_mics.update(i, m), ..self }
    }

    /// The state with another clip at `i`.
    pub open spec fn with_clip(self, i: int, c: soundboard::ClipView) -> AppView {
        AppView { clips: self.clips.update(i, c), ..self }
    }

    /// No two presets, no two virtual mics and no two nodes of a chain have the
    /// same id.
    pub open spec fn consistent(self) -> bool {
        &&& preset_ids(self.presets).no_duplicates()
        &&& mic_ids(self.virtual_mics).no_duplicates()
        &&& forall|i: int|
            0 <= i < self.presets.len() ==> preset::distinct_chain_ids(
                (#[trigger] self.presets[i]).chain,
            )
    }
}

/// A preset that has changed, but for its id, is found where it was, and so are
/// the others.
pub proof fn changed_preset_is_found(s: AppView, i: int, p: preset::PresetView, id: Seq<char>)
    requires
        0 <= i < s.presets.len(),
        p.id == s.presets[i].id,
    ensures
        s.with_preset(i, p).preset(id) == s.preset(id),
{
    assert(preset_ids(s.with_preset(i, p).presets) =~= preset_ids(s.presets));
}

/// A virtual mic that has changed, but for its id, is found where it was, and so
/// are the others.
pub proof fn changed_mic_is_found(s: AppView, i: int, m: virtual_mic::MicView, id: Seq<char>)
    requires
        0 <= i < s.virtual_mics.len(),
        m.id == s.virtual_mics[i].id,
    ensures
        s.with_mic(i, m).mic(id) == s.mic(id),
{
    assert(mic_ids(s.with_mic(i, m).virtual_mics) =~= mic_ids(s.virtual_mics));
}

/// A clip that has changed, but for its id, is found where it was, and so are the
/// others.
pub proof fn changed_clip_is_found(s: AppView, i: int, c: soundboard::ClipView, id: Seq<char>)
    requires
        0 <= i < s.clips.len(),
        c.id == s.clips[i].id,
    ensures
        s.with_clip(i, c).clip(id) == s.clip(id),
{
    assert(clip_ids(s.with_clip(i, c).clips) =~= clip_ids(s.clips));
}

/// A change of a preset that keeps its id and the distinctness of its chain
/// keeps the state consistent.
pub proof fn lemma_with_preset(s: AppView, i: int, p: preset::PresetView)
    requires
        0 <= i < s.presets.len(),
        p.id == s.presets[i].id,
        preset::distinct_chain_ids(s.presets[i].chain) ==> preset::distinct_chain_ids(p.chain),
    ensures
        s.consistent() ==> s.with_preset(i, p).consistent(),
{
    let t = s.with_preset(i, p);
    assert(preset_ids(t.presets) =~= preset_ids(s.presets));
    if s.consistent() {
        assert(preset::distinct_chain_ids(s.presets[i].chain));
        assert forall|j: int| 0 <= j < t.presets.len() implies preset::distinct_chain_ids(
            (#[trigger] t.presets[j]).chain,
        ) by {
            if j != i {
                assert(t.presets[j] == s.presets[j]);
            }
        }
    }
}

/// A change of a virtual mic that keeps its id keeps the state consistent.
pub proof fn lemma_with_mic(s: AppView, i: int, m: virtual_mic::MicView)
    requires
        0 <= i < s.virtual_mics.len(),
        m.id == s.virtual_mics[i].id,
    ensures
        s.consistent() ==> s.with_mic(i, m).consistent(),
{
    assert(mic_ids(s.with_mic(i, m).virtual_mics) =~= mic_ids(s.virtual_mics));
}

impl Default for AppState {
    fn default() -> (r: AppState)
        ensures
            r@ == (AppView {
                active_profile: None,
                presets: Seq::empty(),
                virtual_mics: Seq::empty(),
                stream_routes: Map::empty(),
                clips: Seq::empty(),
            }),
            r@.consistent(),
    {
        let r = AppState {
            active_profile: None,
            presets: Vec::new(),
            virtual_mics: Vec::new(),
            stream_routes: TextMap::new(),
            clips: Vec::new(),
        };
        assert(r@ =~= (AppView {
            active_profile: None,
            presets: Seq::empty(),
            virtual_mics: Seq::empty(),
            stream_routes: Map::empty(),
            clips: Seq::empty(),
        }));
        r
    }
}

/// The file of the state below a configuration directory, which is `~/.config`
/// where it is not known.
pub open spec fn state_file(config: Option<Seq<u8>>) -> Seq<u8> {
    paths::below(paths::dir_or(config, "~/.config"@), "pipewire-control"@, "state.toml"@)
}

impl AppState {
    /// The file of the state below the given configuration directory.
    pub fn config_path_in(config: Option<Vec<u8>>) -> (r: Vec<u8>)
        ensures
            r@ == state_file(paths::opt_bytes(config)),
    {
        paths::file_below(paths::or_dir(config, "~/.config"), "pipewire-control", "state.toml")
    }

    /// The file of the state.
    pub fn config_path() -> (r: Vec<u8>)
        ensures
            exists|config: Option<Seq<u8>>| r@ == #[trigger] state_file(config),
    {
        let config = paths::config_dir();
        AppState::config_path_in(config)
    }

    fn find_preset(&self, id: &str) -> (r: Option<usize>)
        ensures
            match r {
                Some(i) => self@.preset(id@) == Some(i as int) && i < self.presets@.len()
                    && self@.presets[i as int].id == id@,
                None => self@.preset(id@) is None,
            },
    {
        let ghost all = preset_ids(self@.presets);
        for i in 0..self.presets.len()
            invariant
                all == preset_ids(self@.presets),
                id_from(all, id@, 0) == id_from(all, id@, i as int),
        {
            assert(all[i as int] == self.presets@[i as int].id@);
            if text::same_text(self.presets[i].id.as_str(), id) {
                return Some(i);
            }
        }
        None
    }

    pub(crate) fn find_mic(&self, id: &str) -> (r: Option<usize>)
        ensures
            match r {
                Some(i) => self@.mic(id@) == Some(i as int) && i < self.virtual_mics@.len()
                    && self@.virtual_mics[i as int].id == id@,
                None => self@.mic(id@) is None,
            },
    {
        let ghost all = mic_ids(self@.virtual_mics);
        for i in 0..self.virtual_mics.len()
            invariant
                all == mic_ids(self@.virtual_mics),
                id_from(all, id@, 0) == id_from(all, id@, i as int),
        {
            assert(all[i as int] == self.virtual_mics@[i as int].id@);
            if text::same_text(self.virtual_mics[i].id.as_str(), id) {
                return Some(i);
            }
        }
        None
    }

    pub(crate) fn find_clip(&self, id: &str) -> (r: Option<usize>)
        ensures
            match r {
                Some(i) => self@.clip(id@) == Some(i as int) && i < self.clips@.len()
                    && self@.clips[i as int].id == id@,
                None => self@.clip(id@) is None,
            },
    {
        let ghost all = clip_ids(self@.clips);
        for i in 0..self.clips.len()
            invariant
                all == clip_ids(self@.clips),
                id_from(all, id@, 0) == id_from(all, id@, i as int),
        {
            assert(all[i as int] == self.clips@[i as int].id@);
            if text::same_text(self.clips[i].id.as_str(), id) {
                return Some(i);
            }
        }
        None
    }
}

// ── Presets ──────────────────────────────────────────────────────────────────

pub struct CreatePresetBody {
    pub name: String,
    pub outputs: Vec<OutputAssignment>,
}

pub struct UpdatePresetBody {
    pub name: Option<String>,
    pub channels: Option<ChannelLayout>,
}

pub struct AddOutputBody {
    pub node_name: String,
    pub volume: Level,
}

/// The state with a new preset.
pub open spec fn preset_added(
    s: AppView,
    id: Seq<char>,
    name: Seq<char>,
    outputs: Seq<preset::OutputView>,
) -> AppView {
    AppView {
        presets: s.presets.push(
            preset::PresetView { outputs, ..preset::empty_preset(id, name) },
        ),
        ..s
    }
}

/// A value, or the one there was.
pub open spec fn or_else<T>(new: Option<T>, was: T) -> T {
    match new {
        Some(x) => x,
        None => was,
    }
}

impl AppState {
    /// The preset `id`.
    pub fn get_preset(&self, id: &str) -> (r: Result<&Preset, Status>)
        ensures
            match r {
                Ok(p) => self@.preset(id@) matches Some(i) && p@ == self@.presets[i],
                Err(e) => self@.preset(id@) is None && e == Status::NotFound,
            },
    {
        match self.find_preset(id) {
            Some(i) => Ok(&self.presets[i]),
            None => Err(Status::NotFound),
        }
    }

    /// Adds the preset `id`, unless there is one of that id.
    pub fn add_preset(&mut self, id: String, name: String, outputs: Vec<OutputAssignment>) -> (r:
        Result<usize, Status>)
        ensures
            match r {
                Ok(i) => old(self)@.preset(id@) is None && i == old(self)@.presets.len()
                    && final(self)@ == preset_added(
                    old(self)@,
                    id@,
                    name@,
                    preset::outputs_view(outputs@),
                ),
                Err(e) => old(self)@.preset(id@) is Some && e == Status::Conflict && final(self)@
                    == old(self)@,
            },
            old(self)@.consistent() ==> final(self)@.consistent(),
    {
        if self.find_preset(id.as_str()).is_some() {
            return Err(Status::Conflict);
        }
        let i: usize = self.presets.len();
        let p = Preset {
            id,
            name,
            chain: Vec::new(),
            outputs,
            channels: ChannelLayout::Stereo,
            source_inputs: Vec::new(),
        };
        let ghost v = p@;
        self.presets.push(p);
        proof {
            assert(v =~= (preset::PresetView {
                outputs: preset::outputs_view(outputs@),
                ..preset::empty_preset(id@, name@)
            }));
            assert(self@.presets =~= old(self)@.presets.push(v));
            lemma_id_from(preset_ids(old(self)@.presets), id@, 0);
            assert(preset_ids(self@.presets) =~= preset_ids(old(self)@.presets).push(id@));
            if old(self)@.consistent() {
                assert forall|j: int| 0 <= j < self@.presets.len() implies
                    preset::distinct_chain_ids((#[trigger] self@.presets[j]).chain) by {
                    if j < old(self)@.presets.len() {
                        assert(self@.presets[j] == old(self)@.presets[j]);
                    }
                }
            }
        }
        Ok(i)
    }

    /// Creates a preset, unless there is one of the same id; tells where it stands.
    pub fn create_preset(&mut self, body: CreatePresetBody) -> (r: Result<(Status, usize), Status>)
        ensures
            ({
                let id = ids::id_of(order::lowercase(body.name@));
                match r {
                    Ok((status, i)) => status == Status::Created && old(self)@.preset(id) is None
                        && i == old(self)@.presets.len() && final(self)@ == preset_added(
                        old(self)@,
                        id,
                        body.name@,
                        preset::outputs_view(body.outputs@),
                    ),
                    Err(e) => old(self)@.preset(id) is Some && e == Status::Conflict
                        && final(self)@ == old(self)@,
                }
            }),
            order::ascii_is_lowered(body.name@),
            old(self)@.consistent() ==> final(self)@.consistent(),
    {
        let id = preset::make_id(body.name.as_str());
        match self.add_preset(id, body.name, body.outputs) {
            Ok(i) => Ok((Status::Created, i)),
            Err(e) => Err(e),
        }
    }

    /// Renames a preset or changes its channels.
    pub fn update_preset(&mut self, id: &str, body: UpdatePresetBody) -> (r: Status)
        ensures
            match old(self)@.preset(id@) {
                Some(i) => r == Status::Success && final(self)@ == old(self)@.with_preset(
                    i,
                    preset::PresetView {
                        name: or_else(text::opt_text(body.name), old(self)@.presets[i].name),
                        channels: or_else(body.channels, old(self)@.presets[i].channels),
                        ..old(self)@.presets[i]
                    },
                ),
                None => r == Status::NotFound && final(self)@ == old(self)@,
            },
            old(self)@.consistent() ==> final(self)@.consistent(),
    {
        match self.find_preset(id) {
            Some(i) => {
                if let Some(name) = body.name {
                    self.presets[i].name = name;
                }
                if let Some(channels) = body.channels {
                    self.presets[i].channels = channels;
                }
                proof {
                    let p = old(self)@.presets[i as int];
                    let q = preset::PresetView {
                        name: or_else(text::opt_text(body.name), p.name),
                        channels: or_else(body.channels, p.channels),
                        ..p
                    };
                    assert(self.presets@[i as int]@ =~= q);
                    assert(self@.presets =~= old(self)@.presets.update(i as int, q));
                    lemma_with_preset(old(self)@, i as int, q);
                }
                Status::Success
            },
            None => Status::NotFound,
        }
    }
}

proof fn lemma_filter_distinct<T>(
    v: Seq<T>,
    key: spec_fn(T) -> Seq<char>,
    keep: spec_fn(T) -> bool,
)
    ensures
        forall|i: int|
            0 <= i < v.filter(keep).len() ==> v.contains(#[trigger] v.filter(keep)[i]) && keep(
                v.filter(keep)[i],
            ),
        (forall|i: int, j: int| 0 <= i < j < v.len() ==> key(#[trigger] v[i]) != key(#[trigger] v[j]))
            ==> (forall|i: int, j: int|
            0 <= i < j < v.filter(keep).len() ==> key(#[trigger] v.filter(keep)[i]) != key(
                #[trigger] v.filter(keep)[j],
            )),
    decreases v.len(),
{
    reveal(Seq::filter);
    if v.len() > 0 {
        let t = v.drop_last();
        let f = v.filter(keep);
        let g = t.filter(keep);
        lemma_filter_distinct(t, key, keep);
        assert forall|i: int| 0 <= i < f.len() implies v.contains(#[trigger] f[i]) && keep(
            f[i],
        ) by {
            if i < g.len() {
                assert(t.contains(g[i]));
                let k = choose|k: int| 0 <= k < t.len() && t[k] == g[i];
                assert(v[k] == f[i]);
            } else {
                assert(v[v.len() - 1] == f[i]);
            }
        }
        if forall|i: int, j: int|
            0 <= i < j < v.len() ==> key(#[trigger] v[i]) != key(#[trigger] v[j]) {
            assert forall|i: int, j: int| 0 <= i < j < t.len() implies key(#[trigger] t[i]) != key(
                #[trigger] t[j],
            ) by {
                assert(key(v[i]) != key(v[j]));
            }
            assert forall|i: int, j: int| 0 <= i < j < f.len() implies key(#[trigger] f[i]) != key(
                #[trigger] f[j],
            ) by {
                assert(f[i] == g[i]);
                if j == g.len() {
                    assert(t.contains(g[i]));
                    let k = choose|k: int| 0 <= k < t.len() && t[k] == g[i];
                    assert(key(v[k]) != key(v[v.len() - 1]));
                } else {
                    assert(f[j] == g[j]);
                }
            }
        }
    }
}

/// The keys of a list of things.
spec fn keys_of<T>(v: Seq<T>, key: spec_fn(T) -> Seq<char>) -> Seq<Seq<char>> {
    Seq::new(v.len(), |i: int| key(v[i]))
}

/// What has another key than `id` is found among the things without that key as
/// it was among all.
proof fn lemma_filter_found<T>(
    v: Seq<T>,
    key: spec_fn(T) -> Seq<char>,
    id: Seq<char>,
    other: Seq<char>,
)
    requires
        other != id,
    ensures
        ({
            let f = v.filter(|x: T| key(x) != id);
            match id_from(keys_of(v, key), other, 0) {
                Some(j) => id_from(keys_of(f, key), other, 0) matches Some(k) && 0 <= k < f.len()
                    && 0 <= j < v.len() && f[k] == v[j],
                None => id_from(keys_of(f, key), other, 0) is None,
            }
        }),
    decreases v.len(),
{
    reveal(Seq::filter);
    let keep = |x: T| key(x) != id;
    let f = v.filter(keep);
    if v.len() > 0 {
        let t = v.drop_last();
        let x = v.last();
        let g = t.filter(keep);
        lemma_filter_found(t, key, id, other);
        assert(keys_of(v, key) =~= keys_of(t, key).push(key(x)));
        lemma_id_from_push(keys_of(t, key), key(x), other, 0);
        if keep(x) {
            assert(f =~= g.push(x));
            assert(keys_of(f, key) =~= keys_of(g, key).push(key(x)));
            lemma_id_from_push(keys_of(g, key), key(x), other, 0);
        }
    }
}

proof fn lemma_filter_all<T>(v: Seq<T>, keep: spec_fn(T) -> bool)
    requires
        forall|i: int| 0 <= i < v.len() ==> keep(#[trigger] v[i]),
    ensures
        v.filter(keep) == v,
    decreases v.len(),
{
    reveal(Seq::filter);
    if v.len() > 0 {
        assert(keep(v[v.len() - 1]));
        lemma_filter_all(v.drop_last(), keep);
        assert(v =~= v.drop_last().push(v.last()));
    }
}

/// The presets but those of the id `id`.
pub open spec fn presets_without(
    v: Seq<preset::PresetView>,
    id: Seq<char>,
) -> Seq<preset::PresetView> {
    v.filter(|p: preset::PresetView| p.id != id)
}

/// The virtual mics but those of the id `id`.
pub open spec fn mics_without(
    v: Seq<virtual_mic::MicView>,
    id: Seq<char>,
) -> Seq<virtual_mic::MicView> {
    v.filter(|m: virtual_mic::MicView| m.id != id)
}

/// No preset of the id `id` is left.
pub proof fn deleted_preset_is_gone(s: AppView, id: Seq<char>)
    ensures
        (AppView { presets: presets_without(s.presets, id), ..s }).preset(id) is None,
        s.consistent() ==> (AppView {
            presets: presets_without(s.presets, id),
            ..s
        }).consistent(),
{
    let v = s.presets;
    let keep = |p: preset::PresetView| p.id != id;
    let key = |p: preset::PresetView| p.id;
    let w = presets_without(v, id);
    lemma_filter_distinct(v, key, keep);
    lemma_id_from(preset_ids(w), id, 0);
    assert(forall|i: int| 0 <= i < w.len() ==> keep(#[trigger] w[i]));
    if s.consistent() {
        assert forall|i: int, j: int| 0 <= i < j < v.len() implies key(#[trigger] v[i]) != key(
            #[trigger] v[j],
        ) by {
            assert(preset_ids(v)[i] != preset_ids(v)[j]);
        }
        let ks = preset_ids(w);
        assert forall|i: int, j: int| 0 <= i < ks.len() && 0 <= j < ks.len() && i != j implies ks[i]
            != ks[j] by {
            if i < j {
                assert(key(w[i]) != key(w[j]));
            } else {
                assert(key(w[j]) != key(w[i]));
            }
        }
        assert forall|i: int| 0 <= i < w.len() implies preset::distinct_chain_ids(
            (#[trigger] w[i]).chain,
        ) by {
            assert(v.contains(w[i]));
        }
    }
}

/// No virtual mic of the id `id` is left.
pub proof fn deleted_mic_is_gone(s: AppView, id: Seq<char>)
    ensures
        (AppView { virtual_mics: mics_without(s.virtual_mics, id), ..s }).mic(id) is None,
        s.consistent() ==> (AppView {
            virtual_mics: mics_without(s.virtual_mics, id),
            ..s
        }).consistent(),
{
    let v = s.virtual_mics;
    let keep = |m: virtual_mic::MicView| m.id != id;
    let key = |m: virtual_mic::MicView| m.id;
    let w = mics_without(v, id);
    lemma_filter_distinct(v, key, keep);
    lemma_id_from(mic_ids(w), id, 0);
    assert(forall|i: int| 0 <= i < w.len() ==> keep(#[trigger] w[i]));
    if s.consistent() {
        assert forall|i: int, j: int| 0 <= i < j < v.len() implies key(#[trigger] v[i]) != key(
            #[trigger] v[j],
        ) by {
            assert(mic_ids(v)[i] != mic_ids(v)[j]);
        }
        let ks = mic_ids(w);
        assert forall|i: int, j: int| 0 <= i < ks.len() && 0 <= j < ks.len() && i != j implies ks[i]
            != ks[j] by {
            if i < j {
                assert(key(w[i]) != key(w[j]));
            } else {
                assert(key(w[j]) != key(w[i]));
            }
        }
    }
}

/// The presets of other ids are still there after the preset `id` is deleted, as
/// they were.
pub proof fn other_presets_stay(s: AppView, id: Seq<char>, other: Seq<char>)
    requires
        other != id,
    ensures
        ({
            let t = AppView { presets: presets_without(s.presets, id), ..s };
            match s.preset(other) {
                Some(j) => t.preset(other) matches Some(k) && t.presets[k] == s.presets[j],
                None => t.preset(other) is None,
            }
        }),
{
    let key = |p: preset::PresetView| p.id;
    let keep = |p: preset::PresetView| key(p) != id;
    let w = presets_without(s.presets, id);
    assert(keep =~= (|p: preset::PresetView| p.id != id));
    lemma_filter_found(s.presets, key, id, other);
    assert(keys_of(s.presets, key) =~= preset_ids(s.presets));
    assert(keys_of(w, key) =~= preset_ids(w));
}

/// The virtual mics of other ids are still there after the virtual mic `id` is
/// deleted, as they were.
pub proof fn other_mics_stay(s: AppView, id: Seq<char>, other: Seq<char>)
    requires
        other != id,
    ensures
        ({
            let t = AppView { virtual_mics: mics_without(s.virtual_mics, id), ..s };
            match s.mic(other) {
                Some(j) => t.mic(other) matches Some(k) && t.virtual_mics[k] == s.virtual_mics[j],
                None => t.mic(other) is None,
            }
        }),
{
    let key = |m: virtual_mic::MicView| m.id;
    let keep = |m: virtual_mic::MicView| key(m) != id;
    let w = mics_without(s.virtual_mics, id);
    assert(keep =~= (|m: virtual_mic::MicView| m.id != id));
    lemma_filter_found(s.virtual_mics, key, id, other);
    assert(keys_of(s.virtual_mics, key) =~= mic_ids(s.virtual_mics));
    assert(keys_of(w, key) =~= mic_ids(w));
}

/// A preset that has been created is found, behind the others and as it was
/// created; every other id leads where it did.
pub proof fn created_preset_is_found(
    s: AppView,
    id: Seq<char>,
    name: Seq<char>,
    outputs: Seq<preset::OutputView>,
    other: Seq<char>,
)
    requires
        s.preset(id) is None,
        other != id,
    ensures
        preset_added(s, id, name, outputs).preset(id) == Some(s.presets.len() as int),
        preset_added(s, id, name, outputs).presets[s.presets.len() as int] == (preset::PresetView {
            outputs,
            ..preset::empty_preset(id, name)
        }),
        preset_added(s, id, name, outputs).preset(other) == s.preset(other),
{
    let t = preset_added(s, id, name, outputs);
    let was = preset_ids(s.presets);
    assert(preset_ids(t.presets) =~= was.push(id));
    lemma_id_from_push(was, id, id, 0);
    lemma_id_from_push(was, id, other, 0);
}

/// Deleting a preset that has just been created undoes that.
pub proof fn delete_undoes_create(
    s: AppView,
    id: Seq<char>,
    name: Seq<char>,
    outputs: Seq<preset::OutputView>,
)
    requires
        s.preset(id) is None,
    ensures
        presets_without(preset_added(s, id, name, outputs).presets, id) == s.presets,
{
    let keep = |p: preset::PresetView| p.id != id;
    let v = preset_added(s, id, name, outputs).presets;
    lemma_id_from(preset_ids(s.presets), id, 0);
    assert forall|i: int| 0 <= i < s.presets.len() implies keep(#[trigger] s.presets[i]) by {
        assert(preset_ids(s.presets)[i] == s.presets[i].id);
    }
    lemma_filter_all(s.presets, keep);
    reveal(Seq::filter);
    assert(v.drop_last() =~= s.presets);
}

/// Forgetting a route that has just been made leaves the stream without a route,
/// and the state as it was where it had none.
pub proof fn unroute_undoes_route(s: AppView, node_name: Seq<char>, id: Seq<char>)
    ensures
        s.stream_routes.insert(node_name, id).remove(node_name) == s.stream_routes.remove(
            node_name,
        ),
        !s.stream_routes.contains_key(node_name) ==> s.stream_routes.insert(node_name, id).remove(
            node_name,
        ) == s.stream_routes,
{
    let m = s.stream_routes;
    assert(m.insert(node_name, id).remove(node_name) =~= m.remove(node_name));
    if !m.contains_key(node_name) {
        assert(m.remove(node_name) =~= m);
    }
}

impl AppState {
    /// Deletes the preset `id`, whether or not there is one.
    pub fn delete_preset(&mut self, id: &str) -> (r: Status)
        ensures
            r == Status::NoContent,
            final(self)@ == (AppView {
                presets: presets_without(old(self)@.presets, id@),
                ..old(self)@
            }),
            old(self)@.consistent() ==> final(self)@.consistent(),
    {
        let ghost v = self@.presets;
        let ghost keep = |p: preset::PresetView| p.id != id@;
        let mut rest: Vec<Preset> = Vec::new();
        core::mem::swap(&mut rest, &mut self.presets);
        let mut kept: Vec<Preset> = Vec::new();
        proof {
            reveal(Seq::filter);
            assert(presets_view(kept@) =~= v.take(0).filter(keep));
            assert(presets_view(rest@) =~= v.skip(0));
        }
        while rest.len() > 0
            invariant
                keep == (|p: preset::PresetView| p.id != id@),
                rest@.len() <= v.len(),
                presets_view(rest@) == v.skip(v.len() - rest@.len()),
                presets_view(kept@) == v.take(v.len() - rest@.len()).filter(keep),
            decreases rest@.len(),
        {
            let ghost n = v.len() - rest@.len();
            let ghost before = presets_view(rest@);
            let ghost done = presets_view(kept@);
            let p = rest.remove(0);
            proof {
                reveal(Seq::filter);
                assert(before[0] == p@);
                assert(v[n] == p@);
                assert(presets_view(rest@) =~= before.skip(1));
                assert(before.skip(1) =~= v.skip(n + 1));
                assert(v.take(n + 1).drop_last() =~= v.take(n));
            }
            if !text::same_text(p.id.as_str(), id) {
                kept.push(p);
                assert(presets_view(kept@) =~= done.push(p@));
            }
        }
        self.presets = kept;
        proof {
            assert(v.take(v.len() as int) =~= v);
            deleted_preset_is_gone(old(self)@, id@);
        }
        Status::NoContent
    }

    /// Adds an output to a preset.
    pub fn add_output(&mut self, id: &str, body: AddOutputBody) -> (r: Status)
        ensures
            match old(self)@.preset(id@) {
                Some(i) => r == Status::Success && final(self)@ == old(self)@.with_preset(
                    i,
                    preset::PresetView {
                        outputs: old(self)@.presets[i].outputs.push(
                            preset::OutputView { node_name: body.node_name@, volume: body.volume },
                        ),
                        ..old(self)@.presets[i]
                    },
                ),
                None => r == Status::NotFound && final(self)@ == old(self)@,
            },
            old(self)@.consistent() ==> final(self)@.consistent(),
    {
        match self.find_preset(id) {
            Some(i) => {
                self.presets[i].add_output(body.node_name, body.volume);
                proof {
                    let q = self.presets@[i as int]@;
                    assert(self@.presets =~= old(self)@.presets.update(i as int, q));
                    lemma_with_preset(old(self)@, i as int, q);
                }
                Status::Success
            },
            None => Status::NotFound,
        }
    }

    /// Removes an output of a preset.
    pub fn remove_output(&mut self, id: &str, idx: usize) -> (r: Status)
        ensures
            match old(self)@.preset(id@) {
                Some(i) => if idx < old(self)@.presets[i].outputs.len() {
                    r == Status::Success && final(self)@ == old(self)@.with_preset(
                        i,
                        preset::PresetView {
                            outputs: old(self)@.presets[i].outputs.remove(idx as int),
                            ..old(self)@.presets[i]
                        },
                    )
                } else {
                    r == Status::NotFound && final(self)@ == old(self)@
                },
                None => r == Status::NotFound && final(self)@ == old(self)@,
            },
            old(self)@.consistent() ==> final(self)@.consistent(),
    {
        match self.find_preset(id) {
            Some(i) => {
                let done = self.presets[i].remove_output(idx);
                proof {
                    let q = self.presets@[i as int]@;
                    assert(self@.presets =~= old(self)@.presets.update(i as int, q));
                    assert(!done ==> self@ =~= old(self)@);
                    lemma_with_preset(old(self)@, i as int, q);
                }
                if done {
                    Status::Success
                } else {
                    Status::NotFound
                }
            },
            None => Status::NotFound,
        }
    }

    /// Sets the volume of an output of a preset.
    pub fn update_output_volume(&mut self, id: &str, idx: usize, volume: Level) -> (r: Status)
        ensures
            match old(self)@.preset(id@) {
                Some(i) => if idx < old(self)@.presets[i].outputs.len() {
                    r == Status::Success && final(self)@ == old(self)@.with_preset(
                        i,
                        preset::PresetView {
                            outputs: old(self)@.presets[i].outputs.update(
                                idx as int,
                                preset::OutputView {
                                    volume,
                                    ..old(self)@.presets[i].outputs[idx as int]
                                },
                            ),
                            ..old(self)@.presets[i]
                        },
                    )
                } else {
                    r == Status::NotFound && final(self)@ == old(self)@
                },
                None => r == Status::NotFound && final(self)@ == old(self)@,
            },
            old(self)@.consistent() ==> final(self)@.consistent(),
    {
        match self.find_preset(id) {
            Some(i) => {
                let done = self.presets[i].set_output_volume(idx, volume);
                proof {
                    let q = self.presets@[i as int]@;
                    assert(self@.presets =~= old(self)@.presets.update(i as int, q));
                    assert(!done ==> self@ =~= old(self)@);
                    lemma_with_preset(old(self)@, i as int, q);
                }
                if done {
                    Status::Success
                } else {
                    Status::NotFound
                }
            },
            None => Status::NotFound,
        }
    }

    /// Adds a source input to a preset, which must not have it.
    pub fn add_source_input(&mut self, id: &str, node_name: String) -> (r: Status)
        ensures
            match old(self)@.preset(id@) {
                Some(i) => if !old(self)@.presets[i].source_inputs.contains(node_name@) {
                    r == Status::Success && final(self)@ == old(self)@.with_preset(
                        i,
                        preset::PresetView {
                            source_inputs: old(self)@.presets[i].source_inputs.push(node_name@),
                            ..old(self)@.presets[i]
                        },
                    )
                } else {
                    r == Status::Conflict && final(self)@ == old(self)@
                },
                None => r == Status::NotFound && final(self)@ == old(self)@,
            },
            old(self)@.consistent() ==> final(self)@.consistent(),
    {
        match self.find_preset(id) {
            Some(i) => {
                let done = self.presets[i].add_source_input(node_name);
                proof {
                    let q = self.presets@[i as int]@;
                    assert(self@.presets =~= old(self)@.presets.update(i as int, q));
                    assert(!done ==> self@ =~= old(self)@);
                    lemma_with_preset(old(self)@, i as int, q);
                }
                if done {
                    Status::Success
                } else {
                    Status::Conflict
                }
            },
            None => Status::NotFound,
        }
    }

    /// Removes a source input of a preset.
    pub fn remove_source_input(&mut self, id: &str, idx: usize) -> (r: Status)
        ensures
            match old(self)@.preset(id@) {
                Some(i) => if idx < old(self)@.presets[i].source_inputs.len() {
                    r == Status::Success && final(self)@ == old(self)@.with_preset(
                        i,
                        preset::PresetView {
                            source_inputs: old(self)@.presets[i].source_inputs.remove(idx as int),
                            ..old(self)@.presets[i]
                        },
                    )
                } else {
                    r == Status::NotFound && final(self)@ == old(self)@
                },
                None => r == Status::NotFound && final(self)@ == old(self)@,
            },
            old(self)@.consistent() ==> final(self)@.consistent(),
    {
        match self.find_preset(id) {
            Some(i) => {
                let done = self.presets[i].remove_source_input(idx);
                proof {
                    let q = self.presets@[i as int]@;
                    assert(self@.presets =~= old(self)@.presets.update(i as int, q));
                    assert(!done ==> self@ =~= old(self)@);
                    lemma_with_preset(old(self)@, i as int, q);
                }
                if done {
                    Status::Success
                } else {
                    Status::NotFound
                }
            },
            None => Status::NotFound,
        }
    }
}

// ── Routing ──────────────────────────────────────────────────────────────────

impl AppState {
    /// Routes a stream to the sink of a preset. Where the name of the stream's
    /// node is known the route is kept; the result is the name of the sink.
    pub fn route_stream(&mut self, id: &str, node_name: Option<String>) -> (r: Result<
        String,
        (Status, &'static str),
    >)
        ensures
            match r {
                Ok(sink) => old(self)@.preset(id@) is Some && sink@ == preset::preset_node_name(id@)
                    && final(self)@ == (match node_name {
                    Some(n) => AppView {
                        stream_routes: old(self)@.stream_routes.insert(n@, id@),
                        ..old(self)@
                    },
                    None => old(self)@,
                }),
                Err((status, words)) => old(self)@.preset(id@) is None && status
                    == Status::NotFound && words@ == "preset not found"@ && final(self)@
                    == old(self)@,
            },
            old(self)@.consistent() ==> final(self)@.consistent(),
    {
        match self.find_preset(id) {
            Some(i) => {
                let sink = self.presets[i].pw_node_name();
                if let Some(name) = node_name {
                    let ghost k = name@;
                    self.stream_routes.insert(name, id.to_owned());
                    assert(self@.stream_routes =~= old(self)@.stream_routes.insert(k, id@));
                }
                Ok(sink)
            },
            None => Err((Status::NotFound, "preset not found")),
        }
    }

    /// Forgets the route of a stream, where the name of its node is known.
    pub fn unroute_stream(&mut self, node_name: Option<String>)
        ensures
            final(self)@ == (match node_name {
                Some(n) => AppView {
                    stream_routes: old(self)@.stream_routes.remove(n@),
                    ..old(self)@
                },
                None => old(self)@,
            }),
            old(self)@.consistent() ==> final(self)@.consistent(),
    {
        if let Some(name) = node_name {
            self.stream_routes.remove(name.as_str());
            assert(self@.stream_routes =~= old(self)@.stream_routes.remove(name@));
        }
    }
}

// ── Effect chains ────────────────────────────────────────────────────────────

/// A request for a new chain node, with the kind of the plugin.
pub enum AddChainTagged {
    Lv2 { plugin_uri: String, position: Option<usize>, label: Option<String> },
    Ladspa {
        path: String,
        plugin_label: String,
        position: Option<usize>,
        label: Option<String>,
    },
}

/// A request for a new chain node.
pub enum AddChainNodeBody {
    Tagged(AddChainTagged),
    /// Without a kind it is an LV2 plugin, so that older clients keep working.
    LegacyLv2 { plugin_uri: String, position: Option<usize>, label: Option<String> },
}

/// The values that the control inputs of an LV2 plugin start with.
pub open spec fn lv2_defaults(ports: Seq<lv2::PortView>) -> Map<Seq<char>, Seq<char>>
    decreases ports.len(),
{
    if ports.len() == 0 {
        Map::empty()
    } else {
        let p = ports.last();
        let rest = lv2_defaults(ports.drop_last());
        match p.default {
            Some(d) => if p.kind == lv2::PortKind::Control && p.direction
                == lv2::PortDirection::Input {
                rest.insert(p.symbol, d)
            } else {
                rest
            },
            None => rest,
        }
    }
}

/// The values that the control inputs of a LADSPA plugin start with.
pub open spec fn ladspa_defaults(ports: Seq<ladspa::PortView>) -> Map<Seq<char>, Seq<char>>
    decreases ports.len(),
{
    if ports.len() == 0 {
        Map::empty()
    } else {
        let p = ports.last();
        let rest = ladspa_defaults(ports.drop_last());
        match p.default {
            Some(d) => if p.kind == ladspa::PortKind::Control && p.direction
                == ladspa::PortDirection::Input {
                rest.insert(p.name, d)
            } else {
                rest
            },
            None => rest,
        }
    }
}

/// A node for an LV2 plugin: its controls have the values that the catalog gives.
pub open spec fn lv2_node(uri: Seq<char>, cat: Lv2Catalog) -> preset::ChainKindView {
    preset::ChainKindView::Lv2 {
        plugin_uri: uri,
        controls: match lv2::plugin_at(cat.plugins@, uri, 0) {
            Some(k) => lv2_defaults(cat.plugins@[k]@.ports),
            None => Map::empty(),
        },
    }
}

/// A node for a LADSPA plugin: its controls have the values that the catalog gives.
pub open spec fn ladspa_node(
    path: Seq<char>,
    label: Seq<char>,
    cat: LadspaCatalog,
) -> preset::ChainKindView {
    preset::ChainKindView::Ladspa {
        path,
        label,
        controls: match ladspa::plugin_at(cat.plugins@, path, label, 0) {
            Some(k) => ladspa_defaults(cat.plugins@[k]@.ports),
            None => Map::empty(),
        },
    }
}

/// The node that is asked for.
pub open spec fn node_asked(
    body: AddChainNodeBody,
    lv2_cat: Lv2Catalog,
    ladspa_cat: LadspaCatalog,
) -> preset::ChainKindView {
    match body {
        AddChainNodeBody::LegacyLv2 { plugin_uri, .. } => lv2_node(plugin_uri@, lv2_cat),
        AddChainNodeBody::Tagged(AddChainTagged::Lv2 { plugin_uri, .. }) => lv2_node(
            plugin_uri@,
            lv2_cat,
        ),
        AddChainNodeBody::Tagged(AddChainTagged::Ladspa { path, plugin_label, .. }) => ladspa_node(
            path@,
            plugin_label@,
            ladspa_cat,
        ),
    }
}

/// The position that is asked for.
pub open spec fn position_asked(body: AddChainNodeBody) -> Option<usize> {
    match body {
        AddChainNodeBody::LegacyLv2 { position, .. } => position,
        AddChainNodeBody::Tagged(AddChainTagged::Lv2 { position, .. }) => position,
        AddChainNodeBody::Tagged(AddChainTagged::Ladspa { position, .. }) => position,
    }
}

/// The label that is asked for.
pub open spec fn label_asked(body: AddChainNodeBody) -> Option<Seq<char>> {
    match body {
        AddChainNodeBody::LegacyLv2 { label, .. } => text::opt_text(label),
        AddChainNodeBody::Tagged(AddChainTagged::Lv2 { label, .. }) => text::opt_text(label),
        AddChainNodeBody::Tagged(AddChainTagged::Ladspa { label, .. }) => text::opt_text(label),
    }
}

fn default_lv2_controls(cat: &Lv2Catalog, uri: &str) -> (r: TextMap<Number>)
    ensures
        preset::number_values(r@) == (match lv2::plugin_at(cat.plugins@, uri@, 0) {
            Some(k) => lv2_defaults(cat.plugins@[k]@.ports),
            None => Map::empty(),
        }),
{
    let mut r: TextMap<Number> = TextMap::new();
    assert(preset::number_values(r@) =~= Map::<Seq<char>, Seq<char>>::empty());
    if let Some(p) = cat.find(uri) {
        let ghost ports = p@.ports;
        for i in 0..p.ports.len()
            invariant
                ports == p@.ports,
                preset::number_values(r@) == lv2_defaults(ports.take(i as int)),
        {
            let ghost before = r@;
            let port = &p.ports[i];
            proof {
                assert(ports.take(i + 1).drop_last() =~= ports.take(i as int));
                assert(ports.take(i + 1).last() == port@);
            }
            if let Some(d) = &port.default {
                if port.kind == lv2::PortKind::Control && port.direction
                    == lv2::PortDirection::Input {
                    r.insert(port.symbol.clone(), d.clone());
                    assert(preset::number_values(r@) =~= preset::number_values(before).insert(
                        port.symbol@,
                        d@,
                    ));
                }
            }
        }
        assert(ports.take(ports.len() as int) =~= ports);
    }
    r
}

fn default_ladspa_controls(cat: &LadspaCatalog, path: &str, label: &str) -> (r: TextMap<Number>)
    ensures
        preset::number_values(r@) == (match ladspa::plugin_at(cat.plugins@, path@, label@, 0) {
            Some(k) => ladspa_defaults(cat.plugins@[k]@.ports),
            None => Map::empty(),
        }),
{
    let mut r: TextMap<Number> = TextMap::new();
    assert(preset::number_values(r@) =~= Map::<Seq<char>, Seq<char>>::empty());
    if let Some(p) = cat.find_pair(path, label) {
        let ghost ports = p@.ports;
        for i in 0..p.ports.len()
            invariant
                ports == p@.ports,
                preset::number_values(r@) == ladspa_defaults(ports.take(i as int)),
        {
            let ghost before = r@;
            let port = &p.ports[i];
            proof {
                assert(ports.take(i + 1).drop_last() =~= ports.take(i as int));
                assert(ports.take(i + 1).last() == port@);
            }
            if let Some(d) = &port.default {
                if port.kind == ladspa::PortKind::Control && port.direction
                    == ladspa::PortDirection::Input {
                    r.insert(port.name.clone(), d.clone());
                    assert(preset::number_values(r@) =~= preset::number_values(before).insert(
                        port.name@,
                        d@,
                    ));
                }
            }
        }
        assert(ports.take(ports.len() as int) =~= ports);
    }
    r
}

impl AppState {
    /// Adds a node to the chain of a preset, its controls at the values that the
    /// plugin catalogs give; tells which preset it was and where the node stands.
    pub fn add_chain_node(
        &mut self,
        id: &str,
        body: AddChainNodeBody,
        lv2_cat: &Lv2Catalog,
        ladspa_cat: &LadspaCatalog,
    ) -> (r: Result<(Status, usize, usize), Status>)
        ensures
            match r {
                Ok((status, i, pos)) => {
                    &&& status == Status::Created
                    &&& old(self)@.preset(id@) == Some(i as int)
                    &&& pos == preset::insert_position(
                        position_asked(body),
                        old(self)@.presets[i as int].chain.len(),
                    )
                    &&& exists|node_id: Seq<char>| #[trigger]
                        preset::is_next_chain_id(old(self)@.presets[i as int].chain, node_id)
                            && final(self)@ == old(self)@.with_preset(
                            i as int,
                            preset::PresetView {
                                chain: old(self)@.presets[i as int].chain.insert(
                                    pos as int,
                                    preset::ChainView {
                                        id: node_id,
                                        label: label_asked(body),
                                        bypass: false,
                                        kind: node_asked(body, *lv2_cat, *ladspa_cat),
                                    },
                                ),
                                ..old(self)@.presets[i as int]
                            },
                        )
                },
                Err(e) => old(self)@.preset(id@) is None && e == Status::NotFound && final(self)@
                    == old(self)@,
            },
            old(self)@.consistent() ==> final(self)@.consistent(),
    {
        let (kind, position, label) = match body {
            AddChainNodeBody::LegacyLv2 { plugin_uri, position, label } => {
                let controls = default_lv2_controls(lv2_cat, plugin_uri.as_str());
                (ChainNodeKind::Lv2 { plugin_uri, controls }, position, label)
            },
            AddChainNodeBody::Tagged(AddChainTagged::Lv2 { plugin_uri, position, label }) => {
                let controls = default_lv2_controls(lv2_cat, plugin_uri.as_str());
                (ChainNodeKind::Lv2 { plugin_uri, controls }, position, label)
            },
            AddChainNodeBody::Tagged(
                AddChainTagged::Ladspa { path, plugin_label, position, label },
            ) => {
                let controls = default_ladspa_controls(
                    ladspa_cat,
                    path.as_str(),
                    plugin_label.as_str(),
                );
                (ChainNodeKind::Ladspa { path, label: plugin_label, controls }, position, label)
            },
        };
        assert(kind@ =~= node_asked(body, *lv2_cat, *ladspa_cat));
        match self.find_preset(id) {
            Some(i) => {
                let pos: usize = self.presets[i].insert_node(kind, position, label);
                proof {
                    let q = self.presets@[i as int]@;
                    assert(self@.presets =~= old(self)@.presets.update(i as int, q));
                    lemma_with_preset(old(self)@, i as int, q);
                }
                Ok((Status::Created, i, pos))
            },
            None => Err(Status::NotFound),
        }
    }

    /// Removes a node of the chain of a preset.
    pub fn remove_chain_node(&mut self, id: &str, idx: usize) -> (r: Status)
        ensures
            match old(self)@.preset(id@) {
                Some(i) => if idx < old(self)@.presets[i].chain.len() {
                    r == Status::Success && final(self)@ == old(self)@.with_preset(
                        i,
                        preset::PresetView {
                            chain: old(self)@.presets[i].chain.remove(idx as int),
                            ..old(self)@.presets[i]
                        },
                    )
                } else {
                    r == Status::NotFound && final(self)@ == old(self)@
                },
                None => r == Status::NotFound && final(self)@ == old(self)@,
            },
            old(self)@.consistent() ==> final(self)@.consistent(),
    {
        match self.find_preset(id) {
            Some(i) => {
                let done = self.presets[i].remove_node(idx);
                proof {
                    let q = self.presets@[i as int]@;
                    assert(self@.presets =~= old(self)@.presets.update(i as int, q));
                    assert(!done ==> self@ =~= old(self)@);
                    lemma_with_preset(old(self)@, i as int, q);
                }
                if done {
                    Status::Success
                } else {
                    Status::NotFound
                }
            },
            None => Status::NotFound,
        }
    }

    /// Moves a node within the chain of a preset; a place beyond the end is the last one.
    pub fn move_chain_node(&mut self, id: &str, idx: usize, to: usize) -> (r: Status)
        ensures
            match old(self)@.preset(id@) {
                Some(i) => if idx < old(self)@.presets[i].chain.len() {
                    r == Status::Success && final(self)@ == old(self)@.with_preset(
                        i,
                        preset::PresetView {
                            chain: preset::moved(
                                old(self)@.presets[i].chain,
                                idx as int,
                                preset::move_position(to, old(self)@.presets[i].chain.len()),
                            ),
                            ..old(self)@.presets[i]
                        },
                    )
                } else {
                    r == Status::NotFound && final(self)@ == old(self)@
                },
                None => r == Status::NotFound && final(self)@ == old(self)@,
            },
            old(self)@.consistent() ==> final(self)@.consistent(),
    {
        match self.find_preset(id) {
            Some(i) => {
                let done = self.presets[i].move_node(idx, to);
                proof {
                    let q = self.presets@[i as int]@;
                    assert(self@.presets =~= old(self)@.presets.update(i as int, q));
                    assert(!done ==> self@ =~= old(self)@);
                    lemma_with_preset(old(self)@, i as int, q);
                }
                if done {
                    Status::Success
                } else {
                    Status::NotFound
                }
            },
            None => Status::NotFound,
        }
    }

    /// Sets a control of a node of the chain of a preset.
    pub fn set_chain_control(&mut self, id: &str, idx: usize, symbol: String, value: Number) -> (r: Status)
        ensures
            match old(self)@.preset(id@) {
                Some(i) => if idx < old(self)@.presets[i].chain.len() {
                    r == Status::Success && final(self)@ == old(self)@.with_preset(
                        i,
                        preset::PresetView {
                            chain: old(self)@.presets[i].chain.update(
                                idx as int,
                                preset::ChainView {
                                    kind: preset::with_control(
                                        old(self)@.presets[i].chain[idx as int].kind,
                                        symbol@,
                                        value@,
                                    ),
                                    ..old(self)@.presets[i].chain[idx as int]
                                },
                            ),
                            ..old(self)@.presets[i]
                        },
                    )
                } else {
                    r == Status::NotFound && final(self)@ == old(self)@
                },
                None => r == Status::NotFound && final(self)@ == old(self)@,
            },
            old(self)@.consistent() ==> final(self)@.consistent(),
    {
        match self.find_preset(id) {
            Some(i) => {
                let done = self.presets[i].set_control(idx, symbol, value);
                proof {
                    let q = self.presets@[i as int]@;
                    assert(self@.presets =~= old(self)@.presets.update(i as int, q));
                    assert(!done ==> self@ =~= old(self)@);
                    lemma_with_preset(old(self)@, i as int, q);
                }
                if done {
                    Status::Success
                } else {
                    Status::NotFound
                }
            },
            None => Status::NotFound,
        }
    }

    /// Bypasses a node of the chain of a preset, or puts it back.
    pub fn set_chain_bypass(&mut self, id: &str, idx: usize, bypass: bool) -> (r: Status)
        ensures
            match old(self)@.preset(id@) {
                Some(i) => if idx < old(self)@.presets[i].chain.len() {
                    r == Status::Success && final(self)@ == old(self)@.with_preset(
                        i,
                        preset::PresetView {
                            chain: old(self)@.presets[i].chain.update(
                                idx as int,
                                preset::ChainView {
                                    bypass,
                                    ..old(self)@.presets[i].chain[idx as int]
                                },
                            ),
                            ..old(self)@.presets[i]
                        },
                    )
                } else {
                    r == Status::NotFound && final(self)@ == old(self)@
                },
                None => r == Status::NotFound && final(self)@ == old(self)@,
            },
            old(self)@.consistent() ==> final(self)@.consistent(),
    {
        match self.find_preset(id) {
            Some(i) => {
                let done = self.presets[i].set_bypass(idx, bypass);
                proof {
                    let q = self.presets@[i as int]@;
                    assert(self@.presets =~= old(self)@.presets.update(i as int, q));
                    assert(!done ==> self@ =~= old(self)@);
                    lemma_with_preset(old(self)@, i as int, q);
                }
                if done {
                    Status::Success
                } else {
                    Status::NotFound
                }
            },
            None => Status::NotFound,
        }
    }

    /// Sets the label of a node of the chain of a preset.
    pub fn set_chain_label(&mut self, id: &str, idx: usize, label: Option<String>) -> (r: Status)
        ensures
            match old(self)@.preset(id@) {
                Some(i) => if idx < old(self)@.presets[i].chain.len() {
                    r == Status::Success && final(self)@ == old(self)@.with_preset(
                        i,
                        preset::PresetView {
                            chain: old(self)@.presets[i].chain.update(
                                idx as int,
                                preset::ChainView {
                                    label: text::opt_text(label),
                                    ..old(self)@.presets[i].chain[idx as int]
                                },
                            ),
                            ..old(self)@.presets[i]
                        },
                    )
                } else {
                    r == Status::NotFound && final(self)@ == old(self)@
                },
                None => r == Status::NotFound && final(self)@ == old(self)@,
            },
            old(self)@.consistent() ==> final(self)@.consistent(),
    {
        match self.find_preset(id) {
            Some(i) => {
                let done = self.presets[i].set_label(idx, label);
                proof {
                    let q = self.presets@[i as int]@;
                    assert(self@.presets =~= old(self)@.presets.update(i as int, q));
                    assert(!done ==> self@ =~= old(self)@);
                    lemma_with_preset(old(self)@, i as int, q);
                }
                if done {
                    Status::Success
                } else {
                    Status::NotFound
                }
            },
            None => Status::NotFound,
        }
    }
}

// ── Catalogs ─────────────────────────────────────────────────────────────────

/// The first plugin of the catalog with the given URI.
pub fn get_lv2_plugin<'a>(cat: &'a Lv2Catalog, uri: &str) -> (r: Result<&'a Lv2Plugin, Status>)
    ensures
        match r {
            Ok(p) => lv2::plugin_at(cat.plugins@, uri@, 0) matches Some(k) && 0 <= k
                < cat.plugins@.len() && *p == cat.plugins@[k],
            Err(e) => lv2::plugin_at(cat.plugins@, uri@, 0) is None && e == Status::NotFound,
        },
{
    match cat.find(uri) {
        Some(p) => Ok(p),
        None => Err(Status::NotFound),
    }
}

/// The first plugin of the catalog that the key `{path}::{label}` names.
pub fn get_ladspa_plugin<'a>(cat: &'a LadspaCatalog, key: &str) -> (r: Result<
    &'a LadspaPlugin,
    Status,
>)
    ensures
        match r {
            Ok(p) => ladspa::plugin_keyed(cat.plugins@, key@) matches Some(k) && 0 <= k
                < cat.plugins@.len() && *p == cat.plugins@[k],
            Err(e) => ladspa::plugin_keyed(cat.plugins@, key@) is None && e == Status::NotFound,
        },
{
    match cat.find(key) {
        Some(p) => Ok(p),
        None => Err(Status::NotFound),
    }
}

// ── What the answers and the parts say ───────────────────────────────────────

/// The codes of the answers are those of HTTP, and tell the answers apart.
pub proof fn answers_are_told_apart(a: Status, b: Status)
    ensures
        status_code(a) == status_code(b) ==> a == b,
        status_code(Status::Success) == 200,
        status_code(Status::Created) == 201,
        status_code(Status::NoContent) == 204,
        status_code(Status::BadRequest) == 400,
        status_code(Status::NotFound) == 404,
        status_code(Status::Conflict) == 409,
        status_code(Status::ServerError) == 500,
{
}

/// A preset is found by its id: the first that has it, and none only where none has.
pub proof fn presets_are_found_by_id(s: AppView, id: Seq<char>)
    ensures
        match s.preset(id) {
            Some(k) => 0 <= k < s.presets.len() && s.presets[k].id == id && (forall|j: int|
                0 <= j < k ==> (#[trigger] s.presets[j]).id != id),
            None => forall|j: int| 0 <= j < s.presets.len() ==> (#[trigger] s.presets[j]).id != id,
        },
{
    let v = preset_ids(s.presets);
    lemma_id_from(v, id, 0);
    assert forall|j: int| 0 <= j < s.presets.len() implies v[j] == (
    #[trigger] s.presets[j]).id by {}
}

/// A virtual mic is found by its id: the first that has it, and none only where none
/// has.
pub proof fn mics_are_found_by_id(s: AppView, id: Seq<char>)
    ensures
        match s.mic(id) {
            Some(k) => 0 <= k < s.virtual_mics.len() && s.virtual_mics[k].id == id && (forall|
                j: int,
            |
                0 <= j < k ==> (#[trigger] s.virtual_mics[j]).id != id),
            None => forall|j: int|
                0 <= j < s.virtual_mics.len() ==> (#[trigger] s.virtual_mics[j]).id != id,
        },
{
    let v = mic_ids(s.virtual_mics);
    lemma_id_from(v, id, 0);
    assert forall|j: int| 0 <= j < s.virtual_mics.len() implies v[j] == (
    #[trigger] s.virtual_mics[j]).id by {}
}

/// A clip is found by its id: the first that has it, and none only where none has.
pub proof fn clips_are_found_by_id(s: AppView, id: Seq<char>)
    ensures
        match s.clip(id) {
            Some(k) => 0 <= k < s.clips.len() && s.clips[k].id == id && (forall|j: int|
                0 <= j < k ==> (#[trigger] s.clips[j]).id != id),
            None => forall|j: int| 0 <= j < s.clips.len() ==> (#[trigger] s.clips[j]).id != id,
        },
{
    let v = clip_ids(s.clips);
    lemma_id_from(v, id, 0);
    assert forall|j: int| 0 <= j < s.clips.len() implies v[j] == (#[trigger] s.clips[j]).id by {}
}

/// A change of one preset, mic or clip keeps all the others, and everything else.
pub proof fn one_change_keeps_the_rest(
    s: AppView,
    i: int,
    j: int,
    p: preset::PresetView,
    m: virtual_mic::MicView,
    c: soundboard::ClipView,
)
    requires
        i != j,
    ensures
        0 <= i < s.presets.len() && 0 <= j < s.presets.len() ==> ({
            let t = s.with_preset(i, p);
            &&& t.presets.len() == s.presets.len() && t.presets[i] == p
            &&& t.presets[j] == s.presets[j]
            &&& t.virtual_mics == s.virtual_mics && t.clips == s.clips
            &&& t.stream_routes == s.stream_routes && t.active_profile == s.active_profile
        }),
        0 <= i < s.virtual_mics.len() && 0 <= j < s.virtual_mics.len() ==> ({
            let t = s.with_mic(i, m);
            &&& t.virtual_mics.len() == s.virtual_mics.len() && t.virtual_mics[i] == m
            &&& t.virtual_mics[j] == s.virtual_mics[j]
            &&& t.presets == s.presets && t.clips == s.clips
            &&& t.stream_routes == s.stream_routes && t.active_profile == s.active_profile
        }),
        0 <= i < s.clips.len() && 0 <= j < s.clips.len() ==> ({
            let t = s.with_clip(i, c);
            &&& t.clips.len() == s.clips.len() && t.clips[i] == c
            &&& t.clips[j] == s.clips[j]
            &&& t.presets == s.presets && t.virtual_mics == s.virtual_mics
            &&& t.stream_routes == s.stream_routes && t.active_profile == s.active_profile
        }),
{
}

/// A new preset comes last, with its name and its outputs and nothing else, for two
/// channels; all else is as it was.
pub proof fn created_preset_comes_last(
    s: AppView,
    id: Seq<char>,
    name: Seq<char>,
    outputs: Seq<preset::OutputView>,
)
    ensures
        ({
            let t = preset_added(s, id, name, outputs);
            let p = t.presets.last();
            &&& t.presets.drop_last() == s.presets
            &&& p.id == id && p.name == name && p.outputs == outputs
            &&& p.chain.len() == 0 && p.source_inputs.len() == 0 && p.channels is Stereo
            &&& t.virtual_mics == s.virtual_mics && t.clips == s.clips
            &&& t.stream_routes == s.stream_routes && t.active_profile == s.active_profile
        }),
{
    assert(preset_added(s, id, name, outputs).presets.drop_last() =~= s.presets);
}

/// A new value replaces the old one, and without a new one the old one stays.
pub proof fn new_values_replace<T>(x: T, was: T)
    ensures
        or_else(Some(x), was) == x,
        or_else(None, was) == was,
{
}

/// The port is a control input with a default.
pub open spec fn starts_lv2(p: lv2::PortView) -> bool {
    p.kind is Control && p.direction is Input && p.default is Some
}

/// The port is a control input with a default.
pub open spec fn starts_ladspa(p: ladspa::PortView) -> bool {
    p.kind is Control && p.direction is Input && p.default is Some
}

/// The controls of a new LV2 node are the control inputs of the plugin that have a
/// default, under their symbols; each has its default, the last where a symbol stands
/// twice.
pub proof fn lv2_controls_start_with_defaults(ports: Seq<lv2::PortView>, i: int, s: Seq<char>)
    ensures
        0 <= i < ports.len() && starts_lv2(ports[i]) && ports[i].symbol == s && (forall|j: int|
            i < j < ports.len() ==> !(starts_lv2(#[trigger] ports[j]) && ports[j].symbol == s))
            ==> lv2_defaults(ports).contains_key(s) && lv2_defaults(ports)[s] == ports[i].default->0,
        lv2_defaults(ports).contains_key(s) <==> exists|j: int|
            0 <= j < ports.len() && starts_lv2(#[trigger] ports[j]) && ports[j].symbol == s,
    decreases ports.len(),
{
    if ports.len() > 0 {
        let front = ports.drop_last();
        let n = ports.len() - 1;
        lv2_controls_start_with_defaults(front, i, s);
        assert(ports[n] == ports.last());
        assert forall|j: int| 0 <= j < n implies front[j] == #[trigger] ports[j] by {}
        if exists|j: int|
            0 <= j < front.len() && starts_lv2(#[trigger] front[j]) && front[j].symbol == s {
            let j = choose|j: int|
                0 <= j < front.len() && starts_lv2(#[trigger] front[j]) && front[j].symbol == s;
            assert(ports[j] == front[j]);
        }
        if exists|j: int|
            0 <= j < ports.len() && starts_lv2(#[trigger] ports[j]) && ports[j].symbol == s {
            let j = choose|j: int|
                0 <= j < ports.len() && starts_lv2(#[trigger] ports[j]) && ports[j].symbol == s;
            if j < n {
                assert(front[j] == ports[j]);
            }
        }
    }
}

/// The controls of a new LADSPA node are the control inputs of the plugin that have a
/// default, under their names; each has its default, the last where a name stands
/// twice.
pub proof fn ladspa_controls_start_with_defaults(
    ports: Seq<ladspa::PortView>,
    i: int,
    s: Seq<char>,
)
    ensures
        0 <= i < ports.len() && starts_ladspa(ports[i]) && ports[i].name == s && (forall|j: int|
            i < j < ports.len() ==> !(starts_ladspa(#[trigger] ports[j]) && ports[j].name == s))
            ==> ladspa_defaults(ports).contains_key(s) && ladspa_defaults(ports)[s]
            == ports[i].default->0,
        ladspa_defaults(ports).contains_key(s) <==> exists|j: int|
            0 <= j < ports.len() && starts_ladspa(#[trigger] ports[j]) && ports[j].name == s,
    decreases ports.len(),
{
    if ports.len() > 0 {
        let front = ports.drop_last();
        let n = ports.len() - 1;
        ladspa_controls_start_with_defaults(front, i, s);
        assert(ports[n] == ports.last());
        assert forall|j: int| 0 <= j < n implies front[j] == #[trigger] ports[j] by {}
        if exists|j: int|
            0 <= j < front.len() && starts_ladspa(#[trigger] front[j]) && front[j].name == s {
            let j = choose|j: int|
                0 <= j < front.len() && starts_ladspa(#[trigger] front[j]) && front[j].name == s;
            assert(ports[j] == front[j]);
        }
        if exists|j: int|
            0 <= j < ports.len() && starts_ladspa(#[trigger] ports[j]) && ports[j].name == s {
            let j = choose|j: int|
                0 <= j < ports.len() && starts_ladspa(#[trigger] ports[j]) && ports[j].name == s;
            if j < n {
                assert(front[j] == ports[j]);
            }
        }
    }
}

/// A new node names the plugin that was asked for. Its controls are those that the
/// first such plugin of the catalog starts with; it has none where the catalog does
/// not know the plugin.
pub proof fn new_nodes_name_their_plugin(
    uri: Seq<char>,
    path: Seq<char>,
    label: Seq<char>,
    lv2_cat: Lv2Catalog,
    ladspa_cat: LadspaCatalog,
    k: int,
)
    ensures
        lv2_node(uri, lv2_cat) matches preset::ChainKindView::Lv2 { plugin_uri, controls } && {
            &&& plugin_uri == uri
            &&& 0 <= k < lv2_cat.plugins@.len() && lv2_cat.plugins@[k].uri@ == uri && (forall|j: int|
                0 <= j < k ==> (#[trigger] lv2_cat.plugins@[j]).uri@ != uri) ==> controls
                == lv2_defaults(lv2_cat.plugins@[k]@.ports)
            &&& (forall|j: int|
                0 <= j < lv2_cat.plugins@.len() ==> (#[trigger] lv2_cat.plugins@[j]).uri@ != uri)
                ==> controls == Map::<Seq<char>, Seq<char>>::empty()
        },
        ladspa_node(path, label, ladspa_cat) matches preset::ChainKindView::Ladspa {
            path: p,
            label: l,
            controls,
        } && {
            &&& p == path && l == label
            &&& 0 <= k < ladspa_cat.plugins@.len() && ladspa_cat.plugins@[k].path@ == path
                && ladspa_cat.plugins@[k].label@ == label && (forall|j: int|
                0 <= j < k ==> (#[trigger] ladspa_cat.plugins@[j]).path@ != path
                    || ladspa_cat.plugins@[j].label@ != label) ==> controls == ladspa_defaults(
                ladspa_cat.plugins@[k]@.ports,
            )
            &&& (forall|j: int|
                0 <= j < ladspa_cat.plugins@.len() ==> (#[trigger] ladspa_cat.plugins@[j]).path@
                    != path || ladspa_cat.plugins@[j].label@ != label) ==> controls == Map::<
                Seq<char>,
                Seq<char>,
            >::empty()
        },
{
    lv2::lookup_finds_the_first(lv2_cat.plugins@, uri, 0);
    ladspa::lookup_finds_the_first(ladspa_cat.plugins@, path, label, 0);
}

/// A request for a node gives its plugin, its place and its label, each in its own
/// field; a request without a kind is one for an LV2 plugin.
pub proof fn requests_for_nodes_are_read(
    uri: String,
    path: String,
    plugin_label: String,
    position: Option<usize>,
    label: Option<String>,
    lv2_cat: Lv2Catalog,
    ladspa_cat: LadspaCatalog,
)
    ensures
        ({
            let old_form = AddChainNodeBody::LegacyLv2 { plugin_uri: uri, position, label };
            let lv2_form = AddChainNodeBody::Tagged(
                AddChainTagged::Lv2 { plugin_uri: uri, position, label },
            );
            let ladspa_form = AddChainNodeBody::Tagged(
                AddChainTagged::Ladspa { path, plugin_label, position, label },
            );
            &&& position_asked(old_form) == position && position_asked(lv2_form) == position
                && position_asked(ladspa_form) == position
            &&& label_asked(old_form) == text::opt_text(label) && label_asked(lv2_form)
                == text::opt_text(label) && label_asked(ladspa_form) == text::opt_text(label)
            &&& node_asked(old_form, lv2_cat, ladspa_cat) == lv2_node(uri@, lv2_cat)
            &&& node_asked(lv2_form, lv2_cat, ladspa_cat) == lv2_node(uri@, lv2_cat)
            &&& node_asked(ladspa_form, lv2_cat, ladspa_cat) == ladspa_node(
                path@,
                plugin_label@,
                ladspa_cat,
            )
        }),
{
}

/// The state is kept in the file `state.toml` of the application's own folder below
/// the configuration directory, and below `~/.config` where that is not known.
pub proof fn state_file_is_below(dir: Seq<u8>)
    requires
        dir.len() > 0,
        dir.last() != 0x2f,
    ensures
        state_file(Some(dir)) == dir + seq![0x2fu8] + vstd::utf8::encode_utf8("pipewire-control"@)
            + seq![0x2fu8] + vstd::utf8::encode_utf8("state.toml"@),
        state_file(None) == state_file(Some(vstd::utf8::encode_utf8("~/.config"@))),
        soundboard::sounds_below(Some(dir)) == dir + seq![0x2fu8] + vstd::utf8::encode_utf8(
            "pipewire-control"@,
        ) + seq![0x2fu8] + vstd::utf8::encode_utf8("sounds"@),
        soundboard::sounds_below(None) == soundboard::sounds_below(
            Some(vstd::utf8::encode_utf8("~/.config"@)),
        ),
{
    reveal_strlit("pipewire-control");
    reveal_strlit("state.toml");
    reveal_strlit("sounds");
    assert("pipewire-control"@[15] == 'l');
    paths::folder_and_file_follow(dir, "pipewire-control"@, "state.toml"@);
    paths::folder_and_file_follow(dir, "pipewire-control"@, "sounds"@);
}

/// The state says what its fields hold, each for itself.
pub proof fn states_say_their_fields(s: AppState, i: int, k: Seq<char>)
    ensures
        s.active_profile matches Some(p) ==> s@.active_profile == Some(p@),
        s@.presets.len() == s.presets@.len() && s@.virtual_mics.len() == s.virtual_mics@.len(),
        s@.clips.len() == s.clips@.len(),
        0 <= i < s.presets@.len() ==> s@.presets[i] == s.presets@[i]@,
        0 <= i < s.virtual_mics@.len() ==> s@.virtual_mics[i] == s.virtual_mics@[i]@,
        0 <= i < s.clips@.len() ==> s@.clips[i] == s.clips@[i]@,
        s@.stream_routes.contains_key(k) == s.stream_routes@.contains_key(k),
        s.stream_routes@.contains_key(k) ==> s@.stream_routes[k] == s.stream_routes@[k]@,
{
}

/// In a consistent state the presets, the mics and the nodes of each chain have ids of
/// their own.
pub proof fn consistent_states_have_ids_of_their_own(s: AppView, i: int, j: int, p: int)
    requires
        s.consistent(),
        i < j,
    ensures
        0 <= i && j < s.presets.len() ==> s.presets[i].id != s.presets[j].id,
        0 <= i && j < s.virtual_mics.len() ==> s.virtual_mics[i].id != s.virtual_mics[j].id,
        0 <= p < s.presets.len() && 0 <= i && j < s.presets[p].chain.len()
            ==> s.presets[p].chain[i].id != s.presets[p].chain[j].id,
{
    let ps = preset_ids(s.presets);
    let ms = mic_ids(s.virtual_mics);
    if 0 <= i && j < s.presets.len() {
        assert(ps[i] != ps[j]);
    }
    if 0 <= i && j < s.virtual_mics.len() {
        assert(ms[i] != ms[j]);
    }
}

} // verus!
