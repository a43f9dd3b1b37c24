//! What the requests of clients do with the clips of the soundboard, and with
//! the playbacks that run.

use vstd::prelude::*;
use std::sync::Arc;
use crate::level;
use crate::level::Level;
use crate::maps;
use crate::maps::TextMap;
use crate::model::PwEvent;
use crate::order;
use crate::paths;
use crate::playback;
use crate::playback::{DecodedClip, PlaybackEntry, PlaybackInfo, PlaybackKnobs};
use crate::soundboard;
use crate::soundboard::SoundClip;
use crate::state;
use crate::state::{AppState, Status};
use crate::text;

verus! {

// ── The library ──────────────────────────────────────────────────────────────

pub struct ListQuery {
    /// Comma-separated tags — clips must have ALL of them.
    pub tags: Option<String>,
    /// Substring match on clip name (case-insensitive).
    pub q: Option<String>,
}

/// The pieces of a text between commas, without white space around them.
pub open spec fn trimmed_pieces(s: Seq<char>) -> Seq<Seq<char>> {
    let p = text::split(s, ',');
    Seq::new(p.len(), |i: int| text::trim(p[i]))
}

/// The tags that a query asks for.
pub open spec fn tags_asked(tags: Option<Seq<char>>) -> Seq<Seq<char>> {
    match tags {
        Some(t) => trimmed_pieces(t),
        None => Seq::empty(),
    }
}

/// The pieces of a text between commas.
fn comma_pieces(s: &str, trim: bool) -> (r: Vec<String>)
    ensures
        text::texts(r@) == (if trim {
            trimmed_pieces(s@)
        } else {
            text::split(s@, ',')
        }),
{
    let cs = text::chars_of(s);
    let pieces = text::pieces(cs.as_slice(), ',');
    let ghost all = text::split(s@, ',');
    let ghost want = if trim {
        trimmed_pieces(s@)
    } else {
        all
    };
    let mut r: Vec<String> = Vec::new();
    assert(all.len() == pieces@.len());
    assert(text::texts(r@) =~= want.take(0));
    for i in 0..pieces.len()
        invariant
            all == text::split(s@, ','),
            all == text::rows(pieces@),
            want == (if trim {
                trimmed_pieces(s@)
            } else {
                all
            }),
            text::texts(r@) == want.take(i as int),
    {
        assert(all[i as int] == pieces@[i as int]@);
        let ghost before = text::texts(r@);
        let piece = if trim {
            text::text_of(text::trimmed(pieces[i].as_slice()))
        } else {
            text::text_of(pieces[i].as_slice())
        };
        r.push(piece);
        proof {
            assert(text::texts(r@) =~= before.push(piece@));
            assert(want.take(i + 1) =~= want.take(i as int).push(want[i as int]));
        }
    }
    assert(want.take(want.len() as int) =~= want);
    r
}

/// The clips that a query asks for.
pub fn list_sounds<'a>(q: &ListQuery, state: &'a AppState) -> (r: Vec<&'a SoundClip>)
    ensures
        soundboard::referred(r@) == state.clips@.filter(
            |c: SoundClip|
                soundboard::found_by(
                    c@,
                    tags_asked(text::opt_text(q.tags)),
                    text::opt_text(q.q),
                ),
        ),
        soundboard::ascii_tags_are_lowered(tags_asked(text::opt_text(q.tags))),
        q.q matches Some(s) ==> order::ascii_is_lowered(s@),
        forall|i: int|
            0 <= i < state.clips@.len() ==> order::ascii_is_lowered(
                (#[trigger] state.clips@[i])@.name,
            ),
{
    let required = match &q.tags {
        Some(t) => comma_pieces(t.as_str(), true),
        None => Vec::new(),
    };
    let query = match &q.q {
        Some(s) => Some(s.as_str()),
        None => None,
    };
    assert(text::texts(required@) =~= tags_asked(text::opt_text(q.tags)));
    soundboard::filter_clips(state.clips.as_slice(), required.as_slice(), query)
}

/// The tags of all clips with their counts, the most frequent first.
pub fn list_tags(state: &AppState) -> (r: Vec<(String, usize)>)
    requires
        soundboard::all_tags(state.clips@).len() <= usize::MAX,
    ensures
        soundboard::by_frequency(soundboard::index_view(r@)),
        soundboard::lists_counts(soundboard::index_view(r@), soundboard::all_tags(state.clips@)),
{
    soundboard::tag_index(state.clips.as_slice())
}

pub struct UpdateSoundBody {
    pub name: Option<String>,
    pub tags: Option<Vec<String>>,
    pub default_volume: Option<Level>,
    pub default_loop: Option<bool>,
}

/// `d` is the clip `c` after an update.
pub open spec fn is_updated(
    c: soundboard::ClipView,
    body: UpdateSoundBody,
    d: soundboard::ClipView,
) -> bool {
    &&& d == (soundboard::ClipView {
        name: state::or_else(text::opt_text(body.name), c.name),
        tags: d.tags,
        default_volume: match body.default_volume {
            Some(v) => v.held(Level { bits: level::CLIP_MAX_BITS }),
            None => c.default_volume,
        },
        default_loop: state::or_else(body.default_loop, c.default_loop),
        ..c
    })
    &&& match body.tags {
        Some(tags) => order::strictly_ascending(d.tags) && d.tags.to_set() == soundboard::tag_forms(
            text::texts(tags@),
        ),
        None => d.tags == c.tags,
    }
}

/// A clip of a new id that has been added is found, behind the others; every
/// other id leads where it did.
pub proof fn added_clip_is_found(s: state::AppView, c: soundboard::ClipView, other: Seq<char>)
    requires
        s.clip(c.id) is None,
        other != c.id,
    ensures
        (state::AppView { clips: s.clips.push(c), ..s }).clip(c.id) == Some(s.clips.len() as int),
        (state::AppView { clips: s.clips.push(c), ..s }).clip(other) == s.clip(other),
{
    let was = state::clip_ids(s.clips);
    assert(state::clip_ids(s.clips.push(c)) =~= was.push(c.id));
    state::lemma_id_from_push(was, c.id, c.id, 0);
    state::lemma_id_from_push(was, c.id, other, 0);
}

/// Where no two clips have the same id, a deleted clip is found no more, and every
/// other id leads to the clip that it did.
pub proof fn deleted_clip_is_gone(s: state::AppView, id: Seq<char>, other: Seq<char>)
    requires
        s.clip(id) is Some,
        state::clip_ids(s.clips).no_duplicates(),
        other != id,
    ensures
        ({
            let t = state::AppView { clips: s.clips.remove(s.clip(id)->0), ..s };
            &&& t.clip(id) is None
            &&& match s.clip(other) {
                Some(j) => t.clip(other) matches Some(k) && t.clips[k] == s.clips[j],
                None => t.clip(other) is None,
            }
        }),
{
    let i = s.clip(id)->0;
    let was = state::clip_ids(s.clips);
    state::lemma_id_from(was, id, 0);
    state::lemma_id_from(was, other, 0);
    let t = state::AppView { clips: s.clips.remove(i), ..s };
    let now = state::clip_ids(t.clips);
    assert(now =~= was.remove(i));
    state::lemma_id_from(now, id, 0);
    state::lemma_id_from(now, other, 0);
    if let Some(k) = t.clip(id) {
        let ok = if k < i { k } else { k + 1 };
        assert(was[ok] == id);
    }
    if let Some(k) = t.clip(other) {
        let ok = if k < i { k } else { k + 1 };
        assert(was[ok] == other);
        assert(s.clips[ok] == t.clips[k]);
    }
    if let Some(j) = s.clip(other) {
        let nj = if j < i { j } else { j - 1 };
        assert(now[nj] == other);
    }
}

impl AppState {
    /// The clip `id`.
    pub fn get_sound(&self, id: &str) -> (r: Result<&SoundClip, Status>)
        ensures
            match r {
                Ok(c) => self@.clip(id@) matches Some(i) && c@ == self@.clips[i],
                Err(e) => self@.clip(id@) is None && e == Status::NotFound,
            },
    {
        match self.find_clip(id) {
            Some(i) => Ok(&self.clips[i]),
            None => Err(Status::NotFound),
        }
    }

    /// The clip `id`, of which the file is to be played or sent.
    pub fn sound_to_play(&self, id: &str) -> (r: Result<&SoundClip, (Status, &'static str)>)
        ensures
            match r {
                Ok(c) => self@.clip(id@) matches Some(i) && c@ == self@.clips[i],
                Err((status, words)) => self@.clip(id@) is None && status == Status::NotFound
                    && words@ == "clip not found"@,
            },
    {
        match self.get_sound(id) {
            Ok(c) => Ok(c),
            Err(e) => Err((e, "clip not found")),
        }
    }

    /// Adds a clip to the library; tells where it stands.
    pub fn add_sound(&mut self, clip: SoundClip) -> (r: usize)
        ensures
            r == old(self)@.clips.len(),
            final(self)@ == (state::AppView {
                clips: old(self)@.clips.push(clip@),
                ..old(self)@
            }),
            old(self)@.consistent() ==> final(self)@.consistent(),
    {
        let n: usize = self.clips.len();
        self.clips.push(clip);
        assert(self@.clips =~= old(self)@.clips.push(clip@));
        n
    }

    /// Changes what a clip says; tells which one it was.
    pub fn update_sound(&mut self, id: &str, body: UpdateSoundBody) -> (r: Result<
        (Status, usize),
        Status,
    >)
        ensures
            match r {
                Ok((status, i)) => status == Status::Success && old(self)@.clip(id@) == Some(i as int) && is_updated(
                    old(self)@.clips[i as int],
                    body,
                    final(self)@.clips[i as int],
                ) && final(self)@ == old(self)@.with_clip(i as int, final(self)@.clips[i as int]),
                Err(e) => old(self)@.clip(id@) is None && e == Status::NotFound && final(self)@
                    == old(self)@,
            },
            old(self)@.consistent() ==> final(self)@.consistent(),
    {
        match self.find_clip(id) {
            Some(i) => {
                if let Some(name) = body.name {
                    self.clips[i].name = name;
                }
                if let Some(tags) = body.tags {
                    self.clips[i].tags = soundboard::normalize_tags(tags);
                }
                if let Some(v) = body.default_volume {
                    self.clips[i].default_volume = v.for_clip();
                }
                if let Some(l) = body.default_loop {
                    self.clips[i].default_loop = l;
                }
                proof {
                    let d = self.clips@[i as int]@;
                    assert(is_updated(old(self)@.clips[i as int], body, d));
                    assert(self@.clips =~= old(self)@.clips.update(i as int, d));
                    assert(self@ =~= old(self)@.with_clip(i as int, d));
                }
                Ok((Status::Success, i))
            },
            None => Err(Status::NotFound),
        }
    }

    /// Takes a clip out of the library, so that its file can go too.
    pub fn delete_sound(&mut self, id: &str) -> (r: Result<(Status, SoundClip), Status>)
        ensures
            match r {
                Ok((status, c)) => old(self)@.clip(id@) matches Some(i) && status
                    == Status::NoContent && c@ == old(self)@.clips[i] && final(self)@ == (state::AppView {
                    clips: old(self)@.clips.remove(i),
                    ..old(self)@
                }),
                Err(e) => old(self)@.clip(id@) is None && e == Status::NotFound && final(self)@
                    == old(self)@,
            },
            old(self)@.consistent() ==> final(self)@.consistent(),
    {
        match self.find_clip(id) {
            Some(i) => {
                let c = self.clips.remove(i);
                assert(self@.clips =~= old(self)@.clips.remove(i as int));
                Ok((Status::NoContent, c))
            },
            None => Err(Status::NotFound),
        }
    }
}

// ── Uploads ──────────────────────────────────────────────────────────────────

/// The fields of an upload that have come so far.
pub struct UploadForm {
    pub fields: TextMap<String>,
    /// The name and the bytes of the file.
    pub file: Option<(String, Vec<u8>)>,
}

/// What reading the next field of an upload gave.
pub enum FieldRead {
    /// The file: its name, where it has one, and its bytes.
    File { file_name: Option<String>, bytes: Result<Vec<u8>, String> },
    /// A field of text.
    Text { name: String, value: Result<String, String> },
    End,
    Failed(String),
}

/// What to do after a field of an upload.
pub enum UploadStep {
    /// Read the next field.
    Next,
    /// All fields have come.
    Finish,
    /// Answer with the status and the words.
    Refuse(Status, String),
}

/// An upload that can be stored.
pub struct Upload {
    pub original_name: String,
    pub bytes: Vec<u8>,
    pub display_name: String,
    pub tags: Vec<String>,
    /// The stem that the stored file should have.
    pub stem_hint: String,
}

/// Not blank.
pub open spec fn filled(s: Seq<char>) -> bool {
    text::trim(s).len() > 0
}

fn is_filled(s: &str) -> (r: bool)
    ensures
        r == filled(s@),
{
    let cs = text::chars_of(s);
    text::trimmed(cs.as_slice()).len() > 0
}

/// The name to show for an upload: the field `name` unless it is blank, else the
/// stem of the file's name, else `Clip`.
pub open spec fn upload_name(fields: Map<Seq<char>, String>, original: Seq<char>) -> Seq<char> {
    if fields.contains_key("name"@) && filled(fields["name"@]@) {
        fields["name"@]@
    } else {
        match paths::file_stem(original) {
            Some(s) => s,
            None => "Clip"@,
        }
    }
}

/// The tags of an upload: what stands between the commas of the field `tags`.
pub open spec fn upload_tags(fields: Map<Seq<char>, String>) -> Seq<Seq<char>> {
    if fields.contains_key("tags"@) {
        text::split(fields["tags"@]@, ',')
    } else {
        Seq::empty()
    }
}

/// The upload is refused with the given words.
pub open spec fn refuses(step: UploadStep, words: Seq<char>) -> bool {
    step matches UploadStep::Refuse(status, m) && status == Status::BadRequest && m@ == words
}

fn refusal(what: &str, error: String) -> (r: UploadStep)
    ensures
        refuses(r, what@ + error@),
{
    let mut m = what.to_owned();
    m.append(error.as_str());
    UploadStep::Refuse(Status::BadRequest, m)
}

impl UploadForm {
    /// No field has come yet.
    pub fn new() -> (r: UploadForm)
        ensures
            r.fields@ == Map::<Seq<char>, String>::empty(),
            r.file is None,
    {
        UploadForm { fields: TextMap::new(), file: None }
    }

    /// Whether the field of the given name holds the file; any other holds text.
    pub fn is_file(name: &str) -> (r: bool)
        ensures
            r == (name@ == "file"@),
    {
        text::same_text(name, "file")
    }

    /// Takes in the file; a later one replaces it.
    pub fn take_file(&mut self, file_name: Option<String>, bytes: Vec<u8>)
        ensures
            final(self).fields@ == old(self).fields@,
            final(self).file matches Some((n, b)) && b == bytes && n@ == state::or_else(
                text::opt_text(file_name),
                "upload.bin"@,
            ),
    {
        let name = match file_name {
            Some(n) => n,
            None => "upload.bin".to_owned(),
        };
        self.file = Some((name, bytes));
    }

    /// Takes in a text field; a later one of the same name replaces it.
    pub fn take_text(&mut self, name: String, value: String)
        ensures
            final(self).fields@ == old(self).fields@.insert(name@, value),
            final(self).file == old(self).file,
    {
        self.fields.insert(name, value);
    }

    /// Takes in what reading a field gave.
    pub fn on_field(&mut self, read: FieldRead) -> (r: UploadStep)
        ensures
            match read {
                FieldRead::File { file_name, bytes: Ok(b) } => r is Next && final(self).fields@
                    == old(self).fields@ && (final(self).file matches Some((n, c)) && c == b && n@
                    == state::or_else(text::opt_text(file_name), "upload.bin"@)),
                FieldRead::Text { name, value: Ok(v) } => r is Next && final(self).fields@
                    == old(self).fields@.insert(name@, v) && final(self).file == old(self).file,
                _ => final(self).fields@ == old(self).fields@ && final(self).file == old(self).file,
            },
            match read {
                FieldRead::File { bytes: Err(e), .. } => refuses(r, "file read: "@ + e@),
                FieldRead::Text { value: Err(e), .. } => refuses(r, "field read: "@ + e@),
                FieldRead::End => r is Finish,
                FieldRead::Failed(e) => refuses(r, "multipart: "@ + e@),
                _ => r is Next,
            },
    {
        match read {
            FieldRead::File { file_name, bytes } => match bytes {
                Ok(b) => {
                    self.take_file(file_name, b);
                    UploadStep::Next
                },
                Err(e) => refusal("file read: ", e),
            },
            FieldRead::Text { name, value } => match value {
                Ok(v) => {
                    self.take_text(name, v);
                    UploadStep::Next
                },
                Err(e) => refusal("field read: ", e),
            },
            FieldRead::End => UploadStep::Finish,
            FieldRead::Failed(e) => refusal("multipart: ", e),
        }
    }

    /// The upload, where the file has come.
    pub fn finish(self) -> (r: Result<Upload, (Status, &'static str)>)
        ensures
            match r {
                Ok(u) => self.file matches Some((n, b)) && u.original_name == n && u.bytes == b
                    && u.display_name@ == upload_name(self.fields@, n@) && text::texts(u.tags@)
                    == upload_tags(self.fields@) && u.stem_hint@ == soundboard::slug(
                    upload_name(self.fields@, n@),
                ),
                Err((status, words)) => self.file is None && status == Status::BadRequest && words@
                    == "missing 'file' field"@,
            },
    {
        let (original_name, bytes) = match self.file {
            Some(f) => f,
            None => {
                return Err((Status::BadRequest, "missing 'file' field"));
            },
        };
        let given = match self.fields.get("name") {
            Some(n) => if is_filled(n.as_str()) {
                Some(n.clone())
            } else {
                None
            },
            None => None,
        };
        let display_name = match given {
            Some(n) => n,
            None => match paths::stem_of(original_name.as_str()) {
                Some(s) => s,
                None => "Clip".to_owned(),
            },
        };
        let tags = match self.fields.get("tags") {
            Some(t) => comma_pieces(t.as_str(), false),
            None => Vec::new(),
        };
        assert(text::texts(tags@) =~= upload_tags(self.fields@));
        let stem_hint = soundboard::slugify(display_name.as_str());
        Ok(Upload { original_name, bytes, display_name, tags, stem_hint })
    }
}

impl AppState {
    /// Adds the clip of an upload that has been stored as `file_name`, which lasts
    /// `duration_ms`, at the time `added_at`; tells where it stands.
    pub fn ingest_upload(
        &mut self,
        upload: Upload,
        file_name: String,
        duration_ms: u64,
        added_at: u64,
    ) -> (r: (Status, usize))
        ensures
            r.0 == Status::Created,
            r.1 == old(self)@.clips.len(),
            final(self)@ == (state::AppView {
                clips: old(self)@.clips.push(final(self)@.clips.last()),
                ..old(self)@
            }),
            soundboard::is_new_clip(
                final(self)@.clips.last(),
                upload.display_name@,
                file_name@,
                text::texts(upload.tags@),
                None,
                duration_ms,
                added_at,
            ),
            soundboard::ascii_tags_are_lowered(text::texts(upload.tags@)),
            old(self)@.consistent() ==> final(self)@.consistent(),
    {
        let clip = soundboard::build_clip(
            upload.display_name,
            file_name,
            upload.tags,
            None,
            duration_ms,
            added_at,
        );
        let i = self.add_sound(clip);
        (Status::Created, i)
    }
}

// ── Downloads ────────────────────────────────────────────────────────────────

pub struct YoutubeBody {
    pub url: String,
    pub name: Option<String>,
    pub tags: Vec<String>,
}

/// The name that a request gives, unless it is blank.
pub open spec fn name_given(name: Option<Seq<char>>) -> Option<Seq<char>> {
    match name {
        Some(n) => if filled(n) {
            Some(n)
        } else {
            None
        },
        None => None,
    }
}

impl YoutubeBody {
    /// The name that the request gives, if any; a request without an URL is
    /// refused.
    pub fn check(&self) -> (r: Result<Option<String>, (Status, &'static str)>)
        ensures
            match r {
                Ok(n) => filled(self.url@) && text::opt_text(n) == name_given(
                    text::opt_text(self.name),
                ),
                Err((status, message)) => !filled(self.url@) && status == Status::BadRequest
                    && message@ == "missing url"@,
            },
    {
        if !is_filled(self.url.as_str()) {
            return Err((Status::BadRequest, "missing url"));
        }
        Ok(
            match &self.name {
                Some(n) => if is_filled(n.as_str()) {
                    Some(n.clone())
                } else {
                    None
                },
                None => None,
            },
        )
    }
}

/// The name of a downloaded clip: the one given, else the title of the video.
pub fn youtube_name(given: Option<String>, title: Option<String>) -> (r: String)
    ensures
        r@ == state::or_else(
            text::opt_text(given),
            state::or_else(text::opt_text(title), "YouTube Clip"@),
        ),
{
    match given {
        Some(n) => n,
        None => match title {
            Some(t) => t,
            None => "YouTube Clip".to_owned(),
        },
    }
}

impl AppState {
    /// Adds the clip of a download named `name` that has been kept as `file_name`,
    /// which lasts `duration_ms`, at the time `added_at`; tells where it stands.
    pub fn ingest_download(
        &mut self,
        body: YoutubeBody,
        name: String,
        file_name: String,
        duration_ms: u64,
        added_at: u64,
    ) -> (r: (Status, usize))
        ensures
            r.0 == Status::Created,
            r.1 == old(self)@.clips.len(),
            final(self)@ == (state::AppView {
                clips: old(self)@.clips.push(final(self)@.clips.last()),
                ..old(self)@
            }),
            soundboard::is_new_clip(
                final(self)@.clips.last(),
                name@,
                file_name@,
                text::texts(body.tags@),
                Some(body.url@),
                duration_ms,
                added_at,
            ),
            soundboard::ascii_tags_are_lowered(text::texts(body.tags@)),
            old(self)@.consistent() ==> final(self)@.consistent(),
    {
        let clip = soundboard::build_clip(
            name,
            file_name,
            body.tags,
            Some(body.url),
            duration_ms,
            added_at,
        );
        let i = self.add_sound(clip);
        (Status::Created, i)
    }
}

// ── Playback ─────────────────────────────────────────────────────────────────

pub struct PlayBody {
    /// Sink node_name (e.g. `alsa_output...` or `pw-ctrl.preset.foo`).
    /// If absent, the default sink is used.
    pub target_node_name: Option<String>,
    pub volume: Option<Level>,
    pub loop_mode: Option<bool>,
}

impl Default for PlayBody {
    fn default() -> (r: PlayBody)
        ensures
            r == (PlayBody { target_node_name: None, volume: None, loop_mode: None }),
    {
        PlayBody { target_node_name: None, volume: None, loop_mode: None }
    }
}

pub struct VolumeBody {
    pub volume: Level,
}

pub struct LoopBody {
    pub loop_mode: bool,
}

/// The knobs with which a clip starts to play: what the request says, or else
/// what the clip says, the volume held between zero and two.
pub open spec fn starting_knobs(
    c: soundboard::ClipView,
    volume: Option<Level>,
    loop_mode: Option<bool>,
) -> PlaybackKnobs {
    PlaybackKnobs {
        volume_bits: state::or_else(volume, c.default_volume).held(
            Level { bits: level::CLIP_MAX_BITS },
        ).bits,
        loop_mode: state::or_else(loop_mode, c.default_loop),
        stop_requested: false,
    }
}

/// A clip never starts to play louder than twice its own level, nor below zero.
pub proof fn starting_volume_is_held(
    c: soundboard::ClipView,
    volume: Option<Level>,
    loop_mode: Option<bool>,
)
    ensures
        ({
            let asked = state::or_else(volume, c.default_volume);
            let v = Level { bits: starting_knobs(c, volume, loop_mode).volume_bits };
            &&& v.is_nan() == asked.is_nan()
            &&& !asked.is_nan() ==> 0 <= v.rank() <= (Level { bits: level::CLIP_MAX_BITS }).rank()
        }),
{
    level::held_is_bounded(
        state::or_else(volume, c.default_volume),
        Level { bits: level::CLIP_MAX_BITS },
    );
}

/// The entry of a playback of the clip `c` that starts.
pub open spec fn starting_entry(
    c: soundboard::ClipView,
    body: PlayBody,
    duration_ms: u64,
    started_at: u64,
) -> playback::EntryView {
    playback::EntryView {
        clip_id: c.id,
        target_node_name: text::opt_text(body.target_node_name),
        duration_ms,
        started_at,
        knobs: starting_knobs(c, body.volume, body.loop_mode),
    }
}

fn knobs_for(clip: &SoundClip, body: &PlayBody) -> (r: PlaybackKnobs)
    ensures
        r == starting_knobs(clip@, body.volume, body.loop_mode),
{
    let volume = match body.volume {
        Some(v) => v,
        None => clip.default_volume,
    };
    let loop_mode = match body.loop_mode {
        Some(l) => l,
        None => clip.default_loop,
    };
    PlaybackKnobs::new(volume.for_clip(), loop_mode)
}

/// Enters a playback of `clip` under a new id, which is the result.
pub fn enter_playback(
    playbacks: &mut TextMap<PlaybackEntry>,
    clip: &SoundClip,
    body: &PlayBody,
    duration_ms: u64,
    started_at: u64,
) -> (r: String)
    ensures
        soundboard::is_simple_uuid(r@),
        final(playbacks)@.contains_key(r@),
        final(playbacks)@[r@]@ == starting_entry(clip@, *body, duration_ms, started_at),
        final(playbacks)@ == old(playbacks)@.insert(r@, final(playbacks)@[r@]),
{
    let id = soundboard::new_simple_uuid();
    let entry = PlaybackEntry {
        clip_id: clip.id.clone(),
        target_node_name: body.target_node_name.clone(),
        duration_ms,
        started_at,
        knobs: knobs_for(clip, body),
    };
    playbacks.insert(id.clone(), entry);
    id
}

/// What the engine needs to play a clip.
pub struct PlayOrder<S> {
    pub playback_id: String,
    pub clip_id: String,
    pub samples: Arc<Vec<S>>,
    pub sample_rate: u32,
    pub target_node_name: Option<String>,
    pub knobs: PlaybackKnobs,
    pub duration_ms: u64,
}

/// Orders a playback of `clip`, of which `decoded` is the audio or why there is
/// none; the playback is entered under a new id.
pub fn play_sound<S>(
    playbacks: &mut TextMap<PlaybackEntry>,
    clip: &SoundClip,
    body: &PlayBody,
    decoded: Result<DecodedClip<S>, String>,
    started_at: u64,
) -> (r: Result<(Status, PlayOrder<S>), (Status, String)>)
    requires
        decoded matches Ok(d) ==> playback::ms_fit(d.samples@.len(), d.sample_rate),
    ensures
        match r {
            Ok((status, o)) => decoded matches Ok(d) && {
                let ms = playback::clip_ms(d.samples@.len(), d.sample_rate) as u64;
                &&& status == Status::Success
                &&& soundboard::is_simple_uuid(o.playback_id@)
                &&& o.clip_id@ == clip@.id
                &&& o.samples == d.samples
                &&& o.sample_rate == d.sample_rate
                &&& text::opt_text(o.target_node_name) == text::opt_text(body.target_node_name)
                &&& o.knobs == starting_knobs(clip@, body.volume, body.loop_mode)
                &&& o.duration_ms == ms
                &&& final(playbacks)@.contains_key(o.playback_id@)
                &&& final(playbacks)@[o.playback_id@]@ == starting_entry(
                    clip@,
                    *body,
                    ms,
                    started_at,
                )
                &&& final(playbacks)@ == old(playbacks)@.insert(
                    o.playback_id@,
                    final(playbacks)@[o.playback_id@],
                )
            },
            Err((status, words)) => decoded matches Err(e) && status == Status::ServerError
                && words@ == "decode: "@ + e@ && final(playbacks)@ == old(playbacks)@,
        },
{
    match decoded {
        Ok(d) => {
            let duration_ms: u64 = d.duration_ms();
            let playback_id = enter_playback(playbacks, clip, body, duration_ms, started_at);
            Ok((
                Status::Success,
                PlayOrder {
                    playback_id,
                    clip_id: clip.id.clone(),
                    samples: d.samples,
                    sample_rate: d.sample_rate,
                    target_node_name: body.target_node_name.clone(),
                    knobs: knobs_for(clip, body),
                    duration_ms,
                },
            ))
        },
        Err(e) => {
            let mut words = "decode: ".to_owned();
            words.append(e.as_str());
            Err((Status::ServerError, words))
        },
    }
}

/// Takes back a playback whose order did not reach the engine.
pub fn order_lost(playbacks: &mut TextMap<PlaybackEntry>, playback_id: &str) -> (r: (
    Status,
    &'static str,
))
    ensures
        final(playbacks)@ == old(playbacks)@.remove(playback_id@),
        r.0 == Status::ServerError,
        r.1@ == "engine cmd send failed"@,
{
    playbacks.remove(playback_id);
    (Status::ServerError, "engine cmd send failed")
}

/// Forgets a playback when its end is reported.
pub fn follow_event(playbacks: &mut TextMap<PlaybackEntry>, event: &PwEvent)
    ensures
        final(playbacks)@ == (match *event {
            PwEvent::PlaybackEnded { playback_id } => old(playbacks)@.remove(playback_id@),
            _ => old(playbacks)@,
        }),
{
    if let PwEvent::PlaybackEnded { playback_id } = event {
        playbacks.remove(playback_id.as_str());
    }
}

/// The running playbacks, in the order of their ids.
pub fn list_playbacks(playbacks: &TextMap<PlaybackEntry>) -> (r: Vec<PlaybackInfo>)
    ensures
        r@.len() == playbacks.listed().len(),
        maps::text_sorted(playbacks.listed()),
        maps::as_map(playbacks.listed()) == playbacks@,
        forall|i: int|
            0 <= i < r@.len() ==> (#[trigger] r@[i])@ == playback::info_of(
                playbacks.listed()[i].1@,
                playbacks.listed()[i].0,
            ),
{
    let n: usize = playbacks.len();
    let mut r: Vec<PlaybackInfo> = Vec::new();
    for i in 0..n
        invariant
            n == playbacks.listed().len(),
            r@.len() == i,
            forall|j: int|
                0 <= j < i ==> (#[trigger] r@[j])@ == playback::info_of(
                    playbacks.listed()[j].1@,
                    playbacks.listed()[j].0,
                ),
    {
        r.push(playbacks.value(i).to_info(playbacks.key(i)));
    }
    r
}

/// Replaces the knobs of a playback.
fn set_knobs(playbacks: &mut TextMap<PlaybackEntry>, id: &str, knobs: PlaybackKnobs)
    requires
        old(playbacks)@.contains_key(id@),
    ensures
        final(playbacks)@ == old(playbacks)@.insert(
            id@,
            PlaybackEntry { knobs, ..old(playbacks)@[id@] },
        ),
{
    if let Some(e) = playbacks.remove(id) {
        let mut e = e;
        e.knobs = knobs;
        playbacks.insert(id.to_owned(), e);
        assert(playbacks@ =~= old(playbacks)@.insert(
            id@,
            PlaybackEntry { knobs, ..old(playbacks)@[id@] },
        ));
    }
}

/// Asks a playback to stop.
pub fn stop_playback(playbacks: &mut TextMap<PlaybackEntry>, id: &str) -> (r: Status)
    ensures
        if old(playbacks)@.contains_key(id@) {
            let e = old(playbacks)@[id@];
            r == Status::Success && final(playbacks)@ == old(playbacks)@.insert(
                id@,
                PlaybackEntry {
                    knobs: PlaybackKnobs { stop_requested: true, ..e.knobs },
                    ..e
                },
            )
        } else {
            r == Status::NotFound && final(playbacks)@ == old(playbacks)@
        },
{
    let mut knobs = match playbacks.get(id) {
        Some(e) => e.knobs,
        None => {
            return Status::NotFound;
        },
    };
    knobs.request_stop();
    set_knobs(playbacks, id, knobs);
    Status::Success
}

/// Sets the volume of a playback, held between zero and two.
pub fn set_playback_volume(playbacks: &mut TextMap<PlaybackEntry>, id: &str, body: VolumeBody) -> (r:
    Status)
    ensures
        if old(playbacks)@.contains_key(id@) {
            let e = old(playbacks)@[id@];
            r == Status::Success && final(playbacks)@ == old(playbacks)@.insert(
                id@,
                PlaybackEntry {
                    knobs: PlaybackKnobs {
                        volume_bits: body.volume.held(Level { bits: level::CLIP_MAX_BITS }).bits,
                        ..e.knobs
                    },
                    ..e
                },
            )
        } else {
            r == Status::NotFound && final(playbacks)@ == old(playbacks)@
        },
{
    let mut knobs = match playbacks.get(id) {
        Some(e) => e.knobs,
        None => {
            return Status::NotFound;
        },
    };
    knobs.set_volume(body.volume.for_clip());
    set_knobs(playbacks, id, knobs);
    Status::Success
}

/// Sets whether a playback starts again at its end.
pub fn set_playback_loop(playbacks: &mut TextMap<PlaybackEntry>, id: &str, body: LoopBody) -> (r:
    Status)
    ensures
        if old(playbacks)@.contains_key(id@) {
            let e = old(playbacks)@[id@];
            r == Status::Success && final(playbacks)@ == old(playbacks)@.insert(
                id@,
                PlaybackEntry {
                    knobs: PlaybackKnobs { loop_mode: body.loop_mode, ..e.knobs },
                    ..e
                },
            )
        } else {
            r == Status::NotFound && final(playbacks)@ == old(playbacks)@
        },
{
    let mut knobs = match playbacks.get(id) {
        Some(e) => e.knobs,
        None => {
            return Status::NotFound;
        },
    };
    knobs.set_loop(body.loop_mode);
    set_knobs(playbacks, id, knobs);
    Status::Success
}

// ── Media types ──────────────────────────────────────────────────────────────

/// The media type of a file by its extension, in whatever case that is written.
pub open spec fn media_type(file_name: Seq<char>) -> Seq<char> {
    match paths::extension(file_name) {
        Some(e) => {
            let x = text::ascii_lower_all(e);
            if x == "opus"@ || x == "ogg"@ {
                "audio/ogg"@
            } else if x == "mp3"@ {
                "audio/mpeg"@
            } else if x == "wav"@ {
                "audio/wav"@
            } else if x == "flac"@ {
                "audio/flac"@
            } else if x == "m4a"@ || x == "aac"@ {
                "audio/aac"@
            } else {
                "application/octet-stream"@
            }
        },
        None => "application/octet-stream"@,
    }
}

/// The media type of a file.
pub fn mime_for(file_name: &str) -> (r: &'static str)
    ensures
        r@ == media_type(file_name@),
{
    match paths::extension_of(file_name) {
        Some(e) => {
            let cs = text::chars_of(e.as_str());
            let mut low: Vec<char> = Vec::new();
            for i in 0..cs.len()
                invariant
                    low@.len() == i,
                    forall|j: int| 0 <= j < i ==> low@[j] == text::ascii_lower(cs@[j]),
            {
                low.push(text::char_ascii_lower(cs[i]));
            }
            assert(low@ =~= text::ascii_lower_all(e@));
            let x = low.as_slice();
            if text::spells(x, "opus") || text::spells(x, "ogg") {
                "audio/ogg"
            } else if text::spells(x, "mp3") {
                "audio/mpeg"
            } else if text::spells(x, "wav") {
                "audio/wav"
            } else if text::spells(x, "flac") {
                "audio/flac"
            } else if text::spells(x, "m4a") || text::spells(x, "aac") {
                "audio/aac"
            } else {
                "application/octet-stream"
            }
        },
        None => "application/octet-stream",
    }
}

// ── What requests say ────────────────────────────────────────────────────────

/// A query asks for the texts between its commas, without white space around them, one
/// tag for each; without tags it asks for none.
pub proof fn tags_stand_between_commas(v: Seq<Seq<char>>, i: int)
    requires
        v.len() > 0,
        forall|j: int| 0 <= j < v.len() ==> !(#[trigger] v[j]).contains(','),
        0 <= i < v.len(),
    ensures
        tags_asked(Some(text::joined(v, ','))).len() == v.len(),
        tags_asked(Some(text::joined(v, ',')))[i] == text::trim(v[i]),
        tags_asked(None).len() == 0,
{
    text::joined_pieces_split(v, ',');
}

/// An update changes what it names and keeps the rest: the name, the volume, the loop
/// and the tags each for itself, and never the id, the file, the length or the source.
pub proof fn updates_change_what_they_name(
    c: soundboard::ClipView,
    body: UpdateSoundBody,
    d: soundboard::ClipView,
    t: Seq<char>,
)
    requires
        is_updated(c, body, d),
    ensures
        d.id == c.id && d.file_name == c.file_name && d.duration_ms == c.duration_ms,
        d.source_url == c.source_url && d.added_at == c.added_at,
        body.name matches Some(n) ==> d.name == n@,
        body.name is None ==> d.name == c.name,
        body.default_loop matches Some(l) ==> d.default_loop == l,
        body.default_loop is None ==> d.default_loop == c.default_loop,
        body.default_volume is None ==> d.default_volume == c.default_volume,
        body.default_volume matches Some(v) ==> (!v.is_nan() && 0 <= v.bits <= 0x4000_0000
            ==> d.default_volume == v) && (!v.is_nan() && v.rank() > 0x4000_0000
            ==> d.default_volume.bits == 0x4000_0000) && (!v.is_nan() && v.rank() < 0
            ==> d.default_volume.bits == 0),
        body.tags is None ==> d.tags == c.tags,
        body.tags matches Some(tags) ==> order::strictly_ascending(d.tags) && (d.tags.contains(t)
            <==> t.len() > 0 && exists|i: int|
            0 <= i < tags@.len() && order::lowercase(text::trim((#[trigger] tags@[i])@)) == t),
{
    if let Some(tags) = body.tags {
        let all = text::texts(tags@);
        assert(d.tags.contains(t) == d.tags.to_set().contains(t));
        assert forall|i: int| 0 <= i < tags@.len() implies all[i] == (#[trigger] tags@[i])@ by {}
        if t.len() > 0 && exists|i: int|
            0 <= i < tags@.len() && order::lowercase(text::trim((#[trigger] tags@[i])@)) == t {
            let i = choose|i: int|
                0 <= i < tags@.len() && order::lowercase(text::trim((#[trigger] tags@[i])@)) == t;
            assert(soundboard::form_at(all, t, i));
        }
        if soundboard::tag_forms(all).contains(t) {
            let i = choose|i: int| soundboard::form_at(all, t, i);
            assert(order::lowercase(text::trim(tags@[i]@)) == t);
        }
    }
}

/// A text is filled where a character of it is not white space.
pub proof fn filled_texts_are_not_blank(s: Seq<char>)
    ensures
        filled(s) <==> exists|i: int| 0 <= i < s.len() && !text::is_white(#[trigger] s[i]),
        name_given(Some(s)) == (if exists|i: int|
            0 <= i < s.len() && !text::is_white(#[trigger] s[i]) {
            Some(s)
        } else {
            None
        }),
        name_given(None) is None,
{
    text::only_white_space_is_blank(s);
}

/// An upload is shown under the name that its form gives, as it stands there; without
/// one, or where that is blank, under the stem of its file, and else as `Clip`. Its
/// tags stand between the commas of their own field.
pub proof fn uploads_are_named_by_their_form(
    fields: Map<Seq<char>, String>,
    original: Seq<char>,
    v: Seq<Seq<char>>,
)
    requires
        v.len() > 0,
        forall|j: int| 0 <= j < v.len() ==> !(#[trigger] v[j]).contains(','),
    ensures
        fields.contains_key("name"@) && filled(fields["name"@]@) ==> upload_name(fields, original)
            == fields["name"@]@,
        !fields.contains_key("name"@) || !filled(fields["name"@]@) ==> (paths::file_stem(original)
            is Some ==> upload_name(fields, original) == paths::file_stem(original)->0) && (
        paths::file_stem(original) is None ==> upload_name(fields, original) == "Clip"@),
        fields.contains_key("tags"@) && fields["tags"@]@ == text::joined(v, ',') ==> upload_tags(
            fields,
        ) == v,
        !fields.contains_key("tags"@) ==> upload_tags(fields).len() == 0,
{
    text::joined_pieces_split(v, ',');
}

/// A clip starts to play with the volume and the loop that the request gives, and else
/// with its own, and is not asked to stop. The volume is held between zero and two.
pub proof fn playbacks_start_as_asked(
    c: soundboard::ClipView,
    body: PlayBody,
    duration_ms: u64,
    started_at: u64,
)
    ensures
        ({
            let e = starting_entry(c, body, duration_ms, started_at);
            let asked = match body.volume {
                Some(v) => v,
                None => c.default_volume,
            };
            &&& e.clip_id == c.id && e.duration_ms == duration_ms && e.started_at == started_at
            &&& e.target_node_name == text::opt_text(body.target_node_name)
            &&& !e.knobs.stop_requested
            &&& body.loop_mode matches Some(l) ==> e.knobs.loop_mode == l
            &&& body.loop_mode is None ==> e.knobs.loop_mode == c.default_loop
            &&& asked.bits <= 0x4000_0000 ==> e.knobs.volume_bits == asked.bits
            &&& 0x4000_0000 < asked.bits <= 0x7f80_0000 ==> e.knobs.volume_bits == 0x4000_0000
            &&& 0x8000_0000 < asked.bits <= 0xff80_0000 ==> e.knobs.volume_bits == 0
            &&& asked.is_nan() ==> e.knobs.volume_bits == asked.bits
        }),
{
}

/// The media type of a file is that of its extension, whatever the case: of Ogg for
/// `opus` and `ogg`, and of the format of that name for the others; what has no known
/// extension is a stream of bytes.
pub proof fn media_types_follow_extensions(f: Seq<char>, g: Seq<char>, ext: Seq<char>)
    requires
        paths::extension(f) == Some(ext),
    ensures
        text::ascii_lower_all(ext) == "opus"@ || text::ascii_lower_all(ext) == "ogg"@ ==> media_type(
            f,
        ) == "audio/ogg"@,
        text::ascii_lower_all(ext) == "mp3"@ ==> media_type(f) == "audio/mpeg"@,
        text::ascii_lower_all(ext) == "wav"@ ==> media_type(f) == "audio/wav"@,
        text::ascii_lower_all(ext) == "flac"@ ==> media_type(f) == "audio/flac"@,
        text::ascii_lower_all(ext) == "m4a"@ || text::ascii_lower_all(ext) == "aac"@ ==> media_type(
            f,
        ) == "audio/aac"@,
        !seq!["opus"@, "ogg"@, "mp3"@, "wav"@, "flac"@, "m4a"@, "aac"@].contains(
            text::ascii_lower_all(ext),
        ) ==> media_type(f) == "application/octet-stream"@,
        paths::extension(g) is None ==> media_type(g) == "application/octet-stream"@,
        paths::extension(g) matches Some(e) ==> (text::ascii_lower_all(e) == text::ascii_lower_all(
            ext,
        ) ==> media_type(g) == media_type(f)),
{
    reveal_strlit("opus");
    reveal_strlit("ogg");
    reveal_strlit("mp3");
    reveal_strlit("wav");
    reveal_strlit("flac");
    reveal_strlit("m4a");
    reveal_strlit("aac");
    assert("opus"@[0] == 'o' && "flac"@[0] == 'f' && "ogg"@[0] == 'o' && "mp3"@[1] == 'p');
    assert("wav"@[0] == 'w' && "m4a"@[1] == '4' && "aac"@[0] == 'a' && "mp3"@[0] == 'm');
    assert("opus"@.len() == 4 && "flac"@.len() == 4 && "ogg"@.len() == 3);
    let known = seq!["opus"@, "ogg"@, "mp3"@, "wav"@, "flac"@, "m4a"@, "aac"@];
    assert(known[0] == "opus"@ && known[1] == "ogg"@ && known[2] == "mp3"@ && known[3] == "wav"@);
    assert(known[4] == "flac"@ && known[5] == "m4a"@ && known[6] == "aac"@);
}

/// An upload that is refused is answered as a bad request, in the given words.
pub proof fn refusals_are_bad_requests(step: UploadStep, words: Seq<char>)
    ensures
        refuses(step, words) <==> (step is Refuse && step->Refuse_0 is BadRequest
            && step->Refuse_1@ == words),
{
}

} // verus!
