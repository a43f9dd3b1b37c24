//! Soundboard: clip library with metadata, tags and file names.

use vstd::prelude::*;
use crate::ids;
use crate::level;
use crate::level::Level;
use crate::maps;
use crate::maps::TextMap;
use crate::number;
use crate::order;
use crate::paths;
use crate::text;
use crate::text::Pad;

verus! {

// ── Clips ────────────────────────────────────────────────────────────────────

#[derive(Debug, Clone)]
pub struct SoundClip {
    pub id: String,
    pub name: String,
    /// Filename inside the sounds dir (not absolute, so the library is portable).
    pub file_name: String,
    /// Duration in milliseconds, probed at ingest.
    pub duration_ms: u64,
    pub tags: Vec<String>,
    pub default_volume: Level,
    pub default_loop: bool,
    /// Optional source URL (e.g. the YouTube link the clip was downloaded from).
    pub source_url: Option<String>,
    /// Unix timestamp (seconds) of when the clip was added.
    pub added_at: u64,
}

/// What a clip says, over character sequences.
#[verifier::ext_equal]
pub struct ClipView {
    pub id: Seq<char>,
    pub name: Seq<char>,
    pub file_name: Seq<char>,
    pub duration_ms: u64,
    pub tags: Seq<Seq<char>>,
    pub default_volume: Level,
    pub default_loop: bool,
    pub source_url: Option<Seq<char>>,
    pub added_at: u64,
}

impl View for SoundClip {
    type V = ClipView;

    open spec fn view(&self) -> ClipView {
        ClipView {
            id: self.id@,
            name: self.name@,
            file_name: self.file_name@,
            duration_ms: self.duration_ms,
            tags: text::texts(self.tags@),
            default_volume: self.default_volume,
            default_loop: self.default_loop,
            source_url: text::opt_text(self.source_url),
            added_at: self.added_at,
        }
    }
}

pub open spec fn clips_view(v: Seq<SoundClip>) -> Seq<ClipView> {
    Seq::new(v.len(), |i: int| v[i]@)
}

/// The volume of a clip that names none.
pub fn default_volume() -> (r: Level)
    ensures
        r.bits == level::UNITY_BITS,
{
    Level::unity()
}

// ── Where the clips are kept ─────────────────────────────────────────────────

/// The folder of the sounds below a configuration directory, which is
/// `~/.config` where it is not known.
pub open spec fn sounds_below(config: Option<Seq<u8>>) -> Seq<u8> {
    paths::below(paths::dir_or(config, "~/.config"@), "pipewire-control"@, "sounds"@)
}

/// The folder of the sounds below the given configuration directory.
pub fn sounds_dir_in(config: Option<Vec<u8>>) -> (r: Vec<u8>)
    ensures
        r@ == sounds_below(paths::opt_bytes(config)),
{
    paths::file_below(paths::or_dir(config, "~/.config"), "pipewire-control", "sounds")
}

/// Returns `~/.config/pipewire-control/sounds/`. Created lazily on first ingest.
pub fn sounds_dir() -> (r: Vec<u8>)
    ensures
        exists|config: Option<Seq<u8>>| r@ == #[trigger] sounds_below(config),
{
    let config = paths::config_dir();
    sounds_dir_in(config)
}

/// The path of a clip's file below the given configuration directory.
pub fn clip_path_in(config: Option<Vec<u8>>, file_name: &str) -> (r: Vec<u8>)
    ensures
        r@ == paths::joined(sounds_below(paths::opt_bytes(config)), file_name@),
{
    paths::join(sounds_dir_in(config), file_name)
}

/// The path of a clip's file.
pub fn clip_path(file_name: &str) -> (r: Vec<u8>)
    ensures
        exists|config: Option<Seq<u8>>|
            r@ == paths::joined(#[trigger] sounds_below(config), file_name@),
{
    let config = paths::config_dir();
    clip_path_in(config, file_name)
}

// ── Durations ────────────────────────────────────────────────────────────────

/// How long an audio file lasts, as far as its parameters tell.
#[derive(Debug)]
pub enum ProbedDuration {
    Millis(u64),
    /// The time base of the track and its number of frames tell it.
    FromTimeBase,
}

/// How long an audio file lasts: by its sample rate where that and the number
/// of frames are known, else by its time base, else not at all.
pub fn probed_duration(sample_rate: Option<u32>, n_frames: Option<u64>, has_time_base: bool) -> (r:
    ProbedDuration)
    requires
        sample_rate is Some && sample_rate->0 > 0 && n_frames is Some ==> n_frames->0 * 1000
            <= u64::MAX,
    ensures
        match r {
            ProbedDuration::Millis(ms) => if sample_rate is Some && sample_rate->0 > 0
                && n_frames is Some && n_frames->0 > 0 {
                ms == (n_frames->0 * 1000) as int / sample_rate->0 as int
            } else {
                ms == 0 && !(has_time_base && n_frames is Some)
            },
            ProbedDuration::FromTimeBase => has_time_base && n_frames is Some && !(sample_rate
                is Some && sample_rate->0 > 0 && n_frames->0 > 0),
        },
{
    let rate: u64 = match sample_rate {
        Some(r) => r as u64,
        None => 0,
    };
    let frames: u64 = match n_frames {
        Some(n) => n,
        None => 0,
    };
    if rate == 0 || frames == 0 {
        if has_time_base && n_frames.is_some() {
            return ProbedDuration::FromTimeBase;
        }
        return ProbedDuration::Millis(0);
    }
    ProbedDuration::Millis(frames * 1000 / rate)
}

// ── Slugs ────────────────────────────────────────────────────────────────────

/// The slug so far, and whether its last character stands for a separator.
#[verifier::ext_equal]
pub struct SlugScan {
    pub out: Seq<char>,
    pub after_separator: bool,
}

/// A character that keeps its place in a slug.
pub open spec fn slug_keeps(c: char) -> bool {
    text::is_alnum(c) || c == '-' || c == '_'
}

/// The slug after one more character: letters and digits stay in lower case,
/// dashes and underscores stay, white space and dots become one dash unless
/// they come first, and everything else goes.
pub open spec fn slug_step(s: SlugScan, c: char) -> SlugScan {
    if slug_keeps(c) {
        SlugScan { out: s.out.push(text::ascii_lower(c)), after_separator: false }
    } else if (text::is_white(c) || c == '.') && !s.after_separator && s.out.len() > 0 {
        SlugScan { out: s.out.push('-'), after_separator: true }
    } else {
        s
    }
}

/// The slug of a text before its end is tidied.
pub open spec fn slug_scan(s: Seq<char>) -> SlugScan
    decreases s.len(),
{
    if s.len() == 0 {
        SlugScan { out: Seq::empty(), after_separator: false }
    } else {
        slug_step(slug_scan(s.drop_last()), s.last())
    }
}

/// The slug of a text: no dashes at the end, and `clip` where nothing is left.
pub open spec fn slug(s: Seq<char>) -> Seq<char> {
    let t = text::trim_right(slug_scan(s).out, Pad::One('-'));
    if t.len() == 0 {
        "clip"@
    } else {
        t
    }
}

/// A character that a slug is made of.
pub open spec fn in_slug(c: char) -> bool {
    text::is_digit(c) || text::is_ascii_lower(c) || c == '-' || c == '_'
}

/// Made of lower case ASCII letters, digits, dashes and underscores; not empty,
/// and not ending in a dash.
pub open spec fn is_slug(s: Seq<char>) -> bool {
    &&& s.len() > 0
    &&& s.last() != '-'
    &&& forall|i: int| 0 <= i < s.len() ==> in_slug(#[trigger] s[i])
}

proof fn lemma_slug_scan(s: Seq<char>)
    ensures
        forall|i: int| 0 <= i < slug_scan(s).out.len() ==> in_slug(#[trigger] slug_scan(s).out[i]),
    decreases s.len(),
{
    if s.len() > 0 {
        lemma_slug_scan(s.drop_last());
        let was = slug_scan(s.drop_last());
        let now = slug_scan(s);
        assert forall|i: int| 0 <= i < now.out.len() implies in_slug(#[trigger] now.out[i]) by {
            if i < was.out.len() {
                assert(now.out[i] == was.out[i]);
            }
        }
    }
}

proof fn lemma_slug_scan_keeps(s: Seq<char>)
    requires
        forall|i: int| 0 <= i < s.len() ==> in_slug(#[trigger] s[i]),
    ensures
        slug_scan(s).out == s,
    decreases s.len(),
{
    if s.len() > 0 {
        lemma_slug_scan_keeps(s.drop_last());
        assert(in_slug(s[s.len() - 1]));
        assert(slug_scan(s).out =~= s);
    } else {
        assert(slug_scan(s).out =~= s);
    }
}

/// What is made from any text is a slug.
pub proof fn slug_is_slug(s: Seq<char>)
    ensures
        is_slug(slug(s)),
{
    let out = slug_scan(s).out;
    lemma_slug_scan(s);
    text::lemma_trim_right(out, Pad::One('-'));
    let t = text::trim_right(out, Pad::One('-'));
    assert forall|i: int| 0 <= i < t.len() implies in_slug(#[trigger] t[i]) by {
        assert(t[i] == out[i]);
    }
    reveal_strlit("clip");
}

/// A slug stays as it is; so making a slug twice changes nothing more.
pub proof fn slug_of_slug(s: Seq<char>)
    requires
        is_slug(s),
    ensures
        slug(s) == s,
{
    lemma_slug_scan_keeps(s);
}

/// Slugify a name for use as a filename stem (keeps ASCII alnum, dashes, underscores).
pub fn slugify(s: &str) -> (r: String)
    ensures
        r@ == slug(s@),
        is_slug(r@),
{
    let cs = text::chars_of(s);
    let mut out: Vec<char> = Vec::new();
    let mut prev_dash = false;
    for i in 0..cs.len()
        invariant
            slug_scan(cs@.take(i as int)) == (SlugScan { out: out@, after_separator: prev_dash }),
    {
        let c = cs[i];
        let ghost t = cs@.take(i + 1);
        assert(t.drop_last() =~= cs@.take(i as int));
        assert(t.last() == c);
        if text::char_is_alnum(c) || c == '-' || c == '_' {
            out.push(text::char_ascii_lower(c));
            prev_dash = false;
        } else if text::char_is_white(c) || c == '.' {
            if !prev_dash && out.len() > 0 {
                out.push('-');
                prev_dash = true;
            }
        }
    }
    assert(cs@.take(cs@.len() as int) =~= cs@);
    proof {
        slug_is_slug(s@);
    }
    let t = text::trimmed_right(out.as_slice(), Pad::One('-'));
    if t.len() == 0 {
        "clip".to_owned()
    } else {
        text::text_of(t)
    }
}

// ── File names ───────────────────────────────────────────────────────────────

/// The `k`th name to try for a file: `stem.ext`, `stem-2.ext`, `stem-3.ext`, …
pub open spec fn candidate(stem: Seq<char>, ext: Seq<char>, k: nat) -> Seq<char> {
    if k == 0 {
        stem.push('.') + ext
    } else {
        (stem.push('-') + number::decimal(k + 1)).push('.') + ext
    }
}

/// `name` is the first name to try that is not taken.
pub open spec fn is_first_free(
    stem: Seq<char>,
    ext: Seq<char>,
    taken: Seq<Seq<char>>,
    name: Seq<char>,
) -> bool {
    exists|k: nat|
        name == #[trigger] candidate(stem, ext, k) && !taken.contains(name) && forall|j: nat|
            j < k ==> taken.contains(#[trigger] candidate(stem, ext, j))
}

/// No two names to try are the same.
pub proof fn candidates_differ(stem: Seq<char>, ext: Seq<char>, a: nat, b: nat)
    requires
        candidate(stem, ext, a) == candidate(stem, ext, b),
    ensures
        a == b,
{
    let n = stem.len() as int;
    let ca = candidate(stem, ext, a);
    let cb = candidate(stem, ext, b);
    if a == 0 && b > 0 {
        assert(ca[n] == '.');
        assert(cb[n] == '-');
    } else if b == 0 && a > 0 {
        assert(cb[n] == '.');
        assert(ca[n] == '-');
    } else if a > 0 && b > 0 {
        let da = number::decimal(a + 1);
        let db = number::decimal(b + 1);
        assert(ca.len() == n + 1 + da.len() + 1 + ext.len());
        assert(cb.len() == n + 1 + db.len() + 1 + ext.len());
        assert(da =~= ca.subrange(n + 1, n + 1 + da.len()));
        assert(db =~= cb.subrange(n + 1, n + 1 + db.len()));
        number::decimal_injective(a + 1, b + 1);
    }
}

/// There is always a name that is not taken, and only one that is the first.
pub proof fn free_candidate_exists(stem: Seq<char>, ext: Seq<char>, taken: Seq<Seq<char>>)
    ensures
        exists|k: nat| k <= taken.len() && !taken.contains(#[trigger] candidate(stem, ext, k)),
        forall|a: Seq<char>, b: Seq<char>|
            is_first_free(stem, ext, taken, a) && is_first_free(stem, ext, taken, b) ==> a == b,
{
    let names = |k: nat| candidate(stem, ext, k);
    assert forall|a: nat, b: nat| #[trigger] names(a) == #[trigger] names(b) implies a == b by {
        candidates_differ(stem, ext, a, b);
    }
    ids::some_name_is_free(names, taken);
    let k = choose|k: nat| k <= taken.len() && !taken.contains(#[trigger] names(k));
    assert(!taken.contains(candidate(stem, ext, k)));
    assert forall|a: Seq<char>, b: Seq<char>|
        is_first_free(stem, ext, taken, a) && is_first_free(stem, ext, taken, b) implies a == b by {
        let ka = choose|k: nat|
            a == #[trigger] candidate(stem, ext, k) && forall|j: nat|
                j < k ==> taken.contains(#[trigger] candidate(stem, ext, j));
        let kb = choose|k: nat|
            b == #[trigger] candidate(stem, ext, k) && forall|j: nat|
                j < k ==> taken.contains(#[trigger] candidate(stem, ext, j));
        if ka < kb {
            assert(taken.contains(candidate(stem, ext, ka)));
        } else if kb < ka {
            assert(taken.contains(candidate(stem, ext, kb)));
        }
    }
}

fn nth_candidate(stem: &str, ext: &str, k: u64) -> (r: String)
    requires
        k < u64::MAX,
    ensures
        r@ == candidate(stem@, ext@, k as nat),
{
    let mut r = stem.to_owned();
    if k > 0 {
        r.push('-');
        number::push_decimal(&mut r, k + 1);
    }
    r.push('.');
    r.append(ext);
    r
}

/// Pick a unique filename inside the sounds dir given a desired stem and extension;
/// `taken` are the names that exist there.
pub fn unique_file_name(stem: &str, ext: &str, taken: &Vec<String>) -> (r: String)
    requires
        taken@.len() < u64::MAX,
    ensures
        is_first_free(stem@, ext@, text::texts(taken@), r@),
{
    let ghost t = text::texts(taken@);
    proof {
        free_candidate_exists(stem@, ext@, t);
    }
    let ghost free = choose|k: nat|
        k <= t.len() && !t.contains(#[trigger] candidate(stem@, ext@, k));
    let mut k: u64 = 0;
    loop
        invariant
            t == text::texts(taken@),
            taken@.len() < u64::MAX,
            free <= t.len(),
            !t.contains(candidate(stem@, ext@, free)),
            k <= free,
            forall|j: nat| j < k ==> t.contains(#[trigger] candidate(stem@, ext@, j)),
        decreases free - k,
    {
        let name = nth_candidate(stem, ext, k);
        if !text::is_among(taken.as_slice(), name.as_str()) {
            return name;
        }
        assert(k != free);
        k += 1;
    }
}

/// The stem for the file of an upload: the slug of the desired one, else that of
/// the name the file came with.
pub open spec fn upload_stem(original: Seq<char>, desired: Option<Seq<char>>) -> Seq<char> {
    match desired {
        Some(d) => slug(d),
        None => match paths::file_stem(original) {
            Some(s) => slug(s),
            None => slug("clip"@),
        },
    }
}

/// The extension that an upload came with, `bin` where it had none.
pub open spec fn upload_extension(original: Seq<char>) -> Seq<char> {
    match paths::extension(original) {
        Some(e) => e,
        None => "bin"@,
    }
}

/// The name under which to store an upload: its extension, in lower case, is
/// preserved from `original_name`.
pub fn upload_file_name(original_name: &str, desired_stem: Option<&str>, taken: &Vec<String>) -> (r:
    String)
    requires
        taken@.len() < u64::MAX,
    ensures
        is_first_free(
            upload_stem(original_name@, text::opt_str(desired_stem)),
            order::lowercase(upload_extension(original_name@)),
            text::texts(taken@),
            r@,
        ),
        order::ascii_is_lowered(upload_extension(original_name@)),
{
    let ext = match paths::extension_of(original_name) {
        Some(e) => order::to_lower(e.as_str()),
        None => order::to_lower("bin"),
    };
    let stem = match desired_stem {
        Some(d) => slugify(d),
        None => match paths::stem_of(original_name) {
            Some(s) => slugify(s.as_str()),
            None => slugify("clip"),
        },
    };
    unique_file_name(stem.as_str(), ext.as_str(), taken)
}

// ── Tags ─────────────────────────────────────────────────────────────────────

/// The form in which a tag is kept: without white space around it, in lower case.
pub open spec fn tag_form(t: Seq<char>) -> Seq<char> {
    order::lowercase(text::trim(t))
}

/// The forms of the tags that are not empty.
pub open spec fn tag_forms(tags: Seq<Seq<char>>) -> Set<Seq<char>> {
    Set::new(|x: Seq<char>| x.len() > 0 && exists|i: int| form_at(tags, x, i))
}

/// `x` is the form of the `i`th tag.
pub open spec fn form_at(tags: Seq<Seq<char>>, x: Seq<char>, i: int) -> bool {
    0 <= i < tags.len() && tag_form(tags[i]) == x
}

/// A tag that is written in the form in which it is kept, in ASCII.
pub open spec fn is_plain_tag(t: Seq<char>) -> bool {
    t.len() > 0 && text::trim(t) == t && order::is_ascii_text(t) && order::no_ascii_upper(t)
}

/// All the tags are written in the form in which they are kept, in ASCII.
pub open spec fn are_plain_tags(tags: Seq<Seq<char>>) -> bool {
    forall|i: int| 0 <= i < tags.len() ==> is_plain_tag(#[trigger] tags[i])
}

fn to_tag(t: &str) -> (r: String)
    ensures
        r@ == tag_form(t@),
        order::ascii_is_lowered(text::trim(t@)),
        is_plain_tag(t@) ==> r@ == t@,
{
    proof {
        if order::no_ascii_upper(t@) {
            assert(text::ascii_lower_all(t@) =~= t@);
        }
    }
    let cs = text::chars_of(t);
    let trimmed = text::text_of(text::trimmed(cs.as_slice()));
    order::to_lower(trimmed.as_str())
}

/// The texts without their repetitions, in ascending order.
pub fn sorted_distinct(v: Vec<String>) -> (r: Vec<String>)
    ensures
        order::strictly_ascending(text::texts(r@)),
        text::texts(r@).to_set() == text::texts(v@).to_set(),
{
    let ghost all = text::texts(v@);
    let mut m: TextMap<bool> = TextMap::new();
    assert(m@.dom() =~= all.take(0).to_set());
    for i in 0..v.len()
        invariant
            all == text::texts(v@),
            m@.dom() == all.take(i as int).to_set(),
    {
        let ghost before = m@;
        m.insert(v[i].clone(), true);
        proof {
            let t = all.take(i as int);
            let u = all.take(i + 1);
            assert(all[i as int] == v@[i as int]@);
            assert forall|x: Seq<char>| #[trigger] m@.dom().contains(x) == u.to_set().contains(x) by {
                if t.contains(x) {
                    let j = choose|j: int| 0 <= j < t.len() && t[j] == x;
                    assert(u[j] == x);
                }
                assert(u[i as int] == all[i as int]);
                if u.contains(x) && x != all[i as int] {
                    let j = choose|j: int| 0 <= j < u.len() && u[j] == x;
                    assert(t[j] == x);
                }
                assert(before.dom().contains(x) == t.to_set().contains(x));
            }
            assert(m@.dom() =~= all.take(i + 1).to_set());
        }
    }
    assert(all.take(all.len() as int) =~= all);
    let n: usize = m.len();
    let ghost e = m.listed();
    let mut r: Vec<String> = Vec::new();
    for i in 0..n
        invariant
            n == e.len(),
            e == m.listed(),
            text::texts(r@) == Seq::new(i as nat, |j: int| e[j].0),
    {
        let ghost before = text::texts(r@);
        r.push(m.key(i).to_owned());
        assert(text::texts(r@) =~= before.push(e[i as int].0));
        assert(text::texts(r@) =~= Seq::new((i + 1) as nat, |j: int| e[j].0));
    }
    proof {
        let ks = text::texts(r@);
        assert forall|i: int, j: int| 0 <= i < j < ks.len() implies order::precedes(
            #[trigger] ks[i],
            #[trigger] ks[j],
        ) by {
            assert(order::precedes(e[i].0, e[j].0));
        }
        assert forall|x: Seq<char>| #[trigger] ks.to_set().contains(x) == m@.dom().contains(x) by {
            if m@.dom().contains(x) {
                let i = choose|i: int| maps::key_at(e, x, i);
                assert(maps::key_at(e, x, i));
                assert(ks[i] == x);
            }
            if ks.contains(x) {
                let i = choose|i: int| 0 <= i < ks.len() && ks[i] == x;
                assert(maps::key_at(e, x, i));
            }
        }
        assert(ks.to_set() =~= all.to_set());
    }
    r
}

/// What the form is of each tag in ASCII.
pub open spec fn ascii_tags_are_lowered(tags: Seq<Seq<char>>) -> bool {
    forall|i: int| 0 <= i < tags.len() ==> order::ascii_is_lowered(text::trim(#[trigger] tags[i]))
}

/// The forms of the tags, in ascending order and without repetitions. Tags in
/// ASCII that are kept like this already stay as they are.
pub fn normalize_tags(tags: Vec<String>) -> (r: Vec<String>)
    ensures
        order::strictly_ascending(text::texts(r@)),
        text::texts(r@).to_set() == tag_forms(text::texts(tags@)),
        are_plain_tags(text::texts(tags@)) && order::strictly_ascending(text::texts(tags@))
            ==> text::texts(r@) == text::texts(tags@),
        ascii_tags_are_lowered(text::texts(tags@)),
{
    let kept = kept_tags(tags.as_slice());
    let r = sorted_distinct(kept);
    proof {
        if are_plain_tags(text::texts(tags@)) && order::strictly_ascending(text::texts(tags@)) {
            order::ascending_lists_agree(text::texts(r@), text::texts(tags@));
        }
    }
    r
}

/// The forms of the tags that are not empty, in order.
pub open spec fn forms_in_order(tags: Seq<Seq<char>>) -> Seq<Seq<char>>
    decreases tags.len(),
{
    if tags.len() == 0 {
        seq![]
    } else {
        let rest = forms_in_order(tags.drop_last());
        let x = tag_form(tags.last());
        if x.len() == 0 {
            rest
        } else {
            rest.push(x)
        }
    }
}

proof fn lemma_forms_in_order(tags: Seq<Seq<char>>)
    ensures
        forms_in_order(tags).to_set() == tag_forms(tags),
    decreases tags.len(),
{
    let f = forms_in_order(tags);
    if tags.len() > 0 {
        let t = tags.drop_last();
        let rest = forms_in_order(t);
        let y = tag_form(tags.last());
        lemma_forms_in_order(t);
        assert forall|x: Seq<char>| #[trigger] f.to_set().contains(x) == tag_forms(tags).contains(
            x,
        ) by {
            assert(rest.to_set().contains(x) == tag_forms(t).contains(x));
            if f.contains(x) {
                let i = choose|i: int| 0 <= i < f.len() && f[i] == x;
                if i < rest.len() {
                    assert(rest[i] == x);
                    assert(tag_forms(t).contains(x));
                    let j = choose|j: int| form_at(t, x, j);
                    assert(form_at(t, x, j));
                    assert(form_at(tags, x, j));
                } else {
                    assert(form_at(tags, x, tags.len() - 1));
                }
            }
            if tag_forms(tags).contains(x) {
                let j = choose|j: int| form_at(tags, x, j);
                assert(form_at(tags, x, j));
                if j < t.len() {
                    assert(form_at(t, x, j));
                    assert(rest.contains(x));
                    let i = choose|i: int| 0 <= i < rest.len() && rest[i] == x;
                    assert(f[i] == x);
                } else {
                    assert(f[f.len() - 1] == x);
                }
            }
        }
        assert(f.to_set() =~= tag_forms(tags));
    } else {
        assert(f.to_set() =~= tag_forms(tags));
    }
}

/// The forms of the tags that are not empty.
fn kept_tags(tags: &[String]) -> (r: Vec<String>)
    ensures
        text::texts(r@) == forms_in_order(text::texts(tags@)),
        text::texts(r@).to_set() == tag_forms(text::texts(tags@)),
        are_plain_tags(text::texts(tags@)) ==> text::texts(r@) == text::texts(tags@),
        ascii_tags_are_lowered(text::texts(tags@)),
{
    let ghost all = text::texts(tags@);
    let mut r: Vec<String> = Vec::new();
    assert(text::texts(r@) =~= forms_in_order(all.take(0)));
    for i in 0..tags.len()
        invariant
            all == text::texts(tags@),
            text::texts(r@) == forms_in_order(all.take(i as int)),
            are_plain_tags(all) ==> text::texts(r@) == all.take(i as int),
            forall|j: int|
                0 <= j < i ==> order::ascii_is_lowered(text::trim(#[trigger] all[j])),
    {
        assert(all[i as int] == tags@[i as int]@);
        let t = to_tag(tags[i].as_str());
        let ghost before = text::texts(r@);
        proof {
            assert(all.take(i + 1).drop_last() =~= all.take(i as int));
            assert(all.take(i + 1).last() == tags@[i as int]@);
        }
        if !t.as_str().is_empty() {
            r.push(t);
            assert(text::texts(r@) =~= before.push(t@));
        }
        assert(all.take(i + 1) =~= all.take(i as int).push(all[i as int]));
    }
    assert(all.take(all.len() as int) =~= all);
    proof {
        lemma_forms_in_order(all);
    }
    r
}

// ── New clips ────────────────────────────────────────────────────────────────

/// A lower case hexadecimal digit.
pub open spec fn is_low_hex(c: char) -> bool {
    text::is_digit(c) || 'a' <= c <= 'f'
}

/// The 32 hexadecimal digits of a random UUID of version 4.
pub open spec fn is_simple_uuid(s: Seq<char>) -> bool {
    &&& s.len() == 32
    &&& forall|i: int| 0 <= i < 32 ==> is_low_hex(#[trigger] s[i])
    &&& s[12] == '4'
    &&& s[16] == '8' || s[16] == '9' || s[16] == 'a' || s[16] == 'b'
}

/// The digits of a random UUID of version 4 in groups of 8, 4, 4, 4 and 12,
/// with dashes between them.
pub open spec fn is_hyphenated_uuid(s: Seq<char>) -> bool {
    &&& s.len() == 36
    &&& s[8] == '-' && s[13] == '-' && s[18] == '-' && s[23] == '-'
    &&& is_simple_uuid(
        s.subrange(0, 8) + s.subrange(9, 13) + s.subrange(14, 18) + s.subrange(19, 23)
            + s.subrange(24, 36),
    )
}

/// `uuid::Uuid::new_v4`, written with `Uuid`'s `Display`. The digits are random,
/// so the contract claims their form only: five groups with dashes between them,
/// of lower case hexadecimal digits that carry version 4 and its variant.
#[verifier::external_body]
fn new_uuid() -> (r: String)
    ensures
        is_hyphenated_uuid(r@),
{
    uuid::Uuid::new_v4().to_string()
}

/// `uuid::Uuid::new_v4`, written with the `Display` of `Uuid::simple`. The digits
/// are random, so the contract claims their form only: 32 lower case hexadecimal
/// digits that carry version 4 and its variant.
#[verifier::external_body]
pub(crate) fn new_simple_uuid() -> (r: String)
    ensures
        is_simple_uuid(r@),
{
    uuid::Uuid::new_v4().simple().to_string()
}

/// A clip as it is when it has just been added.
pub open spec fn is_new_clip(
    c: ClipView,
    name: Seq<char>,
    file_name: Seq<char>,
    tags: Seq<Seq<char>>,
    source_url: Option<Seq<char>>,
    duration_ms: u64,
    added_at: u64,
) -> bool {
    &&& is_hyphenated_uuid(c.id)
    &&& c.name == name
    &&& c.file_name == file_name
    &&& c.duration_ms == duration_ms
    &&& order::strictly_ascending(c.tags)
    &&& c.tags.to_set() == tag_forms(tags)
    &&& c.default_volume.bits == level::UNITY_BITS
    &&& !c.default_loop
    &&& c.source_url == source_url
    &&& c.added_at == added_at
}

/// Build a `SoundClip` from a file already present in the sounds dir, which
/// lasts `duration_ms`, at the time `added_at`.
pub fn build_clip(
    name: String,
    file_name: String,
    tags: Vec<String>,
    source_url: Option<String>,
    duration_ms: u64,
    added_at: u64,
) -> (r: SoundClip)
    ensures
        is_new_clip(
            r@,
            name@,
            file_name@,
            text::texts(tags@),
            text::opt_text(source_url),
            duration_ms,
            added_at,
        ),
        ascii_tags_are_lowered(text::texts(tags@)),
{
    SoundClip {
        id: new_uuid(),
        name,
        file_name,
        duration_ms,
        tags: normalize_tags(tags),
        default_volume: default_volume(),
        default_loop: false,
        source_url,
        added_at,
    }
}

// ── Downloads ────────────────────────────────────────────────────────────────

/// Why a download gave no file.
#[derive(Debug)]
pub enum DownloadError {
    /// The downloader failed; what it wrote to its error output.
    Failed(String),
    NoPath,
    /// The file that the downloader named does not exist.
    Missing(String),
}

/// What a download error says, over character sequences.
#[verifier::ext_equal]
pub enum DownloadErrorView {
    Failed(Seq<char>),
    NoPath,
    Missing(Seq<char>),
}

impl View for DownloadError {
    type V = DownloadErrorView;

    open spec fn view(&self) -> DownloadErrorView {
        match *self {
            DownloadError::Failed(e) => DownloadErrorView::Failed(e@),
            DownloadError::NoPath => DownloadErrorView::NoPath,
            DownloadError::Missing(p) => DownloadErrorView::Missing(p@),
        }
    }
}

/// The words for a download error.
pub open spec fn download_error_text(e: DownloadErrorView) -> Seq<char> {
    match e {
        DownloadErrorView::Failed(m) => "yt-dlp failed: "@ + m,
        DownloadErrorView::NoPath => "yt-dlp produced no filepath output"@,
        DownloadErrorView::Missing(p) => "yt-dlp reported "@ + p + " but file is missing"@,
    }
}

impl DownloadError {
    /// The error in words.
    pub fn to_text(&self) -> (r: String)
        ensures
            r@ == download_error_text(self@),
    {
        match self {
            DownloadError::Failed(m) => {
                let mut r = "yt-dlp failed: ".to_owned();
                r.append(m.as_str());
                r
            },
            DownloadError::NoPath => "yt-dlp produced no filepath output".to_owned(),
            DownloadError::Missing(p) => {
                let mut r = "yt-dlp reported ".to_owned();
                r.append(p.as_str());
                r.append(" but file is missing");
                r
            },
        }
    }
}

/// The name of the file to download to, as a template for the downloader, of
/// which the digits are those of `id`.
pub fn template_name(id: &str) -> (r: String)
    ensures
        r@ == "__dl_"@ + id@ + ".%(ext)s"@,
{
    let mut r = "__dl_".to_owned();
    r.append(id);
    r.append(".%(ext)s");
    r
}

/// A new name of a file to download to, as a template for the downloader.
pub fn download_template() -> (r: String)
    ensures
        exists|id: Seq<char>| is_simple_uuid(id) && r@ == #[trigger] ("__dl_"@ + id) + ".%(ext)s"@,
{
    let id = new_simple_uuid();
    template_name(id.as_str())
}

/// What the downloader is asked for: the audio of one video, as Vorbis, under the
/// name `template`, and to print where the file is.
pub open spec fn download_asked(url: Seq<char>, template: Seq<char>) -> Seq<Seq<char>> {
    seq![
        "--no-playlist"@,
        "-x"@,
        "--audio-format"@,
        "vorbis"@,
        "-o"@,
        template,
        "--print"@,
        "after_move:filepath"@,
        url,
    ]
}

/// A download is one of Vorbis, and of no playlist; but for the URL and the name
/// to download to, no word asks for Opus.
pub proof fn downloads_are_vorbis(url: Seq<char>, template: Seq<char>, i: int)
    requires
        0 <= i < download_asked(url, template).len(),
    ensures
        download_asked(url, template).contains("--no-playlist"@),
        ({
            let asked = download_asked(url, template);
            asked[2] == "--audio-format"@ && asked[3] == "vorbis"@
        }),
        download_asked(url, template)[i] == "opus"@ ==> i == 5 || i == 8,
{
    let asked = download_asked(url, template);
    assert(asked[0] == "--no-playlist"@);
    reveal_strlit("--no-playlist");
    reveal_strlit("-x");
    reveal_strlit("--audio-format");
    reveal_strlit("vorbis");
    reveal_strlit("-o");
    reveal_strlit("--print");
    reveal_strlit("after_move:filepath");
    reveal_strlit("opus");
    assert("opus"@.len() == 4 && "-x"@.len() == 2 && "-o"@.len() == 2 && "vorbis"@.len() == 6);
    assert("--print"@.len() == 7 && "--audio-format"@.len() == 14 && "--no-playlist"@.len() == 13);
    assert("after_move:filepath"@.len() == 19);
}

/// The words with which to call the downloader.
pub fn download_args(url: &str, template: &str) -> (r: Vec<String>)
    ensures
        text::texts(r@) == download_asked(url@, template@),
{
    let mut r: Vec<String> = Vec::new();
    r.push("--no-playlist".to_owned());
    r.push("-x".to_owned());
    r.push("--audio-format".to_owned());
    r.push("vorbis".to_owned());
    r.push("-o".to_owned());
    r.push(template.to_owned());
    r.push("--print".to_owned());
    r.push("after_move:filepath".to_owned());
    r.push(url.to_owned());
    assert(text::texts(r@) =~= download_asked(url@, template@));
    r
}

/// What the downloader is asked for where only the title of a video is wanted.
pub open spec fn title_asked(url: Seq<char>) -> Seq<Seq<char>> {
    seq!["--no-playlist"@, "--print"@, "title"@, "--skip-download"@, url]
}

/// The words with which to call the downloader for the title of a video.
pub fn title_args(url: &str) -> (r: Vec<String>)
    ensures
        text::texts(r@) == title_asked(url@),
{
    let mut r: Vec<String> = Vec::new();
    r.push("--no-playlist".to_owned());
    r.push("--print".to_owned());
    r.push("title".to_owned());
    r.push("--skip-download".to_owned());
    r.push(url.to_owned());
    assert(text::texts(r@) =~= title_asked(url@));
    r
}

/// The last line that is not blank, without white space around it.
pub open spec fn last_filled(ls: Seq<Seq<char>>) -> Option<Seq<char>>
    decreases ls.len(),
{
    if ls.len() == 0 {
        None
    } else if text::trim(ls.last()).len() > 0 {
        Some(text::trim(ls.last()))
    } else {
        last_filled(ls.drop_last())
    }
}

fn last_line(output: &str) -> (r: Option<String>)
    ensures
        text::opt_text(r) == last_filled(text::lines(output@)),
{
    let cs = text::chars_of(output);
    let ls = text::lines_of(cs.as_slice());
    let ghost all = text::lines(output@);
    let mut n: usize = ls.len();
    assert(all.len() == ls@.len());
    assert(all.take(n as int) =~= all);
    while n > 0
        invariant
            n <= ls@.len(),
            all == text::rows(ls@),
            all == text::lines(output@),
            last_filled(all) == last_filled(all.take(n as int)),
        decreases n,
    {
        let ghost t = all.take(n as int);
        assert(t.last() == ls@[n - 1]@);
        assert(t.drop_last() =~= all.take(n - 1));
        let line = text::trimmed(ls[n - 1].as_slice());
        if line.len() > 0 {
            return Some(text::text_of(line));
        }
        n -= 1;
    }
    None
}

/// The file that the downloader reports to have written: the last line of its
/// output that is not blank.
pub fn downloaded_path(success: bool, stdout: &str, stderr: String) -> (r: Result<
    String,
    DownloadError,
>)
    ensures
        match r {
            Ok(p) => success && last_filled(text::lines(stdout@)) == Some(p@),
            Err(e) => if success {
                last_filled(text::lines(stdout@)) is None && e@ == DownloadErrorView::NoPath
            } else {
                e@ == DownloadErrorView::Failed(stderr@)
            },
        },
{
    if !success {
        return Err(DownloadError::Failed(stderr));
    }
    match last_line(stdout) {
        Some(p) => Ok(p),
        None => Err(DownloadError::NoPath),
    }
}

/// The file that the downloader reported, where it exists.
pub fn found_download(path: String, exists: bool) -> (r: Result<String, DownloadError>)
    ensures
        match r {
            Ok(p) => exists && p@ == path@,
            Err(e) => !exists && e@ == DownloadErrorView::Missing(path@),
        },
{
    if exists {
        Ok(path)
    } else {
        Err(DownloadError::Missing(path))
    }
}

/// A row of 32 hexadecimal digits.
pub open spec fn is_hex_id(s: Seq<char>) -> bool {
    s.len() == 32 && forall|i: int| 0 <= i < s.len() ==> text::is_hex(#[trigger] s[i])
}

/// The stem of a downloaded file without the mark of a download.
pub open spec fn unmarked(path: Seq<char>) -> Seq<char> {
    let raw = match paths::file_stem(path) {
        Some(s) => s,
        None => "yt-clip"@,
    };
    match text::strip_prefix(raw, "__dl_"@) {
        Some(s) => s,
        None => raw,
    }
}

/// The stem for a downloaded file: the slug of the desired one, else that of the
/// file, unless that only has the digits of a temporary name.
pub open spec fn download_stem(path: Seq<char>, desired: Option<Seq<char>>) -> Seq<char> {
    match desired {
        Some(d) => slug(d),
        None => if is_hex_id(unmarked(path)) {
            "yt-clip"@
        } else {
            slug(unmarked(path))
        },
    }
}

/// The extension of a downloaded file, `opus` where it has none.
pub open spec fn download_extension(path: Seq<char>) -> Seq<char> {
    match paths::extension(path) {
        Some(e) => e,
        None => "opus"@,
    }
}

fn hex_id(s: &[char]) -> (r: bool)
    ensures
        r == is_hex_id(s@),
{
    if s.len() != 32 {
        return false;
    }
    for i in 0..s.len()
        invariant
            s@.len() == 32,
            forall|j: int| 0 <= j < i ==> text::is_hex(#[trigger] s@[j]),
    {
        if !text::char_is_hex(s[i]) {
            return false;
        }
    }
    true
}

/// The name under which to keep the downloaded file `path`.
pub fn download_file_name(path: &str, desired_stem: Option<&str>, taken: &Vec<String>) -> (r: String)
    requires
        taken@.len() < u64::MAX,
    ensures
        is_first_free(
            download_stem(path@, text::opt_str(desired_stem)),
            download_extension(path@),
            text::texts(taken@),
            r@,
        ),
{
    let ext = match paths::extension_of(path) {
        Some(e) => e,
        None => "opus".to_owned(),
    };
    let stem = match desired_stem {
        Some(d) => slugify(d),
        None => {
            let raw = match paths::stem_of(path) {
                Some(s) => s,
                None => "yt-clip".to_owned(),
            };
            let cs = text::chars_of(raw.as_str());
            let rest = match text::without_prefix(cs.as_slice(), "__dl_") {
                Some(s) => s,
                None => cs.as_slice(),
            };
            if hex_id(rest) {
                "yt-clip".to_owned()
            } else {
                slugify(text::text_of(rest).as_str())
            }
        },
    };
    unique_file_name(stem.as_str(), ext.as_str(), taken)
}

/// A download that the downloader left under a temporary name, with whatever
/// extension and wherever, gets the stem `yt-clip`.
pub proof fn temporary_name_is_dropped(dir: Seq<char>, id: Seq<char>, ext: Seq<char>)
    requires
        is_simple_uuid(id),
        !ext.contains('/'),
        !ext.contains('.'),
    ensures
        download_stem(dir.push('/') + (("__dl_"@ + id).push('.') + ext), None) == "yt-clip"@,
        download_extension(dir.push('/') + (("__dl_"@ + id).push('.') + ext)) == ext,
{
    let raw = "__dl_"@ + id;
    let name = raw.push('.') + ext;
    reveal_strlit("__dl_");
    reveal_strlit(".");
    reveal_strlit("..");
    assert(!name.contains('/')) by {
        if name.contains('/') {
            let i = choose|i: int| 0 <= i < name.len() && name[i] == '/';
            if 5 <= i < 37 {
                assert(is_low_hex(id[i - 5]));
            } else if i > 37 {
                assert(ext[i - 38] == '/');
            }
        }
    }
    paths::file_name_below(dir, name);
    text::lemma_rfind_char_before(name, '.', name.len() as int);
    assert(name[37] == '.');
    let k = text::rfind_char(name, '.')->0;
    if k > 37 {
        assert(ext[k - 38] == '.');
    }
    assert(name.take(37) =~= raw);
    assert(name.skip(38) =~= ext);
    assert(raw.take(5) =~= "__dl_"@);
    assert(raw.skip(5) =~= id);
}

/// The title that the downloader printed, where it succeeded and printed one.
pub fn printed_title(success: bool, stdout: &str) -> (r: Option<String>)
    ensures
        text::opt_text(r) == (if success && text::trim(stdout@).len() > 0 {
            Some(text::trim(stdout@))
        } else {
            None
        }),
{
    if !success {
        return None;
    }
    let cs = text::chars_of(stdout);
    let title = text::trimmed(cs.as_slice());
    if title.len() == 0 {
        None
    } else {
        Some(text::text_of(title))
    }
}

// ── Searching ────────────────────────────────────────────────────────────────

/// A clip has all the tags `wanted`, and its name, of which `low_name` is the
/// lower case, holds the text `query`.
pub open spec fn fits(
    c: ClipView,
    low_name: Seq<char>,
    wanted: Seq<Seq<char>>,
    query: Option<Seq<char>>,
) -> bool {
    &&& forall|i: int| 0 <= i < wanted.len() ==> c.tags.contains(#[trigger] wanted[i])
    &&& match query {
        Some(q) => text::find(low_name, q) is Some,
        None => true,
    }
}

/// Whether a clip has all the tags `wanted`, and its name, of which `low_name`
/// is the lower case, holds the text `query`.
pub fn clip_fits(clip: &SoundClip, low_name: &str, wanted: &Vec<String>, query: Option<&str>) -> (r:
    bool)
    ensures
        r == fits(clip@, low_name@, text::texts(wanted@), text::opt_str(query)),
{
    for i in 0..wanted.len()
        invariant
            forall|j: int| 0 <= j < i ==> clip@.tags.contains(#[trigger] text::texts(wanted@)[j]),
    {
        assert(text::texts(wanted@)[i as int] == wanted@[i as int]@);
        if !text::is_among(clip.tags.as_slice(), wanted[i].as_str()) {
            return false;
        }
    }
    match query {
        Some(q) => text::has_text(text::chars_of(low_name).as_slice(), q),
        None => true,
    }
}

/// The lower case of an optional text.
pub open spec fn opt_lowercase(s: Option<Seq<char>>) -> Option<Seq<char>> {
    match s {
        Some(t) => Some(order::lowercase(t)),
        None => None,
    }
}

/// A clip is found by the tags `require` and the text `query`.
pub open spec fn found_by(
    c: ClipView,
    require: Seq<Seq<char>>,
    query: Option<Seq<char>>,
) -> bool {
    fits(c, order::lowercase(c.name), forms_in_order(require), opt_lowercase(query))
}

/// What a list of references refers to.
pub open spec fn referred(v: Seq<&SoundClip>) -> Seq<SoundClip> {
    Seq::new(v.len(), |i: int| *v[i])
}

/// Filter clips by an optional set of required tags (AND semantics) and an
/// optional name substring (case-insensitive).
pub fn filter_clips<'a>(
    clips: &'a [SoundClip],
    require_tags: &[String],
    name_query: Option<&str>,
) -> (r: Vec<&'a SoundClip>)
    ensures
        referred(r@) == clips@.filter(
            |c: SoundClip|
                found_by(c@, text::texts(require_tags@), text::opt_str(name_query)),
        ),
        ascii_tags_are_lowered(text::texts(require_tags@)),
        name_query matches Some(q) ==> order::ascii_is_lowered(q@),
        forall|i: int|
            0 <= i < clips@.len() ==> order::ascii_is_lowered((#[trigger] clips@[i])@.name),
{
    let wanted = kept_tags(require_tags);
    let query = match name_query {
        Some(q) => Some(order::to_lower(q)),
        None => None,
    };
    let ghost req = text::texts(require_tags@);
    let ghost q = text::opt_str(name_query);
    let ghost f = |c: SoundClip| found_by(c@, req, q);
    let mut r: Vec<&'a SoundClip> = Vec::new();
    proof {
        reveal(Seq::filter);
        assert(referred(r@) =~= clips@.take(0).filter(f));
    }
    for i in 0..clips.len()
        invariant
            f == (|c: SoundClip| found_by(c@, req, q)),
            text::texts(wanted@) == forms_in_order(req),
            text::opt_text(query) == opt_lowercase(q),
            referred(r@) == clips@.take(i as int).filter(f),
            forall|j: int|
                0 <= j < i ==> order::ascii_is_lowered((#[trigger] clips@[j])@.name),
    {
        let clip: &'a SoundClip = &clips[i];
        let low_name = order::to_lower(clip.name.as_str());
        let query_str = match &query {
            Some(s) => Some(s.as_str()),
            None => None,
        };
        let ghost before = referred(r@);
        proof {
            reveal(Seq::filter);
            assert(clips@.take(i + 1).drop_last() =~= clips@.take(i as int));
            assert(clips@.take(i + 1).last() == *clip);
        }
        if clip_fits(clip, low_name.as_str(), &wanted, query_str) {
            r.push(clip);
            assert(referred(r@) =~= before.push(*clip));
        }
    }
    assert(clips@.take(clips@.len() as int) =~= clips@);
    r
}

// ── Tag counts ───────────────────────────────────────────────────────────────

/// The tags of all clips, one after the other.
pub open spec fn all_tags(clips: Seq<SoundClip>) -> Seq<Seq<char>>
    decreases clips.len(),
{
    if clips.len() == 0 {
        seq![]
    } else {
        all_tags(clips.drop_last()) + clips.last()@.tags
    }
}

/// How often `t` stands in `s`.
pub open spec fn occurrences(s: Seq<Seq<char>>, t: Seq<char>) -> nat
    decreases s.len(),
{
    if s.len() == 0 {
        0
    } else {
        occurrences(s.drop_last(), t) + if s.last() == t {
            1nat
        } else {
            0nat
        }
    }
}

proof fn lemma_occurrences_bound(s: Seq<Seq<char>>, t: Seq<char>)
    ensures
        occurrences(s, t) <= s.len(),
    decreases s.len(),
{
    if s.len() > 0 {
        lemma_occurrences_bound(s.drop_last(), t);
    }
}

proof fn lemma_all_tags_prefix(clips: Seq<SoundClip>, n: int)
    requires
        0 <= n <= clips.len(),
    ensures
        all_tags(clips.take(n)).len() <= all_tags(clips).len(),
    decreases clips.len(),
{
    if n < clips.len() {
        lemma_all_tags_prefix(clips.drop_last(), n);
        assert(clips.drop_last().take(n) =~= clips.take(n));
    } else {
        assert(clips.take(n) =~= clips);
    }
}

/// The counts of tags in a list: each tag that occurs, and nothing else.
pub open spec fn counts_tags(m: Map<Seq<char>, usize>, s: Seq<Seq<char>>) -> bool {
    forall|t: Seq<char>|
        #![trigger m.contains_key(t)]
        #![trigger occurrences(s, t)]
        m.contains_key(t) == (occurrences(s, t) > 0) && (m.contains_key(t) ==> m[t] == occurrences(
            s,
            t,
        ))
}

/// What an index of tags says, over character sequences.
pub open spec fn index_view(v: Seq<(String, usize)>) -> Seq<(Seq<char>, usize)> {
    Seq::new(v.len(), |i: int| (v[i].0@, v[i].1))
}

/// More frequent tags come first; equally frequent ones in ascending order.
pub open spec fn by_frequency(v: Seq<(Seq<char>, usize)>) -> bool {
    forall|i: int, j: int|
        0 <= i < j < v.len() ==> (#[trigger] v[i]).1 > (#[trigger] v[j]).1 || (v[i].1 == v[j].1
            && order::precedes(v[i].0, v[j].0))
}

/// `v` lists each tag of `tags` with how often it occurs.
pub open spec fn lists_counts(v: Seq<(Seq<char>, usize)>, tags: Seq<Seq<char>>) -> bool {
    &&& forall|i: int|
        0 <= i < v.len() ==> (#[trigger] v[i]).1 > 0 && v[i].1 == occurrences(tags, v[i].0)
    &&& forall|t: Seq<char>| #[trigger]
        occurrences(tags, t) > 0 ==> exists|i: int| maps::key_at(v, t, i)
}

fn count_tags(clips: &[SoundClip]) -> (r: TextMap<usize>)
    requires
        all_tags(clips@).len() <= usize::MAX,
    ensures
        counts_tags(r@, all_tags(clips@)),
{
    let ghost all = all_tags(clips@);
    let mut m: TextMap<usize> = TextMap::new();
    for i in 0..clips.len()
        invariant
            all == all_tags(clips@),
            all.len() <= usize::MAX,
            counts_tags(m@, all_tags(clips@.take(i as int))),
    {
        let ghost front = all_tags(clips@.take(i as int));
        let ghost own = clips@[i as int]@.tags;
        proof {
            assert(clips@.take(i + 1).drop_last() =~= clips@.take(i as int));
            assert(clips@.take(i + 1).last() == clips@[i as int]);
            assert(all_tags(clips@.take(i + 1)) == front + own);
            lemma_all_tags_prefix(clips@, i + 1);
            assert(front + own.take(0) =~= front);
        }
        let count: usize = clips[i].tags.len();
        for j in 0..count
            invariant
                i < clips@.len(),
                count == own.len(),
                own == clips@[i as int]@.tags,
                front.len() + own.len() <= usize::MAX,
                counts_tags(m@, front + own.take(j as int)),
        {
            let tag = clips[i].tags[j].as_str();
            let ghost s = front + own.take(j as int);
            let ghost before = m@;
            proof {
                assert(own[j as int] == tag@);
                lemma_occurrences_bound(s, tag@);
            }
            let n: usize = match m.get(tag) {
                Some(n) => *n,
                None => 0,
            };
            assert(n == occurrences(s, tag@));
            m.insert(tag.to_owned(), n + 1);
            proof {
                let u = front + own.take(j + 1);
                assert(u.drop_last() =~= s);
                assert(u.last() == tag@);
                assert forall|t: Seq<char>|
                    #![trigger m@.contains_key(t)]
                    #![trigger occurrences(u, t)]
                    m@.contains_key(t) == (occurrences(u, t) > 0) && (m@.contains_key(t) ==> m@[t]
                        == occurrences(u, t)) by {
                    assert(before.contains_key(t) == (occurrences(s, t) > 0));
                }
            }
        }
        assert(front + own.take(own.len() as int) =~= front + own);
    }
    assert(clips@.take(clips@.len() as int) =~= clips@);
    m
}

/// Aggregate every tag across the library with usage counts (sorted desc).
pub fn tag_index(clips: &[SoundClip]) -> (r: Vec<(String, usize)>)
    requires
        all_tags(clips@).len() <= usize::MAX,
    ensures
        by_frequency(index_view(r@)),
        lists_counts(index_view(r@), all_tags(clips@)),
{
    let ghost all = all_tags(clips@);
    let m = count_tags(clips);
    let n: usize = m.len();
    let ghost e = m.listed();
    let mut r: Vec<(String, usize)> = Vec::new();
    for k in 0..n
        invariant
            n == e.len(),
            e == m.listed(),
            maps::text_sorted(e),
            by_frequency(index_view(r@)),
            r@.len() == k,
            forall|i: int|
                0 <= i < r@.len() ==> e.take(k as int).contains(#[trigger] index_view(r@)[i]),
            forall|l: int| 0 <= l < k ==> #[trigger] index_view(r@).contains(e[l]),
    {
        let tag = m.key(k);
        let count: usize = *m.value(k);
        let ghost v = index_view(r@);
        let ghost entry = (tag@, count);
        assert(entry == e[k as int]);
        let mut pos: usize = r.len();
        while pos > 0 && r[pos - 1].1 < count
            invariant
                pos <= r@.len(),
                v == index_view(r@),
                forall|i: int| pos <= i < v.len() ==> (#[trigger] v[i]).1 < count,
            ensures
                pos <= r@.len(),
                forall|i: int| pos <= i < v.len() ==> (#[trigger] v[i]).1 < count,
                pos > 0 ==> v[pos - 1].1 >= count,
            decreases pos,
        {
            pos -= 1;
        }
        r.insert(pos, (tag.to_owned(), count));
        proof {
            let w = index_view(r@);
            assert(w =~= v.insert(pos as int, entry));
            assert forall|i: int| 0 <= i < v.len() implies order::precedes(
                (#[trigger] v[i]).0,
                tag@,
            ) by {
                assert(e.take(k as int).contains(v[i]));
                let t = e.take(k as int);
                let l = choose|l: int| 0 <= l < t.len() && t[l] == v[i];
                assert(order::precedes(e[l].0, e[k as int].0));
            }
            assert forall|i: int| 0 <= i < pos implies (#[trigger] v[i]).1 >= count by {
                if i < pos - 1 {
                    assert(v[i].1 > v[pos - 1].1 || v[i].1 == v[pos - 1].1);
                }
            }
            assert forall|i: int, j: int| 0 <= i < j < w.len() implies (#[trigger] w[i]).1 > (
            #[trigger] w[j]).1 || (w[i].1 == w[j].1 && order::precedes(w[i].0, w[j].0)) by {
                let oi = if i < pos { i } else { i - 1 };
                let oj = if j < pos { j } else { j - 1 };
                if i == pos {
                    assert(w[j] == v[oj]);
                } else if j == pos {
                    assert(w[i] == v[oi]);
                } else {
                    assert(w[i] == v[oi]);
                    assert(w[j] == v[oj]);
                }
            }
            let front = e.take(k as int);
            let next = e.take(k + 1);
            assert forall|i: int| 0 <= i < r@.len() implies next.contains(
                #[trigger] index_view(r@)[i],
            ) by {
                if i == pos {
                    assert(next[k as int] == w[i]);
                } else {
                    let oi = if i < pos { i } else { i - 1 };
                    assert(w[i] == v[oi]);
                    let l = choose|l: int| 0 <= l < front.len() && front[l] == v[oi];
                    assert(next[l] == w[i]);
                }
            }
            assert forall|l: int| 0 <= l < k + 1 implies #[trigger] index_view(r@).contains(
                e[l],
            ) by {
                if l == k {
                    assert(w[pos as int] == e[l]);
                } else {
                    assert(v.contains(e[l]));
                    let i = choose|i: int| 0 <= i < v.len() && v[i] == e[l];
                    let ni = if i < pos { i } else { i + 1 };
                    assert(w[ni] == e[l]);
                }
            }
        }
    }
    proof {
        let w = index_view(r@);
        maps::lemma_listed(e);
        assert forall|i: int| 0 <= i < w.len() implies (#[trigger] w[i]).1 > 0 && w[i].1
            == occurrences(all, w[i].0) by {
            assert(e.take(n as int).contains(w[i]));
            let t = e.take(n as int);
            let l = choose|l: int| 0 <= l < t.len() && t[l] == w[i];
            assert(m@.contains_key(e[l].0) && m@[e[l].0] == e[l].1);
        }
        assert forall|t: Seq<char>| #[trigger] occurrences(all, t) > 0 implies exists|i: int|
            maps::key_at(w, t, i) by {
            assert(m@.contains_key(t));
            let l = choose|l: int| maps::key_at(e, t, l);
            assert(maps::key_at(e, t, l));
            assert(w.contains(e[l]));
            let i = choose|i: int| 0 <= i < w.len() && w[i] == e[l];
            assert(maps::key_at(w, t, i));
        }
    }
    r
}

// ── What names, tags and searches say ────────────────────────────────────────

/// The letters, digits and underscores of a text, in lower case and in their order.
pub open spec fn spelled(s: Seq<char>) -> Seq<char>
    decreases s.len(),
{
    if s.len() == 0 {
        s
    } else if text::is_alnum(s.last()) || s.last() == '_' {
        spelled(s.drop_last()).push(text::ascii_lower(s.last()))
    } else {
        spelled(s.drop_last())
    }
}

proof fn lemma_spelled_scan(s: Seq<char>)
    ensures
        spelled(slug_scan(s).out) == spelled(s),
    decreases s.len(),
{
    if s.len() > 0 {
        let was = slug_scan(s.drop_last());
        let c = s.last();
        lemma_spelled_scan(s.drop_last());
        assert(was.out.push(text::ascii_lower(c)).drop_last() =~= was.out);
        assert(was.out.push('-').drop_last() =~= was.out);
        assert(text::ascii_lower(text::ascii_lower(c)) == text::ascii_lower(c));
    }
}

proof fn lemma_spelled_trim(s: Seq<char>)
    ensures
        spelled(text::trim_right(s, Pad::One('-'))) == spelled(s),
    decreases s.len(),
{
    if s.len() > 0 && s.last() == '-' {
        lemma_spelled_trim(s.drop_last());
    }
}

proof fn lemma_nothing_spelled(s: Seq<char>)
    requires
        forall|i: int| 0 <= i < s.len() ==> in_slug(#[trigger] s[i]),
        spelled(s).len() == 0,
    ensures
        text::trim_right(s, Pad::One('-')).len() == 0,
    decreases s.len(),
{
    if s.len() > 0 {
        assert(in_slug(s[s.len() - 1]));
        let front = s.drop_last();
        assert forall|i: int| 0 <= i < front.len() implies in_slug(#[trigger] front[i]) by {
            assert(front[i] == s[i]);
        }
        lemma_nothing_spelled(front);
    }
}

/// A slug spells what its text spells: the letters, digits and underscores, all of
/// them in lower case and in their order. A text that spells nothing is called `clip`.
pub proof fn slug_spells_the_text(s: Seq<char>)
    ensures
        spelled(s).len() > 0 ==> spelled(slug(s)) == spelled(s),
        spelled(s).len() == 0 ==> slug(s) == "clip"@,
{
    let out = slug_scan(s).out;
    lemma_spelled_scan(s);
    lemma_spelled_trim(out);
    lemma_slug_scan(s);
    if spelled(s).len() == 0 {
        lemma_nothing_spelled(out);
    }
}

proof fn lemma_scan_end(a: Seq<char>)
    requires
        a.len() > 0,
        forall|i: int| 0 <= i < a.len() ==> in_slug(#[trigger] a[i]),
    ensures
        !slug_scan(a).after_separator,
        slug_scan(a).out == a,
{
    lemma_slug_scan_keeps(a);
    assert(in_slug(a[a.len() - 1]));
}

proof fn lemma_scan_behind(s: Seq<char>, b: Seq<char>)
    requires
        forall|i: int| 0 <= i < b.len() ==> in_slug(#[trigger] b[i]),
    ensures
        slug_scan(s + b).out == slug_scan(s).out + b,
    decreases b.len(),
{
    if b.len() == 0 {
        assert(s + b =~= s);
        assert(slug_scan(s).out + b =~= slug_scan(s).out);
    } else {
        let front = b.drop_last();
        assert forall|i: int| 0 <= i < front.len() implies in_slug(#[trigger] front[i]) by {
            assert(front[i] == b[i]);
        }
        lemma_scan_behind(s, front);
        assert((s + b).drop_last() =~= s + front);
        assert((s + b).last() == b[b.len() - 1]);
        assert(slug_scan(s + b).out =~= slug_scan(s).out + b);
    }
}

proof fn lemma_scan_gap(a: Seq<char>, gap: Seq<char>)
    requires
        a.len() > 0 ==> slug_scan(a).out.len() > 0 && !slug_scan(a).after_separator,
        forall|i: int| 0 <= i < gap.len() ==> text::is_white(#[trigger] gap[i]) || gap[i] == '.',
        gap.len() > 0,
    ensures
        a.len() > 0 ==> slug_scan(a + gap) == (SlugScan {
            out: slug_scan(a).out.push('-'),
            after_separator: true,
        }),
        a.len() == 0 ==> slug_scan(a + gap) == slug_scan(a),
    decreases gap.len(),
{
    let front = gap.drop_last();
    assert((a + gap).drop_last() =~= a + front);
    assert((a + gap).last() == gap[gap.len() - 1]);
    if front.len() == 0 {
        assert(a + front =~= a);
    } else {
        assert forall|i: int| 0 <= i < front.len() implies text::is_white(#[trigger] front[i])
            || front[i] == '.' by {
            assert(front[i] == gap[i]);
        }
        lemma_scan_gap(a, front);
    }
}

proof fn lemma_scan_noise(a: Seq<char>, noise: Seq<char>)
    requires
        forall|i: int|
            0 <= i < noise.len() ==> !slug_keeps(#[trigger] noise[i]) && !text::is_white(noise[i])
                && noise[i] != '.',
    ensures
        slug_scan(a + noise) == slug_scan(a),
    decreases noise.len(),
{
    if noise.len() == 0 {
        assert(a + noise =~= a);
    } else {
        let front = noise.drop_last();
        assert forall|i: int| 0 <= i < front.len() implies !slug_keeps(#[trigger] front[i])
            && !text::is_white(front[i]) && front[i] != '.' by {
            assert(front[i] == noise[i]);
        }
        lemma_scan_noise(a, front);
        assert((a + noise).drop_last() =~= a + front);
        assert((a + noise).last() == noise[noise.len() - 1]);
    }
}

/// White space and dots between two words are one dash in the slug, however many they
/// are; before the first word and behind the last they are nothing.
pub proof fn slug_joins_words(a: Seq<char>, gap: Seq<char>, b: Seq<char>)
    requires
        a.len() > 0,
        forall|i: int| 0 <= i < a.len() ==> in_slug(#[trigger] a[i]),
        is_slug(b),
        gap.len() > 0,
        forall|i: int| 0 <= i < gap.len() ==> text::is_white(#[trigger] gap[i]) || gap[i] == '.',
    ensures
        slug(a + gap + b) == a + seq!['-'] + b,
        slug(gap + b) == b,
        slug(b + gap) == b,
{
    let none = Seq::<char>::empty();
    lemma_scan_end(a);
    lemma_scan_gap(a, gap);
    lemma_scan_behind(a + gap, b);
    let whole = a + seq!['-'] + b;
    assert(slug_scan(a + gap + b).out =~= whole);
    assert(whole.last() == b.last());
    lemma_scan_gap(none, gap);
    assert(none + gap =~= gap);
    lemma_scan_behind(gap, b);
    assert(none + b =~= b);
    lemma_scan_end(b);
    lemma_scan_gap(b, gap);
    assert(b.push('-').drop_last() =~= b);
    reveal_with_fuel(text::trim_right, 2);
}

/// What is left out of a slug between white space or dots does not make a second dash.
pub proof fn slug_joins_over_noise(
    a: Seq<char>,
    gap: Seq<char>,
    noise: Seq<char>,
    next: Seq<char>,
    b: Seq<char>,
)
    requires
        a.len() > 0,
        forall|i: int| 0 <= i < a.len() ==> in_slug(#[trigger] a[i]),
        is_slug(b),
        gap.len() > 0,
        forall|i: int| 0 <= i < gap.len() ==> text::is_white(#[trigger] gap[i]) || gap[i] == '.',
        forall|i: int|
            0 <= i < noise.len() ==> !text::is_alnum(#[trigger] noise[i]) && noise[i] != '-'
                && noise[i] != '_' && noise[i] != '.' && !text::is_white(noise[i]),
        forall|i: int| 0 <= i < next.len() ==> text::is_white(#[trigger] next[i]) || next[i] == '.',
    ensures
        slug(a + gap + noise + next + b) == a + seq!['-'] + b,
{
    lemma_scan_end(a);
    lemma_scan_gap(a, gap);
    lemma_scan_noise(a + gap, noise);
    lemma_scan_more(a + gap + noise, next);
    lemma_scan_behind(a + gap + noise + next, b);
    let whole = a + seq!['-'] + b;
    assert(slug_scan(a + gap + noise + next + b).out =~= whole);
    assert(whole.last() == b.last());
}

proof fn lemma_scan_more(s: Seq<char>, gap: Seq<char>)
    requires
        slug_scan(s).after_separator,
        forall|i: int| 0 <= i < gap.len() ==> text::is_white(#[trigger] gap[i]) || gap[i] == '.',
    ensures
        slug_scan(s + gap) == slug_scan(s),
    decreases gap.len(),
{
    if gap.len() == 0 {
        assert(s + gap =~= s);
    } else {
        let front = gap.drop_last();
        assert forall|i: int| 0 <= i < front.len() implies text::is_white(#[trigger] front[i])
            || front[i] == '.' by {
            assert(front[i] == gap[i]);
        }
        lemma_scan_more(s, front);
        assert((s + gap).drop_last() =~= s + front);
        assert((s + gap).last() == gap[gap.len() - 1]);
    }
}

/// What is no letter, digit, dash, underscore, white space or dot is left out of a
/// slug without a trace.
pub proof fn slug_drops_the_rest(a: Seq<char>, noise: Seq<char>, b: Seq<char>)
    requires
        is_slug(a),
        is_slug(b),
        forall|i: int|
            0 <= i < noise.len() ==> !text::is_alnum(#[trigger] noise[i]) && noise[i] != '-'
                && noise[i] != '_' && noise[i] != '.' && !text::is_white(noise[i]),
    ensures
        slug(a + noise + b) == a + b,
{
    lemma_scan_end(a);
    lemma_scan_noise(a, noise);
    lemma_scan_behind(a + noise, b);
    assert((a + b).last() == b.last());
}

/// The first name to try is the stem, a dot and the extension; the others have a dash
/// and a number between, which counts from two.
pub proof fn candidates_are_numbered(stem: Seq<char>, ext: Seq<char>, k: nat)
    ensures
        candidate(stem, ext, 0) == stem + seq!['.'] + ext,
        k > 0 ==> ({
            let name = candidate(stem, ext, k);
            let n = stem.len() as int;
            let m = name.len() - ext.len();
            &&& n + 2 < m
            &&& name.take(n) == stem
            &&& name[n] == '-'
            &&& number::parse_unsigned(name.subrange(n + 1, m - 1), k + 1) == Some(k + 1)
            &&& name[m - 1] == '.'
            &&& name.skip(m) == ext
        }),
{
    assert(candidate(stem, ext, 0) =~= stem + seq!['.'] + ext);
    if k > 0 {
        let name = candidate(stem, ext, k);
        let d = number::decimal(k + 1);
        let n = stem.len() as int;
        let m = name.len() - ext.len();
        number::lemma_decimal_reads_back(k + 1);
        number::decimal_round_trip(k + 1, k + 1);
        assert(name.subrange(n + 1, m - 1) =~= d);
        assert(name.take(n) =~= stem);
        assert(name.skip(m) =~= ext);
    }
}

/// A desired stem is taken; else an upload keeps the stem of its own name. It keeps
/// its extension in any case.
pub proof fn uploads_keep_their_names(
    path: Seq<char>,
    stem: Seq<char>,
    ext: Seq<char>,
    desired: Seq<char>,
)
    requires
        stem.len() > 0,
        !ext.contains('.'),
        paths::file_name(path) == Some(stem.push('.') + ext),
    ensures
        upload_stem(path, Some(desired)) == slug(desired),
        upload_stem(path, None) == slug(stem),
        upload_extension(path) == ext,
{
    paths::names_are_stem_and_extension(path, stem, ext);
}

/// An upload without a name is called `clip`, and one without an extension `bin`.
pub proof fn nameless_uploads_are_clips(path: Seq<char>, name: Seq<char>)
    requires
        !name.contains('.'),
    ensures
        paths::file_name(path) is None ==> upload_stem(path, None) == "clip"@ && upload_extension(
            path,
        ) == "bin"@,
        paths::file_name(path) == Some(name) ==> upload_extension(path) == "bin"@ && upload_stem(
            path,
            None,
        ) == slug(name),
{
    reveal_strlit("clip");
    slug_of_slug("clip"@);
    if paths::file_name(path) == Some(name) {
        paths::names_without_extension(path, name);
    }
}

/// A download keeps the stem and the extension of its file, without the mark of a
/// download, unless another stem is desired; without a name it is called `yt-clip`.
pub proof fn downloads_keep_their_names(
    path: Seq<char>,
    stem: Seq<char>,
    ext: Seq<char>,
    desired: Seq<char>,
)
    requires
        stem.len() > 0,
        !is_hex_id(stem),
        !ext.contains('.'),
    ensures
        download_stem(path, Some(desired)) == slug(desired),
        paths::file_name(path) == Some(stem.push('.') + ext) ==> download_extension(path) == ext,
        paths::file_name(path) == Some(stem.push('.') + ext) && !text::starts_with(stem, "__dl_"@)
            ==> download_stem(path, None) == slug(stem),
        paths::file_name(path) == Some(("__dl_"@ + stem).push('.') + ext) ==> download_stem(
            path,
            None,
        ) == slug(stem) && download_extension(path) == ext,
        paths::file_name(path) is None ==> download_stem(path, None) == "yt-clip"@
            && download_extension(path) == "opus"@,
{
    reveal_strlit("__dl_");
    reveal_strlit("yt-clip");
    if paths::file_name(path) == Some(stem.push('.') + ext) {
        paths::names_are_stem_and_extension(path, stem, ext);
    }
    let marked = "__dl_"@ + stem;
    if paths::file_name(path) == Some(marked.push('.') + ext) {
        paths::names_are_stem_and_extension(path, marked, ext);
        text::prefixes_come_off(marked, "__dl_"@, stem);
    }
    assert("yt-clip"@.len() == 7);
    assert(!text::starts_with("yt-clip"@, "__dl_"@)) by {
        if text::starts_with("yt-clip"@, "__dl_"@) {
            assert("yt-clip"@.take(5)[0] == 'y');
        }
    }
    slug_of_slug("yt-clip"@);
}

/// White space around a tag is no part of it.
pub proof fn tags_are_trimmed(a: Seq<char>, t: Seq<char>, b: Seq<char>)
    requires
        text::all_pad(a, Pad::White),
        text::all_pad(b, Pad::White),
        t.len() == 0 || !text::is_white(t[0]) && !text::is_white(t.last()),
    ensures
        tag_form(a + t + b) == order::lowercase(t),
{
    text::trimming_takes_the_padding(a, t, b, Pad::White);
}

/// The forms of tags are kept one by one and in their order; one that is empty is left
/// out.
pub proof fn forms_are_kept(a: Seq<Seq<char>>, b: Seq<Seq<char>>, t: Seq<char>)
    ensures
        forms_in_order(a + b) == forms_in_order(a) + forms_in_order(b),
        order::lowercase(text::trim(t)).len() > 0 ==> forms_in_order(seq![t]) == seq![
            order::lowercase(text::trim(t)),
        ],
        order::lowercase(text::trim(t)).len() == 0 ==> forms_in_order(seq![t]).len() == 0,
        forms_in_order(seq![]).len() == 0,
    decreases b.len(),
{
    let one = seq![t];
    assert(one.drop_last() =~= Seq::<Seq<char>>::empty());
    assert(one.last() == t);
    assert(forms_in_order(one.drop_last()) =~= Seq::<Seq<char>>::empty());
    assert(Seq::<Seq<char>>::empty().push(tag_form(t)) =~= seq![tag_form(t)]);
    if b.len() == 0 {
        assert(a + b =~= a);
        assert(forms_in_order(a) + forms_in_order(b) =~= forms_in_order(a));
    } else {
        forms_are_kept(a, b.drop_last(), t);
        assert((a + b).drop_last() =~= a + b.drop_last());
        assert((a + b).last() == b.last());
        assert(forms_in_order(a + b) =~= forms_in_order(a) + forms_in_order(b));
    }
}

/// A new clip is what it was made of, plays once and at its own volume.
pub proof fn new_clips_are_as_given(
    c: ClipView,
    name: Seq<char>,
    file_name: Seq<char>,
    tags: Seq<Seq<char>>,
    source_url: Option<Seq<char>>,
    duration_ms: u64,
    added_at: u64,
    t: Seq<char>,
)
    requires
        is_new_clip(c, name, file_name, tags, source_url, duration_ms, added_at),
    ensures
        c.name == name && c.file_name == file_name && c.source_url == source_url,
        c.duration_ms == duration_ms && c.added_at == added_at && !c.default_loop,
        c.default_volume.bits == 0x3f80_0000,
        c.tags.contains(t) <==> t.len() > 0 && exists|i: int|
            0 <= i < tags.len() && order::lowercase(text::trim(#[trigger] tags[i])) == t,
        c.id.len() == 36,
{
    assert(c.tags.contains(t) == c.tags.to_set().contains(t));
    if t.len() > 0 && exists|i: int|
        0 <= i < tags.len() && order::lowercase(text::trim(#[trigger] tags[i])) == t {
        let i = choose|i: int|
            0 <= i < tags.len() && order::lowercase(text::trim(#[trigger] tags[i])) == t;
        assert(form_at(tags, t, i));
    }
    if tag_forms(tags).contains(t) {
        let i = choose|i: int| form_at(tags, t, i);
        assert(order::lowercase(text::trim(tags[i])) == t);
    }
}

/// The words for a download error hold what the downloader said, or the file that is
/// missing, and tell the errors apart.
pub proof fn download_errors_are_told_apart(m: Seq<char>, p: Seq<char>)
    ensures
        text::strip_prefix(
            download_error_text(DownloadErrorView::Failed(m)),
            "yt-dlp failed: "@,
        ) == Some(m),
        download_error_text(DownloadErrorView::Missing(p)) == "yt-dlp reported "@ + p
            + " but file is missing"@,
        download_error_text(DownloadErrorView::NoPath) == "yt-dlp produced no filepath output"@,
{
    text::prefixes_come_off(m, "yt-dlp failed: "@, m);
}

/// The downloader is called for the audio of the URL, which comes last, and is told the
/// name of the file behind `-o` and to print its path.
pub proof fn downloads_are_asked_for(url: Seq<char>, template: Seq<char>)
    ensures
        ({
            let asked = download_asked(url, template);
            &&& asked.len() == 9 && asked.last() == url
            &&& asked[1] == "-x"@
            &&& asked[4] == "-o"@ && asked[5] == template
            &&& asked[6] == "--print"@ && asked[7] == "after_move:filepath"@
        }),
        ({
            let asked = title_asked(url);
            &&& asked.len() == 5 && asked.last() == url
            &&& asked[0] == "--no-playlist"@ && asked[3] == "--skip-download"@
            &&& asked[1] == "--print"@ && asked[2] == "title"@
        }),
{
}

/// The path is the last line that is not blank; there is none only where all are blank.
pub proof fn last_line_counts(ls: Seq<Seq<char>>, i: int)
    ensures
        0 <= i < ls.len() && text::trim(ls[i]).len() > 0 && (forall|j: int|
            i < j < ls.len() ==> text::trim(#[trigger] ls[j]).len() == 0) ==> last_filled(ls)
            == Some(text::trim(ls[i])),
        last_filled(ls) is None <==> forall|j: int|
            0 <= j < ls.len() ==> text::trim(#[trigger] ls[j]).len() == 0,
    decreases ls.len(),
{
    if ls.len() > 0 {
        let front = ls.drop_last();
        let n = ls.len() - 1;
        last_line_counts(front, i);
        assert(ls[n] == ls.last());
        assert forall|j: int| 0 <= j < n implies front[j] == #[trigger] ls[j] by {}
        if last_filled(front) is None && text::trim(ls.last()).len() == 0 {
            assert forall|j: int| 0 <= j < ls.len() implies text::trim(#[trigger] ls[j]).len()
                == 0 by {
                if j < n {
                    assert(text::trim(front[j]).len() == 0);
                }
            }
        }
        if forall|j: int| 0 <= j < ls.len() ==> text::trim(#[trigger] ls[j]).len() == 0 {
            assert(text::trim(ls[n]).len() == 0);
            assert forall|j: int| 0 <= j < front.len() implies text::trim(#[trigger] front[j]).len()
                == 0 by {
                assert(text::trim(ls[j]).len() == 0);
            }
        }
    }
}

/// A search asks for all its tags and for its text: more tags find less, a tag finds
/// the clips that have it in the form in which tags are kept, and a text finds the
/// clips in whose name it stands, whatever the case.
pub proof fn searches_ask_for_everything(
    c: ClipView,
    a: Seq<Seq<char>>,
    b: Seq<Seq<char>>,
    t: Seq<char>,
    q: Option<Seq<char>>,
    s: Seq<char>,
)
    ensures
        found_by(c, seq![], None),
        found_by(c, a + b, q) <==> found_by(c, a, q) && found_by(c, b, q),
        found_by(c, a, q) <==> found_by(c, a, None) && found_by(c, seq![], q),
        found_by(c, seq![t], None) <==> order::lowercase(text::trim(t)).len() == 0
            || c.tags.contains(order::lowercase(text::trim(t))),
        found_by(c, seq![], Some(s)) <==> exists|i: int|
            text::occurs_at(order::lowercase(c.name), order::lowercase(s), i),
{
    forms_are_kept(a, b, t);
    let fa = forms_in_order(a);
    let fb = forms_in_order(b);
    let fab = forms_in_order(a + b);
    if found_by(c, a + b, q) {
        assert forall|i: int| 0 <= i < fa.len() implies c.tags.contains(#[trigger] fa[i]) by {
            assert(fab[i] == fa[i]);
        }
        assert forall|i: int| 0 <= i < fb.len() implies c.tags.contains(#[trigger] fb[i]) by {
            assert(fab[fa.len() + i] == fb[i]);
        }
    }
    if found_by(c, a, q) && found_by(c, b, q) {
        assert forall|i: int| 0 <= i < fab.len() implies c.tags.contains(#[trigger] fab[i]) by {
            if i < fa.len() {
                assert(fab[i] == fa[i]);
            } else {
                assert(fab[i] == fb[i - fa.len()]);
            }
        }
    }
    let ft = forms_in_order(seq![t]);
    if ft.len() > 0 {
        assert(ft[0] == order::lowercase(text::trim(t)));
    }
    text::cut_at_the_first_mark(order::lowercase(c.name), order::lowercase(s));
}

/// The tags of the clips are those of each clip, one clip after the other.
pub proof fn tags_of_clips_are_gathered(a: Seq<SoundClip>, b: Seq<SoundClip>, c: SoundClip)
    ensures
        all_tags(a + b) == all_tags(a) + all_tags(b),
        all_tags(seq![c]) == c@.tags,
        all_tags(seq![]).len() == 0,
    decreases b.len(),
{
    let one = seq![c];
    assert(one.drop_last() =~= Seq::<SoundClip>::empty());
    assert(one.last() == c);
    assert(all_tags(one.drop_last()) =~= Seq::<Seq<char>>::empty());
    assert(Seq::<Seq<char>>::empty() + c@.tags =~= c@.tags);
    if b.len() == 0 {
        assert(a + b =~= a);
        assert(all_tags(a) + all_tags(b) =~= all_tags(a));
    } else {
        tags_of_clips_are_gathered(a, b.drop_last(), c);
        assert((a + b).drop_last() =~= a + b.drop_last());
        assert((a + b).last() == b.last());
        assert(all_tags(a + b) =~= all_tags(a) + all_tags(b));
    }
}

/// A tag is counted once for each time that it stands in a list.
pub proof fn tags_are_counted(a: Seq<Seq<char>>, b: Seq<Seq<char>>, t: Seq<char>, u: Seq<char>)
    requires
        t != u,
    ensures
        occurrences(a + b, t) == occurrences(a, t) + occurrences(b, t),
        occurrences(seq![t], t) == 1,
        occurrences(seq![u], t) == 0,
        occurrences(seq![], t) == 0,
        occurrences(b, t) > 0 <==> b.contains(t),
    decreases b.len(),
{
    reveal_with_fuel(occurrences, 2);
    let one = seq![t];
    assert(one.drop_last() =~= Seq::<Seq<char>>::empty());
    let other = seq![u];
    assert(other.drop_last() =~= Seq::<Seq<char>>::empty());
    if b.len() == 0 {
        assert(a + b =~= a);
    } else {
        let front = b.drop_last();
        tags_are_counted(a, front, t, u);
        assert((a + b).drop_last() =~= a + front);
        assert((a + b).last() == b.last());
        if front.contains(t) {
            let i = front.index_of(t);
            assert(b[i] == t);
        }
        if b.contains(t) {
            let i = b.index_of(t);
            if i < front.len() {
                assert(front[i] == t);
            }
        }
        if b.last() == t {
            assert(b[b.len() - 1] == t);
        }
    }
}

/// A clip says what its fields hold, each for itself.
pub proof fn clips_say_their_fields(c: SoundClip, i: int)
    ensures
        c@.id == c.id@ && c@.name == c.name@ && c@.file_name == c.file_name@,
        c@.duration_ms == c.duration_ms && c@.added_at == c.added_at,
        c@.default_volume == c.default_volume && c@.default_loop == c.default_loop,
        c.source_url matches Some(u) ==> c@.source_url == Some(u@),
        c.source_url is None <==> c@.source_url is None,
        c@.tags.len() == c.tags@.len(),
        0 <= i < c.tags@.len() ==> c@.tags[i] == c.tags@[i]@,
{
}

/// An index of tags has each tag once, with how often it occurs; a tag that occurs more
/// often comes first, and of two that occur alike the one that comes first in the order
/// of texts.
pub proof fn indexes_are_by_frequency(
    v: Seq<(Seq<char>, usize)>,
    tags: Seq<Seq<char>>,
    i: int,
    j: int,
)
    requires
        by_frequency(v),
        lists_counts(v, tags),
        0 <= i < j < v.len(),
    ensures
        v[i].1 >= v[j].1,
        v[i].1 == v[j].1 ==> order::precedes(v[i].0, v[j].0),
        v[i].0 != v[j].0,
        v[i].1 == occurrences(tags, v[i].0) && v[j].1 == occurrences(tags, v[j].0),
        v[i].1 > 0 && v[j].1 > 0,
{
    order::precedes_irreflexive(v[i].0);
}

/// Every tag that occurs is in the index.
pub proof fn indexes_are_complete(v: Seq<(Seq<char>, usize)>, tags: Seq<Seq<char>>, t: Seq<char>)
    requires
        lists_counts(v, tags),
        tags.contains(t),
    ensures
        exists|i: int| 0 <= i < v.len() && (#[trigger] v[i]).0 == t,
{
    let other = t.push('a');
    assert(other.len() != t.len());
    tags_are_counted(seq![], tags, t, other);
    assert(occurrences(tags, t) > 0);
    let i = choose|i: int| maps::key_at(v, t, i);
    assert(v[i].0 == t);
}

/// The name for a file is free, and of the names to try all before it are taken.
pub proof fn first_free_names_are_free(
    stem: Seq<char>,
    ext: Seq<char>,
    taken: Seq<Seq<char>>,
    name: Seq<char>,
)
    requires
        is_first_free(stem, ext, taken, name),
    ensures
        !taken.contains(name),
        !taken.contains(stem + seq!['.'] + ext) ==> name == stem + seq!['.'] + ext,
        text::starts_with(name, stem) && text::ends_with(name, ext),
{
    let k = choose|k: nat|
        name == #[trigger] candidate(stem, ext, k) && !taken.contains(name) && forall|j: nat|
            j < k ==> taken.contains(#[trigger] candidate(stem, ext, j));
    candidates_are_numbered(stem, ext, k);
    if k > 0 {
        assert(taken.contains(candidate(stem, ext, 0)));
    } else {
        assert(name.take(stem.len() as int) =~= stem);
        assert(name.skip(name.len() - ext.len()) =~= ext);
    }
}

/// Lists of clips and of counted tags say what they hold, in their order.
pub proof fn lists_say_what_they_hold(
    clips: Seq<SoundClip>,
    refs: Seq<&SoundClip>,
    counts: Seq<(String, usize)>,
    i: int,
)
    ensures
        clips_view(clips).len() == clips.len() && referred(refs).len() == refs.len(),
        index_view(counts).len() == counts.len(),
        0 <= i < clips.len() ==> clips_view(clips)[i] == clips[i]@,
        0 <= i < refs.len() ==> referred(refs)[i] == *refs[i],
        0 <= i < counts.len() ==> index_view(counts)[i].0 == counts[i].0@ && index_view(
            counts,
        )[i].1 == counts[i].1,
{
}

/// A download error says what it is and what it is about.
pub proof fn download_errors_say_what_they_are(e: DownloadError)
    ensures
        e matches DownloadError::Failed(m) ==> e@ == DownloadErrorView::Failed(m@),
        e is NoPath ==> e@ is NoPath,
        e matches DownloadError::Missing(p) ==> e@ == DownloadErrorView::Missing(p@),
{
}

} // verus!
