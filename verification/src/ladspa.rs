//! LADSPA plugin catalog.
//!
//! Reads the textual output of `listplugins` and `analyseplugin` into the same
//! shape as the LV2 catalog.

use vstd::prelude::*;
use vstd::slice::slice_subrange;
use crate::number;
use crate::number::Number;
use crate::order;
use crate::order::Named;
use crate::paths;
use crate::text;
use crate::text::Pad;

verus! {

// ── Plugins and ports ────────────────────────────────────────────────────────

#[derive(Debug, Clone)]
pub struct LadspaPlugin {
    /// Absolute path to the `.so` file.
    pub path: String,
    /// Plugin label (the in-file identifier, unique per `.so`).
    pub label: String,
    pub unique_id: u32,
    pub name: String,
    pub maker: Option<String>,
    pub ports: Vec<LadspaPort>,
}

#[derive(Debug, Clone)]
pub struct LadspaPort {
    /// Declaration order index (0-based).
    pub index: u32,
    pub name: String,
    pub direction: PortDirection,
    pub kind: PortKind,
    pub min: Option<Number>,
    pub max: Option<Number>,
    pub default: Option<Number>,
    pub flags: PortFlags,
}

#[derive(Debug, Clone, Copy, PartialEq, Eq, Structural)]
pub enum PortDirection {
    Input,
    Output,
}

#[derive(Debug, Clone, Copy, PartialEq, Eq, Structural)]
pub enum PortKind {
    Audio,
    Control,
}

#[derive(Debug, Clone, Copy)]
pub struct PortFlags {
    pub toggled: bool,
    pub integer: bool,
    pub logarithmic: bool,
    pub sample_rate: bool,
}

/// No flag set.
pub open spec fn no_flags() -> PortFlags {
    PortFlags { toggled: false, integer: false, logarithmic: false, sample_rate: false }
}

impl Default for PortFlags {
    fn default() -> (r: PortFlags)
        ensures
            r == no_flags(),
    {
        PortFlags { toggled: false, integer: false, logarithmic: false, sample_rate: false }
    }
}

/// What a port says, over character sequences.
#[verifier::ext_equal]
pub struct PortView {
    pub index: u32,
    pub name: Seq<char>,
    pub direction: PortDirection,
    pub kind: PortKind,
    pub min: Option<Seq<char>>,
    pub max: Option<Seq<char>>,
    pub default: Option<Seq<char>>,
    pub flags: PortFlags,
}

/// What a plugin says, over character sequences.
#[verifier::ext_equal]
pub struct PluginView {
    pub path: Seq<char>,
    pub label: Seq<char>,
    pub unique_id: u32,
    pub name: Seq<char>,
    pub maker: Option<Seq<char>>,
    pub ports: Seq<PortView>,
}

pub open spec fn ports_view(v: Seq<LadspaPort>) -> Seq<PortView> {
    Seq::new(v.len(), |i: int| v[i]@)
}

pub open spec fn plugins_view(v: Seq<LadspaPlugin>) -> Seq<PluginView> {
    Seq::new(v.len(), |i: int| v[i]@)
}

impl View for LadspaPort {
    type V = PortView;

    open spec fn view(&self) -> PortView {
        PortView {
            index: self.index,
            name: self.name@,
            direction: self.direction,
            kind: self.kind,
            min: number::opt_number(self.min),
            max: number::opt_number(self.max),
            default: number::opt_number(self.default),
            flags: self.flags,
        }
    }
}

impl View for LadspaPlugin {
    type V = PluginView;

    open spec fn view(&self) -> PluginView {
        PluginView {
            path: self.path@,
            label: self.label@,
            unique_id: self.unique_id,
            name: self.name@,
            maker: text::opt_text(self.maker),
            ports: ports_view(self.ports@),
        }
    }
}

/// The key of a plugin: `{path}::{label}`.
pub open spec fn key_of(path: Seq<char>, label: Seq<char>) -> Seq<char> {
    path + "::"@ + label
}

impl LadspaPlugin {
    /// Opaque key used in URLs and chain references.
    pub fn key(&self) -> (r: String)
        ensures
            r@ == key_of(self.path@, self.label@),
    {
        let mut r = self.path.clone();
        r.append("::");
        r.append(self.label.as_str());
        r
    }
}

// ── What the lines of `analyseplugin` mean ───────────────────────────────────

/// A text without the quotes around it.
pub open spec fn unquoted(s: Seq<char>) -> Seq<char> {
    let t = text::trim(s);
    if t.len() >= 2 && t[0] == '"' && t.last() == '"' {
        t.subrange(1, t.len() - 1)
    } else {
        t
    }
}

/// A word without the suffix `*srate`, and without stars at its end.
pub open spec fn unscaled(w: Seq<char>) -> Seq<char> {
    let t = if text::ends_with(w, "*srate"@) {
        w.take(w.len() - "*srate"@.len())
    } else {
        w
    };
    text::trim_right(t, Pad::One('*'))
}

/// The bound that a word writes. `...` is no bound; what follows the first word
/// is left out, and so is the suffix `*srate` of a bound that is a share of the
/// sample rate.
pub open spec fn bound(s: Seq<char>) -> Option<Seq<char>> {
    let t = text::trim(s);
    if text::starts_with(t, "..."@) || t.len() == 0 {
        None
    } else {
        match text::first_word(t) {
            Some(w) => number::number_of(unscaled(w)),
            None => None,
        }
    }
}

/// The trimmed pieces of `pieces` that are not empty.
pub open spec fn filled(pieces: Seq<Seq<char>>) -> Seq<Seq<char>>
    decreases pieces.len(),
{
    if pieces.len() == 0 {
        seq![]
    } else {
        let t = text::trim(pieces.last());
        if t.len() > 0 {
            filled(pieces.drop_last()).push(t)
        } else {
            filled(pieces.drop_last())
        }
    }
}

/// The port after one more hint: a default, a range, or a flag.
pub open spec fn with_hint(p: PortView, hint: Seq<char>) -> PortView {
    match text::strip_prefix(hint, "default "@) {
        Some(rest) => PortView { default: bound(text::trim(rest)), ..p },
        None => match text::split_once(hint, " to "@) {
            Some((a, b)) => PortView {
                min: bound(text::trim(a)),
                max: bound(text::trim(b)),
                ..p
            },
            None => if hint == "logarithmic"@ {
                PortView { flags: PortFlags { logarithmic: true, ..p.flags }, ..p }
            } else if hint == "integer"@ {
                PortView { flags: PortFlags { integer: true, ..p.flags }, ..p }
            } else if hint == "toggled"@ {
                PortView { flags: PortFlags { toggled: true, ..p.flags }, ..p }
            } else if text::find(hint, "sample rate"@) is Some || text::find(
                hint,
                "SAMPLE RATE"@,
            ) is Some {
                PortView { flags: PortFlags { sample_rate: true, ..p.flags }, ..p }
            } else {
                p
            },
        },
    }
}

/// The port after all the hints.
pub open spec fn with_hints(p: PortView, hints: Seq<Seq<char>>) -> PortView
    decreases hints.len(),
{
    if hints.len() == 0 {
        p
    } else {
        with_hint(with_hints(p, hints.drop_last()), hints.last())
    }
}

pub open spec fn direction_named(s: Seq<char>) -> Option<PortDirection> {
    if s == "input"@ {
        Some(PortDirection::Input)
    } else if s == "output"@ {
        Some(PortDirection::Output)
    } else {
        None
    }
}

pub open spec fn kind_named(s: Seq<char>) -> Option<PortKind> {
    if s == "audio"@ {
        Some(PortKind::Audio)
    } else if s == "control"@ {
        Some(PortKind::Control)
    } else {
        None
    }
}

/// A port of which no hint is known yet.
pub open spec fn plain_port(
    index: u32,
    name: Seq<char>,
    direction: PortDirection,
    kind: PortKind,
) -> PortView {
    PortView { index, name, direction, kind, min: None, max: None, default: None, flags: no_flags() }
}

/// The port that a line `"name" direction, kind, hints...` describes.
pub open spec fn port_described(line: Seq<char>, index: u32) -> Option<PortView> {
    if line.len() == 0 || line[0] != '"' {
        None
    } else {
        let rest = line.drop_first();
        match text::find_char(rest, '"') {
            None => None,
            Some(close) => {
                let tail = text::trim_left(rest.skip(close + 1), Pad::Either(' ', ','));
                let parts = filled(text::split(tail, ','));
                if parts.len() < 2 {
                    None
                } else {
                    match (direction_named(parts[0]), kind_named(parts[1])) {
                        (Some(direction), Some(kind)) => Some(
                            with_hints(
                                plain_port(index, rest.take(close), direction, kind),
                                parts.skip(2),
                            ),
                        ),
                        _ => None,
                    }
                }
            },
        }
    }
}

/// What has been read of one plugin's block.
#[verifier::ext_equal]
pub struct BlockView {
    pub name: Seq<char>,
    pub label: Seq<char>,
    pub unique_id: u32,
    pub maker: Option<Seq<char>>,
    pub ports: Seq<PortView>,
    pub in_ports: bool,
}

pub open spec fn block_start() -> BlockView {
    BlockView {
        name: Seq::empty(),
        label: Seq::empty(),
        unique_id: 0,
        maker: None,
        ports: Seq::empty(),
        in_ports: false,
    }
}

/// The block after a port line; a line that describes no port is skipped.
pub open spec fn after_port_line(st: BlockView, line: Seq<char>) -> BlockView {
    match port_described(line, st.ports.len() as u32) {
        Some(p) => BlockView { ports: st.ports.push(p), ..st },
        None => st,
    }
}

pub open spec fn id_named(s: Seq<char>) -> u32 {
    match number::parse_unsigned(s, u32::MAX as nat) {
        Some(n) => n as u32,
        None => 0,
    }
}

/// The block after one more line.
pub open spec fn after_line(st: BlockView, line: Seq<char>) -> BlockView {
    let t = text::trim(line);
    if t.len() == 0 {
        st
    } else if st.in_ports && t[0] == '"' {
        after_port_line(st, t)
    } else if text::starts_with(t, "Plugin Name:"@) {
        BlockView { name: unquoted(text::trim(t.skip("Plugin Name:"@.len() as int))), ..st }
    } else if text::starts_with(t, "Plugin Label:"@) {
        BlockView { label: unquoted(text::trim(t.skip("Plugin Label:"@.len() as int))), ..st }
    } else if text::starts_with(t, "Plugin Unique ID:"@) {
        BlockView { unique_id: id_named(text::trim(t.skip("Plugin Unique ID:"@.len() as int))), ..st }
    } else if text::starts_with(t, "Maker:"@) {
        let maker = unquoted(text::trim(t.skip("Maker:"@.len() as int)));
        if maker.len() > 0 && maker != "None"@ {
            BlockView { maker: Some(maker), ..st }
        } else {
            st
        }
    } else if text::starts_with(t, "Ports:"@) {
        let st = BlockView { in_ports: true, ..st };
        let first = text::trim(text::strip_prefixes(t, "Ports:"@));
        if first.len() > 0 && first[0] == '"' {
            after_port_line(st, first)
        } else {
            st
        }
    } else {
        st
    }
}

pub open spec fn after_lines(ls: Seq<Seq<char>>) -> BlockView
    decreases ls.len(),
{
    if ls.len() == 0 {
        block_start()
    } else {
        after_line(after_lines(ls.drop_last()), ls.last())
    }
}

/// The plugin of a block, where it has a label. Without a name it is called by
/// its label.
pub open spec fn block_plugin(ls: Seq<Seq<char>>, path: Seq<char>) -> Option<PluginView> {
    let st = after_lines(ls);
    if st.label.len() == 0 {
        None
    } else {
        Some(
            PluginView {
                path,
                label: st.label,
                unique_id: st.unique_id,
                name: if st.name.len() == 0 {
                    st.label
                } else {
                    st.name
                },
                maker: st.maker,
                ports: st.ports,
            },
        )
    }
}

/// The blocks of the output: each line that begins with `Plugin Name:` begins a
/// new one.
pub open spec fn blocks(ls: Seq<Seq<char>>) -> Seq<Seq<Seq<char>>>
    decreases ls.len(),
{
    if ls.len() == 0 {
        seq![]
    } else {
        let front = blocks(ls.drop_last());
        if front.len() == 0 || text::starts_with(ls.last(), "Plugin Name:"@) {
            front.push(seq![ls.last()])
        } else {
            front.drop_last().push(front.last().push(ls.last()))
        }
    }
}

/// The plugins of the blocks that describe one.
pub open spec fn block_plugins(bs: Seq<Seq<Seq<char>>>, path: Seq<char>) -> Seq<PluginView>
    decreases bs.len(),
{
    if bs.len() == 0 {
        seq![]
    } else {
        match block_plugin(bs.last(), path) {
            Some(p) => block_plugins(bs.drop_last(), path).push(p),
            None => block_plugins(bs.drop_last(), path),
        }
    }
}

proof fn lemma_hints_keep_index(p: PortView, hints: Seq<Seq<char>>)
    ensures
        with_hints(p, hints).index == p.index,
    decreases hints.len(),
{
    if hints.len() > 0 {
        lemma_hints_keep_index(p, hints.drop_last());
    }
}

proof fn lemma_port_index(line: Seq<char>, index: u32)
    ensures
        port_described(line, index) matches Some(p) ==> p.index == index,
{
    if line.len() > 0 && line[0] == '"' {
        let rest = line.drop_first();
        if let Some(close) = text::find_char(rest, '"') {
            let tail = text::trim_left(rest.skip(close + 1), Pad::Either(' ', ','));
            let parts = filled(text::split(tail, ','));
            if parts.len() >= 2 {
                if let (Some(direction), Some(kind)) = (
                    direction_named(parts[0]),
                    kind_named(parts[1]),
                ) {
                    lemma_hints_keep_index(
                        plain_port(index, rest.take(close), direction, kind),
                        parts.skip(2),
                    );
                }
            }
        }
    }
}

proof fn lemma_ports_numbered(ls: Seq<Seq<char>>)
    ensures
        forall|i: int|
            0 <= i < after_lines(ls).ports.len() ==> (#[trigger] after_lines(ls).ports[i]).index
                == i as u32,
    decreases ls.len(),
{
    if ls.len() > 0 {
        lemma_ports_numbered(ls.drop_last());
        let st = after_lines(ls.drop_last());
        let t = text::trim(ls.last());
        lemma_port_index(t, st.ports.len() as u32);
        lemma_port_index(
            text::trim(text::strip_prefixes(t, "Ports:"@)),
            st.ports.len() as u32,
        );
        let now = after_lines(ls);
        assert forall|i: int| 0 <= i < now.ports.len() implies (#[trigger] now.ports[i]).index
            == i as u32 by {
            if i < st.ports.len() {
                assert(now.ports[i] == st.ports[i]);
            }
        }
    }
}

/// A described plugin has the path of its file, a label and a name, and its ports
/// are numbered in the order in which they are declared.
pub proof fn described_plugins_are_complete(bs: Seq<Seq<Seq<char>>>, path: Seq<char>, k: int)
    requires
        0 <= k < block_plugins(bs, path).len(),
    ensures
        ({
            let p = block_plugins(bs, path)[k];
            &&& p.path == path
            &&& p.label.len() > 0
            &&& p.name.len() > 0
            &&& forall|i: int|
                0 <= i < p.ports.len() ==> (#[trigger] p.ports[i]).index == i as u32
        }),
    decreases bs.len(),
{
    if k < block_plugins(bs.drop_last(), path).len() {
        described_plugins_are_complete(bs.drop_last(), path, k);
    } else {
        lemma_ports_numbered(bs.last());
    }
}

/// No character of `w` is white space.
pub open spec fn is_unbroken(w: Seq<char>) -> bool {
    forall|i: int| 0 <= i < w.len() ==> !text::is_white(#[trigger] w[i])
}

/// What may follow a word: nothing, or white space and anything.
pub open spec fn is_note(note: Seq<char>) -> bool {
    note.len() > 0 ==> text::is_white(note[0])
}

proof fn lemma_word_end(s: Seq<char>, i: int, n: int)
    requires
        0 <= i <= n <= s.len(),
        forall|j: int| i <= j < n ==> !text::is_white(#[trigger] s[j]),
        n < s.len() ==> text::is_white(s[n]),
    ensures
        text::word_end(s, i) == n,
    decreases n - i,
{
    if i < n {
        lemma_word_end(s, i + 1, n);
    }
}

proof fn lemma_bound_of_word(w: Seq<char>, note: Seq<char>)
    requires
        w.len() > 0,
        is_unbroken(w),
        is_note(note),
    ensures
        bound(w + note) == (if text::starts_with(w, "..."@) {
            None
        } else {
            number::number_of(unscaled(w))
        }),
{
    reveal_strlit("...");
    let s = w + note;
    let n = w.len() as int;
    assert(s[0] == w[0]);
    assert(text::trim_left(s, Pad::White) == s);
    let t = text::trim(s);
    text::lemma_trim_right(s, Pad::White);
    assert(!Pad::White.has(s[n - 1])) by {
        assert(s[n - 1] == w[n - 1]);
    }
    assert(t.len() >= n);
    assert(t[0] == w[0]);
    assert(text::trim_left(t, Pad::White) == t);
    assert forall|j: int| 0 <= j < n implies !text::is_white(#[trigger] t[j]) by {
        assert(t[j] == w[j]);
    }
    if n < t.len() {
        assert(t[n] == note[0]);
    }
    lemma_word_end(t, 0, n);
    assert(t.take(n) =~= w);
    if text::starts_with(w, "..."@) {
        assert(t.take(3) =~= w.take(3));
    }
    if text::starts_with(t, "..."@) {
        let dots = t.take(3);
        assert(dots[0] == '.' && dots[1] == '.' && dots[2] == '.');
        if n < 3 {
            assert(t[n] == '.');
        }
        assert(w.take(3) =~= dots);
    }
}

/// A bound is the same with the suffix `*srate` and without it, and with or
/// without a note behind it.
pub proof fn scale_and_note_are_ignored(w: Seq<char>, note: Seq<char>)
    requires
        is_unbroken(w),
        is_note(note),
        !text::ends_with(w, "*srate"@),
    ensures
        bound(w + "*srate"@ + note) == bound(w),
        w.len() > 0 ==> bound(w + note) == bound(w),
{
    reveal_strlit("*srate");
    reveal_strlit("...");
    let suffix = "*srate"@;
    let ws = w + suffix;
    assert(is_unbroken(suffix));
    assert(is_unbroken(ws)) by {
        assert forall|i: int| 0 <= i < ws.len() implies !text::is_white(#[trigger] ws[i]) by {
            if i < w.len() {
                assert(ws[i] == w[i]);
            } else {
                assert(ws[i] == suffix[i - w.len()]);
            }
        }
    }
    lemma_bound_of_word(ws, note);
    assert(ws.skip(ws.len() - suffix.len()) =~= suffix);
    assert(ws.take(ws.len() - suffix.len()) =~= w);
    assert(unscaled(ws) == text::trim_right(w, Pad::One('*')));
    if text::starts_with(ws, "..."@) {
        let dots = ws.take(3);
        assert(dots[0] == '.' && dots[1] == '.' && dots[2] == '.');
        if w.len() < 3 {
            assert(ws[w.len() as int] == '*');
        }
        assert(w.take(3) =~= dots);
    }
    if w.len() > 0 {
        lemma_bound_of_word(w, note);
        lemma_bound_of_word(w, Seq::empty());
        assert(w + Seq::<char>::empty() =~= w);
        if text::starts_with(w, "..."@) {
            assert(ws.take(3) =~= w.take(3));
        }
    } else {
        assert(w =~= Seq::<char>::empty());
        assert(text::trim_right(w, Pad::One('*')) == w);
        assert(!number::is_float_text(w)) by {
            reveal_strlit("inf");
            reveal_strlit("infinity");
            reveal_strlit("nan");
            assert(number::unsigned_part(text::ascii_lower_all(w)).len() == 0);
            assert("inf"@.len() == 3 && "infinity"@.len() == 8 && "nan"@.len() == 3);
        }
        assert(text::trim(w) == w);
    }
}

// ── Reading ──────────────────────────────────────────────────────────────────

/// Takes the quotes off a text.
pub fn unquote(s: &[char]) -> (r: String)
    ensures
        r@ == unquoted(s@),
{
    let t = text::trimmed(s);
    let n: usize = t.len();
    if n >= 2 && t[0] == '"' && t[n - 1] == '"' {
        text::text_of(slice_subrange(t, 1, n - 1))
    } else {
        text::text_of(t)
    }
}

/// Reads a bound.
pub fn parse_num(s: &[char]) -> (r: Option<Number>)
    ensures
        number::opt_number(r) == bound(s@),
{
    let t = text::trimmed(s);
    if text::begins_with(t, "...") || t.len() == 0 {
        return None;
    }
    match text::leading_word(t) {
        Some(w) => {
            let n: usize = w.len();
            let t = if text::finishes_with(w, "*srate") {
                proof {
                    reveal_strlit("*srate");
                }
                let t = slice_subrange(w, 0, n - 6);
                assert(t@ =~= w@.take(n - 6));
                t
            } else {
                w
            };
            Number::read(text::trimmed_right(t, Pad::One('*')))
        },
        None => None,
    }
}

fn filled_pieces(s: &[char]) -> (r: Vec<Vec<char>>)
    ensures
        text::rows(r@) == filled(text::split(s@, ',')),
{
    let ps = text::pieces(s, ',');
    let ghost all = text::split(s@, ',');
    let mut r: Vec<Vec<char>> = Vec::new();
    assert(all.take(0) =~= seq![]);
    assert(text::rows(r@) =~= seq![]);
    for i in 0..ps.len()
        invariant
            text::rows(ps@) == all,
            text::rows(r@) == filled(all.take(i as int)),
    {
        let ghost t = all.take(i + 1);
        assert(t.drop_last() =~= all.take(i as int));
        assert(t.last() == ps@[i as int]@);
        let piece = text::trimmed(ps[i].as_slice());
        if piece.len() > 0 {
            let ghost before = text::rows(r@);
            r.push(text::copy_range(piece, 0, piece.len()));
            assert(piece@.subrange(0, piece@.len() as int) =~= piece@);
            assert(text::rows(r@) =~= before.push(piece@));
        }
    }
    assert(all.take(ps@.len() as int) =~= all);
    r
}

fn take_hint(p: &mut LadspaPort, hint: &[char])
    ensures
        final(p)@ == with_hint(old(p)@, hint@),
{
    let n: usize = hint.len();
    if let Some(rest) = text::without_prefix(hint, "default ") {
        p.default = parse_num(text::trimmed(rest));
    } else if let Some(i) = text::position(hint, " to ") {
        proof {
            reveal_strlit(" to ");
        }
        let a = slice_subrange(hint, 0, i);
        let b = slice_subrange(hint, i + 4, n);
        assert(a@ =~= hint@.take(i as int));
        assert(b@ =~= hint@.skip(i + 4));
        p.min = parse_num(text::trimmed(a));
        p.max = parse_num(text::trimmed(b));
    } else if text::spells(hint, "logarithmic") {
        p.flags.logarithmic = true;
    } else if text::spells(hint, "integer") {
        p.flags.integer = true;
    } else if text::spells(hint, "toggled") {
        p.flags.toggled = true;
    } else if text::has_text(hint, "sample rate") || text::has_text(hint, "SAMPLE RATE") {
        p.flags.sample_rate = true;
    }
}

fn read_direction(s: &[char]) -> (r: Option<PortDirection>)
    ensures
        r == direction_named(s@),
{
    if text::spells(s, "input") {
        Some(PortDirection::Input)
    } else if text::spells(s, "output") {
        Some(PortDirection::Output)
    } else {
        None
    }
}

fn read_kind(s: &[char]) -> (r: Option<PortKind>)
    ensures
        r == kind_named(s@),
{
    if text::spells(s, "audio") {
        Some(PortKind::Audio)
    } else if text::spells(s, "control") {
        Some(PortKind::Control)
    } else {
        None
    }
}

fn read_port(line: &[char], index: u32) -> (r: Option<LadspaPort>)
    ensures
        match r {
            Some(p) => port_described(line@, index) == Some(p@),
            None => port_described(line@, index) is None,
        },
{
    if line.len() == 0 || line[0] != '"' {
        return None;
    }
    let rest = slice_subrange(line, 1, line.len());
    assert(rest@ =~= line@.drop_first());
    let n: usize = rest.len();
    let close: usize = match text::position_char(rest, '"') {
        Some(i) => i,
        None => {
            return None;
        },
    };
    let name = slice_subrange(rest, 0, close);
    let after = slice_subrange(rest, close + 1, n);
    assert(name@ =~= rest@.take(close as int));
    assert(after@ =~= rest@.skip(close + 1));
    let parts = filled_pieces(text::trimmed_left(after, Pad::Either(' ', ',')));
    let ghost all = text::rows(parts@);
    if parts.len() < 2 {
        return None;
    }
    assert(all[0] == parts@[0]@ && all[1] == parts@[1]@);
    let direction = match read_direction(parts[0].as_slice()) {
        Some(d) => d,
        None => {
            return None;
        },
    };
    let kind = match read_kind(parts[1].as_slice()) {
        Some(k) => k,
        None => {
            return None;
        },
    };
    let mut p = LadspaPort {
        index,
        name: text::text_of(name),
        direction,
        kind,
        min: None,
        max: None,
        default: None,
        flags: PortFlags::default(),
    };
    let ghost start = plain_port(index, rest@.take(close as int), direction, kind);
    let ghost hints = all.skip(2);
    assert(p@ =~= start);
    assert(hints.take(0) =~= seq![]);
    for i in 2..parts.len()
        invariant
            all == text::rows(parts@),
            hints == all.skip(2),
            parts@.len() >= 2,
            p@ == with_hints(start, hints.take(i - 2)),
    {
        let ghost t = hints.take(i - 1);
        assert(t.drop_last() =~= hints.take(i - 2));
        assert(t.last() == parts@[i as int]@);
        take_hint(&mut p, parts[i].as_slice());
    }
    assert(hints.take(parts@.len() - 2) =~= hints);
    Some(p)
}

/// Parses one port line like
/// `"Gain" input, control, 0 to ..., default 1, logarithmic`.
pub fn parse_port_line(line: &str, index: u32) -> (r: Option<LadspaPort>)
    ensures
        match r {
            Some(p) => port_described(line@, index) == Some(p@),
            None => port_described(line@, index) is None,
        },
{
    read_port(text::chars_of(line).as_slice(), index)
}

struct Block {
    name: String,
    label: String,
    unique_id: u32,
    maker: Option<String>,
    ports: Vec<LadspaPort>,
    in_ports: bool,
}

impl View for Block {
    type V = BlockView;

    closed spec fn view(&self) -> BlockView {
        BlockView {
            name: self.name@,
            label: self.label@,
            unique_id: self.unique_id,
            maker: text::opt_text(self.maker),
            ports: ports_view(self.ports@),
            in_ports: self.in_ports,
        }
    }
}

impl Block {
    fn take_port(&mut self, line: &[char])
        ensures
            final(self)@ == after_port_line(old(self)@, line@),
    {
        let ghost before = self@;
        if let Some(p) = read_port(line, self.ports.len() as u32) {
            let ghost pv = p@;
            self.ports.push(p);
            assert(self@.ports =~= before.ports.push(pv));
        }
        assert(self@ =~= after_port_line(before, line@));
    }

    fn take_line(&mut self, line: &[char])
        ensures
            final(self)@ == after_line(old(self)@, line@),
    {
        let t = text::trimmed(line);
        if t.len() == 0 {
            return;
        }
        if self.in_ports && t[0] == '"' {
            self.take_port(t);
        } else if let Some(rest) = text::without_prefix(t, "Plugin Name:") {
            self.name = unquote(text::trimmed(rest));
        } else if let Some(rest) = text::without_prefix(t, "Plugin Label:") {
            self.label = unquote(text::trimmed(rest));
        } else if let Some(rest) = text::without_prefix(t, "Plugin Unique ID:") {
            self.unique_id = match number::read_u32(text::trimmed(rest)) {
                Some(n) => n,
                None => 0,
            };
        } else if let Some(rest) = text::without_prefix(t, "Maker:") {
            let maker = unquote(text::trimmed(rest));
            if !maker.as_str().is_empty() && !text::same_text(maker.as_str(), "None") {
                self.maker = Some(maker);
            }
        } else if text::begins_with(t, "Ports:") {
            self.in_ports = true;
            let first = text::trimmed(text::without_prefixes(t, "Ports:"));
            if first.len() > 0 && first[0] == '"' {
                self.take_port(first);
            }
        }
        assert(self@ =~= after_line(old(self)@, line@));
    }
}

/// Reads the lines from `from` up to `to` as one block.
fn parse_block(ls: &Vec<Vec<char>>, from: usize, to: usize, path: &str) -> (r: Option<LadspaPlugin>)
    requires
        from <= to <= ls@.len(),
    ensures
        match r {
            Some(p) => block_plugin(
                text::rows(ls@).subrange(from as int, to as int),
                path@,
            ) == Some(p@),
            None => block_plugin(
                text::rows(ls@).subrange(from as int, to as int),
                path@,
            ) is None,
        },
{
    let ghost all = text::rows(ls@).subrange(from as int, to as int);
    let mut st = Block {
        name: String::new(),
        label: String::new(),
        unique_id: 0,
        maker: None,
        ports: Vec::new(),
        in_ports: false,
    };
    assert(st@ =~= block_start());
    assert(all.take(0) =~= seq![]);
    for i in from..to
        invariant
            from <= to <= ls@.len(),
            all == text::rows(ls@).subrange(from as int, to as int),
            st@ == after_lines(all.take(i - from)),
    {
        let ghost t = all.take(i - from + 1);
        assert(t.drop_last() =~= all.take(i - from));
        assert(t.last() == ls@[i as int]@);
        st.take_line(ls[i].as_slice());
    }
    assert(all.take(to - from) =~= all);
    let Block { name, label, unique_id, maker, ports, in_ports: _ } = st;
    if label.as_str().is_empty() {
        return None;
    }
    let name = if name.as_str().is_empty() {
        label.clone()
    } else {
        name
    };
    Some(LadspaPlugin { path: path.to_owned(), label, unique_id, name, maker, ports })
}

fn push_block(
    plugins: &mut Vec<LadspaPlugin>,
    ls: &Vec<Vec<char>>,
    from: usize,
    to: usize,
    path: &str,
    bs: Ghost<Seq<Seq<Seq<char>>>>,
)
    requires
        from <= to <= ls@.len(),
        bs@.len() > 0,
        bs@.last() == text::rows(ls@).subrange(from as int, to as int),
        plugins_view(old(plugins)@) == block_plugins(bs@.drop_last(), path@),
    ensures
        plugins_view(final(plugins)@) == block_plugins(bs@, path@),
{
    let ghost before = plugins_view(plugins@);
    if let Some(p) = parse_block(ls, from, to, path) {
        let ghost pv = p@;
        plugins.push(p);
        assert(plugins_view(plugins@) =~= before.push(pv));
    }
}

/// Parses the textual output of `analyseplugin <path>`, which may describe many
/// plugins, all of them in the file `path`.
pub fn parse_analyseplugin(output: &str, path: &str) -> (r: Vec<LadspaPlugin>)
    ensures
        plugins_view(r@) == block_plugins(blocks(text::lines(output@)), path@),
{
    let chars = text::chars_of(output);
    let ls = text::lines_of(chars.as_slice());
    let ghost all = text::lines(output@);
    let mut plugins: Vec<LadspaPlugin> = Vec::new();
    let mut start: usize = 0;
    if ls.len() == 0 {
        assert(all =~= seq![]);
        assert(plugins_view(plugins@) =~= seq![]);
        return plugins;
    }
    proof {
        assert(plugins_view(plugins@) =~= seq![]);
        let one = all.take(1);
        assert(one.drop_last() =~= seq![]);
        assert(blocks(one.drop_last()) =~= seq![]);
        assert(one.last() == all[0]);
        assert(blocks(one) =~= seq![seq![all[0]]]);
        assert(blocks(one).drop_last() =~= seq![]);
        assert(blocks(one).last() =~= all.subrange(0, 1));
    }
    for i in 1..ls.len()
        invariant
            text::rows(ls@) == all,
            ls@.len() > 0,
            start < i,
            blocks(all.take(i as int)).len() > 0,
            blocks(all.take(i as int)).last() == all.subrange(start as int, i as int),
            plugins_view(plugins@) == block_plugins(blocks(all.take(i as int)).drop_last(), path@),
    {
        let ghost bs = blocks(all.take(i as int));
        let ghost t = all.take(i + 1);
        assert(t.drop_last() =~= all.take(i as int));
        assert(t.last() == ls@[i as int]@);
        if text::begins_with(ls[i].as_slice(), "Plugin Name:") {
            push_block(&mut plugins, &ls, start, i, path, Ghost(bs));
            start = i;
            proof {
                assert(blocks(t) =~= bs.push(seq![t.last()]));
                assert(blocks(t).drop_last() =~= bs);
                assert(seq![t.last()] =~= all.subrange(i as int, i + 1));
            }
        } else {
            proof {
                assert(blocks(t).drop_last() =~= bs.drop_last());
                assert(all.subrange(start as int, i as int).push(t.last()) =~= all.subrange(
                    start as int,
                    i + 1,
                ));
            }
        }
    }
    assert(all.take(ls@.len() as int) =~= all);
    push_block(&mut plugins, &ls, start, ls.len(), path, Ghost(blocks(all)));
    plugins
}

/// The plugins that a run of `analyseplugin` on the file `path` describes; none
/// where it failed.
pub fn plugins_from_run(success: bool, output: &str, path: &str) -> (r: Vec<LadspaPlugin>)
    ensures
        plugins_view(r@) == (if success {
            block_plugins(blocks(text::lines(output@)), path@)
        } else {
            Seq::empty()
        }),
{
    if success {
        parse_analyseplugin(output, path)
    } else {
        let r: Vec<LadspaPlugin> = Vec::new();
        assert(plugins_view(r@) =~= Seq::<PluginView>::empty());
        r
    }
}

/// Picks the first audio port of the given direction, in declaration order.
pub fn primary_audio_port(plugin: &LadspaPlugin, direction: PortDirection) -> (r: Option<
    &LadspaPort,
>)
    ensures
        match r {
            Some(p) => exists|k: int|
                0 <= k < plugin.ports@.len() && *p == #[trigger] plugin.ports@[k] && is_audio(
                    plugin.ports@[k],
                    direction,
                ) && forall|j: int|
                    0 <= j < k ==> !is_audio(#[trigger] plugin.ports@[j], direction),
            None => forall|j: int|
                0 <= j < plugin.ports@.len() ==> !is_audio(
                    #[trigger] plugin.ports@[j],
                    direction,
                ),
        },
{
    for i in 0..plugin.ports.len()
        invariant
            forall|j: int| 0 <= j < i ==> !is_audio(#[trigger] plugin.ports@[j], direction),
    {
        let p = &plugin.ports[i];
        if p.kind == PortKind::Audio && p.direction == direction {
            return Some(p);
        }
    }
    None
}

/// An audio port of the given direction.
pub open spec fn is_audio(p: LadspaPort, direction: PortDirection) -> bool {
    p.kind == PortKind::Audio && p.direction == direction
}

// ── Discovery ────────────────────────────────────────────────────────────────

/// A line of `listplugins` that names a file: an absolute path before a colon.
pub open spec fn names_file(line: Seq<char>) -> bool {
    line.len() > 0 && line[0] == '/' && line.last() == ':'
}

/// The files that the lines of `listplugins` name, each where it is named first.
pub open spec fn files_named(ls: Seq<Seq<char>>) -> Seq<Seq<char>>
    decreases ls.len(),
{
    if ls.len() == 0 {
        seq![]
    } else {
        let before = files_named(ls.drop_last());
        let t = text::trim_right(ls.last(), Pad::White);
        let file = text::trim_right(t, Pad::One(':'));
        if names_file(t) && !before.contains(file) {
            before.push(file)
        } else {
            before
        }
    }
}

/// No file is named twice, and every line that names a file has it named.
pub proof fn files_are_named_once(ls: Seq<Seq<char>>)
    ensures
        files_named(ls).no_duplicates(),
        forall|i: int|
            0 <= i < ls.len() && names_file(text::trim_right(#[trigger] ls[i], Pad::White))
                ==> files_named(ls).contains(
                text::trim_right(text::trim_right(ls[i], Pad::White), Pad::One(':')),
            ),
    decreases ls.len(),
{
    if ls.len() > 0 {
        let rest = ls.drop_last();
        files_are_named_once(rest);
        let before = files_named(rest);
        let all = files_named(ls);
        assert forall|x: Seq<char>| before.contains(x) implies all.contains(x) by {
            let i = before.index_of(x);
            assert(all[i] == x);
        }
        let file = text::trim_right(text::trim_right(ls.last(), Pad::White), Pad::One(':'));
        if names_file(text::trim_right(ls.last(), Pad::White)) && !before.contains(file) {
            assert(all.last() == file);
        }
        assert forall|i: int|
            0 <= i < ls.len() && names_file(
                text::trim_right(#[trigger] ls[i], Pad::White),
            ) implies all.contains(
            text::trim_right(text::trim_right(ls[i], Pad::White), Pad::One(':')),
        ) by {
            if i < rest.len() {
                assert(rest[i] == ls[i]);
            }
        }
    }
}

/// The `.so` files that `listplugins` prints, each once.
pub fn listed_files(output: &str) -> (r: Vec<String>)
    ensures
        text::texts(r@) == files_named(text::lines(output@)),
        text::texts(r@).no_duplicates(),
{
    let chars = text::chars_of(output);
    let ls = text::lines_of(chars.as_slice());
    let ghost all = text::lines(output@);
    let mut r: Vec<String> = Vec::new();
    assert(all.take(0) =~= seq![]);
    assert(text::texts(r@) =~= seq![]);
    for i in 0..ls.len()
        invariant
            text::rows(ls@) == all,
            text::texts(r@) == files_named(all.take(i as int)),
    {
        let ghost t = all.take(i + 1);
        assert(t.drop_last() =~= all.take(i as int));
        assert(t.last() == ls@[i as int]@);
        let line = text::trimmed_right(ls[i].as_slice(), Pad::White);
        let n: usize = line.len();
        if n > 0 && line[n - 1] == ':' && line[0] == '/' {
            let ghost before = text::texts(r@);
            let file = text::text_of(text::trimmed_right(line, Pad::One(':')));
            if !text::is_among(r.as_slice(), file.as_str()) {
                r.push(file);
                assert(text::texts(r@) =~= before.push(file@));
            }
        }
    }
    assert(all.take(ls@.len() as int) =~= all);
    proof {
        files_are_named_once(all);
    }
    r
}

impl Named for LadspaPlugin {
    open spec fn label(&self) -> Seq<char> {
        self.name@
    }

    fn label_text(&self) -> (r: &str) {
        self.name.as_str()
    }
}

/// The plugins of all the batches, in order.
pub open spec fn gathered(batches: Seq<Vec<LadspaPlugin>>) -> Seq<LadspaPlugin>
    decreases batches.len(),
{
    if batches.len() == 0 {
        seq![]
    } else {
        gathered(batches.drop_last()) + batches.last()@
    }
}

/// The catalog of what the scan of each file gave, sorted by name without
/// regard to case.
pub fn collect_plugins(batches: Vec<Vec<LadspaPlugin>>) -> (r: LadspaCatalog)
    ensures
        order::sorted_by_name(gathered(batches@), r.plugins@),
        forall|i: int|
            0 <= i < gathered(batches@).len() ==> order::ascii_is_lowered(
                #[trigger] gathered(batches@)[i].label(),
            ),
{
    let mut plugins: Vec<LadspaPlugin> = Vec::new();
    let ghost all = batches@;
    let mut rest = batches;
    assert(rest@ =~= all.skip(0));
    assert(all.take(0) =~= seq![]);
    while rest.len() > 0
        invariant
            rest@.len() <= all.len(),
            rest@ == all.skip(all.len() - rest@.len()),
            plugins@ == gathered(all.take(all.len() - rest@.len())),
        decreases rest@.len(),
    {
        let ghost done = all.len() - rest@.len();
        let ghost t = all.take(done + 1);
        let mut batch = rest.remove(0);
        assert(batch == all[done as int]);
        assert(rest@ =~= all.skip(done + 1));
        assert(t.drop_last() =~= all.take(done as int));
        assert(t.last() == batch);
        plugins.append(&mut batch);
    }
    assert(all.take(all.len() as int) =~= all);
    LadspaCatalog { plugins: order::sort_by_name(plugins) }
}

// ── Catalog ──────────────────────────────────────────────────────────────────

#[derive(Debug, Clone)]
pub struct LadspaCatalog {
    pub plugins: Vec<LadspaPlugin>,
}

/// The first plugin at or after `i` with the given path and label.
pub open spec fn plugin_at(
    plugins: Seq<LadspaPlugin>,
    path: Seq<char>,
    label: Seq<char>,
    i: int,
) -> Option<int>
    decreases plugins.len() - i,
{
    if i < 0 || i >= plugins.len() {
        None
    } else if plugins[i].path@ == path && plugins[i].label@ == label {
        Some(i)
    } else {
        plugin_at(plugins, path, label, i + 1)
    }
}

/// The first plugin that the key `{path}::{label}` names.
pub open spec fn plugin_keyed(plugins: Seq<LadspaPlugin>, key: Seq<char>) -> Option<int> {
    match text::split_once(key, "::"@) {
        Some((path, label)) => plugin_at(plugins, path, label, 0),
        None => None,
    }
}

/// Looking up by a key is looking up by its path and label, where the path holds
/// no `::` and does not end in `:`.
pub proof fn key_names_its_pair(plugins: Seq<LadspaPlugin>, path: Seq<char>, label: Seq<char>)
    requires
        text::find(path, "::"@) is None,
        path.len() > 0 ==> path.last() != ':',
    ensures
        plugin_keyed(plugins, key_of(path, label)) == plugin_at(plugins, path, label, 0),
{
    reveal_strlit("::");
    let colons = "::"@;
    let key = key_of(path, label);
    let n = path.len() as int;
    assert(key.subrange(n, n + 2) =~= colons);
    assert(text::occurs_at(key, colons, n));
    text::lemma_find_from(key, colons, 0);
    text::lemma_find_from(path, colons, 0);
    assert forall|j: int| 0 <= j < n implies !text::occurs_at(key, colons, j) by {
        if text::occurs_at(key, colons, j) {
            assert(key.subrange(j, j + 2)[0] == ':' && key.subrange(j, j + 2)[1] == ':');
            if j + 2 <= n {
                assert(path.subrange(j, j + 2) =~= key.subrange(j, j + 2));
                assert(text::occurs_at(path, colons, j));
            } else {
                assert(path[n - 1] == ':');
            }
        }
    }
    assert(text::find(key, colons) == Some(n));
    assert(key.take(n) =~= path);
    assert(key.skip(n + 2) =~= label);
}

impl LadspaCatalog {
    /// The file that caches the catalog below the given cache directory;
    /// `/tmp` where there is none.
    pub fn cache_path_in(cache_dir: Option<Vec<u8>>) -> (r: Vec<u8>)
        ensures
            r@ == paths::below(
                paths::dir_or(paths::opt_bytes(cache_dir), "/tmp"@),
                "pipewire-control"@,
                "ladspa-catalog.json"@,
            ),
    {
        paths::file_below(
            paths::or_dir(cache_dir, "/tmp"),
            "pipewire-control",
            "ladspa-catalog.json",
        )
    }

    /// The file that caches the catalog.
    pub fn cache_path() -> (r: Vec<u8>)
        ensures
            exists|dir: Option<Seq<u8>>|
                r@ == #[trigger] paths::below(
                    paths::dir_or(dir, "/tmp"@),
                    "pipewire-control"@,
                    "ladspa-catalog.json"@,
                ),
    {
        LadspaCatalog::cache_path_in(paths::cache_dir())
    }

    /// Whether what was loaded from the cache has to be replaced by a scan:
    /// nothing was loaded, or a catalog without plugins.
    pub fn needs_scan(loaded: &Option<LadspaCatalog>) -> (r: bool)
        ensures
            r == !(loaded matches Some(c) && c.plugins@.len() > 0),
    {
        match loaded {
            Some(c) => c.plugins.len() == 0,
            None => true,
        }
    }

    /// Looks up by the key `{path}::{label}`.
    pub fn find(&self, key: &str) -> (r: Option<&LadspaPlugin>)
        ensures
            match r {
                Some(p) => plugin_keyed(self.plugins@, key@) matches Some(k) && 0 <= k
                    < self.plugins@.len() && *p == self.plugins@[k],
                None => plugin_keyed(self.plugins@, key@) is None,
            },
    {
        let cs = text::chars_of(key);
        let n: usize = cs.len();
        match text::position(cs.as_slice(), "::") {
            Some(i) => {
                proof {
                    reveal_strlit("::");
                }
                let path = slice_subrange(cs.as_slice(), 0, i);
                let label = slice_subrange(cs.as_slice(), i + 2, n);
                assert(path@ =~= key@.take(i as int));
                assert(label@ =~= key@.skip(i + 2));
                self.find_pair(text::text_of(path).as_str(), text::text_of(label).as_str())
            },
            None => None,
        }
    }

    /// Looks up by path and label.
    pub fn find_pair(&self, path: &str, label: &str) -> (r: Option<&LadspaPlugin>)
        ensures
            match r {
                Some(p) => plugin_at(self.plugins@, path@, label@, 0) matches Some(k) && 0 <= k
                    < self.plugins@.len() && *p == self.plugins@[k],
                None => plugin_at(self.plugins@, path@, label@, 0) is None,
            },
    {
        for i in 0..self.plugins.len()
            invariant
                plugin_at(self.plugins@, path@, label@, 0) == plugin_at(
                    self.plugins@,
                    path@,
                    label@,
                    i as int,
                ),
        {
            let p = &self.plugins[i];
            if text::same_text(p.path.as_str(), path) && text::same_text(p.label.as_str(), label) {
                return Some(&self.plugins[i]);
            }
        }
        None
    }
}

// ── What a description says ──────────────────────────────────────────────────

/// The hint is a default.
pub open spec fn tells_default(hint: Seq<char>) -> bool {
    text::starts_with(hint, "default "@)
}

/// The hint is a range: ` to ` stands in it.
pub open spec fn tells_range(hint: Seq<char>) -> bool {
    !tells_default(hint) && exists|i: int| text::occurs_at(hint, " to "@, i)
}

/// The hint speaks of the sample rate.
pub open spec fn tells_rate(hint: Seq<char>) -> bool {
    &&& !tells_default(hint) && !tells_range(hint)
    &&& (exists|i: int| text::occurs_at(hint, "sample rate"@, i)) || exists|i: int|
        text::occurs_at(hint, "SAMPLE RATE"@, i)
}

proof fn lemma_flag_words()
    ensures
        "logarithmic"@ != "integer"@,
        "logarithmic"@ != "toggled"@,
        "integer"@ != "toggled"@,
        !tells_default("logarithmic"@) && !tells_range("logarithmic"@) && !tells_rate(
            "logarithmic"@,
        ),
        !tells_default("integer"@) && !tells_range("integer"@) && !tells_rate("integer"@),
        !tells_default("toggled"@) && !tells_range("toggled"@) && !tells_rate("toggled"@),
{
    reveal_strlit("logarithmic");
    reveal_strlit("integer");
    reveal_strlit("toggled");
    assert("logarithmic"@.len() == 11 && "integer"@.len() == 7 && "toggled"@.len() == 7);
    assert("integer"@[0] == 'i' && "toggled"@[0] == 't');
    lemma_no_gap("logarithmic"@);
    lemma_no_gap("integer"@);
    lemma_no_gap("toggled"@);
}

proof fn lemma_no_gap(w: Seq<char>)
    requires
        forall|i: int| 0 <= i < w.len() ==> w[i] != ' ',
    ensures
        !tells_default(w),
        !tells_range(w),
        !tells_rate(w),
{
    reveal_strlit("default ");
    reveal_strlit(" to ");
    reveal_strlit("sample rate");
    reveal_strlit("SAMPLE RATE");
    if tells_default(w) {
        assert(w.take(8)[7] == w[7]);
        assert("default "@[7] == ' ');
    }
    assert forall|i: int| !text::occurs_at(w, " to "@, i) by {
        if text::occurs_at(w, " to "@, i) {
            assert(w.subrange(i, i + 4)[0] == w[i]);
            assert(" to "@[0] == ' ');
        }
    }
    assert forall|i: int| !text::occurs_at(w, "sample rate"@, i) by {
        if text::occurs_at(w, "sample rate"@, i) {
            assert(w.subrange(i, i + 11)[6] == w[i + 6]);
            assert("sample rate"@[6] == ' ');
        }
    }
    assert forall|i: int| !text::occurs_at(w, "SAMPLE RATE"@, i) by {
        if text::occurs_at(w, "SAMPLE RATE"@, i) {
            assert(w.subrange(i, i + 11)[6] == w[i + 6]);
            assert("SAMPLE RATE"@[6] == ' ');
        }
    }
}

/// What one hint does.
proof fn lemma_one_hint(p: PortView, hint: Seq<char>)
    ensures
        ({
            let q = with_hint(p, hint);
            &&& q.index == p.index && q.name == p.name && q.direction == p.direction && q.kind
                == p.kind
            &&& q.default == (if tells_default(hint) {
                bound(text::trim(hint.skip(8)))
            } else {
                p.default
            })
            &&& !tells_range(hint) ==> q.min == p.min && q.max == p.max
            &&& tells_range(hint) ==> text::split_once(hint, " to "@) is Some && {
                let (a, b) = text::split_once(hint, " to "@)->0;
                q.min == bound(text::trim(a)) && q.max == bound(text::trim(b))
            }
            &&& q.flags.logarithmic == (p.flags.logarithmic || hint == "logarithmic"@)
            &&& q.flags.integer == (p.flags.integer || hint == "integer"@)
            &&& q.flags.toggled == (p.flags.toggled || hint == "toggled"@)
            &&& q.flags.sample_rate == (p.flags.sample_rate || tells_rate(hint))
        }),
{
    reveal_strlit("default ");
    lemma_flag_words();
    text::cut_at_the_first_mark(hint, " to "@);
    text::cut_at_the_first_mark(hint, "sample rate"@);
    text::cut_at_the_first_mark(hint, "SAMPLE RATE"@);
}

/// Of the hints of a port the last default is its default, and the last range gives
/// both its bounds; the hints change nothing of what the port is.
pub proof fn last_hints_count(p: PortView, hints: Seq<Seq<char>>, i: int)
    ensures
        ({
            let q = with_hints(p, hints);
            &&& q.index == p.index && q.name == p.name && q.direction == p.direction && q.kind
                == p.kind
            &&& 0 <= i < hints.len() && tells_default(hints[i]) && (forall|j: int|
                i < j < hints.len() ==> !tells_default(#[trigger] hints[j])) ==> q.default == bound(
                text::trim(hints[i].skip(8)),
            )
            &&& (forall|j: int| 0 <= j < hints.len() ==> !tells_default(#[trigger] hints[j]))
                ==> q.default == p.default
            &&& 0 <= i < hints.len() && tells_range(hints[i]) && (forall|j: int|
                i < j < hints.len() ==> !tells_range(#[trigger] hints[j])) ==> {
                let (a, b) = text::split_once(hints[i], " to "@)->0;
                q.min == bound(text::trim(a)) && q.max == bound(text::trim(b))
            }
            &&& (forall|j: int| 0 <= j < hints.len() ==> !tells_range(#[trigger] hints[j]))
                ==> q.min == p.min && q.max == p.max
        }),
    decreases hints.len(),
{
    if hints.len() > 0 {
        let front = hints.drop_last();
        let n = hints.len() - 1;
        last_hints_count(p, front, i);
        lemma_one_hint(with_hints(p, front), hints.last());
        assert(hints[n] == hints.last());
        assert forall|j: int| 0 <= j < front.len() implies front[j] == #[trigger] hints[j] by {}
    }
}

/// A flag of a port is set where one of its hints is the word for it, and only there;
/// that of the sample rate where a hint speaks of it.
pub proof fn flags_are_hinted(p: PortView, hints: Seq<Seq<char>>)
    requires
        p.flags == no_flags(),
    ensures
        ({
            let f = with_hints(p, hints).flags;
            &&& f.logarithmic == hints.contains("logarithmic"@)
            &&& f.integer == hints.contains("integer"@)
            &&& f.toggled == hints.contains("toggled"@)
            &&& f.sample_rate == (exists|i: int|
                0 <= i < hints.len() && tells_rate(#[trigger] hints[i]))
        }),
    decreases hints.len(),
{
    if hints.len() > 0 {
        let front = hints.drop_last();
        let n = hints.len() - 1;
        flags_are_hinted(p, front);
        lemma_one_hint(with_hints(p, front), hints.last());
        lemma_contains_last(hints, "logarithmic"@);
        lemma_contains_last(hints, "integer"@);
        lemma_contains_last(hints, "toggled"@);
        assert(hints[n] == hints.last());
        if exists|i: int| 0 <= i < front.len() && tells_rate(#[trigger] front[i]) {
            let i = choose|i: int| 0 <= i < front.len() && tells_rate(#[trigger] front[i]);
            assert(hints[i] == front[i]);
        }
        if exists|i: int| 0 <= i < hints.len() && tells_rate(#[trigger] hints[i]) {
            let i = choose|i: int| 0 <= i < hints.len() && tells_rate(#[trigger] hints[i]);
            if i < n {
                assert(front[i] == hints[i]);
            }
        }
    }
}

proof fn lemma_contains_last(hints: Seq<Seq<char>>, w: Seq<char>)
    requires
        hints.len() > 0,
    ensures
        hints.contains(w) == (hints.drop_last().contains(w) || hints.last() == w),
{
    let front = hints.drop_last();
    if hints.contains(w) {
        let i = hints.index_of(w);
        if i < front.len() {
            assert(front[i] == w);
        }
    }
    if front.contains(w) {
        let i = front.index_of(w);
        assert(hints[i] == w);
    }
    if hints.last() == w {
        assert(hints[hints.len() - 1] == w);
    }
}

/// A bound is the number that is written, up to white space and without the mark of
/// the sample rate; what is left open, or is no number, is no bound.
pub proof fn bounds_are_read(w: Seq<char>, note: Seq<char>)
    requires
        w.len() > 0,
        is_unbroken(w),
        is_note(note),
        w.last() != '*',
        !text::ends_with(w, "*srate"@),
    ensures
        number::is_float_text(w) && w[0] != '.' ==> bound(w + note) == Some(w),
        number::is_float_text(w) && w[0] != '.' ==> bound(w + "*srate"@ + note) == Some(w),
        !number::is_float_text(w) ==> bound(w + note) is None,
        text::starts_with(w, "..."@) ==> bound(w + note) is None,
{
    reveal_strlit("...");
    lemma_bound_of_word(w, note);
    scale_and_note_are_ignored(w, note);
    assert(text::trim_right(w, Pad::One('*')) == w);
    if text::starts_with(w, "..."@) {
        assert(w.take(3)[0] == w[0]);
    }
}

/// Stars behind a bound are no part of it.
pub proof fn stars_are_ignored(w: Seq<char>, stars: Seq<char>, note: Seq<char>)
    requires
        w.len() > 0,
        is_unbroken(w),
        is_note(note),
        number::is_float_text(w),
        w[0] != '.',
        w.last() != '*',
        stars.len() > 0,
        text::all_pad(stars, Pad::One('*')),
    ensures
        bound(w + stars + note) == Some(w),
{
    reveal_strlit("...");
    reveal_strlit("*srate");
    let ws = w + stars;
    assert forall|i: int| 0 <= i < ws.len() implies !text::is_white(#[trigger] ws[i]) by {
        if i < w.len() {
            assert(ws[i] == w[i]);
        } else {
            assert(ws[i] == stars[i - w.len()]);
            assert(Pad::One('*').has(stars[i - w.len()]));
        }
    }
    lemma_bound_of_word(ws, note);
    assert(ws[0] == w[0]);
    if text::starts_with(ws, "..."@) {
        assert(ws.take(3)[0] == ws[0]);
    }
    if text::ends_with(ws, "*srate"@) {
        assert(ws.skip(ws.len() - 6)[5] == ws.last());
        assert(Pad::One('*').has(stars[stars.len() - 1]));
        assert("*srate"@[5] == 'e');
    }
    lemma_stars_off(w, stars);
}

proof fn lemma_stars_off(w: Seq<char>, stars: Seq<char>)
    requires
        w.len() > 0,
        w.last() != '*',
        text::all_pad(stars, Pad::One('*')),
    ensures
        text::trim_right(w + stars, Pad::One('*')) == w,
    decreases stars.len(),
{
    if stars.len() == 0 {
        assert(w + stars =~= w);
    } else {
        let front = stars.drop_last();
        assert forall|i: int| 0 <= i < front.len() implies Pad::One('*').has(
            #[trigger] front[i],
        ) by {
            assert(front[i] == stars[i]);
        }
        lemma_stars_off(w, front);
        assert((w + stars).drop_last() =~= w + front);
        assert((w + stars).last() == stars[stars.len() - 1]);
        assert(Pad::One('*').has(stars[stars.len() - 1]));
    }
}

/// The pieces that are not blank are kept one by one, trimmed and in their order.
pub proof fn filled_pieces_are_kept(a: Seq<Seq<char>>, b: Seq<Seq<char>>, piece: Seq<char>)
    ensures
        filled(a + b) == filled(a) + filled(b),
        text::trim(piece).len() > 0 ==> filled(seq![piece]) == seq![text::trim(piece)],
        text::trim(piece).len() == 0 ==> filled(seq![piece]).len() == 0,
        filled(seq![]).len() == 0,
    decreases b.len(),
{
    let one = seq![piece];
    assert(one.drop_last() =~= Seq::<Seq<char>>::empty());
    assert(one.last() == piece);
    assert(filled(one.drop_last()) =~= Seq::<Seq<char>>::empty());
    assert(Seq::<Seq<char>>::empty().push(text::trim(piece)) =~= seq![text::trim(piece)]);
    if b.len() == 0 {
        assert(a + b =~= a);
        assert(filled(a) + filled(b) =~= filled(a));
    } else {
        filled_pieces_are_kept(a, b.drop_last(), piece);
        assert((a + b).drop_last() =~= a + b.drop_last());
        assert((a + b).last() == b.last());
        assert(filled(a + b) =~= filled(a) + filled(b));
    }
}

/// A port line has the name of the port in quotes; behind it, after spaces and commas,
/// stand, between commas, the direction, the kind and the hints. Only the words `input`
/// and `output`, and `audio` and `control`, are known.
pub proof fn port_lines_are_read(name: Seq<char>, gap: Seq<char>, tail: Seq<char>, index: u32)
    requires
        !name.contains('"'),
        text::all_pad(gap, Pad::Either(' ', ',')),
        tail.len() == 0 || tail[0] != ' ' && tail[0] != ',',
    ensures
        ({
            let parts = filled(text::split(tail, ','));
            let line = "\""@ + name + "\""@ + gap + tail;
            let r = port_described(line, index);
            &&& r is Some <==> parts.len() >= 2 && (parts[0] == "input"@ || parts[0] == "output"@)
                && (parts[1] == "audio"@ || parts[1] == "control"@)
            &&& r matches Some(p) ==> {
                let bare = PortView {
                    index,
                    name,
                    direction: p.direction,
                    kind: p.kind,
                    min: None,
                    max: None,
                    default: None,
                    flags: PortFlags {
                        toggled: false,
                        integer: false,
                        logarithmic: false,
                        sample_rate: false,
                    },
                };
                &&& p == with_hints(bare, parts.skip(2))
                &&& p.name == name && p.index == index
                &&& parts[0] == "input"@ <==> p.direction is Input
                &&& parts[0] == "output"@ <==> p.direction is Output
                &&& parts[1] == "audio"@ <==> p.kind is Audio
                &&& parts[1] == "control"@ <==> p.kind is Control
            }
        }),
{
    reveal_strlit("\"");
    reveal_strlit("input");
    reveal_strlit("output");
    reveal_strlit("audio");
    reveal_strlit("control");
    assert("input"@.len() == 5 && "output"@.len() == 6);
    assert("audio"@.len() == 5 && "control"@.len() == 7);
    let line = "\""@ + name + "\""@ + gap + tail;
    let rest = line.drop_first();
    let n = name.len() as int;
    assert(line[0] == '"');
    assert(rest =~= name + "\""@ + gap + tail);
    text::lemma_find_char_from(rest, '"', 0);
    assert(rest[n] == '"');
    assert forall|j: int| 0 <= j < n implies rest[j] != '"' by {
        assert(rest[j] == name[j]);
        assert(name.contains(name[j]));
    }
    assert(text::find_char(rest, '"') == Some(n));
    assert(rest.take(n) =~= name);
    assert(rest.skip(n + 1) =~= gap + tail);
    text::lemma_left_padding(gap, tail, Pad::Either(' ', ','));
    let parts = filled(text::split(tail, ','));
    if let Some(p) = port_described(line, index) {
        last_hints_count(
            plain_port(index, name, direction_named(parts[0])->0, kind_named(parts[1])->0),
            parts.skip(2),
            0,
        );
    }
}

/// The quotes around a text come off, and nothing else.
pub proof fn quotes_come_off(s: Seq<char>)
    ensures
        unquoted("\""@ + s + "\""@) == s,
        s.len() > 0 && !text::is_white(s[0]) && !text::is_white(s.last()) && (s[0] != '"'
            || s.last() != '"') ==> unquoted(s) == s,
{
    reveal_strlit("\"");
    let none = Seq::<char>::empty();
    let q = "\""@ + s + "\""@;
    assert(q[0] == '"' && q.last() == '"');
    text::trimming_takes_the_padding(none, q, none, Pad::White);
    assert(none + q + none =~= q);
    assert(q.subrange(1, q.len() - 1) =~= s);
    if s.len() > 0 && !text::is_white(s[0]) && !text::is_white(s.last()) {
        text::trimming_takes_the_padding(none, s, none, Pad::White);
        assert(none + s + none =~= s);
    }
}

/// An identifier that is written in decimal is read back; what is none is 0.
pub proof fn ids_are_read(n: u32, s: Seq<char>)
    ensures
        id_named(number::decimal(n as nat)) == n,
        number::parse_unsigned(s, u32::MAX as nat) is None ==> id_named(s) == 0,
{
    number::decimal_round_trip(n as nat, u32::MAX as nat);
}

/// The line at `i` begins with `mark`.
pub open spec fn marked(ls: Seq<Seq<char>>, mark: Seq<char>, i: int) -> bool {
    0 <= i < ls.len() && text::starts_with(text::trim(ls[i]), mark)
}

/// The line at `i` is the last that begins with `mark`.
pub open spec fn marked_last(ls: Seq<Seq<char>>, mark: Seq<char>, i: int) -> bool {
    marked(ls, mark, i) && forall|j: int| i < j ==> !#[trigger] marked(ls, mark, j)
}

/// No line begins with `mark`.
pub open spec fn unmarked(ls: Seq<Seq<char>>, mark: Seq<char>) -> bool {
    forall|j: int| !#[trigger] marked(ls, mark, j)
}

/// What stands behind the mark of the line at `i`.
pub open spec fn behind_mark(ls: Seq<Seq<char>>, mark: Seq<char>, i: int) -> Seq<char> {
    text::trim(text::trim(ls[i]).skip(mark.len() as int))
}

/// The line at `i` names a maker.
pub open spec fn names_maker(ls: Seq<Seq<char>>, i: int) -> bool {
    &&& marked(ls, "Maker:"@, i)
    &&& unquoted(behind_mark(ls, "Maker:"@, i)).len() > 0
    &&& unquoted(behind_mark(ls, "Maker:"@, i)) != "None"@
}

proof fn lemma_marks_differ(t: Seq<char>)
    ensures
        text::starts_with(t, "Plugin Name:"@) ==> t.len() > 0 && t[0] == 'P' && t[2] == 'u' && t[7]
            == 'N',
        text::starts_with(t, "Plugin Label:"@) ==> t.len() > 0 && t[0] == 'P' && t[2] == 'u' && t[7]
            == 'L',
        text::starts_with(t, "Plugin Unique ID:"@) ==> t.len() > 0 && t[0] == 'P' && t[2] == 'u'
            && t[7] == 'U',
        text::starts_with(t, "Maker:"@) ==> t.len() > 0 && t[0] == 'M',
        text::starts_with(t, "Ports:"@) ==> t.len() > 0 && t[0] == 'P' && t[2] == 'r',
{
    reveal_strlit("Plugin Name:");
    reveal_strlit("Plugin Label:");
    reveal_strlit("Plugin Unique ID:");
    reveal_strlit("Maker:");
    reveal_strlit("Ports:");
    if text::starts_with(t, "Plugin Name:"@) {
        let h = t.take(12);
        assert(h[0] == t[0] && h[2] == t[2] && h[7] == t[7]);
    }
    if text::starts_with(t, "Plugin Label:"@) {
        let h = t.take(13);
        assert(h[0] == t[0] && h[2] == t[2] && h[7] == t[7]);
    }
    if text::starts_with(t, "Plugin Unique ID:"@) {
        let h = t.take(17);
        assert(h[0] == t[0] && h[2] == t[2] && h[7] == t[7]);
    }
    if text::starts_with(t, "Maker:"@) {
        assert(t.take(6)[0] == t[0]);
    }
    if text::starts_with(t, "Ports:"@) {
        let h = t.take(6);
        assert(h[0] == t[0] && h[2] == t[2]);
    }
}

proof fn lemma_marked_before(ls: Seq<Seq<char>>, mark: Seq<char>, i: int)
    requires
        ls.len() > 0,
    ensures
        unmarked(ls, mark) ==> !marked(ls, mark, ls.len() - 1) && unmarked(ls.drop_last(), mark),
        marked_last(ls, mark, i) && i < ls.len() - 1 ==> !marked(ls, mark, ls.len() - 1)
            && marked_last(ls.drop_last(), mark, i) && behind_mark(ls.drop_last(), mark, i)
            == behind_mark(ls, mark, i),
        marked_last(ls, mark, i) ==> i <= ls.len() - 1,
{
    let front = ls.drop_last();
    assert forall|j: int| #[trigger] marked(front, mark, j) implies marked(ls, mark, j) by {
        assert(front[j] == ls[j]);
    }
    if marked_last(ls, mark, i) && i < ls.len() - 1 {
        assert(front[i] == ls[i]);
    }
}

/// What one more line of a block does.
proof fn lemma_one_line(st: BlockView, line: Seq<char>)
    ensures
        ({
            let t = text::trim(line);
            let r = after_line(st, line);
            &&& r.name == (if text::starts_with(t, "Plugin Name:"@) {
                unquoted(text::trim(t.skip("Plugin Name:"@.len() as int)))
            } else {
                st.name
            })
            &&& r.label == (if text::starts_with(t, "Plugin Label:"@) {
                unquoted(text::trim(t.skip("Plugin Label:"@.len() as int)))
            } else {
                st.label
            })
            &&& r.unique_id == (if text::starts_with(t, "Plugin Unique ID:"@) {
                id_named(text::trim(t.skip("Plugin Unique ID:"@.len() as int)))
            } else {
                st.unique_id
            })
            &&& r.maker == (if text::starts_with(t, "Maker:"@) && unquoted(
                text::trim(t.skip("Maker:"@.len() as int)),
            ).len() > 0 && unquoted(text::trim(t.skip("Maker:"@.len() as int))) != "None"@ {
                Some(unquoted(text::trim(t.skip("Maker:"@.len() as int))))
            } else {
                st.maker
            })
            &&& r.in_ports == (st.in_ports || text::starts_with(t, "Ports:"@))
        }),
{
    lemma_marks_differ(text::trim(line));
}

/// The block of a plugin gives its name, its label and its number in the last line
/// that is marked so, and its maker in the last line that names one.
pub proof fn block_texts_are_told(ls: Seq<Seq<char>>, i: int)
    ensures
        ({
            let st = after_lines(ls);
            &&& marked_last(ls, "Plugin Name:"@, i) ==> st.name == unquoted(
                behind_mark(ls, "Plugin Name:"@, i),
            )
            &&& unmarked(ls, "Plugin Name:"@) ==> st.name.len() == 0
            &&& marked_last(ls, "Plugin Label:"@, i) ==> st.label == unquoted(
                behind_mark(ls, "Plugin Label:"@, i),
            )
            &&& unmarked(ls, "Plugin Label:"@) ==> st.label.len() == 0
            &&& marked_last(ls, "Plugin Unique ID:"@, i) ==> st.unique_id == id_named(
                behind_mark(ls, "Plugin Unique ID:"@, i),
            )
            &&& unmarked(ls, "Plugin Unique ID:"@) ==> st.unique_id == 0
            &&& st.in_ports == !unmarked(ls, "Ports:"@)
        }),
    decreases ls.len(),
{
    if ls.len() > 0 {
        let front = ls.drop_last();
        let n = ls.len() - 1;
        block_texts_are_told(front, i);
        lemma_one_line(after_lines(front), ls.last());
        lemma_marked_before(ls, "Plugin Name:"@, i);
        lemma_marked_before(ls, "Plugin Label:"@, i);
        lemma_marked_before(ls, "Plugin Unique ID:"@, i);
        lemma_marked_before(ls, "Ports:"@, i);
        assert(ls[n] == ls.last());
        if !unmarked(front, "Ports:"@) {
            let j = choose|j: int| #[trigger] marked(front, "Ports:"@, j);
            assert(front[j] == ls[j]);
            assert(marked(ls, "Ports:"@, j));
        }
        if !unmarked(ls, "Ports:"@) && unmarked(front, "Ports:"@) {
            let j = choose|j: int| #[trigger] marked(ls, "Ports:"@, j);
            if j < n {
                assert(front[j] == ls[j]);
                assert(marked(front, "Ports:"@, j));
            }
        }
    }
}

/// The maker of a plugin is what the last line that names one says.
pub proof fn block_maker_is_told(ls: Seq<Seq<char>>, i: int)
    ensures
        names_maker(ls, i) && (forall|j: int| i < j ==> !#[trigger] names_maker(ls, j))
            ==> after_lines(ls).maker == Some(unquoted(behind_mark(ls, "Maker:"@, i))),
        (forall|j: int| !#[trigger] names_maker(ls, j)) ==> after_lines(ls).maker is None,
    decreases ls.len(),
{
    if ls.len() > 0 {
        let front = ls.drop_last();
        let n = ls.len() - 1;
        block_maker_is_told(front, i);
        lemma_one_line(after_lines(front), ls.last());
        assert(ls[n] == ls.last());
        assert forall|j: int| #[trigger] names_maker(front, j) implies names_maker(ls, j) by {
            assert(front[j] == ls[j]);
        }
        if 0 <= i < n {
            assert(front[i] == ls[i]);
        }
        assert(names_maker(ls, n) == (text::starts_with(text::trim(ls.last()), "Maker:"@)
            && unquoted(behind_mark(ls, "Maker:"@, n)).len() > 0 && unquoted(
            behind_mark(ls, "Maker:"@, n),
        ) != "None"@));
    }
}

/// One more line is one more port where it describes one and the ports have begun:
/// with `Ports:` in this line or in one before. The port is numbered by those before
/// it. Any other line keeps the ports.
pub proof fn block_ports_are_told(ls: Seq<Seq<char>>, line: Seq<char>)
    ensures
        after_lines(seq![]).ports.len() == 0,
        ({
            let ports = after_lines(ls).ports;
            let now = after_lines(ls.push(line)).ports;
            let t = text::trim(line);
            let quoted = t.len() > 0 && t[0] == '"';
            let rest = text::trim(text::strip_prefixes(t, "Ports:"@));
            let described = if quoted && !unmarked(ls, "Ports:"@) {
                port_described(t, ports.len() as u32)
            } else if text::starts_with(t, "Ports:"@) && rest.len() > 0 && rest[0] == '"' {
                port_described(rest, ports.len() as u32)
            } else {
                None
            };
            match described {
                Some(p) => now == ports.push(p),
                None => now == ports,
            }
        }),
{
    let all = ls.push(line);
    assert(all.drop_last() =~= ls);
    assert(all.last() == line);
    block_texts_are_told(ls, 0);
    lemma_marks_differ(text::trim(line));
}

/// A block describes a plugin where it has a label; the plugin has what the block
/// tells, and is called by its label where there is no name.
pub proof fn block_is_one_plugin(ls: Seq<Seq<char>>, path: Seq<char>)
    ensures
        block_plugin(ls, path) is None <==> after_lines(ls).label.len() == 0,
        block_plugin(ls, path) matches Some(p) ==> {
            let st = after_lines(ls);
            &&& p.path == path && p.label == st.label && p.unique_id == st.unique_id
            &&& p.maker == st.maker && p.ports == st.ports
            &&& st.name.len() > 0 ==> p.name == st.name
            &&& st.name.len() == 0 ==> p.name == st.label
        },
{
}

/// The lines of the blocks, one after the other.
pub open spec fn all_lines(bs: Seq<Seq<Seq<char>>>) -> Seq<Seq<char>>
    decreases bs.len(),
{
    if bs.len() == 0 {
        seq![]
    } else {
        all_lines(bs.drop_last()) + bs.last()
    }
}

/// The blocks are the lines of the output, all of them and in their order; a block
/// begins with a line `Plugin Name:`, but for the first, and holds no other.
pub proof fn blocks_are_the_lines(ls: Seq<Seq<char>>)
    ensures
        all_lines(blocks(ls)) == ls,
        forall|b: int| 0 <= b < blocks(ls).len() ==> (#[trigger] blocks(ls)[b]).len() > 0,
        forall|b: int|
            0 < b < blocks(ls).len() ==> text::starts_with(
                (#[trigger] blocks(ls)[b])[0],
                "Plugin Name:"@,
            ),
        forall|b: int, i: int|
            0 <= b < blocks(ls).len() && 0 < i < blocks(ls)[b].len() ==> !text::starts_with(
                #[trigger] blocks(ls)[b][i],
                "Plugin Name:"@,
            ),
    decreases ls.len(),
{
    let bs = blocks(ls);
    if ls.len() > 0 {
        let front = blocks(ls.drop_last());
        blocks_are_the_lines(ls.drop_last());
        if front.len() == 0 || text::starts_with(ls.last(), "Plugin Name:"@) {
            assert(bs.drop_last() =~= front);
            assert(bs.last() == seq![ls.last()]);
            assert(all_lines(bs) =~= ls.drop_last().push(ls.last()));
            assert(all_lines(bs) =~= ls);
        } else {
            let grown = front.last().push(ls.last());
            assert(bs.drop_last() =~= front.drop_last());
            assert(bs.last() == grown);
            assert(all_lines(front) == all_lines(front.drop_last()) + front.last());
            assert(all_lines(bs) =~= ls.drop_last().push(ls.last()));
            assert(all_lines(bs) =~= ls);
            assert forall|b: int| 0 < b < bs.len() implies text::starts_with(
                (#[trigger] bs[b])[0],
                "Plugin Name:"@,
            ) by {
                assert(front[b].len() > 0);
                assert(bs[b][0] == front[b][0]);
            }
            assert forall|b: int, i: int|
                0 <= b < bs.len() && 0 < i < bs[b].len() implies !text::starts_with(
                #[trigger] bs[b][i],
                "Plugin Name:"@,
            ) by {
                if b < bs.len() - 1 || i < front[b].len() {
                    assert(bs[b][i] == front[b][i]);
                }
            }
        }
    }
}

/// The plugins of a file are those of its blocks, one by one and in their order.
pub proof fn block_plugins_are_kept(
    a: Seq<Seq<Seq<char>>>,
    b: Seq<Seq<Seq<char>>>,
    block: Seq<Seq<char>>,
    path: Seq<char>,
)
    ensures
        block_plugins(a + b, path) == block_plugins(a, path) + block_plugins(b, path),
        match block_plugin(block, path) {
            Some(p) => block_plugins(seq![block], path) == seq![p],
            None => block_plugins(seq![block], path).len() == 0,
        },
        block_plugins(seq![], path).len() == 0,
    decreases b.len(),
{
    let one = seq![block];
    assert(one.drop_last() =~= Seq::<Seq<Seq<char>>>::empty());
    assert(one.last() == block);
    assert(block_plugins(one.drop_last(), path) =~= Seq::<PluginView>::empty());
    if let Some(p) = block_plugin(block, path) {
        assert(Seq::<PluginView>::empty().push(p) =~= seq![p]);
    }
    if b.len() == 0 {
        assert(a + b =~= a);
        assert(block_plugins(a, path) + block_plugins(b, path) =~= block_plugins(a, path));
    } else {
        block_plugins_are_kept(a, b.drop_last(), block, path);
        assert((a + b).drop_last() =~= a + b.drop_last());
        assert((a + b).last() == b.last());
        assert(block_plugins(a + b, path) =~= block_plugins(a, path) + block_plugins(b, path));
    }
}

/// A line names the file whose path stands before its colon; every file that is
/// listed is named by a line; and further lines only add files behind the others.
pub proof fn files_come_from_lines(
    ls: Seq<Seq<char>>,
    line: Seq<char>,
    path: Seq<char>,
    end: Seq<char>,
)
    requires
        path.len() > 0,
        path[0] == '/',
        path.last() != ':',
        text::all_pad(end, Pad::White),
    ensures
        files_named(ls.push(path.push(':') + end)).contains(path),
        files_named(ls.push(path.push(':') + end)) == (if files_named(ls).contains(path) {
            files_named(ls)
        } else {
            files_named(ls).push(path)
        }),
        line.len() == 0 || line[0] != '/' ==> files_named(ls.push(line)) == files_named(ls),
        !line.contains(':') ==> files_named(ls.push(line)) == files_named(ls),
        files_named(seq![]).len() == 0,
{
    let named = path.push(':');
    let all = ls.push(named + end);
    assert(all.drop_last() =~= ls);
    assert(all.last() == named + end);
    text::trimming_takes_the_padding(seq![], named, end, Pad::White);
    assert(named[0] == path[0] && named.last() == ':');
    assert(text::trim_right(named, Pad::One(':')) == path) by {
        assert(named.drop_last() =~= path);
        assert(text::trim_right(path, Pad::One(':')) == path);
    }
    if !files_named(ls).contains(path) {
        assert(files_named(all).last() == path);
    }
    let more = ls.push(line);
    assert(more.drop_last() =~= ls);
    text::lemma_trim_right(line, Pad::White);
    let t = text::trim_right(line, Pad::White);
    if t.len() > 0 {
        assert(t[0] == line[0]);
        assert(t.last() == line[t.len() - 1]);
        assert(line.contains(line[t.len() - 1]));
    }
}

/// The plugins of several files are those of each file, one file after the other.
pub proof fn batches_are_gathered(
    a: Seq<Vec<LadspaPlugin>>,
    b: Seq<Vec<LadspaPlugin>>,
    one: Vec<LadspaPlugin>,
)
    ensures
        gathered(a + b) == gathered(a) + gathered(b),
        gathered(seq![one]) == one@,
        gathered(seq![]).len() == 0,
    decreases b.len(),
{
    let single = seq![one];
    assert(single.drop_last() =~= Seq::<Vec<LadspaPlugin>>::empty());
    assert(gathered(single.drop_last()) =~= Seq::<LadspaPlugin>::empty());
    assert(Seq::<LadspaPlugin>::empty() + one@ =~= one@);
    if b.len() == 0 {
        assert(a + b =~= a);
        assert(gathered(a) + gathered(b) =~= gathered(a));
    } else {
        batches_are_gathered(a, b.drop_last(), one);
        assert((a + b).drop_last() =~= a + b.drop_last());
        assert((a + b).last() == b.last());
        assert(gathered(a + b) =~= gathered(a) + gathered(b));
    }
}

/// A plugin is looked up by its file and its label: the first that has both is found,
/// and none only where none has.
pub proof fn lookup_finds_the_first(
    plugins: Seq<LadspaPlugin>,
    path: Seq<char>,
    label: Seq<char>,
    i: int,
)
    requires
        0 <= i,
    ensures
        match plugin_at(plugins, path, label, i) {
            Some(k) => i <= k < plugins.len() && plugins[k].path@ == path && plugins[k].label@
                == label && (forall|j: int|
                i <= j < k ==> (#[trigger] plugins[j]).path@ != path || plugins[j].label@ != label),
            None => forall|j: int|
                i <= j < plugins.len() ==> (#[trigger] plugins[j]).path@ != path
                    || plugins[j].label@ != label,
        },
    decreases plugins.len() - i,
{
    if i < plugins.len() {
        lookup_finds_the_first(plugins, path, label, i + 1);
    }
}

/// The key of a plugin is its path, two colons and its label; a key without two
/// colons names none.
pub proof fn keys_hold_two_colons(
    plugins: Seq<LadspaPlugin>,
    path: Seq<char>,
    label: Seq<char>,
    key: Seq<char>,
)
    ensures
        key_of(path, label) == path.push(':').push(':') + label,
        !key.contains(':') ==> plugin_keyed(plugins, key) is None,
{
    reveal_strlit("::");
    assert(key_of(path, label) =~= path.push(':').push(':') + label);
    text::cut_at_the_first_mark(key, "::"@);
    if let Some(i) = text::find(key, "::"@) {
        assert(key.subrange(i, i + 2)[0] == key[i]);
        assert(key.contains(key[i]));
    }
}

/// A port and a plugin say what their fields hold, each for itself.
pub proof fn ports_say_their_fields(p: LadspaPort, plugin: LadspaPlugin, i: int)
    ensures
        p@.index == p.index && p@.name == p.name@ && p@.direction == p.direction,
        p@.kind == p.kind && p@.flags == p.flags,
        p.min matches Some(n) ==> p@.min == Some(n@),
        p.max matches Some(n) ==> p@.max == Some(n@),
        p.default matches Some(n) ==> p@.default == Some(n@),
        p.min is None <==> p@.min is None,
        p.max is None <==> p@.max is None,
        p.default is None <==> p@.default is None,
        plugin@.path == plugin.path@ && plugin@.label == plugin.label@ && plugin@.name
            == plugin.name@,
        plugin@.unique_id == plugin.unique_id,
        plugin.maker matches Some(s) ==> plugin@.maker == Some(s@),
        plugin@.ports.len() == plugin.ports@.len(),
        0 <= i < plugin.ports@.len() ==> plugin@.ports[i] == plugin.ports@[i]@,
{
}

/// What does not begin with a quote, or has no second one, is no port line.
pub proof fn port_lines_have_two_quotes(line: Seq<char>, index: u32)
    ensures
        line.len() == 0 || line[0] != '"' ==> port_described(line, index) is None,
        line.len() > 0 && !line.drop_first().contains('"') ==> port_described(line, index) is None,
{
    if line.len() > 0 {
        let rest = line.drop_first();
        text::lemma_find_char_from(rest, '"', 0);
        if let Some(k) = text::find_char(rest, '"') {
            assert(rest.contains(rest[k]));
        }
    }
}

/// An audio port of a direction is one of both.
pub proof fn audio_ports_have_their_direction(p: LadspaPort, direction: PortDirection)
    ensures
        is_audio(p, direction) <==> p.kind is Audio && p.direction == direction,
        is_audio(p, PortDirection::Input) ==> !is_audio(p, PortDirection::Output),
{
}

} // verus!
