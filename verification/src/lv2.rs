//! LV2 plugin catalog.
//!
//! Reads the textual output of `lv2ls` and `lv2info` into a structured form
//! from which a user interface can build its controls.

use vstd::prelude::*;
use vstd::slice::slice_subrange;
use crate::number;
use crate::number::Number;
use crate::order;
use crate::order::Named;
use crate::paths;
use crate::text;
use crate::text::Pad;

verus! {

// ── Plugins and ports ────────────────────────────────────────────────────────

#[derive(Debug, Clone)]
pub struct Lv2Plugin {
    pub uri: String,
    pub name: String,
    pub class: String,
    pub author: Option<String>,
    pub has_native_ui: bool,
    pub ports: Vec<Lv2Port>,
}

#[derive(Debug, Clone)]
pub struct Lv2Port {
    pub index: u32,
    pub symbol: String,
    pub name: String,
    pub direction: PortDirection,
    pub kind: PortKind,
    pub designation: Option<String>,
    pub group: Option<String>,
    pub min: Option<Number>,
    pub max: Option<Number>,
    pub default: Option<Number>,
    /// (value, label) pairs for enumeration ports.
    pub scale_points: Vec<(Number, String)>,
    pub flags: PortFlags,
}

#[derive(Debug, Clone, Copy, PartialEq, Eq, Structural)]
pub enum PortDirection {
    Input,
    Output,
}

#[derive(Debug, Clone, Copy, PartialEq, Eq, Structural)]
pub enum PortKind {
    Audio,
    Control,
    Atom,
    Cv,
    Other,
}

#[derive(Debug, Clone, Copy)]
pub struct PortFlags {
    pub toggled: bool,
    pub integer: bool,
    pub logarithmic: bool,
    pub enumeration: bool,
    pub strict_bounds: bool,
    pub side_chain: bool,
    pub optional: bool,
    pub hidden: bool,
    pub reports_latency: bool,
}

/// No flag set.
pub open spec fn no_flags() -> PortFlags {
    PortFlags {
        toggled: false,
        integer: false,
        logarithmic: false,
        enumeration: false,
        strict_bounds: false,
        side_chain: false,
        optional: false,
        hidden: false,
        reports_latency: false,
    }
}

impl Default for PortFlags {
    fn default() -> (r: PortFlags)
        ensures
            r == no_flags(),
    {
        PortFlags {
            toggled: false,
            integer: false,
            logarithmic: false,
            enumeration: false,
            strict_bounds: false,
            side_chain: false,
            optional: false,
            hidden: false,
            reports_latency: false,
        }
    }
}

/// What a port says, over character sequences.
#[verifier::ext_equal]
pub struct PortView {
    pub index: u32,
    pub symbol: Seq<char>,
    pub name: Seq<char>,
    pub direction: PortDirection,
    pub kind: PortKind,
    pub designation: Option<Seq<char>>,
    pub group: Option<Seq<char>>,
    pub min: Option<Seq<char>>,
    pub max: Option<Seq<char>>,
    pub default: Option<Seq<char>>,
    pub scale_points: Seq<(Seq<char>, Seq<char>)>,
    pub flags: PortFlags,
}

/// What a plugin says, over character sequences.
#[verifier::ext_equal]
pub struct PluginView {
    pub uri: Seq<char>,
    pub name: Seq<char>,
    pub class: Seq<char>,
    pub author: Option<Seq<char>>,
    pub has_native_ui: bool,
    pub ports: Seq<PortView>,
}

pub open spec fn points_view(v: Seq<(Number, String)>) -> Seq<(Seq<char>, Seq<char>)> {
    Seq::new(v.len(), |i: int| (v[i].0@, v[i].1@))
}

pub open spec fn ports_view(v: Seq<Lv2Port>) -> Seq<PortView> {
    Seq::new(v.len(), |i: int| v[i]@)
}

impl View for Lv2Port {
    type V = PortView;

    open spec fn view(&self) -> PortView {
        PortView {
            index: self.index,
            symbol: self.symbol@,
            name: self.name@,
            direction: self.direction,
            kind: self.kind,
            designation: text::opt_text(self.designation),
            group: text::opt_text(self.group),
            min: number::opt_number(self.min),
            max: number::opt_number(self.max),
            default: number::opt_number(self.default),
            scale_points: points_view(self.scale_points@),
            flags: self.flags,
        }
    }
}

impl View for Lv2Plugin {
    type V = PluginView;

    open spec fn view(&self) -> PluginView {
        PluginView {
            uri: self.uri@,
            name: self.name@,
            class: self.class@,
            author: text::opt_text(self.author),
            has_native_ui: self.has_native_ui,
            ports: ports_view(self.ports@),
        }
    }
}

// ── What the lines of `lv2info` mean ─────────────────────────────────────────

/// A line that names a native user interface of the plugin.
pub open spec fn mentions_native_ui(line: Seq<char>) -> bool {
    ||| text::starts_with(line, "http://lv2plug.in/ns/extensions/ui#"@)
    ||| text::find(line, "ui#X11UI"@) is Some
    ||| text::find(line, "ui#GtkUI"@) is Some
    ||| text::find(line, "ui#Qt5UI"@) is Some
}

/// The key and the value of a line `Key: value` or `Key:`. A key is not empty
/// and holds neither `/` nor `#`, which sets it apart from a URI.
pub open spec fn key_value(line: Seq<char>) -> Option<(Seq<char>, Seq<char>)> {
    let t = text::trim_left(line, Pad::White);
    let kv = match text::find(t, ": "@) {
        Some(i) => Some((text::trim(t.take(i)), text::trim(t.skip(i + 2)))),
        None => if t.len() > 0 && t.last() == ':' {
            Some((text::trim(t.drop_last()), Seq::<char>::empty()))
        } else {
            None
        },
    };
    match kv {
        Some((key, value)) => if key.len() == 0 || key.contains('/') || key.contains('#') {
            None
        } else {
            Some((key, value))
        },
        None => None,
    }
}

/// The port after a type URI.
pub open spec fn with_type(p: PortView, uri: Seq<char>) -> PortView {
    if uri == "http://lv2plug.in/ns/lv2core#AudioPort"@ {
        PortView { kind: PortKind::Audio, ..p }
    } else if uri == "http://lv2plug.in/ns/lv2core#ControlPort"@ {
        PortView { kind: PortKind::Control, ..p }
    } else if uri == "http://lv2plug.in/ns/lv2core#CVPort"@ {
        PortView { kind: PortKind::Cv, ..p }
    } else if uri == "http://lv2plug.in/ns/ext/atom#AtomPort"@ {
        PortView { kind: PortKind::Atom, ..p }
    } else if uri == "http://lv2plug.in/ns/lv2core#InputPort"@ {
        PortView { direction: PortDirection::Input, ..p }
    } else if uri == "http://lv2plug.in/ns/lv2core#OutputPort"@ {
        PortView { direction: PortDirection::Output, ..p }
    } else {
        p
    }
}

/// The flags after a property URI.
pub open spec fn with_property(f: PortFlags, uri: Seq<char>) -> PortFlags {
    if uri == "http://lv2plug.in/ns/lv2core#toggled"@ {
        PortFlags { toggled: true, ..f }
    } else if uri == "http://lv2plug.in/ns/lv2core#integer"@ {
        PortFlags { integer: true, ..f }
    } else if uri == "http://lv2plug.in/ns/lv2core#enumeration"@ {
        PortFlags { enumeration: true, ..f }
    } else if uri == "http://lv2plug.in/ns/lv2core#isSideChain"@ {
        PortFlags { side_chain: true, ..f }
    } else if uri == "http://lv2plug.in/ns/lv2core#connectionOptional"@ {
        PortFlags { optional: true, ..f }
    } else if uri == "http://lv2plug.in/ns/lv2core#reportsLatency"@ {
        PortFlags { reports_latency: true, ..f }
    } else if uri == "http://lv2plug.in/ns/ext/port-props#logarithmic"@ {
        PortFlags { logarithmic: true, ..f }
    } else if uri == "http://lv2plug.in/ns/ext/port-props#hasStrictBounds"@ {
        PortFlags { strict_bounds: true, ..f }
    } else if uri == "http://lv2plug.in/ns/ext/port-props#notOnGUI"@ {
        PortFlags { hidden: true, ..f }
    } else {
        f
    }
}

/// The value and the label of a line `<number> = "<label>"`.
pub open spec fn scale_point(line: Seq<char>) -> Option<(Seq<char>, Seq<char>)> {
    match text::find_char(line, '=') {
        Some(i) => {
            let value = text::trim(line.take(i));
            if number::is_float_text(value) {
                Some((value, text::trim_both(text::trim(line.skip(i + 1)), Pad::One('"'))))
            } else {
                None
            }
        },
        None => None,
    }
}

/// The key whose values may go on over the following lines.
#[derive(Debug, Clone, Copy)]
pub enum OpenKey {
    Nothing,
    Type,
    Properties,
}

/// What has been read so far.
#[verifier::ext_equal]
pub struct ScanView {
    pub name: Seq<char>,
    pub class: Seq<char>,
    pub class_set: bool,
    pub author: Option<Seq<char>>,
    pub has_native_ui: bool,
    pub ports: Seq<PortView>,
    pub port: Option<PortView>,
    pub open_key: OpenKey,
    pub in_scale_points: bool,
}

/// Nothing read yet.
pub open spec fn scan_start() -> ScanView {
    ScanView {
        name: Seq::empty(),
        class: "Plugin"@,
        class_set: false,
        author: None,
        has_native_ui: false,
        ports: Seq::empty(),
        port: None,
        open_key: OpenKey::Nothing,
        in_scale_points: false,
    }
}

/// A port of which only the index is known.
pub open spec fn fresh_port(index: u32) -> PortView {
    PortView {
        index,
        symbol: Seq::empty(),
        name: Seq::empty(),
        direction: PortDirection::Input,
        kind: PortKind::Other,
        designation: None,
        group: None,
        min: None,
        max: None,
        default: None,
        scale_points: Seq::empty(),
        flags: no_flags(),
    }
}

/// The index in a header `Port <index>:`, of which `rest` is what follows
/// `Port `; 0 where it is not a number.
pub open spec fn port_index(rest: Seq<char>) -> u32 {
    match number::parse_unsigned(text::trim_right(rest, Pad::One(':')), u32::MAX as nat) {
        Some(n) => n as u32,
        None => 0,
    }
}

/// The finished ports, with the one being read.
pub open spec fn closed_ports(st: ScanView) -> Seq<PortView> {
    match st.port {
        Some(p) => st.ports.push(p),
        None => st.ports,
    }
}

/// The port after a line `key: value` of its block.
pub open spec fn port_with(p: PortView, key: Seq<char>, value: Seq<char>) -> PortView {
    if key == "Type"@ {
        with_type(p, value)
    } else if key == "Symbol"@ {
        PortView { symbol: value, ..p }
    } else if key == "Name"@ {
        PortView { name: value, ..p }
    } else if key == "Group"@ {
        PortView { group: Some(value), ..p }
    } else if key == "Designation"@ {
        PortView { designation: Some(value), ..p }
    } else if key == "Minimum"@ {
        PortView { min: number::number_of(value), ..p }
    } else if key == "Maximum"@ {
        PortView { max: number::number_of(value), ..p }
    } else if key == "Default"@ {
        PortView { default: number::number_of(value), ..p }
    } else if key == "Properties"@ {
        PortView { flags: with_property(p.flags, value), ..p }
    } else {
        p
    }
}

/// The key that a line with `key` leaves open.
pub open spec fn opens(key: Seq<char>) -> OpenKey {
    if key == "Type"@ {
        OpenKey::Type
    } else if key == "Properties"@ {
        OpenKey::Properties
    } else {
        OpenKey::Nothing
    }
}

/// A line `key: value`: of the port being read, or of the plugin's header while
/// no port has begun. Of several `Class` lines the first one counts.
pub open spec fn after_key(st: ScanView, key: Seq<char>, value: Seq<char>) -> ScanView {
    match st.port {
        Some(p) => ScanView {
            port: Some(port_with(p, key, value)),
            open_key: opens(key),
            in_scale_points: key == "Scale Points"@,
            ..st
        },
        None => {
            let st = ScanView {
                in_scale_points: st.in_scale_points && key == "Scale Points"@,
                ..st
            };
            if key == "Name"@ {
                ScanView { name: value, ..st }
            } else if key == "Class"@ && !st.class_set {
                ScanView { class: value, class_set: true, ..st }
            } else if key == "Author"@ {
                ScanView { author: Some(value), ..st }
            } else {
                ScanView { open_key: OpenKey::Nothing, ..st }
            }
        },
    }
}

/// A line without a key: a scale point, or one more URI of the open key.
pub open spec fn after_continuation(st: ScanView, line: Seq<char>) -> ScanView {
    match st.port {
        Some(p) => {
            let q = if st.in_scale_points {
                match scale_point(line) {
                    Some(point) => PortView { scale_points: p.scale_points.push(point), ..p },
                    None => p,
                }
            } else {
                match st.open_key {
                    OpenKey::Type => with_type(p, line),
                    OpenKey::Properties => PortView { flags: with_property(p.flags, line), ..p },
                    OpenKey::Nothing => p,
                }
            };
            ScanView { port: Some(q), ..st }
        },
        None => st,
    }
}

/// What has been read after one more line.
pub open spec fn after_line(st: ScanView, line: Seq<char>) -> ScanView {
    let t = text::trim(line);
    let st = ScanView { has_native_ui: st.has_native_ui || mentions_native_ui(t), ..st };
    match text::strip_prefix(t, "Port "@) {
        Some(rest) => ScanView {
            ports: closed_ports(st),
            port: Some(fresh_port(port_index(rest))),
            open_key: OpenKey::Nothing,
            in_scale_points: false,
            ..st
        },
        None => match key_value(line) {
            Some((key, value)) => after_key(st, key, value),
            None => if t.len() > 0 {
                after_continuation(st, t)
            } else {
                st
            },
        },
    }
}

/// What has been read after all the lines.
pub open spec fn after_lines(ls: Seq<Seq<char>>) -> ScanView
    decreases ls.len(),
{
    if ls.len() == 0 {
        scan_start()
    } else {
        after_line(after_lines(ls.drop_last()), ls.last())
    }
}

/// The first line at or after `i` that is not blank.
pub open spec fn first_filled(ls: Seq<Seq<char>>, i: int) -> Option<int>
    decreases ls.len() - i,
{
    if i < 0 || i >= ls.len() {
        None
    } else if text::trim(ls[i]).len() > 0 {
        Some(i)
    } else {
        first_filled(ls, i + 1)
    }
}

/// What follows the last `/` of a URI.
pub open spec fn last_segment(uri: Seq<char>) -> Seq<char> {
    match text::rfind_char(uri, '/') {
        Some(i) => uri.skip(i + 1),
        None => uri,
    }
}

/// A port with scale points is an enumeration.
pub open spec fn settled_port(p: PortView) -> PortView {
    PortView {
        flags: PortFlags {
            enumeration: p.flags.enumeration || p.scale_points.len() > 0,
            ..p.flags
        },
        ..p
    }
}

/// The plugin that the output of `lv2info` describes: the first line that is not
/// blank is its URI, the other lines its header and its ports. Without a name
/// it is called after the last segment of its URI. None for a blank text.
pub open spec fn described(output: Seq<char>) -> Option<PluginView> {
    let ls = text::lines(output);
    match first_filled(ls, 0) {
        Some(k) => {
            let uri = text::trim(ls[k]);
            let st = after_lines(ls.skip(k + 1));
            let ports = closed_ports(st);
            Some(
                PluginView {
                    uri,
                    name: if st.name.len() == 0 {
                        last_segment(uri)
                    } else {
                        st.name
                    },
                    class: st.class,
                    author: st.author,
                    has_native_ui: st.has_native_ui,
                    ports: Seq::new(ports.len(), |i: int| settled_port(ports[i])),
                },
            )
        },
        None => None,
    }
}

/// The number of lines that begin a port.
pub open spec fn port_headers(ls: Seq<Seq<char>>) -> nat
    decreases ls.len(),
{
    if ls.len() == 0 {
        0
    } else {
        port_headers(ls.drop_last()) + if text::starts_with(text::trim(ls.last()), "Port "@) {
            1nat
        } else {
            0nat
        }
    }
}

proof fn lemma_ports_of_lines(ls: Seq<Seq<char>>)
    ensures
        closed_ports(after_lines(ls)).len() == port_headers(ls),
    decreases ls.len(),
{
    if ls.len() > 0 {
        lemma_ports_of_lines(ls.drop_last());
    }
}

/// A described plugin has as many ports as there are lines that begin one, and
/// those with scale points are enumerations; and it has a name, unless it has
/// that from a URI that ends in `/`.
pub proof fn ports_are_those_begun(output: Seq<char>)
    requires
        described(output) is Some,
    ensures
        ({
            let p = described(output)->0;
            let ls = text::lines(output);
            &&& p.ports.len() == port_headers(ls.skip(first_filled(ls, 0)->0 + 1))
            &&& p.name.len() > 0 || last_segment(p.uri).len() == 0
            &&& forall|i: int|
                0 <= i < p.ports.len() && (#[trigger] p.ports[i]).scale_points.len() > 0
                    ==> p.ports[i].flags.enumeration
        }),
{
    let ls = text::lines(output);
    lemma_ports_of_lines(ls.skip(first_filled(ls, 0)->0 + 1));
}

// ── Reading ──────────────────────────────────────────────────────────────────

/// Splits a line `Key: value` or `Key:`.
pub fn split_kv<'a>(line: &'a [char]) -> (r: Option<(&'a [char], &'a [char])>)
    ensures
        match r {
            Some((key, value)) => key_value(line@) == Some((key@, value@)),
            None => key_value(line@) is None,
        },
{
    let t = text::trimmed_left(line, Pad::White);
    let n: usize = t.len();
    let key: &'a [char];
    let value: &'a [char];
    proof {
        reveal_strlit(": ");
    }
    if let Some(i) = text::position(t, ": ") {
        let front = slice_subrange(t, 0, i);
        let back = slice_subrange(t, i + 2, n);
        assert(front@ =~= t@.take(i as int));
        assert(back@ =~= t@.skip(i + 2));
        key = text::trimmed(front);
        value = text::trimmed(back);
    } else if n > 0 && t[n - 1] == ':' {
        let front = slice_subrange(t, 0, n - 1);
        assert(front@ =~= t@.drop_last());
        key = text::trimmed(front);
        value = slice_subrange(t, n, n);
        assert(value@ =~= Seq::<char>::empty());
    } else {
        return None;
    }
    if key.len() == 0 || text::has_char(key, '/') || text::has_char(key, '#') {
        return None;
    }
    Some((key, value))
}

/// Applies a type URI to a port.
pub fn apply_type_uri(port: &mut Lv2Port, uri: &[char])
    ensures
        final(port)@ == with_type(old(port)@, uri@),
{
    if text::spells(uri, "http://lv2plug.in/ns/lv2core#AudioPort") {
        port.kind = PortKind::Audio;
    } else if text::spells(uri, "http://lv2plug.in/ns/lv2core#ControlPort") {
        port.kind = PortKind::Control;
    } else if text::spells(uri, "http://lv2plug.in/ns/lv2core#CVPort") {
        port.kind = PortKind::Cv;
    } else if text::spells(uri, "http://lv2plug.in/ns/ext/atom#AtomPort") {
        port.kind = PortKind::Atom;
    } else if text::spells(uri, "http://lv2plug.in/ns/lv2core#InputPort") {
        port.direction = PortDirection::Input;
    } else if text::spells(uri, "http://lv2plug.in/ns/lv2core#OutputPort") {
        port.direction = PortDirection::Output;
    }
}

/// Applies a property URI to the flags of a port.
pub fn apply_property_uri(flags: &mut PortFlags, uri: &[char])
    ensures
        *final(flags) == with_property(*old(flags), uri@),
{
    if text::spells(uri, "http://lv2plug.in/ns/lv2core#toggled") {
        flags.toggled = true;
    } else if text::spells(uri, "http://lv2plug.in/ns/lv2core#integer") {
        flags.integer = true;
    } else if text::spells(uri, "http://lv2plug.in/ns/lv2core#enumeration") {
        flags.enumeration = true;
    } else if text::spells(uri, "http://lv2plug.in/ns/lv2core#isSideChain") {
        flags.side_chain = true;
    } else if text::spells(uri, "http://lv2plug.in/ns/lv2core#connectionOptional") {
        flags.optional = true;
    } else if text::spells(uri, "http://lv2plug.in/ns/lv2core#reportsLatency") {
        flags.reports_latency = true;
    } else if text::spells(uri, "http://lv2plug.in/ns/ext/port-props#logarithmic") {
        flags.logarithmic = true;
    } else if text::spells(uri, "http://lv2plug.in/ns/ext/port-props#hasStrictBounds") {
        flags.strict_bounds = true;
    } else if text::spells(uri, "http://lv2plug.in/ns/ext/port-props#notOnGUI") {
        flags.hidden = true;
    }
}

/// Reads a line `<number> = "<label>"`.
pub fn parse_scale_point(line: &[char]) -> (r: Option<(Number, String)>)
    ensures
        match r {
            Some((value, label)) => scale_point(line@) == Some((value@, label@)),
            None => scale_point(line@) is None,
        },
{
    let n: usize = line.len();
    match text::position_char(line, '=') {
        Some(i) => {
            let front = slice_subrange(line, 0, i);
            let back = slice_subrange(line, i + 1, n);
            assert(front@ =~= line@.take(i as int));
            assert(back@ =~= line@.skip(i + 1));
            match Number::read(text::trimmed(front)) {
                Some(value) => {
                    let label = text::trimmed_both(text::trimmed(back), Pad::One('"'));
                    Some((value, text::text_of(label)))
                },
                None => None,
            }
        },
        None => None,
    }
}

fn names_native_ui(line: &[char]) -> (r: bool)
    ensures
        r == mentions_native_ui(line@),
{
    text::begins_with(line, "http://lv2plug.in/ns/extensions/ui#") || text::has_text(
        line,
        "ui#X11UI",
    ) || text::has_text(line, "ui#GtkUI") || text::has_text(line, "ui#Qt5UI")
}

fn new_port(index: u32) -> (r: Lv2Port)
    ensures
        r@ == fresh_port(index),
{
    let r = Lv2Port {
        index,
        symbol: String::new(),
        name: String::new(),
        direction: PortDirection::Input,
        kind: PortKind::Other,
        designation: None,
        group: None,
        min: None,
        max: None,
        default: None,
        scale_points: Vec::new(),
        flags: PortFlags::default(),
    };
    assert(r@ =~= fresh_port(index));
    r
}

fn read_index(rest: &[char]) -> (r: u32)
    ensures
        r == port_index(rest@),
{
    match number::read_u32(text::trimmed_right(rest, Pad::One(':'))) {
        Some(n) => n,
        None => 0,
    }
}

/// Applies a line `key: value` to a port.
fn set_port_key(p: &mut Lv2Port, key: &[char], value: &[char])
    ensures
        final(p)@ == port_with(old(p)@, key@, value@),
{
    if text::spells(key, "Type") {
        apply_type_uri(p, value);
    } else if text::spells(key, "Symbol") {
        p.symbol = text::text_of(value);
    } else if text::spells(key, "Name") {
        p.name = text::text_of(value);
    } else if text::spells(key, "Group") {
        p.group = Some(text::text_of(value));
    } else if text::spells(key, "Designation") {
        p.designation = Some(text::text_of(value));
    } else if text::spells(key, "Minimum") {
        p.min = Number::read(value);
    } else if text::spells(key, "Maximum") {
        p.max = Number::read(value);
    } else if text::spells(key, "Default") {
        p.default = Number::read(value);
    } else if text::spells(key, "Properties") {
        apply_property_uri(&mut p.flags, value);
    }
}

fn key_opens(key: &[char]) -> (r: OpenKey)
    ensures
        r == opens(key@),
{
    if text::spells(key, "Type") {
        OpenKey::Type
    } else if text::spells(key, "Properties") {
        OpenKey::Properties
    } else {
        OpenKey::Nothing
    }
}

/// The reader of `lv2info` output, one line at a time.
struct Scan {
    name: String,
    class: String,
    class_set: bool,
    author: Option<String>,
    has_native_ui: bool,
    ports: Vec<Lv2Port>,
    port: Option<Lv2Port>,
    open_key: OpenKey,
    in_scale_points: bool,
}

impl View for Scan {
    type V = ScanView;

    closed spec fn view(&self) -> ScanView {
        ScanView {
            name: self.name@,
            class: self.class@,
            class_set: self.class_set,
            author: text::opt_text(self.author),
            has_native_ui: self.has_native_ui,
            ports: ports_view(self.ports@),
            port: match self.port {
                Some(p) => Some(p@),
                None => None,
            },
            open_key: self.open_key,
            in_scale_points: self.in_scale_points,
        }
    }
}

impl Scan {
    fn new() -> (r: Scan)
        ensures
            r@ == scan_start(),
    {
        let r = Scan {
            name: String::new(),
            class: "Plugin".to_owned(),
            class_set: false,
            author: None,
            has_native_ui: false,
            ports: Vec::new(),
            port: None,
            open_key: OpenKey::Nothing,
            in_scale_points: false,
        };
        assert(r@ =~= scan_start());
        r
    }

    /// Puts the port being read among the finished ones.
    fn close_port(&mut self)
        ensures
            final(self)@ == (ScanView { ports: closed_ports(old(self)@), port: None, ..old(self)@ }),
    {
        let ghost before = self@;
        if let Some(p) = self.port.take() {
            let ghost pv = p@;
            self.ports.push(p);
            assert(self@.ports =~= before.ports.push(pv));
        }
        assert(self@ =~= (ScanView { ports: closed_ports(before), port: None, ..before }));
    }

    fn take_key(&mut self, key: &[char], value: &[char])
        ensures
            final(self)@ == after_key(old(self)@, key@, value@),
    {
        let points = text::spells(key, "Scale Points");
        if let Some(p) = &mut self.port {
            set_port_key(p, key, value);
            self.open_key = key_opens(key);
            self.in_scale_points = points;
        } else {
            self.in_scale_points = self.in_scale_points && points;
            if text::spells(key, "Name") {
                self.name = text::text_of(value);
            } else if text::spells(key, "Class") && !self.class_set {
                self.class = text::text_of(value);
                self.class_set = true;
            } else if text::spells(key, "Author") {
                self.author = Some(text::text_of(value));
            } else {
                self.open_key = OpenKey::Nothing;
            }
        }
        assert(self@ =~= after_key(old(self)@, key@, value@));
    }

    fn take_continuation(&mut self, line: &[char])
        ensures
            final(self)@ == after_continuation(old(self)@, line@),
    {
        if let Some(p) = &mut self.port {
            let ghost before = p@;
            if self.in_scale_points {
                if let Some((value, label)) = parse_scale_point(line) {
                    p.scale_points.push((value, label));
                    assert(p@.scale_points =~= before.scale_points.push((value@, label@)));
                }
            } else {
                match self.open_key {
                    OpenKey::Type => apply_type_uri(p, line),
                    OpenKey::Properties => apply_property_uri(&mut p.flags, line),
                    OpenKey::Nothing => {},
                }
            }
        }
        assert(self@ =~= after_continuation(old(self)@, line@));
    }

    fn take_line(&mut self, line: &[char])
        ensures
            final(self)@ == after_line(old(self)@, line@),
    {
        let t = text::trimmed(line);
        if names_native_ui(t) {
            self.has_native_ui = true;
        }
        if let Some(rest) = text::without_prefix(t, "Port ") {
            self.close_port();
            self.port = Some(new_port(read_index(rest)));
            self.open_key = OpenKey::Nothing;
            self.in_scale_points = false;
        } else if let Some((key, value)) = split_kv(line) {
            self.take_key(key, value);
        } else if t.len() > 0 {
            self.take_continuation(t);
        }
        assert(self@ =~= after_line(old(self)@, line@));
    }
}

/// Why `lv2info` output describes no plugin.
#[derive(Debug, Clone, Copy, PartialEq, Eq, Structural)]
pub enum Lv2InfoError {
    /// Every line is blank.
    Empty,
}

impl Lv2InfoError {
    pub fn message(&self) -> (r: &'static str)
        ensures
            r@ == "empty lv2info output"@,
    {
        "empty lv2info output"
    }
}

fn segment_name(uri: &[char]) -> (r: String)
    ensures
        r@ == last_segment(uri@),
{
    let n: usize = uri.len();
    match text::last_position_char(uri, '/') {
        Some(i) => {
            let s = slice_subrange(uri, i + 1, n);
            assert(s@ =~= uri@.skip(i + 1));
            text::text_of(s)
        },
        None => text::text_of(uri),
    }
}

/// Marks every port with scale points as an enumeration.
fn settle_ports(ports: &mut Vec<Lv2Port>)
    ensures
        final(ports)@.len() == old(ports)@.len(),
        forall|i: int|
            0 <= i < old(ports)@.len() ==> #[trigger] final(ports)@[i]@ == settled_port(
                old(ports)@[i]@,
            ),
{
    let n: usize = ports.len();
    for i in 0..n
        invariant
            n == ports@.len(),
            n == old(ports)@.len(),
            forall|j: int|
                0 <= j < i ==> #[trigger] ports@[j]@ == settled_port(old(ports)@[j]@),
            forall|j: int| i <= j < n ==> #[trigger] ports@[j] == old(ports)@[j],
    {
        let ghost before = ports@[i as int];
        if ports[i].scale_points.len() > 0 {
            ports[i].flags.enumeration = true;
        }
        assert(ports@[i as int]@ =~= settled_port(before@));
    }
}

/// Parses the textual output of `lv2info <uri>`.
pub fn parse_lv2info(output: &str) -> (r: Result<Lv2Plugin, Lv2InfoError>)
    ensures
        r is Ok == described(output@) is Some,
        r matches Ok(p) ==> p@ == described(output@)->0,
        r matches Err(e) ==> e == Lv2InfoError::Empty,
{
    let chars = text::chars_of(output);
    let ls = text::lines_of(chars.as_slice());
    let ghost all = text::lines(output@);
    let mut k: usize = 0;
    while k < ls.len() && text::trimmed(ls[k].as_slice()).len() == 0
        invariant
            k <= ls@.len(),
            text::rows(ls@) == all,
            first_filled(all, 0) == first_filled(all, k as int),
        ensures
            k <= ls@.len(),
            k < ls@.len() ==> first_filled(all, 0) == Some(k as int),
            k == ls@.len() ==> first_filled(all, 0) is None,
        decreases ls@.len() - k,
    {
        assert(all[k as int] == ls@[k as int]@);
        k += 1;
    }
    if k == ls.len() {
        return Err(Lv2InfoError::Empty);
    }
    assert(all[k as int] == ls@[k as int]@);
    let uri_chars = text::trimmed(ls[k].as_slice());
    let ghost rest = all.skip(k + 1);
    let mut scan = Scan::new();
    assert(rest.take(0) =~= seq![]);
    for i in k + 1..ls.len()
        invariant
            k < ls@.len(),
            text::rows(ls@) == all,
            rest == all.skip(k + 1),
            scan@ == after_lines(rest.take(i - (k + 1))),
    {
        let ghost t = rest.take(i - (k + 1) + 1);
        assert(t.drop_last() =~= rest.take(i - (k + 1)));
        assert(t.last() == ls@[i as int]@);
        scan.take_line(ls[i].as_slice());
    }
    assert(rest.take(ls@.len() - (k + 1)) =~= rest);
    scan.close_port();
    let Scan { name, class, class_set: _, author, has_native_ui, mut ports, port: _, open_key: _, in_scale_points: _ } = scan;
    let ghost before = ports@;
    settle_ports(&mut ports);
    let name = if name.as_str().is_empty() {
        segment_name(uri_chars)
    } else {
        name
    };
    let r = Lv2Plugin { uri: text::text_of(uri_chars), name, class, author, has_native_ui, ports };
    proof {
        let d = described(output@)->0;
        assert(r@.ports =~= d.ports);
        assert(r@ =~= d);
    }
    Ok(r)
}

// ── Discovery ────────────────────────────────────────────────────────────────

/// The plugin that a run of `lv2info` describes; none where it failed or printed
/// nothing.
pub fn plugin_from_run(success: bool, output: &str) -> (r: Option<Lv2Plugin>)
    ensures
        match r {
            Some(p) => success && described(output@) == Some(p@),
            None => !success || described(output@) is None,
        },
{
    if !success {
        return None;
    }
    match parse_lv2info(output) {
        Ok(p) => Some(p),
        Err(_) => None,
    }
}

/// The trimmed lines that are not blank.
pub open spec fn filled_lines(ls: Seq<Seq<char>>) -> Seq<Seq<char>>
    decreases ls.len(),
{
    if ls.len() == 0 {
        seq![]
    } else {
        let t = text::trim(ls.last());
        if t.len() > 0 {
            filled_lines(ls.drop_last()).push(t)
        } else {
            filled_lines(ls.drop_last())
        }
    }
}

/// The plugin URIs that `lv2ls` prints, one on each line.
pub fn listed_uris(output: &str) -> (r: Vec<String>)
    ensures
        text::texts(r@) == filled_lines(text::lines(output@)),
{
    let chars = text::chars_of(output);
    let ls = text::lines_of(chars.as_slice());
    let ghost all = text::lines(output@);
    let mut r: Vec<String> = Vec::new();
    assert(all.take(0) =~= seq![]);
    assert(text::texts(r@) =~= seq![]);
    for i in 0..ls.len()
        invariant
            text::rows(ls@) == all,
            text::texts(r@) == filled_lines(all.take(i as int)),
    {
        let ghost t = all.take(i + 1);
        assert(t.drop_last() =~= all.take(i as int));
        assert(t.last() == ls@[i as int]@);
        let line = text::trimmed(ls[i].as_slice());
        if line.len() > 0 {
            let ghost before = text::texts(r@);
            r.push(text::text_of(line));
            assert(text::texts(r@) =~= before.push(line@));
        }
    }
    assert(all.take(ls@.len() as int) =~= all);
    r
}

impl Named for Lv2Plugin {
    open spec fn label(&self) -> Seq<char> {
        self.name@
    }

    fn label_text(&self) -> (r: &str) {
        self.name.as_str()
    }
}

/// The plugins among the results, in order.
pub open spec fn found(results: Seq<Option<Lv2Plugin>>) -> Seq<Lv2Plugin>
    decreases results.len(),
{
    if results.len() == 0 {
        seq![]
    } else {
        match results.last() {
            Some(p) => found(results.drop_last()).push(p),
            None => found(results.drop_last()),
        }
    }
}

/// The catalog of what the scan of each plugin gave, sorted by name without
/// regard to case. A plugin whose scan gave nothing is skipped.
pub fn collect_plugins(results: Vec<Option<Lv2Plugin>>) -> (r: Lv2Catalog)
    ensures
        order::sorted_by_name(found(results@), r.plugins@),
        forall|i: int|
            0 <= i < found(results@).len() ==> order::ascii_is_lowered(
                #[trigger] found(results@)[i].label(),
            ),
{
    let mut plugins: Vec<Lv2Plugin> = Vec::new();
    let ghost all = results@;
    let mut rest = results;
    assert(rest@ =~= all.skip(0));
    assert(all.take(0) =~= seq![]);
    while rest.len() > 0
        invariant
            rest@.len() <= all.len(),
            rest@ == all.skip(all.len() - rest@.len()),
            plugins@ == found(all.take(all.len() - rest@.len())),
        decreases rest@.len(),
    {
        let ghost done = all.len() - rest@.len();
        let ghost t = all.take(done + 1);
        let next = rest.remove(0);
        assert(next == all[done as int]);
        assert(rest@ =~= all.skip(done + 1));
        assert(t.drop_last() =~= all.take(done as int));
        assert(t.last() == next);
        if let Some(p) = next {
            plugins.push(p);
        }
    }
    assert(all.take(all.len() as int) =~= all);
    Lv2Catalog { plugins: order::sort_by_name(plugins) }
}

// ── Catalog ──────────────────────────────────────────────────────────────────

#[derive(Debug, Clone)]
pub struct Lv2Catalog {
    pub plugins: Vec<Lv2Plugin>,
}

/// The first plugin at or after `i` with the given URI.
pub open spec fn plugin_at(plugins: Seq<Lv2Plugin>, uri: Seq<char>, i: int) -> Option<int>
    decreases plugins.len() - i,
{
    if i < 0 || i >= plugins.len() {
        None
    } else if plugins[i].uri@ == uri {
        Some(i)
    } else {
        plugin_at(plugins, uri, i + 1)
    }
}

impl Lv2Catalog {
    /// The file that caches the catalog below the given cache directory;
    /// `/tmp` where there is none.
    pub fn cache_path_in(cache_dir: Option<Vec<u8>>) -> (r: Vec<u8>)
        ensures
            r@ == paths::below(
                paths::dir_or(paths::opt_bytes(cache_dir), "/tmp"@),
                "pipewire-control"@,
                "lv2-catalog.json"@,
            ),
    {
        paths::file_below(paths::or_dir(cache_dir, "/tmp"), "pipewire-control", "lv2-catalog.json")
    }

    /// The file that caches the catalog.
    pub fn cache_path() -> (r: Vec<u8>)
        ensures
            exists|dir: Option<Seq<u8>>|
                r@ == #[trigger] paths::below(
                    paths::dir_or(dir, "/tmp"@),
                    "pipewire-control"@,
                    "lv2-catalog.json"@,
                ),
    {
        Lv2Catalog::cache_path_in(paths::cache_dir())
    }

    /// Whether what was loaded from the cache has to be replaced by a scan:
    /// nothing was loaded, or a catalog without plugins.
    pub fn needs_scan(loaded: &Option<Lv2Catalog>) -> (r: bool)
        ensures
            r == !(loaded matches Some(c) && c.plugins@.len() > 0),
    {
        match loaded {
            Some(c) => c.plugins.len() == 0,
            None => true,
        }
    }

    /// The first plugin with the given URI.
    pub fn find(&self, uri: &str) -> (r: Option<&Lv2Plugin>)
        ensures
            match r {
                Some(p) => plugin_at(self.plugins@, uri@, 0) matches Some(k) && 0 <= k
                    < self.plugins@.len() && *p == self.plugins@[k],
                None => plugin_at(self.plugins@, uri@, 0) is None,
            },
    {
        for i in 0..self.plugins.len()
            invariant
                plugin_at(self.plugins@, uri@, 0) == plugin_at(self.plugins@, uri@, i as int),
        {
            if text::same_text(self.plugins[i].uri.as_str(), uri) {
                return Some(&self.plugins[i]);
            }
        }
        None
    }
}

// ── Folder names ─────────────────────────────────────────────────────────────

/// Every run of characters that are no ASCII letters or digits becomes one `_`.
pub open spec fn squeezed(s: Seq<char>) -> Seq<char>
    decreases s.len(),
{
    if s.len() == 0 {
        s
    } else {
        let front = squeezed(s.drop_last());
        if text::is_alnum(s.last()) {
            front.push(s.last())
        } else if front.len() > 0 && front.last() == '_' {
            front
        } else {
            front.push('_')
        }
    }
}

/// The folder name of a plugin URI.
pub open spec fn folder_name(uri: Seq<char>) -> Seq<char> {
    text::trim_both(squeezed(uri), Pad::One('_'))
}

/// ASCII letters and digits, with single `_` between them.
pub open spec fn is_folder_name(s: Seq<char>) -> bool {
    &&& no_double_underscore(s)
    &&& s.len() > 0 ==> s[0] != '_' && s.last() != '_'
}

/// ASCII letters, digits and `_`, without two `_` in a row.
pub open spec fn no_double_underscore(s: Seq<char>) -> bool {
    &&& forall|i: int| 0 <= i < s.len() ==> text::is_alnum(#[trigger] s[i]) || s[i] == '_'
    &&& forall|i: int, j: int|
        0 <= i && j == i + 1 && j < s.len() ==> !(#[trigger] s[i] == '_' && #[trigger] s[j] == '_')
}

proof fn lemma_squeezed(s: Seq<char>)
    ensures
        no_double_underscore(squeezed(s)),
    decreases s.len(),
{
    if s.len() > 0 {
        lemma_squeezed(s.drop_last());
        let front = squeezed(s.drop_last());
        let r = squeezed(s);
        assert forall|i: int, j: int| 0 <= i && j == i + 1 && j < r.len() implies !(#[trigger] r[i]
            == '_' && #[trigger] r[j] == '_') by {
            if j < front.len() {
                assert(r[i] == front[i] && r[j] == front[j]);
            } else {
                assert(r[i] == front.last());
            }
        }
    }
}

proof fn lemma_squeezed_fixed(s: Seq<char>)
    requires
        no_double_underscore(s),
    ensures
        squeezed(s) == s,
    decreases s.len(),
{
    if s.len() > 0 {
        let front = s.drop_last();
        assert forall|i: int, j: int| 0 <= i && j == i + 1 && j < front.len() implies !(
        #[trigger] front[i] == '_' && #[trigger] front[j] == '_') by {
            assert(s[i] == front[i] && s[j] == front[j]);
        }
        lemma_squeezed_fixed(front);
        assert(s =~= front.push(s.last()));
        if !text::is_alnum(s.last()) && front.len() > 0 {
            assert(!(s[s.len() - 2] == '_' && s[s.len() - 1] == '_'));
        }
    }
}

/// The folder name of any URI is made of ASCII letters and digits with single
/// `_` between them.
pub proof fn folder_name_is_clean(uri: Seq<char>)
    ensures
        is_folder_name(folder_name(uri)),
{
    lemma_squeezed(uri);
    let sq = squeezed(uri);
    let left = text::trim_left(sq, Pad::One('_'));
    text::lemma_trim_left(sq, Pad::One('_'));
    text::lemma_trim_right(left, Pad::One('_'));
    let n = sq.len() - left.len();
    let r = folder_name(uri);
    assert forall|i: int| 0 <= i < r.len() implies r[i] == sq[n + i] by {}
    assert forall|i: int, j: int| 0 <= i && j == i + 1 && j < r.len() implies !(#[trigger] r[i]
        == '_' && #[trigger] r[j] == '_') by {
        assert(!(sq[n + i] == '_' && sq[n + j] == '_'));
    }
    if r.len() > 0 {
        assert(r[0] == left[0]);
    }
}

/// A clean folder name is its own folder name; in particular, taking the folder
/// name twice is taking it once.
pub proof fn folder_name_is_stable(name: Seq<char>)
    requires
        is_folder_name(name),
    ensures
        folder_name(name) == name,
{
    lemma_squeezed_fixed(name);
}

/// The conventional folder name for a plugin URI.
pub fn sanitize_uri(uri: &str) -> (r: String)
    ensures
        r@ == folder_name(uri@),
        is_folder_name(r@),
{
    let cs = text::chars_of(uri);
    let mut out: Vec<char> = Vec::new();
    let mut after_underscore = false;
    assert(uri@.take(0) =~= seq![]);
    for i in 0..cs.len()
        invariant
            cs@ == uri@,
            out@ == squeezed(uri@.take(i as int)),
            after_underscore == (out@.len() > 0 && out@.last() == '_'),
    {
        let ghost t = uri@.take(i + 1);
        assert(t.drop_last() =~= uri@.take(i as int));
        let c = cs[i];
        if text::char_is_alnum(c) {
            out.push(c);
            after_underscore = false;
        } else if !after_underscore {
            out.push('_');
            after_underscore = true;
        }
    }
    assert(uri@.take(uri@.len() as int) =~= uri@);
    proof {
        folder_name_is_clean(uri@);
    }
    text::text_of(text::trimmed_both(out.as_slice(), Pad::One('_')))
}

/// Where the override of a plugin's user interface lies below the web root.
pub fn ui_override_path(uri: &str) -> (r: String)
    ensures
        r@ == "/lv2-ui/"@ + folder_name(uri@) + "/index.js"@,
{
    let mut r = "/lv2-ui/".to_owned();
    r.append(sanitize_uri(uri).as_str());
    r.append("/index.js");
    r
}

// ── Primary ports ────────────────────────────────────────────────────────────

/// An audio port of the given direction that is no side chain.
pub open spec fn is_main_audio(p: Lv2Port, direction: PortDirection) -> bool {
    p.kind == PortKind::Audio && p.direction == direction && !p.flags.side_chain
}

/// The designation of the port ends with `suffix`.
pub open spec fn designated(p: Lv2Port, suffix: Seq<char>) -> bool {
    match p.designation {
        Some(d) => text::ends_with(d@, suffix),
        None => false,
    }
}

/// The first main audio port at or after `i` that is designated by `suffix`.
pub open spec fn main_audio_from(
    ports: Seq<Lv2Port>,
    direction: PortDirection,
    suffix: Seq<char>,
    i: int,
) -> Option<int>
    decreases ports.len() - i,
{
    if i < 0 || i >= ports.len() {
        None
    } else if is_main_audio(ports[i], direction) && (suffix.len() == 0 || designated(
        ports[i],
        suffix,
    )) {
        Some(i)
    } else {
        main_audio_from(ports, direction, suffix, i + 1)
    }
}

/// The main audio port to link: the first one in the center, else the first one
/// on the left, else the first one.
pub open spec fn primary_index(ports: Seq<Lv2Port>, direction: PortDirection) -> Option<int> {
    match main_audio_from(ports, direction, "#center"@, 0) {
        Some(i) => Some(i),
        None => match main_audio_from(ports, direction, "#left"@, 0) {
            Some(i) => Some(i),
            None => main_audio_from(ports, direction, Seq::empty(), 0),
        },
    }
}

fn first_main_audio(ports: &Vec<Lv2Port>, direction: PortDirection, suffix: &str) -> (r: Option<
    usize,
>)
    ensures
        match r {
            Some(k) => k < ports@.len() && main_audio_from(ports@, direction, suffix@, 0) == Some(
                k as int,
            ),
            None => main_audio_from(ports@, direction, suffix@, 0) is None,
        },
{
    for i in 0..ports.len()
        invariant
            main_audio_from(ports@, direction, suffix@, 0) == main_audio_from(
                ports@,
                direction,
                suffix@,
                i as int,
            ),
    {
        let p = &ports[i];
        if p.kind == PortKind::Audio && p.direction == direction && !p.flags.side_chain {
            let fits = suffix.is_empty() || match &p.designation {
                Some(d) => text::finishes_with(text::chars_of(d.as_str()).as_slice(), suffix),
                None => false,
            };
            if fits {
                return Some(i);
            }
        }
    }
    None
}

/// Picks the audio port of a single-instance link.
pub fn primary_audio_port(plugin: &Lv2Plugin, direction: PortDirection) -> (r: Option<&Lv2Port>)
    ensures
        match r {
            Some(p) => primary_index(plugin.ports@, direction) matches Some(k) && 0 <= k
                < plugin.ports@.len() && *p == plugin.ports@[k] && is_main_audio(*p, direction),
            None => primary_index(plugin.ports@, direction) is None && forall|k: int|
                0 <= k < plugin.ports@.len() ==> !is_main_audio(
                    #[trigger] plugin.ports@[k],
                    direction,
                ),
        },
{
    proof {
        reveal_strlit("");
        assert(""@ =~= Seq::empty());
        lemma_main_audio(plugin.ports@, direction, "#center"@, 0);
        lemma_main_audio(plugin.ports@, direction, "#left"@, 0);
        lemma_main_audio(plugin.ports@, direction, Seq::empty(), 0);
    }
    if let Some(k) = first_main_audio(&plugin.ports, direction, "#center") {
        return Some(&plugin.ports[k]);
    }
    if let Some(k) = first_main_audio(&plugin.ports, direction, "#left") {
        return Some(&plugin.ports[k]);
    }
    match first_main_audio(&plugin.ports, direction, "") {
        Some(k) => Some(&plugin.ports[k]),
        None => None,
    }
}

proof fn lemma_main_audio(
    ports: Seq<Lv2Port>,
    direction: PortDirection,
    suffix: Seq<char>,
    i: int,
)
    requires
        0 <= i,
    ensures
        main_audio_from(ports, direction, suffix, i) matches Some(k) ==> i <= k < ports.len()
            && is_main_audio(ports[k], direction),
        suffix.len() == 0 && main_audio_from(ports, direction, suffix, i) is None ==> forall|
            k: int,
        |
            i <= k < ports.len() ==> !is_main_audio(#[trigger] ports[k], direction),
    decreases ports.len() - i,
{
    if i < ports.len() {
        lemma_main_audio(ports, direction, suffix, i + 1);
    }
}

// ── What a description says ──────────────────────────────────────────────────

/// A line that begins a port.
pub open spec fn is_header(line: Seq<char>) -> bool {
    text::starts_with(text::trim(line), "Port "@)
}

/// No line begins a port.
pub open spec fn no_headers(ls: Seq<Seq<char>>) -> bool {
    forall|i: int| 0 <= i < ls.len() ==> !is_header(#[trigger] ls[i])
}

/// There are no lines, or the first begins a port.
pub open spec fn begins_port(ls: Seq<Seq<char>>) -> bool {
    ls.len() == 0 || is_header(ls[0])
}

/// The line at `i` has the key `key`.
pub open spec fn tells(ls: Seq<Seq<char>>, key: Seq<char>, i: int) -> bool {
    0 <= i < ls.len() && match key_value(ls[i]) {
        Some((k, value)) => k == key,
        None => false,
    }
}

/// The line at `i` is the last with the key `key`.
pub open spec fn tells_last(ls: Seq<Seq<char>>, key: Seq<char>, i: int) -> bool {
    tells(ls, key, i) && forall|j: int| i < j ==> !#[trigger] tells(ls, key, j)
}

/// No line has the key `key`.
pub open spec fn silent(ls: Seq<Seq<char>>, key: Seq<char>) -> bool {
    forall|j: int| !#[trigger] tells(ls, key, j)
}

/// The value of the line at `i`.
pub open spec fn value_at(ls: Seq<Seq<char>>, i: int) -> Seq<char> {
    match key_value(ls[i]) {
        Some((key, value)) => value,
        None => Seq::empty(),
    }
}

/// The key of the last line before `j` that has one.
pub open spec fn key_before(ls: Seq<Seq<char>>, j: int) -> Option<Seq<char>>
    decreases j,
{
    if j <= 0 {
        None
    } else {
        match key_value(ls[j - 1]) {
            Some((key, value)) => Some(key),
            None => key_before(ls, j - 1),
        }
    }
}

/// The line at `j` has no key and goes on with what the key `key` before it began.
pub open spec fn goes_on(ls: Seq<Seq<char>>, key: Seq<char>, j: int) -> bool {
    &&& 0 <= j < ls.len() && key_value(ls[j]) is None && text::trim(ls[j]).len() > 0
    &&& key_before(ls, j) == Some(key)
}

/// The URI that the line at `j` gives for `key`: its value, or the line itself where
/// it goes on with `key`.
pub open spec fn uri_told(ls: Seq<Seq<char>>, key: Seq<char>, j: int) -> Option<Seq<char>> {
    if tells(ls, key, j) {
        Some(value_at(ls, j))
    } else if goes_on(ls, key, j) {
        Some(text::trim(ls[j]))
    } else {
        None
    }
}

/// A line of the block gives `uri` as a property.
pub open spec fn property_told(block: Seq<Seq<char>>, uri: Seq<char>) -> bool {
    exists|j: int| #[trigger] uri_told(block, "Properties"@, j) == Some(uri)
}

/// The URI of a kind of ports.
pub open spec fn kind_uri(kind: PortKind) -> Option<Seq<char>> {
    match kind {
        PortKind::Audio => Some("http://lv2plug.in/ns/lv2core#AudioPort"@),
        PortKind::Control => Some("http://lv2plug.in/ns/lv2core#ControlPort"@),
        PortKind::Atom => Some("http://lv2plug.in/ns/ext/atom#AtomPort"@),
        PortKind::Cv => Some("http://lv2plug.in/ns/lv2core#CVPort"@),
        PortKind::Other => None,
    }
}

/// The URI of a direction.
pub open spec fn direction_uri(direction: PortDirection) -> Seq<char> {
    match direction {
        PortDirection::Input => "http://lv2plug.in/ns/lv2core#InputPort"@,
        PortDirection::Output => "http://lv2plug.in/ns/lv2core#OutputPort"@,
    }
}

/// The port that is being read at the end of a block that follows `header`.
pub open spec fn block_port(
    before: Seq<Seq<char>>,
    header: Seq<char>,
    block: Seq<Seq<char>>,
) -> PortView {
    closed_ports(after_lines(before.push(header) + block)).last()
}

proof fn lemma_keys_differ()
    ensures
        "Type"@ != "Symbol"@,
        "Type"@ != "Name"@,
        "Type"@ != "Group"@,
        "Type"@ != "Designation"@,
        "Type"@ != "Minimum"@,
        "Type"@ != "Maximum"@,
        "Type"@ != "Default"@,
        "Type"@ != "Properties"@,
        "Type"@ != "Scale Points"@,
        "Properties"@ != "Scale Points"@,
        "Symbol"@ != "Name"@,
        "Symbol"@ != "Group"@,
        "Symbol"@ != "Designation"@,
        "Symbol"@ != "Minimum"@,
        "Symbol"@ != "Maximum"@,
        "Symbol"@ != "Default"@,
        "Symbol"@ != "Properties"@,
        "Name"@ != "Group"@,
        "Name"@ != "Designation"@,
        "Name"@ != "Minimum"@,
        "Name"@ != "Maximum"@,
        "Name"@ != "Default"@,
        "Name"@ != "Properties"@,
        "Group"@ != "Designation"@,
        "Group"@ != "Minimum"@,
        "Group"@ != "Maximum"@,
        "Group"@ != "Default"@,
        "Group"@ != "Properties"@,
        "Designation"@ != "Minimum"@,
        "Designation"@ != "Maximum"@,
        "Designation"@ != "Default"@,
        "Designation"@ != "Properties"@,
        "Minimum"@ != "Maximum"@,
        "Minimum"@ != "Default"@,
        "Minimum"@ != "Properties"@,
        "Maximum"@ != "Default"@,
        "Maximum"@ != "Properties"@,
        "Default"@ != "Properties"@,
        "Name"@ != "Class"@,
        "Name"@ != "Author"@,
        "Class"@ != "Author"@,
{
    reveal_strlit("Type");
    reveal_strlit("Symbol");
    reveal_strlit("Name");
    reveal_strlit("Group");
    reveal_strlit("Designation");
    reveal_strlit("Minimum");
    reveal_strlit("Maximum");
    reveal_strlit("Default");
    reveal_strlit("Properties");
    reveal_strlit("Scale Points");
    reveal_strlit("Class");
    reveal_strlit("Author");
    assert("Type"@.len() == 4 && "Symbol"@.len() == 6 && "Name"@.len() == 4);
    assert("Group"@.len() == 5 && "Designation"@.len() == 11 && "Properties"@.len() == 10);
    assert("Minimum"@.len() == 7 && "Maximum"@.len() == 7 && "Default"@.len() == 7);
    assert("Scale Points"@.len() == 12 && "Class"@.len() == 5 && "Author"@.len() == 6);
    assert("Type"@[0] == 'T' && "Name"@[0] == 'N');
    assert("Minimum"@[1] == 'i' && "Maximum"@[1] == 'a' && "Default"@[1] == 'e');
}

proof fn lemma_key_before(ls: Seq<Seq<char>>, j: int)
    requires
        ls.len() > 0,
        j <= ls.len() - 1,
    ensures
        key_before(ls, j) == key_before(ls.drop_last(), j),
    decreases j,
{
    if j > 0 {
        lemma_key_before(ls, j - 1);
        assert(ls.drop_last()[j - 1] == ls[j - 1]);
    }
}

/// What is read behind a header, as far as the lines go.
proof fn lemma_block_state(before: Seq<Seq<char>>, header: Seq<char>, block: Seq<Seq<char>>)
    requires
        is_header(header),
        no_headers(block),
    ensures
        ({
            let st = after_lines(before.push(header) + block);
            &&& st.port is Some
            &&& st.ports == closed_ports(after_lines(before))
            &&& st.port->0 == block_port(before, header, block)
            &&& st.open_key == (match key_before(block, block.len() as int) {
                Some(key) => opens(key),
                None => OpenKey::Nothing,
            })
            &&& st.in_scale_points == (key_before(block, block.len() as int) == Some(
                "Scale Points"@,
            ))
            &&& st.port->0.index == port_index(text::trim(header).skip(5))
        }),
    decreases block.len(),
{
    reveal_strlit("Port ");
    let ls = before.push(header) + block;
    if block.len() == 0 {
        assert(ls.drop_last() =~= before);
        assert(ls.last() == header);
    } else {
        let front = block.drop_last();
        assert forall|i: int| 0 <= i < front.len() implies !is_header(#[trigger] front[i]) by {
            assert(front[i] == block[i]);
        }
        lemma_block_state(before, header, front);
        assert(ls.drop_last() =~= before.push(header) + front);
        assert(ls.last() == block.last());
        assert(!is_header(block[block.len() - 1]));
        lemma_key_before(block, block.len() - 1);
    }
    let st = after_lines(ls);
    assert(closed_ports(st).last() == st.port->0);
}

/// What one more line does to the port being read.
proof fn lemma_block_step(before: Seq<Seq<char>>, header: Seq<char>, block: Seq<Seq<char>>)
    requires
        is_header(header),
        no_headers(block),
        block.len() > 0,
    ensures
        ({
            let n = block.len() - 1;
            let line = block[n];
            let p = block_port(before, header, block.drop_last());
            let q = block_port(before, header, block);
            &&& no_headers(block.drop_last())
            &&& q.index == p.index
            &&& q.flags == (match uri_told(block, "Properties"@, n) {
                Some(uri) => with_property(p.flags, uri),
                None => p.flags,
            })
            &&& q.kind == (match uri_told(block, "Type"@, n) {
                Some(uri) => with_type(p, uri).kind,
                None => p.kind,
            })
            &&& q.direction == (match uri_told(block, "Type"@, n) {
                Some(uri) => with_type(p, uri).direction,
                None => p.direction,
            })
            &&& q.scale_points == (if goes_on(block, "Scale Points"@, n) {
                match scale_point(text::trim(line)) {
                    Some(point) => p.scale_points.push(point),
                    None => p.scale_points,
                }
            } else {
                p.scale_points
            })
            &&& q.name == (if tells(block, "Name"@, n) {
                value_at(block, n)
            } else {
                p.name
            })
            &&& q.symbol == (if tells(block, "Symbol"@, n) {
                value_at(block, n)
            } else {
                p.symbol
            })
            &&& q.group == (if tells(block, "Group"@, n) {
                Some(value_at(block, n))
            } else {
                p.group
            })
            &&& q.designation == (if tells(block, "Designation"@, n) {
                Some(value_at(block, n))
            } else {
                p.designation
            })
            &&& q.min == (if tells(block, "Minimum"@, n) {
                number::number_of(value_at(block, n))
            } else {
                p.min
            })
            &&& q.max == (if tells(block, "Maximum"@, n) {
                number::number_of(value_at(block, n))
            } else {
                p.max
            })
            &&& q.default == (if tells(block, "Default"@, n) {
                number::number_of(value_at(block, n))
            } else {
                p.default
            })
        }),
{
    let n = block.len() - 1;
    let front = block.drop_last();
    let ls = before.push(header) + block;
    assert forall|i: int| 0 <= i < front.len() implies !is_header(#[trigger] front[i]) by {
        assert(front[i] == block[i]);
    }
    lemma_block_state(before, header, front);
    lemma_block_state(before, header, block);
    assert(ls.drop_last() =~= before.push(header) + front);
    assert(ls.last() == block[n]);
    assert(!is_header(block[n]));
    lemma_key_before(block, n);
    lemma_keys_differ();
}

proof fn lemma_block_start(before: Seq<Seq<char>>, header: Seq<char>)
    requires
        is_header(header),
    ensures
        block_port(before, header, seq![]) == fresh_port(port_index(text::trim(header).skip(5))),
{
    reveal_strlit("Port ");
    let ls = before.push(header) + Seq::<Seq<char>>::empty();
    assert(ls.drop_last() =~= before);
    assert(ls.last() == header);
    let st = after_lines(ls);
    assert(closed_ports(st).last() == st.port->0);
}

proof fn lemma_tells_before(ls: Seq<Seq<char>>, key: Seq<char>, i: int)
    requires
        ls.len() > 0,
    ensures
        silent(ls, key) ==> !tells(ls, key, ls.len() - 1) && silent(ls.drop_last(), key),
        tells_last(ls, key, i) && i < ls.len() - 1 ==> !tells(ls, key, ls.len() - 1) && tells_last(
            ls.drop_last(),
            key,
            i,
        ) && value_at(ls.drop_last(), i) == value_at(ls, i),
        tells_last(ls, key, i) ==> i <= ls.len() - 1,
{
    let front = ls.drop_last();
    assert forall|j: int| #[trigger] tells(front, key, j) implies tells(ls, key, j) by {
        assert(front[j] == ls[j]);
    }
    if tells_last(ls, key, i) && i < ls.len() - 1 {
        assert(front[i] == ls[i]);
    }
}

/// The block of a port gives each of its texts in the last line that has its key:
/// the name in `Name`, the symbol in `Symbol`, the group in `Group` and the
/// designation in `Designation`; where there is no such line it has none. Its index
/// is that of its header.
pub proof fn port_texts_are_told(
    before: Seq<Seq<char>>,
    header: Seq<char>,
    block: Seq<Seq<char>>,
    i: int,
)
    requires
        is_header(header),
        no_headers(block),
    ensures
        ({
            let p = block_port(before, header, block);
            &&& p.index == port_index(text::trim(header).skip(5))
            &&& tells_last(block, "Name"@, i) ==> p.name == value_at(block, i)
            &&& silent(block, "Name"@) ==> p.name.len() == 0
            &&& tells_last(block, "Symbol"@, i) ==> p.symbol == value_at(block, i)
            &&& silent(block, "Symbol"@) ==> p.symbol.len() == 0
            &&& tells_last(block, "Group"@, i) ==> p.group == Some(value_at(block, i))
            &&& silent(block, "Group"@) ==> p.group is None
            &&& tells_last(block, "Designation"@, i) ==> p.designation == Some(value_at(block, i))
            &&& silent(block, "Designation"@) ==> p.designation is None
        }),
    decreases block.len(),
{
    if block.len() == 0 {
        assert(block =~= seq![]);
        lemma_block_start(before, header);
    } else {
        lemma_block_step(before, header, block);
        port_texts_are_told(before, header, block.drop_last(), i);
        lemma_tells_before(block, "Name"@, i);
        lemma_tells_before(block, "Symbol"@, i);
        lemma_tells_before(block, "Group"@, i);
        lemma_tells_before(block, "Designation"@, i);
    }
}

/// The block of a port gives each of its numbers in the last line that has its key:
/// the smallest value in `Minimum`, the largest in `Maximum` and the default in
/// `Default`. What that line holds is the number where it is one; else, and where
/// there is no such line, there is none.
pub proof fn port_numbers_are_told(
    before: Seq<Seq<char>>,
    header: Seq<char>,
    block: Seq<Seq<char>>,
    i: int,
)
    requires
        is_header(header),
        no_headers(block),
    ensures
        ({
            let p = block_port(before, header, block);
            let n = if number::is_float_text(value_at(block, i)) {
                Some(value_at(block, i))
            } else {
                None
            };
            &&& tells_last(block, "Minimum"@, i) ==> p.min == n
            &&& silent(block, "Minimum"@) ==> p.min is None
            &&& tells_last(block, "Maximum"@, i) ==> p.max == n
            &&& silent(block, "Maximum"@) ==> p.max is None
            &&& tells_last(block, "Default"@, i) ==> p.default == n
            &&& silent(block, "Default"@) ==> p.default is None
        }),
    decreases block.len(),
{
    if block.len() == 0 {
        assert(block =~= seq![]);
        lemma_block_start(before, header);
    } else {
        lemma_block_step(before, header, block);
        port_numbers_are_told(before, header, block.drop_last(), i);
        lemma_tells_before(block, "Minimum"@, i);
        lemma_tells_before(block, "Maximum"@, i);
        lemma_tells_before(block, "Default"@, i);
    }
}

proof fn lemma_uri_before(ls: Seq<Seq<char>>, key: Seq<char>, j: int)
    requires
        ls.len() > 0,
    ensures
        j < ls.len() - 1 ==> uri_told(ls, key, j) == uri_told(ls.drop_last(), key, j),
        j > ls.len() - 1 ==> uri_told(ls, key, j) is None,
        j >= ls.len() - 1 ==> uri_told(ls.drop_last(), key, j) is None,
{
    if 0 <= j < ls.len() - 1 {
        assert(ls.drop_last()[j] == ls[j]);
        lemma_key_before(ls, j);
    }
}

proof fn lemma_type_uris_differ()
    ensures
        forall|a: PortKind, b: PortKind|
            a != b && a !is Other && b !is Other ==> #[trigger] kind_uri(a) != #[trigger] kind_uri(
                b,
            ),
        forall|a: PortKind, d: PortDirection| #[trigger]
            kind_uri(a) != Some(#[trigger] direction_uri(d)),
        direction_uri(PortDirection::Input) != direction_uri(PortDirection::Output),
{
    reveal_strlit("http://lv2plug.in/ns/lv2core#AudioPort");
    reveal_strlit("http://lv2plug.in/ns/lv2core#ControlPort");
    reveal_strlit("http://lv2plug.in/ns/lv2core#CVPort");
    reveal_strlit("http://lv2plug.in/ns/ext/atom#AtomPort");
    reveal_strlit("http://lv2plug.in/ns/lv2core#InputPort");
    reveal_strlit("http://lv2plug.in/ns/lv2core#OutputPort");
    assert("http://lv2plug.in/ns/lv2core#ControlPort"@.len() == 40);
    assert("http://lv2plug.in/ns/lv2core#CVPort"@.len() == 35);
    assert("http://lv2plug.in/ns/lv2core#OutputPort"@.len() == 39);
    assert("http://lv2plug.in/ns/lv2core#AudioPort"@.len() == 38);
    assert("http://lv2plug.in/ns/lv2core#InputPort"@.len() == 38);
    assert("http://lv2plug.in/ns/ext/atom#AtomPort"@.len() == 38);
    assert("http://lv2plug.in/ns/lv2core#AudioPort"@[29] == 'A');
    assert("http://lv2plug.in/ns/lv2core#InputPort"@[29] == 'I');
    assert("http://lv2plug.in/ns/ext/atom#AtomPort"@[29] == '#');
}

/// A type URI of a kind gives the port that kind and keeps its direction, one of a
/// direction that direction and keeps its kind, and any other keeps both; none of
/// them changes anything else.
pub proof fn type_uris_tell_kind_or_direction(
    p: PortView,
    kind: PortKind,
    direction: PortDirection,
    uri: Seq<char>,
)
    requires
        kind !is Other,
    ensures
        with_type(p, kind_uri(kind)->0) == (PortView { kind, ..p }),
        with_type(p, direction_uri(direction)) == (PortView { direction, ..p }),
        (forall|k: PortKind| #[trigger] kind_uri(k) != Some(uri)) && (forall|d: PortDirection|
            #[trigger] direction_uri(d) != uri) ==> with_type(p, uri) == p,
{
    lemma_type_uris_differ();
    assert(kind_uri(PortKind::Audio) is Some && kind_uri(PortKind::Control) is Some && kind_uri(
        PortKind::Cv,
    ) is Some && kind_uri(PortKind::Atom) is Some);
    assert(direction_uri(PortDirection::Input) == direction_uri(PortDirection::Input));
    assert(direction_uri(PortDirection::Output) == direction_uri(PortDirection::Output));
}

/// The kind of a port is that of the last URI of a kind that its block gives as a
/// type; it is some other kind where there is none.
pub proof fn port_kind_is_told(
    before: Seq<Seq<char>>,
    header: Seq<char>,
    block: Seq<Seq<char>>,
    j: int,
    kind: PortKind,
)
    requires
        is_header(header),
        no_headers(block),
    ensures
        ({
            let p = block_port(before, header, block);
            &&& kind !is Other && uri_told(block, "Type"@, j) == kind_uri(kind) && (forall|
                m: int,
                k: PortKind,
            |
                j < m && k !is Other ==> #[trigger] uri_told(block, "Type"@, m)
                    != #[trigger] kind_uri(k)) ==> p.kind == kind
            &&& (forall|m: int, k: PortKind|
                k !is Other ==> #[trigger] uri_told(block, "Type"@, m) != #[trigger] kind_uri(k))
                ==> p.kind is Other
        }),
    decreases block.len(),
{
    if block.len() == 0 {
        assert(block =~= seq![]);
        lemma_block_start(before, header);
    } else {
        let n = block.len() - 1;
        let front = block.drop_last();
        let p = block_port(before, header, front);
        lemma_block_step(before, header, block);
        port_kind_is_told(before, header, front, j, kind);
        assert forall|m: int| #![trigger uri_told(front, "Type"@, m)] uri_told(front, "Type"@, m)
            is Some implies uri_told(block, "Type"@, m) == uri_told(front, "Type"@, m) by {
            lemma_uri_before(block, "Type"@, m);
        }
        lemma_uri_before(block, "Type"@, j);
        if let Some(uri) = uri_told(block, "Type"@, n) {
            lemma_kind_after(p, uri);
        }
    }
}

proof fn lemma_kind_after(p: PortView, uri: Seq<char>)
    ensures
        forall|k: PortKind| k !is Other && #[trigger] kind_uri(k) == Some(uri) ==> with_type(p, uri).kind
            == k,
        (forall|k: PortKind| k !is Other ==> #[trigger] kind_uri(k) != Some(uri)) ==> with_type(
            p,
            uri,
        ).kind == p.kind,
{
    lemma_type_uris_differ();
    assert(kind_uri(PortKind::Audio) is Some && kind_uri(PortKind::Control) is Some && kind_uri(
        PortKind::Cv,
    ) is Some && kind_uri(PortKind::Atom) is Some);
}

proof fn lemma_direction_after(p: PortView, uri: Seq<char>)
    ensures
        forall|d: PortDirection| #[trigger] direction_uri(d) == uri ==> with_type(p, uri).direction == d,
        (forall|d: PortDirection| #[trigger] direction_uri(d) != uri) ==> with_type(p, uri).direction
            == p.direction,
{
    lemma_type_uris_differ();
    assert(direction_uri(PortDirection::Input) == direction_uri(PortDirection::Input));
    assert(direction_uri(PortDirection::Output) == direction_uri(PortDirection::Output));
    assert(kind_uri(PortKind::Audio) is Some && kind_uri(PortKind::Control) is Some && kind_uri(
        PortKind::Cv,
    ) is Some && kind_uri(PortKind::Atom) is Some);
}

/// The direction of a port is that of the last URI of a direction that its block
/// gives as a type; it is an input where there is none.
pub proof fn port_direction_is_told(
    before: Seq<Seq<char>>,
    header: Seq<char>,
    block: Seq<Seq<char>>,
    j: int,
    direction: PortDirection,
)
    requires
        is_header(header),
        no_headers(block),
    ensures
        ({
            let p = block_port(before, header, block);
            &&& uri_told(block, "Type"@, j) == Some(direction_uri(direction)) && (forall|
                m: int,
                d: PortDirection,
            |
                j < m ==> #[trigger] uri_told(block, "Type"@, m) != Some(
                    #[trigger] direction_uri(d),
                )) ==> p.direction == direction
            &&& (forall|m: int, d: PortDirection| #[trigger]
                uri_told(block, "Type"@, m) != Some(#[trigger] direction_uri(d))) ==> p.direction
                is Input
        }),
    decreases block.len(),
{
    if block.len() == 0 {
        assert(block =~= seq![]);
        lemma_block_start(before, header);
    } else {
        let n = block.len() - 1;
        let front = block.drop_last();
        let p = block_port(before, header, front);
        lemma_block_step(before, header, block);
        port_direction_is_told(before, header, front, j, direction);
        assert forall|m: int| #![trigger uri_told(front, "Type"@, m)] uri_told(front, "Type"@, m)
            is Some implies uri_told(block, "Type"@, m) == uri_told(front, "Type"@, m) by {
            lemma_uri_before(block, "Type"@, m);
        }
        lemma_uri_before(block, "Type"@, j);
        if let Some(uri) = uri_told(block, "Type"@, n) {
            lemma_direction_after(p, uri);
        }
    }
}

proof fn lemma_property_before(block: Seq<Seq<char>>, uri: Seq<char>)
    requires
        block.len() > 0,
    ensures
        property_told(block, uri) == (property_told(block.drop_last(), uri) || uri_told(
            block,
            "Properties"@,
            block.len() - 1,
        ) == Some(uri)),
{
    let front = block.drop_last();
    if property_told(block, uri) {
        let j = choose|j: int| #[trigger] uri_told(block, "Properties"@, j) == Some(uri);
        lemma_uri_before(block, "Properties"@, j);
        if j < block.len() - 1 {
            assert(uri_told(front, "Properties"@, j) == Some(uri));
        }
    }
    if property_told(front, uri) {
        let j = choose|j: int| #[trigger] uri_told(front, "Properties"@, j) == Some(uri);
        lemma_uri_before(block, "Properties"@, j);
        assert(uri_told(block, "Properties"@, j) == Some(uri));
    }
}

proof fn lemma_property_uris_differ()
    ensures
        "http://lv2plug.in/ns/lv2core#toggled"@ != "http://lv2plug.in/ns/lv2core#integer"@,
        "http://lv2plug.in/ns/lv2core#enumeration"@ != "http://lv2plug.in/ns/lv2core#isSideChain"@,
        "http://lv2plug.in/ns/lv2core#toggled"@.len() == 36,
        "http://lv2plug.in/ns/lv2core#integer"@.len() == 36,
        "http://lv2plug.in/ns/lv2core#enumeration"@.len() == 40,
        "http://lv2plug.in/ns/lv2core#isSideChain"@.len() == 40,
        "http://lv2plug.in/ns/lv2core#connectionOptional"@.len() == 47,
        "http://lv2plug.in/ns/lv2core#reportsLatency"@.len() == 43,
        "http://lv2plug.in/ns/ext/port-props#logarithmic"@.len() == 47,
        "http://lv2plug.in/ns/ext/port-props#hasStrictBounds"@.len() == 51,
        "http://lv2plug.in/ns/ext/port-props#notOnGUI"@.len() == 44,
        "http://lv2plug.in/ns/lv2core#connectionOptional"@
            != "http://lv2plug.in/ns/ext/port-props#logarithmic"@,
{
    reveal_strlit("http://lv2plug.in/ns/lv2core#toggled");
    reveal_strlit("http://lv2plug.in/ns/lv2core#integer");
    reveal_strlit("http://lv2plug.in/ns/lv2core#enumeration");
    reveal_strlit("http://lv2plug.in/ns/lv2core#isSideChain");
    reveal_strlit("http://lv2plug.in/ns/lv2core#connectionOptional");
    reveal_strlit("http://lv2plug.in/ns/lv2core#reportsLatency");
    reveal_strlit("http://lv2plug.in/ns/ext/port-props#logarithmic");
    reveal_strlit("http://lv2plug.in/ns/ext/port-props#hasStrictBounds");
    reveal_strlit("http://lv2plug.in/ns/ext/port-props#notOnGUI");
    assert("http://lv2plug.in/ns/lv2core#toggled"@[29] == 't');
    assert("http://lv2plug.in/ns/lv2core#integer"@[29] == 'i');
    assert("http://lv2plug.in/ns/lv2core#enumeration"@[29] == 'e');
    assert("http://lv2plug.in/ns/lv2core#isSideChain"@[29] == 'i');
    assert("http://lv2plug.in/ns/lv2core#connectionOptional"@[21] == 'l');
    assert("http://lv2plug.in/ns/ext/port-props#logarithmic"@[21] == 'e');
}

/// A flag of a port is set where its block gives the URI of that flag as a property,
/// and only there.
pub proof fn port_flags_are_told(
    before: Seq<Seq<char>>,
    header: Seq<char>,
    block: Seq<Seq<char>>,
)
    requires
        is_header(header),
        no_headers(block),
    ensures
        ({
            let f = block_port(before, header, block).flags;
            &&& f.toggled == property_told(block, "http://lv2plug.in/ns/lv2core#toggled"@)
            &&& f.integer == property_told(block, "http://lv2plug.in/ns/lv2core#integer"@)
            &&& f.enumeration == property_told(block, "http://lv2plug.in/ns/lv2core#enumeration"@)
            &&& f.side_chain == property_told(block, "http://lv2plug.in/ns/lv2core#isSideChain"@)
            &&& f.optional == property_told(
                block,
                "http://lv2plug.in/ns/lv2core#connectionOptional"@,
            )
            &&& f.reports_latency == property_told(
                block,
                "http://lv2plug.in/ns/lv2core#reportsLatency"@,
            )
            &&& f.logarithmic == property_told(
                block,
                "http://lv2plug.in/ns/ext/port-props#logarithmic"@,
            )
            &&& f.strict_bounds == property_told(
                block,
                "http://lv2plug.in/ns/ext/port-props#hasStrictBounds"@,
            )
            &&& f.hidden == property_told(block, "http://lv2plug.in/ns/ext/port-props#notOnGUI"@)
        }),
    decreases block.len(),
{
    if block.len() == 0 {
        assert(block =~= seq![]);
        lemma_block_start(before, header);
    } else {
        lemma_block_step(before, header, block);
        port_flags_are_told(before, header, block.drop_last());
        lemma_property_uris_differ();
        lemma_property_before(block, "http://lv2plug.in/ns/lv2core#toggled"@);
        lemma_property_before(block, "http://lv2plug.in/ns/lv2core#integer"@);
        lemma_property_before(block, "http://lv2plug.in/ns/lv2core#enumeration"@);
        lemma_property_before(block, "http://lv2plug.in/ns/lv2core#isSideChain"@);
        lemma_property_before(block, "http://lv2plug.in/ns/lv2core#connectionOptional"@);
        lemma_property_before(block, "http://lv2plug.in/ns/lv2core#reportsLatency"@);
        lemma_property_before(block, "http://lv2plug.in/ns/ext/port-props#logarithmic"@);
        lemma_property_before(block, "http://lv2plug.in/ns/ext/port-props#hasStrictBounds"@);
        lemma_property_before(block, "http://lv2plug.in/ns/ext/port-props#notOnGUI"@);
    }
}

/// The scale points of a port are those of the lines that follow `Scale Points`, in
/// their order: one more such line is one more point, where it is one, and any other
/// line changes nothing of them.
pub proof fn scale_points_are_told(
    before: Seq<Seq<char>>,
    header: Seq<char>,
    block: Seq<Seq<char>>,
    line: Seq<char>,
)
    requires
        is_header(header),
        no_headers(block),
        !is_header(line),
    ensures
        block_port(before, header, seq![]).scale_points.len() == 0,
        ({
            let old_points = block_port(before, header, block).scale_points;
            let points = block_port(before, header, block.push(line)).scale_points;
            let n = block.len() as int;
            &&& !goes_on(block.push(line), "Scale Points"@, n) ==> points == old_points
            &&& goes_on(block.push(line), "Scale Points"@, n) ==> match scale_point(
                text::trim(line),
            ) {
                Some(point) => points == old_points.push(point),
                None => points == old_points,
            }
        }),
{
    let b = block.push(line);
    assert(b.drop_last() =~= block);
    assert forall|i: int| 0 <= i < b.len() implies !is_header(#[trigger] b[i]) by {
        if i < block.len() {
            assert(b[i] == block[i]);
        }
    }
    lemma_block_step(before, header, b);
    lemma_block_start(before, header);
}

proof fn lemma_later_ports(first: Seq<Seq<char>>, later: Seq<Seq<char>>)
    requires
        begins_port(later),
    ensures
        ({
            let a = closed_ports(after_lines(first));
            let st = after_lines(first + later);
            &&& a.len() <= closed_ports(st).len()
            &&& forall|i: int| 0 <= i < a.len() ==> closed_ports(st)[i] == #[trigger] a[i]
            &&& later.len() > 0 ==> st.port is Some && a.len() <= st.ports.len() && (forall|i: int|
                0 <= i < a.len() ==> st.ports[i] == #[trigger] a[i])
        }),
    decreases later.len(),
{
    let ls = first + later;
    if later.len() == 0 {
        assert(ls =~= first);
    } else {
        let front = later.drop_last();
        assert(ls.drop_last() =~= first + front);
        assert(ls.last() == later.last());
        if front.len() > 0 {
            assert(front[0] == later[0]);
        } else {
            assert(later.last() == later[0]);
        }
        lemma_later_ports(first, front);
    }
}

/// In a description, the lines from a header up to the next are the block of one
/// port: the port with the number of that header is what the block tells, whatever
/// stands before and after. It also is an enumeration where it has scale points.
pub proof fn ports_are_told_by_their_blocks(
    output: Seq<char>,
    k: int,
    before: Seq<Seq<char>>,
    header: Seq<char>,
    block: Seq<Seq<char>>,
    later: Seq<Seq<char>>,
)
    requires
        first_filled(text::lines(output), 0) == Some(k),
        text::lines(output).skip(k + 1) == before.push(header) + block + later,
        is_header(header),
        no_headers(block),
        begins_port(later),
    ensures
        described(output) is Some,
        port_headers(before) < described(output)->0.ports.len(),
        ({
            let p = described(output)->0.ports[port_headers(before) as int];
            let q = block_port(before, header, block);
            &&& p.index == q.index && p.name == q.name && p.symbol == q.symbol
            &&& p.group == q.group && p.designation == q.designation
            &&& p.min == q.min && p.max == q.max && p.default == q.default
            &&& p.kind == q.kind && p.direction == q.direction
            &&& p.scale_points == q.scale_points
            &&& p.flags.enumeration == (q.flags.enumeration || q.scale_points.len() > 0)
            &&& p.flags == (PortFlags { enumeration: p.flags.enumeration, ..q.flags })
        }),
{
    let first = before.push(header) + block;
    let n = port_headers(before) as int;
    lemma_block_state(before, header, block);
    lemma_later_ports(first, later);
    lemma_ports_of_lines(before);
    let a = closed_ports(after_lines(first));
    assert(a.len() == n + 1);
    assert(a[n] == block_port(before, header, block));
}

/// Where its lines end, what a described port is called is the trimmed text behind
/// `Name:` in the last such line of its block, and likewise for its symbol and its
/// bounds: the port as it is described.
pub proof fn described_ports_are_as_told(
    output: Seq<char>,
    k: int,
    before: Seq<Seq<char>>,
    header: Seq<char>,
    block: Seq<Seq<char>>,
    later: Seq<Seq<char>>,
    i: int,
)
    requires
        first_filled(text::lines(output), 0) == Some(k),
        text::lines(output).skip(k + 1) == before.push(header) + block + later,
        is_header(header),
        no_headers(block),
        begins_port(later),
    ensures
        ({
            let p = described(output)->0.ports[port_headers(before) as int];
            let n = if number::is_float_text(value_at(block, i)) {
                Some(value_at(block, i))
            } else {
                None
            };
            &&& tells_last(block, "Name"@, i) ==> p.name == value_at(block, i)
            &&& tells_last(block, "Symbol"@, i) ==> p.symbol == value_at(block, i)
            &&& tells_last(block, "Group"@, i) ==> p.group == Some(value_at(block, i))
            &&& tells_last(block, "Designation"@, i) ==> p.designation == Some(value_at(block, i))
            &&& tells_last(block, "Minimum"@, i) ==> p.min == n
            &&& tells_last(block, "Maximum"@, i) ==> p.max == n
            &&& tells_last(block, "Default"@, i) ==> p.default == n
        }),
{
    ports_are_told_by_their_blocks(output, k, before, header, block, later);
    port_texts_are_told(before, header, block, i);
    port_numbers_are_told(before, header, block, i);
}

/// What stands before the colon of a line is its key and what stands behind it is
/// its value, both trimmed, where the key is no URI.
pub proof fn key_lines_are_split(
    indent: Seq<char>,
    key: Seq<char>,
    value: Seq<char>,
    end: Seq<char>,
)
    requires
        text::all_pad(indent, Pad::White),
        text::all_pad(end, Pad::White),
        key.len() > 0,
        !text::is_white(key[0]),
        !text::is_white(key.last()),
        !key.contains(':'),
        !key.contains('/'),
        !key.contains('#'),
        value.len() == 0 || !text::is_white(value[0]) && !text::is_white(value.last()),
    ensures
        key_value(indent + key + ": "@ + value + end) == Some((key, value)),
{
    reveal_strlit(": ");
    let none = Seq::<char>::empty();
    let n = key.len() as int;
    let t = key + ": "@ + value + end;
    assert(indent + key + ": "@ + value + end =~= indent + t);
    assert(t[0] == key[0]);
    lemma_indent(indent, t);
    assert(t.take(n) =~= key);
    assert(t.subrange(n, n + 2) =~= ": "@);
    lemma_first_mark(key, t, ": "@);
    assert(t.skip(n + 2) =~= value + end);
    lemma_trims_end(key, none);
    assert(key + none =~= key);
    lemma_trims_end(value, end);
}

proof fn lemma_first_mark(key: Seq<char>, t: Seq<char>, mark: Seq<char>)
    requires
        !key.contains(':'),
        key.len() + mark.len() <= t.len(),
        t.take(key.len() as int) == key,
        mark.len() > 0,
        mark[0] == ':',
        t.subrange(key.len() as int, key.len() as int + mark.len()) == mark,
    ensures
        text::find(t, mark) == Some(key.len() as int),
{
    lemma_mark_behind_key(key, t, mark);
    text::lemma_find_from(t, mark, 0);
    assert(text::occurs_at(t, mark, key.len() as int));
}

proof fn lemma_trims_end(s: Seq<char>, end: Seq<char>)
    requires
        text::all_pad(end, Pad::White),
        s.len() == 0 || !text::is_white(s[0]) && !text::is_white(s.last()),
    ensures
        text::trim(s + end) == s,
{
    let none = Seq::<char>::empty();
    text::trimming_takes_the_padding(none, s, end, Pad::White);
    assert(none + s + end =~= s + end);
}

/// A line may have a key and no value.
pub proof fn keys_stand_alone(indent: Seq<char>, key: Seq<char>)
    requires
        text::all_pad(indent, Pad::White),
        key.len() > 0,
        !text::is_white(key[0]),
        !text::is_white(key.last()),
        !key.contains(':'),
        !key.contains('/'),
        !key.contains('#'),
    ensures
        key_value(indent + key + ":"@) == Some((key, Seq::<char>::empty())),
{
    reveal_strlit(": ");
    reveal_strlit(":");
    let none = Seq::<char>::empty();
    let u = key + ":"@;
    assert(indent + key + ":"@ =~= indent + u);
    assert(u[0] == key[0]);
    lemma_indent(indent, u);
    assert(u.take(key.len() as int) =~= key);
    assert(text::find(u, ": "@) is None) by {
        text::lemma_find_from(u, ": "@, 0);
        lemma_mark_behind_key(key, u, ": "@);
    }
    assert(u.last() == ':');
    assert(u.drop_last() =~= key);
    lemma_trims_end(key, none);
    assert(key + none =~= key);
}

/// A line without a colon, or with a slash or a hash sign before it, has no key: it
/// is a URI.
pub proof fn uris_are_no_keys(line: Seq<char>)
    ensures
        !line.contains(':') ==> key_value(line) is None,
        key_value(line) matches Some(kv) ==> kv.0.len() > 0 && !kv.0.contains('/')
            && !kv.0.contains('#'),
{
    reveal_strlit(": ");
    let t = text::trim_left(line, Pad::White);
    text::lemma_trim_left(line, Pad::White);
    text::lemma_find_from(t, ": "@, 0);
    let d = line.len() - t.len();
    if !line.contains(':') {
        if let Some(i) = text::find(t, ": "@) {
            assert(t.subrange(i, i + 2)[0] == t[i]);
            assert(line.skip(d)[i] == line[d + i]);
            assert(line.contains(line[d + i]));
        }
        if t.len() > 0 && t.last() == ':' {
            assert(line.skip(d)[t.len() - 1] == line[line.len() - 1]);
            assert(line.contains(line[line.len() - 1]));
        }
    }
}

proof fn lemma_indent(indent: Seq<char>, t: Seq<char>)
    requires
        text::all_pad(indent, Pad::White),
        t.len() > 0,
        !text::is_white(t[0]),
    ensures
        text::trim_left(indent + t, Pad::White) == t,
    decreases indent.len(),
{
    if indent.len() == 0 {
        assert(indent + t =~= t);
    } else {
        let less = indent.drop_first();
        assert forall|i: int| 0 <= i < less.len() implies Pad::White.has(#[trigger] less[i]) by {
            assert(less[i] == indent[i + 1]);
        }
        lemma_indent(less, t);
        assert((indent + t).drop_first() =~= less + t);
        assert((indent + t)[0] == indent[0]);
    }
}

proof fn lemma_mark_behind_key(key: Seq<char>, t: Seq<char>, mark: Seq<char>)
    requires
        !key.contains(':'),
        key.len() <= t.len(),
        t.take(key.len() as int) == key,
        mark.len() > 0,
        mark[0] == ':',
    ensures
        forall|j: int| j < key.len() ==> !text::occurs_at(t, mark, j),
{
    assert forall|j: int| j < key.len() implies !text::occurs_at(t, mark, j) by {
        if text::occurs_at(t, mark, j) {
            assert(t.subrange(j, j + mark.len())[0] == t[j]);
            assert(t.take(key.len() as int)[j] == t[j]);
            assert(key.contains(key[j]));
        }
    }
}

/// The index in a header is the number that is written there.
pub proof fn header_index_is_read(n: u32)
    ensures
        port_index(number::decimal(n as nat) + ":"@) == n,
        port_index(number::decimal(n as nat)) == n,
{
    reveal_strlit(":");
    let d = number::decimal(n as nat);
    number::decimal_round_trip(n as nat, u32::MAX as nat);
    number::lemma_decimal_reads_back(n as nat);
    assert(text::is_digit(d[d.len() - 1]));
    assert(text::is_digit(d[0]));
    text::trimming_takes_the_padding(seq![], d, ":"@, Pad::One(':'));
    text::trimming_takes_the_padding(seq![], d, seq![], Pad::One(':'));
    assert(d + Seq::<char>::empty() =~= d);
}

/// A scale point is a number, `=` and a label in quotes.
pub proof fn scale_points_are_read(value: Seq<char>, label: Seq<char>)
    requires
        number::is_float_text(value),
        value.len() > 0,
        !value.contains('='),
        !text::is_white(value[0]),
        !text::is_white(value.last()),
        label.len() == 0 || label[0] != '"' && label.last() != '"',
    ensures
        scale_point(value + " = \""@ + label + "\""@) == Some((value, label)),
        scale_point(value) is None,
{
    reveal_strlit(" = \"");
    reveal_strlit("\"");
    let none = Seq::<char>::empty();
    let line = value + " = \""@ + label + "\""@;
    let n = value.len() as int + 1;
    text::lemma_find_char_from(line, '=', 0);
    text::lemma_find_char_from(value, '=', 0);
    assert(line[n] == '=');
    assert forall|j: int| 0 <= j < n implies line[j] != '=' by {
        if j < value.len() {
            assert(line[j] == value[j]);
            assert(value.contains(value[j]));
        }
    }
    assert(text::find_char(line, '=') == Some(n));
    assert(line.take(n) =~= none + value + " "@) by {
        reveal_strlit(" ");
    }
    assert(text::all_pad(" "@, Pad::White)) by {
        reveal_strlit(" ");
    }
    text::trimming_takes_the_padding(none, value, " "@, Pad::White);
    let quoted = "\""@ + label + "\""@;
    assert(line.skip(n + 1) =~= " "@ + quoted + none) by {
        reveal_strlit(" ");
    }
    assert(quoted[0] == '"' && quoted.last() == '"');
    text::trimming_takes_the_padding(" "@, quoted, none, Pad::White);
    text::trimming_takes_the_padding("\""@, label, "\""@, Pad::One('"'));
    if text::find_char(value, '=') is Some {
        let j = text::find_char(value, '=')->0;
        assert(value.contains(value[j]));
    }
}

proof fn lemma_later_header(first: Seq<Seq<char>>, later: Seq<Seq<char>>)
    requires
        no_headers(first),
        begins_port(later),
    ensures
        ({
            let a = after_lines(first);
            let b = after_lines(first + later);
            &&& a.name == b.name && a.class == b.class && a.author == b.author
            &&& later.len() > 0 ==> b.port is Some
        }),
    decreases later.len(),
{
    let ls = first + later;
    if later.len() == 0 {
        assert(ls =~= first);
    } else {
        let front = later.drop_last();
        assert(ls.drop_last() =~= first + front);
        assert(ls.last() == later.last());
        if front.len() > 0 {
            assert(front[0] == later[0]);
        } else {
            assert(later.last() == later[0]);
        }
        lemma_later_header(first, front);
    }
}

proof fn lemma_header_texts(ls: Seq<Seq<char>>, i: int)
    requires
        no_headers(ls),
    ensures
        ({
            let st = after_lines(ls);
            &&& st.port is None
            &&& tells_last(ls, "Name"@, i) ==> st.name == value_at(ls, i)
            &&& silent(ls, "Name"@) ==> st.name.len() == 0
            &&& tells_last(ls, "Author"@, i) ==> st.author == Some(value_at(ls, i))
            &&& silent(ls, "Author"@) ==> st.author is None
            &&& st.class_set == !silent(ls, "Class"@)
            &&& tells(ls, "Class"@, i) && (forall|j: int| j < i ==> !#[trigger] tells(
                ls,
                "Class"@,
                j,
            )) ==> st.class == value_at(ls, i)
            &&& silent(ls, "Class"@) ==> st.class == "Plugin"@
        }),
    decreases ls.len(),
{
    if ls.len() > 0 {
        let n = ls.len() - 1;
        let front = ls.drop_last();
        assert forall|j: int| 0 <= j < front.len() implies !is_header(#[trigger] front[j]) by {
            assert(front[j] == ls[j]);
        }
        lemma_header_texts(front, i);
        lemma_tells_before(ls, "Name"@, i);
        lemma_tells_before(ls, "Author"@, i);
        lemma_tells_before(ls, "Class"@, i);
        lemma_keys_differ();
        assert(!is_header(ls[n]));
        assert forall|j: int| #[trigger] tells(front, "Class"@, j) implies tells(
            ls,
            "Class"@,
            j,
        ) by {
            assert(front[j] == ls[j]);
        }
        if 0 <= i < n {
            assert(front[i] == ls[i]);
            assert(tells(front, "Class"@, i) == tells(ls, "Class"@, i));
        }
        assert(tells(ls, "Class"@, n) ==> !silent(ls, "Class"@));
        if !silent(ls, "Class"@) && silent(front, "Class"@) {
            let j = choose|j: int| #[trigger] tells(ls, "Class"@, j);
            if j < n {
                assert(front[j] == ls[j]);
                assert(tells(front, "Class"@, j));
            }
        }
        if tells(ls, "Class"@, i) && i == n && (forall|j: int|
            j < i ==> !#[trigger] tells(ls, "Class"@, j)) {
            assert(silent(front, "Class"@));
        }
    }
}

/// The lines before the first port tell of the plugin: its name is the value of the
/// last `Name`, its author that of the last `Author`, its class that of the first
/// `Class`; without a name it is called after its URI.
pub proof fn plugin_is_told_by_its_header(
    output: Seq<char>,
    k: int,
    first: Seq<Seq<char>>,
    later: Seq<Seq<char>>,
    i: int,
)
    requires
        first_filled(text::lines(output), 0) == Some(k),
        text::lines(output).skip(k + 1) == first + later,
        no_headers(first),
        begins_port(later),
    ensures
        described(output) is Some,
        ({
            let p = described(output)->0;
            &&& p.uri == text::trim(text::lines(output)[k])
            &&& p.has_native_ui <==> exists|j: int|
                0 <= j < (first + later).len() && mentions_native_ui(
                    text::trim(#[trigger] (first + later)[j]),
                )
            &&& tells_last(first, "Name"@, i) && value_at(first, i).len() > 0 ==> p.name
                == value_at(first, i)
            &&& silent(first, "Name"@) ==> text::ends_with(p.uri, p.name) && !p.name.contains('/')
            &&& tells_last(first, "Author"@, i) ==> p.author == Some(value_at(first, i))
            &&& silent(first, "Author"@) ==> p.author is None
            &&& tells(first, "Class"@, i) && (forall|j: int| j < i ==> !#[trigger] tells(
                first,
                "Class"@,
                j,
            )) ==> p.class == value_at(first, i)
            &&& silent(first, "Class"@) ==> p.class == "Plugin"@
        }),
{
    native_ui_is_mentioned(first + later);
    lemma_header_texts(first, i);
    lemma_later_header(first, later);
    last_segment_has_no_slash(text::trim(text::lines(output)[k]), seq![], seq![]);
}

/// The last segment of a URI is what stands behind its last `/`.
pub proof fn last_segment_has_no_slash(uri: Seq<char>, a: Seq<char>, b: Seq<char>)
    requires
        !b.contains('/'),
    ensures
        text::ends_with(uri, last_segment(uri)),
        !last_segment(uri).contains('/'),
        last_segment(a.push('/') + b) == b,
        last_segment(b) == b,
{
    text::lemma_rfind_char_before(uri, '/', uri.len() as int);
    if let Some(i) = text::rfind_char(uri, '/') {
        assert(uri.skip(uri.len() - last_segment(uri).len()) =~= last_segment(uri));
    } else {
        assert(uri.skip(0) =~= uri);
    }
    let s = a.push('/') + b;
    text::lemma_rfind_char_before(s, '/', s.len() as int);
    assert(s[a.len() as int] == '/');
    if let Some(i) = text::rfind_char(s, '/') {
        if i > a.len() {
            assert(s[i] == b[i - a.len() - 1]);
            assert(b.contains(b[i - a.len() - 1]));
        }
    }
    assert(s.skip(a.len() as int + 1) =~= b);
    text::lemma_rfind_char_before(b, '/', b.len() as int);
    if let Some(i) = text::rfind_char(b, '/') {
        assert(b.contains(b[i]));
    }
}

/// The first line that is not blank is the URI of the plugin; a text of blank lines
/// describes none.
pub proof fn first_filled_line_is_the_uri(ls: Seq<Seq<char>>, i: int)
    requires
        0 <= i,
    ensures
        match first_filled(ls, i) {
            Some(k) => i <= k < ls.len() && text::trim(ls[k]).len() > 0 && (forall|j: int|
                i <= j < k ==> text::trim(#[trigger] ls[j]).len() == 0),
            None => forall|j: int| i <= j < ls.len() ==> text::trim(#[trigger] ls[j]).len() == 0,
        },
    decreases ls.len() - i,
{
    if i < ls.len() && text::trim(ls[i]).len() == 0 {
        first_filled_line_is_the_uri(ls, i + 1);
    }
}

/// A plugin has a native user interface where a line of its description names one.
pub proof fn native_ui_is_mentioned(ls: Seq<Seq<char>>)
    ensures
        after_lines(ls).has_native_ui <==> exists|i: int|
            0 <= i < ls.len() && mentions_native_ui(text::trim(#[trigger] ls[i])),
    decreases ls.len(),
{
    if ls.len() > 0 {
        let front = ls.drop_last();
        let n = ls.len() - 1;
        native_ui_is_mentioned(front);
        if exists|i: int|
            0 <= i < front.len() && mentions_native_ui(text::trim(#[trigger] front[i])) {
            let i = choose|i: int|
                0 <= i < front.len() && mentions_native_ui(text::trim(#[trigger] front[i]));
            assert(ls[i] == front[i]);
        }
        if exists|i: int| 0 <= i < ls.len() && mentions_native_ui(text::trim(#[trigger] ls[i])) {
            let i = choose|i: int|
                0 <= i < ls.len() && mentions_native_ui(text::trim(#[trigger] ls[i]));
            if i < n {
                assert(front[i] == ls[i]);
            }
        }
        assert(ls[n] == ls.last());
    }
}

/// A line names a native user interface by one of three classes, wherever they stand
/// in it, or as a URI of the user interface extension.
pub proof fn native_uis_are_of_four_forms(a: Seq<char>, b: Seq<char>, line: Seq<char>)
    ensures
        mentions_native_ui(a + "ui#X11UI"@ + b),
        mentions_native_ui(a + "ui#GtkUI"@ + b),
        mentions_native_ui(a + "ui#Qt5UI"@ + b),
        mentions_native_ui("http://lv2plug.in/ns/extensions/ui#"@ + b),
        mentions_native_ui(line) ==> line.contains('#'),
{
    reveal_strlit("ui#X11UI");
    reveal_strlit("ui#GtkUI");
    reveal_strlit("ui#Qt5UI");
    reveal_strlit("http://lv2plug.in/ns/extensions/ui#");
    lemma_holds_mark(a, "ui#X11UI"@, b);
    lemma_holds_mark(a, "ui#GtkUI"@, b);
    lemma_holds_mark(a, "ui#Qt5UI"@, b);
    text::prefixes_come_off(line, "http://lv2plug.in/ns/extensions/ui#"@, b);
    lemma_mark_in_line(line, "ui#X11UI"@);
    lemma_mark_in_line(line, "ui#GtkUI"@);
    lemma_mark_in_line(line, "ui#Qt5UI"@);
    if text::starts_with(line, "http://lv2plug.in/ns/extensions/ui#"@) {
        assert(line.take(35)[34] == line[34]);
        assert("http://lv2plug.in/ns/extensions/ui#"@[34] == '#');
        assert(line.contains(line[34]));
    }
}

proof fn lemma_holds_mark(a: Seq<char>, mark: Seq<char>, b: Seq<char>)
    ensures
        text::find(a + mark + b, mark) is Some,
{
    let s = a + mark + b;
    let n = a.len() as int;
    text::cut_at_the_first_mark(s, mark);
    assert(s.subrange(n, n + mark.len()) =~= mark);
    assert(text::occurs_at(s, mark, n));
}

proof fn lemma_mark_in_line(line: Seq<char>, mark: Seq<char>)
    requires
        mark.len() > 2,
        mark[2] == '#',
    ensures
        text::find(line, mark) is Some ==> line.contains('#'),
{
    text::cut_at_the_first_mark(line, mark);
    if let Some(i) = text::find(line, mark) {
        assert(line.subrange(i, i + mark.len())[2] == line[i + 2]);
        assert(line.contains(line[i + 2]));
    }
}

/// The listed URIs are those of the lines, one by one and in their order; a blank line
/// gives none.
pub proof fn listed_lines_are_the_filled_ones(
    a: Seq<Seq<char>>,
    b: Seq<Seq<char>>,
    line: Seq<char>,
)
    ensures
        filled_lines(a + b) == filled_lines(a) + filled_lines(b),
        text::trim(line).len() > 0 ==> filled_lines(seq![line]) == seq![text::trim(line)],
        text::trim(line).len() == 0 ==> filled_lines(seq![line]).len() == 0,
        filled_lines(seq![]).len() == 0,
    decreases b.len(),
{
    let one = seq![line];
    assert(one.drop_last() =~= Seq::<Seq<char>>::empty());
    assert(one.last() == line);
    assert(filled_lines(one.drop_last()) =~= Seq::<Seq<char>>::empty());
    assert(Seq::<Seq<char>>::empty().push(text::trim(line)) =~= seq![text::trim(line)]);
    if b.len() == 0 {
        assert(a + b =~= a);
        assert(filled_lines(a) + filled_lines(b) =~= filled_lines(a));
    } else {
        listed_lines_are_the_filled_ones(a, b.drop_last(), line);
        assert((a + b).drop_last() =~= a + b.drop_last());
        assert((a + b).last() == b.last());
        assert(filled_lines(a + b) =~= filled_lines(a) + filled_lines(b));
    }
}

/// The plugins of a scan are those that were found, one by one and in their order.
pub proof fn found_plugins_are_kept(
    a: Seq<Option<Lv2Plugin>>,
    b: Seq<Option<Lv2Plugin>>,
    p: Lv2Plugin,
)
    ensures
        found(a + b) == found(a) + found(b),
        found(seq![Some(p)]) == seq![p],
        found(seq![None]).len() == 0,
        found(seq![]).len() == 0,
    decreases b.len(),
{
    let one = seq![Some(p)];
    assert(one.drop_last() =~= Seq::<Option<Lv2Plugin>>::empty());
    assert(one.last() == Some(p));
    assert(found(one.drop_last()) =~= Seq::<Lv2Plugin>::empty());
    assert(Seq::<Lv2Plugin>::empty().push(p) =~= seq![p]);
    let none: Seq<Option<Lv2Plugin>> = seq![None];
    assert(none.drop_last() =~= Seq::<Option<Lv2Plugin>>::empty());
    assert(none.last() is None);
    if b.len() == 0 {
        assert(a + b =~= a);
        assert(found(a) + found(b) =~= found(a));
    } else {
        found_plugins_are_kept(a, b.drop_last(), p);
        assert((a + b).drop_last() =~= a + b.drop_last());
        assert((a + b).last() == b.last());
        assert(found(a + b) =~= found(a) + found(b));
    }
}

/// A plugin is looked up by its URI: the first that has it is found, and none only
/// where none has it.
pub proof fn lookup_finds_the_first(plugins: Seq<Lv2Plugin>, uri: Seq<char>, i: int)
    requires
        0 <= i,
    ensures
        match plugin_at(plugins, uri, i) {
            Some(k) => i <= k < plugins.len() && plugins[k].uri@ == uri && (forall|j: int|
                i <= j < k ==> (#[trigger] plugins[j]).uri@ != uri),
            None => forall|j: int| i <= j < plugins.len() ==> (#[trigger] plugins[j]).uri@ != uri,
        },
    decreases plugins.len() - i,
{
    if i < plugins.len() && plugins[i].uri@ != uri {
        lookup_finds_the_first(plugins, uri, i + 1);
    }
}

/// The ASCII letters and digits of `s`, in their order.
pub open spec fn letters(s: Seq<char>) -> Seq<char>
    decreases s.len(),
{
    if s.len() == 0 {
        s
    } else if text::is_alnum(s.last()) {
        letters(s.drop_last()).push(s.last())
    } else {
        letters(s.drop_last())
    }
}

proof fn lemma_letters_squeezed(s: Seq<char>)
    ensures
        letters(squeezed(s)) == letters(s),
    decreases s.len(),
{
    if s.len() > 0 {
        let front = squeezed(s.drop_last());
        lemma_letters_squeezed(s.drop_last());
        assert(front.push(s.last()).drop_last() =~= front);
        assert(front.push('_').drop_last() =~= front);
    }
}

proof fn lemma_letters_join(a: Seq<char>, b: Seq<char>)
    ensures
        letters(a + b) == letters(a) + letters(b),
    decreases b.len(),
{
    if b.len() == 0 {
        assert(a + b =~= a);
        assert(letters(a) + letters(b) =~= letters(a));
    } else {
        lemma_letters_join(a, b.drop_last());
        assert((a + b).drop_last() =~= a + b.drop_last());
        assert((a + b).last() == b.last());
        assert(letters(a + b) =~= letters(a) + letters(b));
    }
}

proof fn lemma_no_letters(s: Seq<char>)
    requires
        forall|i: int| 0 <= i < s.len() ==> !text::is_alnum(#[trigger] s[i]),
    ensures
        letters(s) == Seq::<char>::empty(),
    decreases s.len(),
{
    if s.len() > 0 {
        let front = s.drop_last();
        assert forall|i: int| 0 <= i < front.len() implies !text::is_alnum(#[trigger] front[i]) by {
            assert(front[i] == s[i]);
        }
        lemma_no_letters(front);
        assert(!text::is_alnum(s[s.len() - 1]));
    } else {
        assert(s =~= Seq::<char>::empty());
    }
}

proof fn lemma_letters_left(s: Seq<char>)
    ensures
        letters(text::trim_left(s, Pad::One('_'))) == letters(s),
    decreases s.len(),
{
    if s.len() > 0 && s[0] == '_' {
        let one = seq!['_'];
        let rest = s.drop_first();
        lemma_letters_left(rest);
        lemma_letters_join(one, rest);
        assert(s =~= one + rest);
        lemma_no_letters(one);
        assert(Seq::<char>::empty() + letters(rest) =~= letters(rest));
    }
}

proof fn lemma_letters_right(s: Seq<char>)
    ensures
        letters(text::trim_right(s, Pad::One('_'))) == letters(s),
    decreases s.len(),
{
    if s.len() > 0 && s.last() == '_' {
        lemma_letters_right(s.drop_last());
    }
}

/// The folder name of a URI keeps all its ASCII letters and digits, in their order.
pub proof fn folder_name_keeps_letters(uri: Seq<char>)
    ensures
        letters(folder_name(uri)) == letters(uri),
{
    lemma_letters_squeezed(uri);
    lemma_letters_left(squeezed(uri));
    lemma_letters_right(text::trim_left(squeezed(uri), Pad::One('_')));
}

/// What stands between letters or digits of a URI becomes one `_` in its folder name,
/// however much it is; what stands at its ends is left out.
pub proof fn folder_name_parts_are_joined(a: Seq<char>, gap: Seq<char>, b: Seq<char>)
    requires
        is_folder_name(a),
        is_folder_name(b),
        a.len() > 0,
        b.len() > 0,
        gap.len() > 0,
        forall|i: int| 0 <= i < gap.len() ==> !text::is_alnum(#[trigger] gap[i]),
    ensures
        folder_name(a + gap + b) == a + seq!['_'] + b,
        folder_name(gap + a) == a,
        folder_name(a + gap) == a,
{
    let one = seq!['_'];
    lemma_squeezed_fixed(a);
    lemma_squeezed_fixed(b);
    lemma_squeezed_gap(a, gap);
    lemma_squeezed_behind(a + gap, b);
    let whole = a + one + b;
    let none = Seq::<char>::empty();
    assert(whole[0] == a[0] && whole.last() == b.last());
    text::trimming_takes_the_padding(none, whole, none, Pad::One('_'));
    assert(none + whole + none =~= whole);
    lemma_squeezed_gap(none, gap);
    assert(none + gap =~= gap);
    assert(none + one =~= one);
    lemma_squeezed_behind(gap, a);
    text::trimming_takes_the_padding(one, a, none, Pad::One('_'));
    assert(one + a + none =~= one + a);
    text::trimming_takes_the_padding(none, a, one, Pad::One('_'));
    assert(none + a + one =~= a + one);
}

proof fn lemma_squeezed_gap(a: Seq<char>, gap: Seq<char>)
    requires
        squeezed(a) == a,
        a.len() > 0 ==> a.last() != '_',
        gap.len() > 0,
        forall|i: int| 0 <= i < gap.len() ==> !text::is_alnum(#[trigger] gap[i]),
    ensures
        squeezed(a + gap) == a + seq!['_'],
    decreases gap.len(),
{
    let front = gap.drop_last();
    assert((a + gap).drop_last() =~= a + front);
    assert((a + gap).last() == gap[gap.len() - 1]);
    if front.len() == 0 {
        assert(a + front =~= a);
        assert(a.push('_') =~= a + seq!['_']);
    } else {
        assert forall|i: int| 0 <= i < front.len() implies !text::is_alnum(#[trigger] front[i]) by {
            assert(front[i] == gap[i]);
        }
        lemma_squeezed_gap(a, front);
        assert((a + seq!['_']).last() == '_');
    }
}

proof fn lemma_squeezed_behind(s: Seq<char>, b: Seq<char>)
    requires
        no_double_underscore(b),
        b.len() > 0 ==> b[0] != '_',
    ensures
        squeezed(s + b) == squeezed(s) + b,
    decreases b.len(),
{
    if b.len() == 0 {
        assert(s + b =~= s);
        assert(squeezed(s) + b =~= squeezed(s));
    } else {
        let front = b.drop_last();
        let n = b.len() - 1;
        assert forall|i: int, j: int| 0 <= i && j == i + 1 && j < front.len() implies !(
        #[trigger] front[i] == '_' && #[trigger] front[j] == '_') by {
            assert(b[i] == front[i] && b[j] == front[j]);
        }
        if front.len() > 0 {
            assert(front[0] == b[0]);
        }
        lemma_squeezed_behind(s, front);
        assert((s + b).drop_last() =~= s + front);
        assert((s + b).last() == b[n]);
        assert((squeezed(s) + front).push(b[n]) =~= squeezed(s) + b);
        if b[n] == '_' {
            assert(n > 0);
            assert(!(b[n - 1] == '_' && b[n] == '_'));
            assert((squeezed(s) + front).last() == b[n - 1]);
        }
    }
}

/// The port to link is a main audio port: the first whose designation ends with
/// `#center`; where there is none, the first that ends with `#left`; where there is
/// neither, the first. None is linked only where there is no main audio port.
pub proof fn center_then_left_then_first(
    ports: Seq<Lv2Port>,
    direction: PortDirection,
    k: int,
    j: int,
)
    requires
        primary_index(ports, direction) == Some(k),
        0 <= j < ports.len(),
        ports[j].kind is Audio && ports[j].direction == direction && !ports[j].flags.side_chain,
    ensures
        ({
            let center = |p: Lv2Port|
                p.designation is Some && text::ends_with(p.designation->0@, "#center"@);
            let left = |p: Lv2Port|
                p.designation is Some && text::ends_with(p.designation->0@, "#left"@);
            &&& 0 <= k < ports.len() && ports[k].kind is Audio && ports[k].direction == direction
                && !ports[k].flags.side_chain
            &&& center(ports[j]) ==> k <= j && center(ports[k])
            &&& left(ports[j]) ==> center(ports[k]) || k <= j && left(ports[k])
            &&& center(ports[k]) || left(ports[k]) || k <= j
        }),
{
    reveal_strlit("#center");
    reveal_strlit("#left");
    assert("#center"@.len() == 7 && "#left"@.len() == 5);
    lemma_first_main_audio(ports, direction, "#center"@, 0);
    lemma_first_main_audio(ports, direction, "#left"@, 0);
    lemma_first_main_audio(ports, direction, Seq::empty(), 0);
}

proof fn lemma_first_main_audio(
    ports: Seq<Lv2Port>,
    direction: PortDirection,
    suffix: Seq<char>,
    i: int,
)
    requires
        0 <= i,
    ensures
        match main_audio_from(ports, direction, suffix, i) {
            Some(k) => i <= k < ports.len() && is_main_audio(ports[k], direction) && (suffix.len()
                == 0 || designated(ports[k], suffix)) && (forall|j: int|
                i <= j < k ==> !(is_main_audio(#[trigger] ports[j], direction) && (suffix.len() == 0
                    || designated(ports[j], suffix)))),
            None => forall|j: int|
                i <= j < ports.len() ==> !(is_main_audio(#[trigger] ports[j], direction) && (
                suffix.len() == 0 || designated(ports[j], suffix))),
        },
    decreases ports.len() - i,
{
    if i < ports.len() {
        lemma_first_main_audio(ports, direction, suffix, i + 1);
    }
}

/// A plugin with a main audio port has one to link.
pub proof fn main_audio_is_linked(ports: Seq<Lv2Port>, direction: PortDirection)
    ensures
        primary_index(ports, direction) is Some <==> exists|j: int|
            0 <= j < ports.len() && (#[trigger] ports[j]).kind is Audio && ports[j].direction
                == direction && !ports[j].flags.side_chain,
{
    reveal_strlit("#center");
    reveal_strlit("#left");
    lemma_first_main_audio(ports, direction, "#center"@, 0);
    lemma_first_main_audio(ports, direction, "#left"@, 0);
    lemma_first_main_audio(ports, direction, Seq::empty(), 0);
    if let Some(k) = primary_index(ports, direction) {
        assert(is_main_audio(ports[k], direction));
        assert(ports[k].kind is Audio);
    }
}

/// A port and a plugin say what their fields hold, each for itself.
pub proof fn ports_say_their_fields(p: Lv2Port, plugin: Lv2Plugin, i: int)
    ensures
        p@.index == p.index && p@.symbol == p.symbol@ && p@.name == p.name@,
        p@.direction == p.direction && p@.kind == p.kind && p@.flags == p.flags,
        p.designation matches Some(s) ==> p@.designation == Some(s@),
        p.group matches Some(s) ==> p@.group == Some(s@),
        p.min matches Some(n) ==> p@.min == Some(n@),
        p.max matches Some(n) ==> p@.max == Some(n@),
        p.default matches Some(n) ==> p@.default == Some(n@),
        p.min is None <==> p@.min is None,
        p.max is None <==> p@.max is None,
        p.default is None <==> p@.default is None,
        p@.scale_points.len() == p.scale_points@.len(),
        0 <= i < p.scale_points@.len() ==> p@.scale_points[i].0 == p.scale_points@[i].0@
            && p@.scale_points[i].1 == p.scale_points@[i].1@,
        plugin@.uri == plugin.uri@ && plugin@.name == plugin.name@ && plugin@.class
            == plugin.class@,
        plugin.author matches Some(s) ==> plugin@.author == Some(s@),
        plugin@.has_native_ui == plugin.has_native_ui,
        plugin@.ports.len() == plugin.ports@.len(),
        0 <= i < plugin.ports@.len() ==> plugin@.ports[i] == plugin.ports@[i]@,
{
}

/// An output describes a plugin where some line of it is not blank.
pub proof fn only_blank_outputs_describe_none(output: Seq<char>)
    ensures
        described(output) is None <==> forall|j: int|
            0 <= j < text::lines(output).len() ==> text::trim(
                #[trigger] text::lines(output)[j],
            ).len() == 0,
{
    let ls = text::lines(output);
    first_filled_line_is_the_uri(ls, 0);
    if let Some(k) = first_filled(ls, 0) {
        assert(text::trim(ls[k]).len() > 0);
    }
}

proof fn lemma_key_is_plain(key: Seq<char>)
    requires
        key == "Name"@ || key == "Symbol"@ || key == "Group"@ || key == "Designation"@ || key
            == "Minimum"@ || key == "Maximum"@ || key == "Default"@,
    ensures
        key.len() > 0,
        forall|i: int| 0 <= i < key.len() ==> text::is_alnum(#[trigger] key[i]),
        !key.contains(':') && !key.contains('/') && !key.contains('#'),
        !text::is_white(key[0]) && !text::is_white(key.last()),
{
    reveal_strlit("Name");
    reveal_strlit("Symbol");
    reveal_strlit("Group");
    reveal_strlit("Designation");
    reveal_strlit("Minimum");
    reveal_strlit("Maximum");
    reveal_strlit("Default");
    assert forall|i: int| 0 <= i < key.len() implies text::is_alnum(#[trigger] key[i]) by {}
    assert(text::is_alnum(key[0]) && text::is_alnum(key[key.len() - 1]));
}

/// What stands behind a key of the block of a port, up to white space at the end of the
/// line, is what the described port has: behind `Name:` its name, behind `Symbol:` its
/// symbol, and so for its group, its designation, its bounds and its default. Of several
/// such lines the last counts.
pub proof fn ports_have_what_their_lines_say(
    output: Seq<char>,
    k: int,
    before: Seq<Seq<char>>,
    header: Seq<char>,
    block: Seq<Seq<char>>,
    later: Seq<Seq<char>>,
    i: int,
    indent: Seq<char>,
    key: Seq<char>,
    value: Seq<char>,
    end: Seq<char>,
)
    requires
        first_filled(text::lines(output), 0) == Some(k),
        text::lines(output).skip(k + 1) == before.push(header) + block + later,
        is_header(header),
        no_headers(block),
        begins_port(later),
        0 <= i < block.len(),
        key == "Name"@ || key == "Symbol"@ || key == "Group"@ || key == "Designation"@ || key
            == "Minimum"@ || key == "Maximum"@ || key == "Default"@,
        block[i] == indent + key + ": "@ + value + end,
        text::all_pad(indent, Pad::White),
        text::all_pad(end, Pad::White),
        value.len() == 0 || !text::is_white(value[0]) && !text::is_white(value.last()),
        forall|j: int| i < j ==> !#[trigger] tells(block, key, j),
    ensures
        ({
            let p = described(output)->0.ports[port_headers(before) as int];
            let number = if number::is_float_text(value) {
                Some(value)
            } else {
                None
            };
            &&& key == "Name"@ ==> p.name == value
            &&& key == "Symbol"@ ==> p.symbol == value
            &&& key == "Group"@ ==> p.group == Some(value)
            &&& key == "Designation"@ ==> p.designation == Some(value)
            &&& key == "Minimum"@ ==> p.min == number
            &&& key == "Maximum"@ ==> p.max == number
            &&& key == "Default"@ ==> p.default == number
        }),
{
    lemma_key_is_plain(key);
    key_lines_are_split(indent, key, value, end);
    assert(tells_last(block, key, i));
    assert(value_at(block, i) == value);
    described_ports_are_as_told(output, k, before, header, block, later, i);
}

} // verus!
