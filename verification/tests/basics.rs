use pipewire_control::effects_chain::{Effect, EffectParam, EffectsChain};
use pipewire_control::ipc::{socket_path, IpcRequest, IpcResponse};
use pipewire_control::level::Level;
use pipewire_control::maps::{sorted_ids, TextMap};
use pipewire_control::number::{float_text, read_u32, read_unsigned, Number};
use pipewire_control::order::text_precedes;
use pipewire_control::paths::{extension_of, join, stem_of};
use pipewire_control::parametric_eq::EqSettings;
use pipewire_control::router::{NodeKind, Router, VirtualNode};
use pipewire_control::text::{
    char_is_alnum, char_is_digit, char_is_hex, char_is_white, lines_of, pieces, text_of, trimmed,
};
use std::collections::HashMap;
use std::path::Path;

fn chars(s: &str) -> Vec<char> {
    s.chars().collect()
}

fn level(v: f32) -> Level {
    Level { bits: v.to_bits() }
}

#[test]
fn character_classes_are_those_of_std() {
    for n in 0u32..=0x10FFFF {
        if let Some(c) = char::from_u32(n) {
            assert_eq!(char_is_white(c), c.is_whitespace());
            assert_eq!(char_is_digit(c), c.is_ascii_digit());
            assert_eq!(char_is_alnum(c), c.is_ascii_alphanumeric());
            assert_eq!(char_is_hex(c), c.is_ascii_hexdigit());
        }
    }
}

#[test]
fn trimming_and_splitting_are_those_of_std() {
    for s in ["", " ", "a", "  a b\t\n", "\u{a0}x\u{2003}", "a\r\nb\n\nc", "\n", "a\r", "x\n"] {
        let cs = chars(s);
        assert_eq!(text_of(trimmed(&cs)), s.trim());
        let ls: Vec<String> = lines_of(&cs).iter().map(|l| text_of(l)).collect();
        let std_ls: Vec<&str> = s.lines().collect();
        assert_eq!(ls, std_ls);
        let ps: Vec<String> = pieces(&cs, 'b').iter().map(|l| text_of(l)).collect();
        let std_ps: Vec<&str> = s.split('b').collect();
        assert_eq!(ps, std_ps);
    }
}

#[test]
fn integers_are_read_as_std_reads_them() {
    for s in ["", "0", "+7", "-1", "007", "4294967295", "4294967296", "18446744073709551615",
        "18446744073709551616", "1 ", "+", "1_0"] {
        let cs = chars(s);
        assert_eq!(read_u32(&cs), s.parse::<u32>().ok(), "{}", s);
        assert_eq!(read_unsigned(&cs, u64::MAX), s.parse::<u64>().ok(), "{}", s);
    }
}

#[test]
fn float_literals_are_those_of_std() {
    for s in ["", "0", "-1.5", "+.5", "5.", ".", "1e5", "1e", "1e+", "1E-3", "inf", "-Infinity",
        "nan", "NaN", "infin", "1.2.3", "0x1", " 1", "1f", "--1", "e5", ".e5", "1.e5", "+", "-"] {
        assert_eq!(float_text(&chars(s)), s.parse::<f32>().is_ok(), "{}", s);
        assert_eq!(Number::parse(s).is_some(), s.parse::<f32>().is_ok(), "{}", s);
    }
    assert_eq!(Number::parse("1.50").unwrap().text(), "1.50");
}

#[test]
fn texts_are_ordered_as_std_orders_them() {
    let all = ["", "a", "A", "ab", "b", "é", "z", "\u{ffff}", "\u{10000}"];
    for a in all {
        for b in all {
            assert_eq!(text_precedes(a, b), a < b);
        }
    }
}

#[test]
fn file_names_are_those_of_std() {
    for s in ["", "a", "a.b", "/x/a.tar.gz", ".hidden", ".hidden.txt", "a.", "..", "/", "a/..",
        "a/.", "a/b/", "a//b.c//", "./x.y", "dir.d/file", "é.ü"] {
        let p = Path::new(s);
        assert_eq!(extension_of(s).as_deref(), p.extension().map(|e| e.to_str().unwrap()), "{}", s);
        assert_eq!(stem_of(s).as_deref(), p.file_stem().map(|e| e.to_str().unwrap()), "{}", s);
    }
    for (d, n) in [("/a", "b"), ("/a/", "b"), ("", "b"), ("/a", "/b"), ("/é", "ü"), ("/a", "")] {
        assert_eq!(
            join(d.as_bytes().to_vec(), n),
            Path::new(d).join(n).to_str().unwrap().as_bytes()
        );
    }
    // A directory whose name is not UTF-8.
    assert_eq!(join(vec![b'/', 0xff], "b"), vec![b'/', 0xff, b'/', b'b']);
}

#[test]
fn levels_are_held_as_std_clamps() {
    for v in [-1.0f32, -0.0, 0.0, 0.25, 1.0, 1.5, 1.5000001, 2.0, 2.1, 1e30, f32::INFINITY,
        f32::NEG_INFINITY, f32::MIN_POSITIVE] {
        assert_eq!(level(v).for_clip().bits, v.clamp(0.0, 2.0).to_bits(), "{}", v);
        assert_eq!(level(v).for_node().bits, v.clamp(0.0, 1.5).to_bits(), "{}", v);
        for w in [-1.0f32, -0.0, 0.0, 1.0, f32::NAN] {
            assert_eq!(level(v).same(level(w)), v == w);
        }
    }
    assert!(f32::from_bits(level(f32::NAN).for_clip().bits).is_nan());
    assert!(!level(f32::NAN).same(level(f32::NAN)));
    assert_eq!(Level::unity().bits, 1.0f32.to_bits());
}

#[test]
fn text_maps_keep_the_last_value_and_their_order() {
    let mut m: TextMap<u32> = TextMap::new();
    for (k, v) in [("b", 1), ("a", 2), ("c", 3), ("b", 4)] {
        m.insert(k.to_string(), v);
    }
    assert_eq!(m.len(), 3);
    let keys: Vec<&str> = (0..m.len()).map(|i| m.key(i)).collect();
    assert_eq!(keys, vec!["a", "b", "c"]);
    assert_eq!(m.get("b"), Some(&4));
    assert_eq!(*m.value(2), 3);
    let copy = m.clone();
    assert_eq!(m.remove("b"), Some(4));
    assert_eq!(m.remove("b"), None);
    assert!(!m.contains_key("b"));
    assert_eq!(copy.get("b"), Some(&4));
    assert_eq!(TextMap::<u32>::default().len(), 0);
}

#[test]
fn ids_of_a_map_are_sorted() {
    let m = HashMap::from([(7u32, "x"), (1, "y"), (4_000_000_000, "z"), (0, "w"), (5, "v")]);
    assert_eq!(sorted_ids(&m), vec![0, 1, 5, 7, 4_000_000_000]);
    assert_eq!(sorted_ids(&HashMap::<u32, u8>::new()), Vec::<u32>::new());
}

fn sink(id: u32, name: &str) -> VirtualNode {
    VirtualNode { id, name: name.to_string(), kind: NodeKind::Sink }
}

#[test]
fn streams_go_to_the_node_they_are_routed_to() {
    let mut r = Router::default();
    r.add_node(sink(1, "game"));
    r.add_node(VirtualNode { id: 2, name: "mic".to_string(), kind: NodeKind::Source });
    r.route(10, 1);
    r.route(11, 2);
    r.route(12, 3);
    assert_eq!(r.target_for(10).unwrap().name, "game");
    assert_eq!(r.target_for(11).unwrap().name, "mic");
    assert!(r.target_for(12).is_none());
    r.unroute(11);
    assert!(r.target_for(11).is_none());
    assert_eq!(r.target_for(10).unwrap().id, 1);
}

#[test]
fn removed_nodes_lose_their_routes() {
    let mut r = Router::default();
    r.add_node(sink(1, "game"));
    r.add_node(sink(2, "chat"));
    r.route(10, 1);
    r.route(11, 1);
    r.route(12, 2);
    r.remove_node(1);
    r.add_node(sink(1, "new"));
    assert!(r.target_for(10).is_none());
    assert!(r.target_for(11).is_none());
    assert_eq!(r.target_for(12).unwrap().name, "chat");
}

#[test]
fn ipc_answers() {
    let ok = IpcResponse::ok(serde_json::to_value(7));
    assert!(ok.ok && ok.error.is_none());
    assert_eq!(ok.data, Some(serde_json::Value::from(7)));
    // A JSON object has no key that is a pair.
    let none = IpcResponse::ok(serde_json::to_value(HashMap::from([((1, 2), 3)])));
    assert!(none.ok && none.error.is_none());
    assert_eq!(none.data, Some(serde_json::Value::Null));
    let err = IpcResponse::err("no such sink".to_string());
    assert!(!err.ok && err.data.is_none());
    assert_eq!(err.error.as_deref(), Some("no such sink"));
    assert_eq!(socket_path(Some("/run/user/1000".to_string())), "/run/user/1000/pipewire-controld.sock");
    assert_eq!(socket_path(None), "/tmp/pipewire-controld.sock");
    assert!(matches!(IpcRequest::Route { stream_id: 1, sink_id: 2 }, IpcRequest::Route { .. }));
}

struct Scale {
    factor: i32,
}

struct Negate;

impl Effect<i32> for Scale {
    fn name(&self) -> &str {
        "scale"
    }

    fn process(&mut self, buffer: &mut [i32]) {
        for x in buffer.iter_mut() {
            *x = *x * self.factor + 1;
        }
    }

    fn parameters(&self) -> Vec<EffectParam> {
        Vec::new()
    }

    fn set_parameter(&mut self, _name: &str, value: Level) {
        self.factor = f32::from_bits(value.bits) as i32;
    }
}

impl Effect<i32> for Negate {
    fn name(&self) -> &str {
        "negate"
    }

    fn process(&mut self, buffer: &mut [i32]) {
        for x in buffer.iter_mut() {
            *x = -*x;
        }
    }

    fn parameters(&self) -> Vec<EffectParam> {
        Vec::new()
    }

    fn set_parameter(&mut self, _name: &str, _value: Level) {}
}

#[test]
fn effects_are_applied_in_order() {
    let mut chain: EffectsChain<i32> = EffectsChain::new();
    chain.push(Box::new(Scale { factor: 2 }));
    chain.push(Box::new(Negate));
    chain.push(Box::new(Scale { factor: 10 }));
    let mut buffer = [1, 2];
    chain.process(&mut buffer);
    assert_eq!(buffer, [-29, -49]);
    chain.remove(5);
    chain.remove(0);
    chain.process(&mut buffer);
    assert_eq!(buffer, [291, 491]);
    let mut none: EffectsChain<i32> = EffectsChain::default();
    none.process(&mut buffer);
    assert_eq!(buffer, [291, 491]);
}

#[test]
fn equalizer_parameters_are_set_by_name() {
    let mut s = EqSettings { frequency: level(440.0), gain_db: level(-3.0), q: level(0.7) };
    s.set_parameter("gain_db", level(6.0));
    s.set_parameter("absent", level(1.0));
    let told: Vec<(String, f32, f32, f32, f32)> = s
        .parameters()
        .iter()
        .map(|p| {
            let v = |l: Level| f32::from_bits(l.bits);
            (p.name.clone(), v(p.min), v(p.max), v(p.default), v(p.current))
        })
        .collect();
    assert_eq!(
        told,
        vec![
            ("frequency".to_string(), 20.0, 20000.0, 1000.0, 440.0),
            ("gain_db".to_string(), -24.0, 24.0, 0.0, 6.0),
            ("q".to_string(), 0.1, 10.0, 1.0, 0.7),
        ]
    );
}
