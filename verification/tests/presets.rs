use pipewire_control::ladspa::{self, LadspaCatalog};
use pipewire_control::level::Level;
use pipewire_control::lv2::{self, Lv2Catalog};
use pipewire_control::mic_requests::RemapAnswer;
use pipewire_control::number::Number;
use pipewire_control::preset::{
    make_id, ChainNodeKind, ChannelLayout, OutputAssignment, Preset,
};
use pipewire_control::state::{
    get_ladspa_plugin, get_lv2_plugin, AddChainNodeBody, AddChainTagged, AddOutputBody, AppState, CreatePresetBody, Status,
    UpdatePresetBody,
};
use pipewire_control::virtual_mic::{make_mic_id, mix_name, source_name, VirtualMic};

fn level(v: f32) -> Level {
    Level { bits: v.to_bits() }
}

fn with_preset(name: &str) -> AppState {
    let mut s = AppState::default();
    s.create_preset(CreatePresetBody { name: name.to_string(), outputs: vec![] }).unwrap();
    s
}

fn no_catalogs() -> (Lv2Catalog, LadspaCatalog) {
    (Lv2Catalog { plugins: vec![] }, LadspaCatalog { plugins: vec![] })
}

fn plain(uri: &str, position: Option<usize>) -> AddChainNodeBody {
    AddChainNodeBody::LegacyLv2 { plugin_uri: uri.to_string(), position, label: None }
}

fn uris(p: &Preset) -> Vec<String> {
    p.chain
        .iter()
        .map(|n| match &n.kind {
            ChainNodeKind::Lv2 { plugin_uri, .. } => plugin_uri.clone(),
            ChainNodeKind::Ladspa { path, label, .. } => format!("{path}::{label}"),
            ChainNodeKind::Builtin { label, .. } => label.clone(),
        })
        .collect()
}

#[test]
fn layouts() {
    let all = [
        (ChannelLayout::Mono, 1, "[ MONO ]"),
        (ChannelLayout::Stereo, 2, "[ FL FR ]"),
        (ChannelLayout::Surround51, 6, "[ FL FR FC LFE RL RR ]"),
        (ChannelLayout::Surround71, 8, "[ FL FR FC LFE RL RR SL SR ]"),
    ];
    for (l, n, p) in all {
        assert_eq!(l.channels(), n);
        assert_eq!(l.position(), p);
    }
    assert_eq!(ChannelLayout::default(), ChannelLayout::Stereo);
}

#[test]
fn ids_are_those_of_the_lower_case_name() {
    for name in ["My Preset", "ΟΔΥΣΣΕΥΣ 7", "İstanbul", "K-pop", "ẞ", "already-low"] {
        assert_eq!(make_id(&name.to_lowercase()), make_id(name), "{}", name);
        assert_eq!(make_mic_id(&name.to_lowercase()), make_mic_id(name), "{}", name);
    }
    // Every character, in rows of neighbours: what is in lower case stays.
    let all: Vec<char> = ('\0'..=char::MAX).collect();
    for row in all.chunks(97) {
        let name: String = row.iter().collect();
        let low = name.to_lowercase();
        assert_eq!(low.to_lowercase(), low);
        assert_eq!(make_id(&low), make_id(&name));
    }
}

#[test]
fn names_without_letters_and_digits_have_no_id() {
    for name in ["", "---", "é ü", "!?", "日本"] {
        assert_eq!(make_id(name), "", "{}", name);
    }
    assert_eq!(make_id("é1ü"), "1");
}

#[test]
fn copies_say_the_same() {
    let mut s = with_preset("Game");
    let (lv2, ladspa) = no_catalogs();
    s.add_chain_node("game", plain("urn:a", None), &lv2, &ladspa);
    s.set_chain_control("game", 0, "gain".to_string(), Number::parse("0.5").unwrap());
    s.add_output("game", AddOutputBody { node_name: "out".to_string(), volume: level(0.5) });
    s.add_source_input("game", "src".to_string());
    s.create_virtual_mic("Mic".to_string()).unwrap();
    s.add_mic_input("mic", "in".to_string(), level(0.25));
    assert_eq!(format!("{:?}", s.presets[0].clone()), format!("{:?}", s.presets[0]));
    assert_eq!(s.presets[0].clone().chain.len(), 1);
    assert_eq!(format!("{:?}", s.virtual_mics[0].clone()), format!("{:?}", s.virtual_mics[0]));
    assert_eq!(s.virtual_mics[0].clone().inputs[0].gain.bits, 0.25f32.to_bits());
}

#[test]
fn ids_are_lower_case_dashed_and_stable() {
    for (name, id) in [
        ("Game Audio", "game-audio"),
        ("  !Chat!  ", "chat"),
        ("a  b", "a--b"),
        ("ÄB\u{130}", "b-i"),
        ("---", ""),
        ("", ""),
        ("K\u{212A}", "kk"),
    ] {
        assert_eq!(make_id(name), make_mic_id(name));
        assert_eq!(make_id(&make_id(name)), make_id(name));
        if name.is_ascii() || name.starts_with('K') {
            assert_eq!(make_id(name), id);
        }
    }
    let p = Preset::new("Game Audio");
    assert_eq!(p.name, "Game Audio");
    assert_eq!(p.pw_node_name(), "pw-ctrl.preset.game-audio");
    assert!(p.chain.is_empty() && p.outputs.is_empty() && p.source_inputs.is_empty());
}

#[test]
fn presets_of_the_same_id_conflict() {
    let mut s = with_preset("Game");
    let outputs = vec![OutputAssignment { node_name: "hw".to_string(), volume: level(0.5) }];
    let r = s.create_preset(CreatePresetBody { name: "GAME!".to_string(), outputs });
    assert_eq!(r, Err(Status::Conflict));
    let outputs = vec![OutputAssignment { node_name: "hw".to_string(), volume: level(0.5) }];
    let r = s.create_preset(CreatePresetBody { name: "Chat".to_string(), outputs });
    assert_eq!(r, Ok((Status::Created, 1)));
    assert_eq!(s.presets[1].outputs[0].node_name, "hw");
    assert_eq!(s.get_preset("chat").unwrap().name, "Chat");
    assert_eq!(s.get_preset("Chat").err(), Some(Status::NotFound));
}

#[test]
fn presets_are_updated_and_deleted() {
    let mut s = with_preset("Game");
    let body = UpdatePresetBody { name: Some("New".to_string()), channels: None };
    assert_eq!(s.update_preset("game", body), Status::Success);
    assert_eq!(s.presets[0].name, "New");
    assert_eq!(s.presets[0].id, "game");
    let body = UpdatePresetBody { name: None, channels: Some(ChannelLayout::Mono) };
    assert_eq!(s.update_preset("game", body), Status::Success);
    assert_eq!((s.presets[0].name.as_str(), s.presets[0].channels), ("New", ChannelLayout::Mono));
    let body = UpdatePresetBody { name: None, channels: None };
    assert_eq!(s.update_preset("new", body), Status::NotFound);
    assert_eq!(s.delete_preset("absent"), Status::NoContent);
    assert_eq!(s.presets.len(), 1);
    assert_eq!(s.delete_preset("game"), Status::NoContent);
    assert!(s.presets.is_empty());
}

#[test]
fn deleting_takes_back_what_was_created() {
    let mut s = with_preset("Game");
    s.create_preset(CreatePresetBody { name: "Chat".to_string(), outputs: vec![] }).unwrap();
    s.create_virtual_mic("A".to_string()).unwrap();
    s.create_virtual_mic("B".to_string()).unwrap();
    assert_eq!(s.get_preset("game").unwrap().name, "Game");
    assert_eq!(s.delete_preset("chat"), Status::NoContent);
    assert_eq!(s.presets.len(), 1);
    assert_eq!(s.get_preset("game").unwrap().name, "Game");
    assert_eq!(s.get_preset("chat").err(), Some(Status::NotFound));
    assert_eq!(s.delete_virtual_mic("a"), Status::NoContent);
    assert_eq!(s.get_virtual_mic("a").err(), Some(Status::NotFound));
    assert_eq!(s.get_virtual_mic("b").unwrap().name, "B");
    let (lv2, ladspa) = no_catalogs();
    s.add_chain_node("game", plain("a", None), &lv2, &ladspa).unwrap();
    let (_, i, pos) = s.add_chain_node("game", plain("b", Some(0)), &lv2, &ladspa).unwrap();
    assert_eq!((i, pos), (0, 0));
    assert_eq!(s.remove_chain_node("game", pos), Status::Success);
    assert_eq!(uris(&s.presets[0]), vec!["a"]);
}

#[test]
fn outputs_are_added_set_and_removed() {
    let mut s = with_preset("Game");
    let body = |n: &str| AddOutputBody { node_name: n.to_string(), volume: level(1.0) };
    assert_eq!(s.add_output("absent", body("a")), Status::NotFound);
    assert_eq!(s.add_output("game", body("a")), Status::Success);
    assert_eq!(s.add_output("game", body("b")), Status::Success);
    assert_eq!(s.update_output_volume("game", 1, level(0.25)), Status::Success);
    assert_eq!(s.update_output_volume("game", 2, level(0.25)), Status::NotFound);
    assert_eq!(s.update_output_volume("absent", 0, level(0.25)), Status::NotFound);
    assert_eq!(s.presets[0].outputs[1].volume.bits, level(0.25).bits);
    assert_eq!(s.remove_output("game", 0), Status::Success);
    assert_eq!(s.remove_output("game", 1), Status::NotFound);
    assert_eq!(s.remove_output("absent", 0), Status::NotFound);
    assert_eq!(s.presets[0].outputs.len(), 1);
    assert_eq!(s.presets[0].outputs[0].node_name, "b");
}

#[test]
fn source_inputs_are_held_once() {
    let mut s = with_preset("Game");
    assert_eq!(s.add_source_input("game", "mic".to_string()), Status::Success);
    assert_eq!(s.add_source_input("game", "mic".to_string()), Status::Conflict);
    assert_eq!(s.add_source_input("absent", "mic".to_string()), Status::NotFound);
    assert_eq!(s.remove_source_input("game", 1), Status::NotFound);
    assert_eq!(s.remove_source_input("absent", 0), Status::NotFound);
    assert_eq!(s.remove_source_input("game", 0), Status::Success);
    assert!(s.presets[0].source_inputs.is_empty());
}

#[test]
fn routes_are_kept_under_the_node_name() {
    let mut s = with_preset("Game");
    assert_eq!(s.route_stream("absent", Some("app".to_string())), Err((Status::NotFound, "preset not found")));
    assert_eq!(s.route_stream("game", None), Ok("pw-ctrl.preset.game".to_string()));
    assert_eq!(s.stream_routes.len(), 0);
    assert_eq!(
        s.route_stream("game", Some("app".to_string())),
        Ok("pw-ctrl.preset.game".to_string())
    );
    assert_eq!(s.stream_routes.get("app").map(|r| r.as_str()), Some("game"));
    s.unroute_stream(None);
    assert_eq!(s.stream_routes.len(), 1);
    s.unroute_stream(Some("app".to_string()));
    assert_eq!(s.stream_routes.len(), 0);
}

#[test]
fn absent_plugins_are_not_found() {
    let (lv2, ladspa) = no_catalogs();
    assert_eq!(get_lv2_plugin(&lv2, "urn:a").err(), Some(Status::NotFound));
    assert_eq!(get_ladspa_plugin(&ladspa, "/a.so::a").err(), Some(Status::NotFound));
    let text = "Plugin Name: \"A\"\nPlugin Label: \"a\"\nPlugin Unique ID: 2\nPorts:\t\"In\" input, audio\n";
    let ladspa = LadspaCatalog { plugins: ladspa::parse_analyseplugin(text, "/a.so") };
    assert_eq!(get_ladspa_plugin(&ladspa, "/a.so::a").unwrap().unique_id, 2);
    assert_eq!(get_ladspa_plugin(&ladspa, "/a.so::b").err(), Some(Status::NotFound));
}

#[test]
fn new_nodes_get_the_first_free_id() {
    let mut s = with_preset("Game");
    let (lv2, ladspa) = no_catalogs();
    assert_eq!(s.add_chain_node("absent", plain("a", None), &lv2, &ladspa), Err(Status::NotFound));
    assert_eq!(s.add_chain_node("game", plain("a", None), &lv2, &ladspa), Ok((Status::Created, 0, 0)));
    assert_eq!(s.add_chain_node("game", plain("b", Some(99)), &lv2, &ladspa), Ok((Status::Created, 0, 1)));
    assert_eq!(s.add_chain_node("game", plain("c", Some(0)), &lv2, &ladspa), Ok((Status::Created, 0, 0)));
    assert_eq!(uris(&s.presets[0]), vec!["c", "a", "b"]);
    let ids: Vec<&str> = s.presets[0].chain.iter().map(|n| n.id.as_str()).collect();
    assert_eq!(ids, vec!["n2", "n0", "n1"]);
    assert_eq!(s.remove_chain_node("game", 1), Status::Success);
    assert_eq!(s.remove_chain_node("game", 2), Status::NotFound);
    assert_eq!(s.remove_chain_node("absent", 0), Status::NotFound);
    assert_eq!(s.presets[0].next_chain_id(), "n0");
}

#[test]
fn moved_nodes_stay_in_the_chain() {
    let mut s = with_preset("Game");
    let (lv2, ladspa) = no_catalogs();
    for u in ["a", "b", "c"] {
        s.add_chain_node("game", plain(u, None), &lv2, &ladspa).unwrap();
    }
    assert_eq!(s.move_chain_node("game", 0, 99), Status::Success);
    assert_eq!(uris(&s.presets[0]), vec!["b", "c", "a"]);
    assert_eq!(s.move_chain_node("game", 2, 0), Status::Success);
    assert_eq!(uris(&s.presets[0]), vec!["a", "b", "c"]);
    assert_eq!(s.move_chain_node("game", 3, 0), Status::NotFound);
    assert_eq!(s.move_chain_node("absent", 0, 0), Status::NotFound);
}

#[test]
fn controls_start_at_the_defaults_of_the_catalog() {
    let mut s = with_preset("Game");
    let text = "urn:eq\n\tPort 0:\n\t\tType: http://lv2plug.in/ns/lv2core#ControlPort\n\t\tSymbol: gain\n\t\tDefault: 1.5\n\tPort 1:\n\t\tType: http://lv2plug.in/ns/lv2core#ControlPort\n\t\t\thttp://lv2plug.in/ns/lv2core#OutputPort\n\t\tSymbol: meter\n\t\tDefault: 0\n\tPort 2:\n\t\tType: http://lv2plug.in/ns/lv2core#ControlPort\n\t\tSymbol: bare\n";
    let lv2 = lv2::collect_plugins(vec![lv2::parse_lv2info(text).ok()]);
    let out = "Plugin Name: \"Amp\"\nPlugin Label: \"amp\"\nPlugin Unique ID: 1\nPorts:\t\"Gain\" input, control, 0 to ..., default 1\n\t\"Meter\" output, control, 0 to 1, default 0\n";
    let ladspa = ladspa::collect_plugins(vec![ladspa::parse_analyseplugin(out, "/amp.so")]);
    let tagged = AddChainNodeBody::Tagged(AddChainTagged::Lv2 {
        plugin_uri: "urn:eq".to_string(),
        position: None,
        label: Some("EQ".to_string()),
    });
    s.add_chain_node("game", tagged, &lv2, &ladspa).unwrap();
    let tagged = AddChainNodeBody::Tagged(AddChainTagged::Ladspa {
        path: "/amp.so".to_string(),
        plugin_label: "amp".to_string(),
        position: None,
        label: None,
    });
    s.add_chain_node("game", tagged, &lv2, &ladspa).unwrap();
    let chain = &s.presets[0].chain;
    assert_eq!(chain[0].label.as_deref(), Some("EQ"));
    match &chain[0].kind {
        ChainNodeKind::Lv2 { controls, .. } => {
            assert_eq!(controls.len(), 1);
            assert_eq!(controls.get("gain").unwrap().text(), "1.5");
        }
        _ => panic!("not lv2"),
    }
    match &chain[1].kind {
        ChainNodeKind::Ladspa { controls, .. } => {
            assert_eq!(controls.len(), 1);
            assert_eq!(controls.get("Gain").unwrap().text(), "1");
        }
        _ => panic!("not ladspa"),
    }
}

#[test]
fn chain_nodes_are_set() {
    let mut s = with_preset("Game");
    let (lv2, ladspa) = no_catalogs();
    s.add_chain_node("game", plain("a", None), &lv2, &ladspa).unwrap();
    let half = || Number::parse("0.5").unwrap();
    assert_eq!(s.set_chain_control("game", 0, "q".to_string(), half()), Status::Success);
    assert_eq!(s.set_chain_control("game", 1, "q".to_string(), half()), Status::NotFound);
    assert_eq!(s.set_chain_control("absent", 0, "q".to_string(), half()), Status::NotFound);
    assert_eq!(s.set_chain_bypass("game", 0, true), Status::Success);
    assert_eq!(s.set_chain_bypass("game", 1, true), Status::NotFound);
    assert_eq!(s.set_chain_label("game", 0, Some("L".to_string())), Status::Success);
    assert_eq!(s.set_chain_label("game", 1, None), Status::NotFound);
    let n = &s.presets[0].chain[0];
    assert!(n.bypass);
    assert_eq!(n.label.as_deref(), Some("L"));
    match &n.kind {
        ChainNodeKind::Lv2 { controls, .. } => assert_eq!(controls.get("q").unwrap().text(), "0.5"),
        _ => panic!("not lv2"),
    }
    for kind in [
        ChainNodeKind::Builtin { label: "copy".to_string(), controls: Default::default() },
        ChainNodeKind::Ladspa { path: "/a".to_string(), label: "l".to_string(), controls: Default::default() },
    ] {
        let mut p = Preset::new("x");
        p.insert_node(kind, None, None);
        assert!(p.set_control(0, "q".to_string(), half()));
    }
}

#[test]
fn mics_are_created_once() {
    let mut s = AppState::default();
    assert_eq!(s.create_virtual_mic("Stream Mic".to_string()), Ok((Status::Created, 0)));
    assert_eq!(s.create_virtual_mic("stream mic".to_string()), Err(Status::Conflict));
    assert_eq!(s.get_virtual_mic("stream-mic").unwrap().name, "Stream Mic");
    assert_eq!(s.get_virtual_mic("x").err(), Some(Status::NotFound));
    assert_eq!(s.update_virtual_mic("stream-mic", Some("Other".to_string())), Status::Success);
    assert_eq!(s.update_virtual_mic("stream-mic", None), Status::Success);
    assert_eq!(s.update_virtual_mic("x", None), Status::NotFound);
    assert_eq!(s.virtual_mics[0].name, "Other");
    assert_eq!(s.virtual_mics[0].id, "stream-mic");
    assert_eq!(s.delete_virtual_mic("x"), Status::NoContent);
    assert_eq!(s.delete_virtual_mic("stream-mic"), Status::NoContent);
    assert!(s.virtual_mics.is_empty());
    assert_eq!(VirtualMic::new("A B").id, "a-b");
}

#[test]
fn mic_inputs_are_added_set_and_removed() {
    let mut s = AppState::default();
    s.create_virtual_mic("m".to_string()).unwrap();
    assert_eq!(s.add_mic_input("m", "a".to_string(), level(1.0)), Status::Success);
    assert_eq!(s.add_mic_input("x", "a".to_string(), level(1.0)), Status::NotFound);
    assert_eq!(s.update_mic_input_gain("m", 0, level(0.5)), Status::Success);
    assert_eq!(s.update_mic_input_gain("m", 1, level(0.5)), Status::NotFound);
    assert_eq!(s.virtual_mics[0].inputs[0].gain.bits, level(0.5).bits);
    assert_eq!(s.remove_mic_input("m", 1), Status::NotFound);
    assert_eq!(s.remove_mic_input("m", 0), Status::Success);
    assert_eq!(s.remove_mic_input("x", 0), Status::NotFound);
    assert!(s.virtual_mics[0].inputs.is_empty());
}

#[test]
fn remapping_rewrites_every_reference() {
    let mut s = with_preset("Game");
    s.create_virtual_mic("Old".to_string()).unwrap();
    for n in [mix_name("old"), source_name("old"), "other".to_string()] {
        s.add_output("game", AddOutputBody { node_name: n.clone(), volume: level(1.0) });
        s.add_source_input("game", n);
    }
    s.update_virtual_mic("old", Some("New Mic".to_string()));
    match s.remap_virtual_mic("old") {
        RemapAnswer::Changed { new_id } => assert_eq!(new_id, "new-mic"),
        _ => panic!("not changed"),
    }
    let want = vec!["pw-ctrl.vmic.new-mic.mix", "pw-ctrl.vmic.new-mic", "other"];
    let outputs: Vec<&str> = s.presets[0].outputs.iter().map(|o| o.node_name.as_str()).collect();
    assert_eq!(outputs, want);
    assert_eq!(s.presets[0].source_inputs, want);
    assert_eq!(s.virtual_mics[0].id, "new-mic");
    let again = s.remap_virtual_mic("new-mic");
    assert!(matches!(again, RemapAnswer::Unchanged));
    assert_eq!(again.status(), Status::Success);
    assert!(again.refusal().is_none());
}

#[test]
fn remapping_is_refused() {
    let mut s = AppState::default();
    s.create_virtual_mic("a".to_string()).unwrap();
    s.create_virtual_mic("b".to_string()).unwrap();
    let r = s.remap_virtual_mic("x");
    assert_eq!((r.status(), r.refusal().unwrap()), (Status::NotFound, "vmic not found".to_string()));
    s.update_virtual_mic("a", Some("!!".to_string()));
    let r = s.remap_virtual_mic("a");
    assert_eq!((r.status(), r.refusal().unwrap()), (Status::BadRequest, "name slug is empty".to_string()));
    s.update_virtual_mic("a", Some("B".to_string()));
    let r = s.remap_virtual_mic("a");
    assert_eq!((r.status(), r.refusal().unwrap()), (Status::Conflict, "id b already in use".to_string()));
    assert_eq!(s.virtual_mics[0].id, "a");
}

#[test]
fn statuses_have_their_codes() {
    let all = [
        (Status::Success, 200),
        (Status::Created, 201),
        (Status::NoContent, 204),
        (Status::BadRequest, 400),
        (Status::NotFound, 404),
        (Status::Conflict, 409),
        (Status::ServerError, 500),
    ];
    for (s, c) in all {
        assert_eq!(s.code(), c);
    }
}

#[test]
fn state_file() {
    assert_eq!(
        AppState::config_path_in(Some(b"/home/u/.config".to_vec())),
        b"/home/u/.config/pipewire-control/state.toml"
    );
    assert_eq!(AppState::config_path_in(None), b"~/.config/pipewire-control/state.toml");
    assert!(AppState::config_path().ends_with(b"/pipewire-control/state.toml"));
}
