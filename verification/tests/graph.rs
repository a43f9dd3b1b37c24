use pipewire_control::level::Level;
use pipewire_control::model::{AudioLink, AudioNode, EngineCmd, NodeKind, NodeState, PwEvent};
use pipewire_control::pw_engine::{
    distinct_ids, is_default_metadata, name_in_value, read_volume, socket_step, stream_node_name,
    Backoff, CommandStep, ConnectionOutcome, NodeInfo, Playbacks, PwEngine, Reconnect, Session,
    SocketInput, SocketStep,
};
use pipewire_control::programs::{
    answer_run, fetched_volume, get_volume_args, ladspa_files, lv2_uris, set_volume_args,
    target_args, toggle_mute_args, ProgramRun,
};
use pipewire_control::state::Status;
use std::collections::BTreeMap;
use std::sync::Arc;

fn props(list: &[(&str, &str)]) -> Vec<(String, String)> {
    list.iter().map(|(k, v)| (k.to_string(), v.to_string())).collect()
}

fn sink(name: &str) -> Vec<(String, String)> {
    props(&[("media.class", "Audio/Sink"), ("node.name", name)])
}

#[test]
fn node_fields_come_from_the_properties() {
    let n = AudioNode::from_props(
        7,
        &props(&[
            ("media.class", "Stream/Output/Audio"),
            ("node.name", "old"),
            ("application.process.id", "42"),
            ("client.id", "x"),
            ("device.id", "4294967296"),
            ("object.serial", "18446744073709551615"),
            ("custom", "1"),
            ("node.name", "app"),
            ("custom", "2"),
        ]),
    );
    assert_eq!(n.id, 7);
    assert_eq!(n.node_name.as_deref(), Some("app"));
    assert_eq!(n.application_process_id, Some(42));
    assert_eq!(n.client_id, None);
    assert_eq!(n.device_id, None);
    assert_eq!(n.serial, Some(u64::MAX));
    assert_eq!(n.extra_props.len(), 1);
    assert_eq!(n.extra_props.get("custom").map(|s| s.as_str()), Some("2"));
    assert_eq!(n.state, NodeState::Creating);
    assert!(n.is_audio());
    assert_eq!(n.kind(), Some(NodeKind::StreamOutput));
}

#[test]
fn media_classes() {
    assert_eq!(NodeKind::from_media_class("Audio/Sink"), NodeKind::Sink);
    assert_eq!(NodeKind::from_media_class("Audio/Source"), NodeKind::Source);
    assert_eq!(NodeKind::from_media_class("Stream/Input/Audio"), NodeKind::StreamInput);
    assert_eq!(NodeKind::from_media_class("Audio/Duplex"), NodeKind::Duplex);
    assert_eq!(
        NodeKind::from_media_class("Video/Source"),
        NodeKind::Other("Video/Source".to_string())
    );
    assert!(!AudioNode::from_props(1, &props(&[("media.class", "Video/Source")])).is_audio());
    assert!(!AudioNode::from_props(1, &props(&[])).is_audio());
    assert!(AudioNode::from_props(1, &props(&[])).kind().is_none());
}

#[test]
fn display_name_falls_back_to_the_id() {
    let all = [("node.nick", "nick"), ("node.description", "desc"), ("node.name", "name")];
    assert_eq!(AudioNode::from_props(9, &props(&all)).display_name(), "nick");
    assert_eq!(AudioNode::from_props(9, &props(&all[1..])).display_name(), "desc");
    assert_eq!(AudioNode::from_props(9, &props(&all[2..])).display_name(), "name");
    assert_eq!(AudioNode::from_props(907, &props(&[])).display_name(), "907");
}

#[test]
fn states_in_words() {
    assert_eq!(NodeState::Creating.to_text(), "creating");
    assert_eq!(NodeState::Suspended.to_text(), "suspended");
    assert_eq!(NodeState::Idle.to_text(), "idle");
    assert_eq!(NodeState::Running.to_text(), "running");
    assert_eq!(NodeState::Error("gone".to_string()).to_text(), "error: gone");
}

#[test]
fn only_audio_nodes_enter_the_graph() {
    let mut g = PwEngine::new();
    assert!(g.node_appeared(1, None).is_none());
    assert!(g.node_appeared(1, Some(&props(&[("media.class", "Midi/Bridge")]))).is_none());
    let e = g.node_appeared(1, Some(&sink("a")));
    assert!(matches!(e, Some(PwEvent::NodeAdded(n)) if n.id == 1));
    assert_eq!(g.node_name(1).as_deref(), Some("a"));
    assert_eq!(g.node_name(2), None);
}

fn info(id: u32, list: Option<&[(&str, &str)]>) -> NodeInfo {
    NodeInfo {
        id,
        state: NodeState::Running,
        n_input_ports: 2,
        n_output_ports: 3,
        props: list.map(props),
    }
}

#[test]
fn infos_update_known_nodes() {
    let mut g = PwEngine::new();
    assert!(g.node_informed(info(1, None)).is_none());
    g.node_appeared(1, Some(&sink("a")));
    let e = g.node_informed(info(
        1,
        Some(&[("node.nick", "n1"), ("node.name", "other"), ("node.nick", "n2")]),
    ));
    match e {
        Some(PwEvent::NodeUpdated(n)) => {
            assert_eq!(n.state, NodeState::Running);
            assert_eq!((n.n_input_ports, n.n_output_ports), (2, 3));
            assert_eq!(n.node_nick.as_deref(), Some("n2"));
            assert_eq!(n.node_name.as_deref(), Some("a"));
            assert_eq!(n.extra_props.get("node.name").map(|s| s.as_str()), Some("other"));
        }
        _ => panic!("no update"),
    }
}

#[test]
fn volumes_are_told_when_they_change() {
    let v = |x: f32| Level { bits: x.to_bits() };
    let mut g = PwEngine::new();
    assert!(g.volume_read(1, v(1.0), false).is_none());
    g.node_appeared(1, Some(&sink("a")));
    assert!(g.volume_read(1, v(0.0), false).is_some());
    assert!(g.volume_read(1, v(-0.0), false).is_none());
    assert!(g.volume_read(1, v(0.0), true).is_some());
    assert!(g.volume_read(1, v(f32::NAN), true).is_some());
    assert!(g.volume_read(1, v(f32::NAN), true).is_some());
}

#[test]
fn links_are_added_once_and_then_updated() {
    let mut g = PwEngine::new();
    let l = AudioLink { id: 5, output_node: 1, input_node: 2, active: false };
    assert!(matches!(g.link_informed(l), PwEvent::LinkAdded(x) if !x.active));
    let l = AudioLink { active: true, ..l };
    assert!(matches!(g.link_informed(l), PwEvent::LinkUpdated(x) if x.active));
    assert!(matches!(g.removed(5), Some(PwEvent::LinkRemoved { id: 5 })));
    assert!(g.removed(5).is_none());
}

#[test]
fn defaults_are_named_in_json_or_bare() {
    let mut g = PwEngine::new();
    assert!(g.default_changed(Some("target.node"), Some("x")).is_none());
    assert!(g.default_changed(None, Some("x")).is_none());
    match g.default_changed(Some("default.audio.sink"), Some(r#"{"name":"alsa_output"}"#)) {
        Some(PwEvent::DefaultsChanged { sink_name, source_name }) => {
            assert_eq!(sink_name.as_deref(), Some("alsa_output"));
            assert!(source_name.is_none());
        }
        _ => panic!("no change"),
    }
    for (value, want) in [
        ("alsa_input", "alsa_input"),
        (r#"{"name": 3}"#, r#"{"name": 3}"#),
        (r#"{"nick":"x"}"#, r#"{"nick":"x"}"#),
        (r#"["name"]"#, r#"["name"]"#),
        ("", ""),
    ] {
        match g.default_changed(Some("default.audio.source"), Some(value)) {
            Some(PwEvent::DefaultsChanged { sink_name, source_name }) => {
                assert_eq!(sink_name.as_deref(), Some("alsa_output"));
                assert_eq!(source_name.as_deref(), Some(want));
            }
            _ => panic!("no change"),
        }
    }
    match g.default_changed(Some("default.audio.sink"), None) {
        Some(PwEvent::DefaultsChanged { sink_name, .. }) => assert!(sink_name.is_none()),
        _ => panic!("no change"),
    }
    assert_eq!(name_in_value("v", Some("n".to_string())), "n");
    assert_eq!(name_in_value("v", None), "v");
}

#[test]
fn default_metadata_is_marked() {
    assert!(is_default_metadata(&props(&[("a", "b"), ("metadata.name", "default")])));
    assert!(!is_default_metadata(&props(&[("metadata.name", "settings"), ("x", "default")])));
}

#[derive(Default)]
struct Replica {
    nodes: BTreeMap<u32, String>,
    links: BTreeMap<u32, bool>,
    sink: Option<String>,
}

impl Replica {
    fn follow(&mut self, e: &PwEvent) {
        match e {
            PwEvent::NodeAdded(n) | PwEvent::NodeUpdated(n) => {
                self.nodes.insert(n.id, n.display_name());
            }
            PwEvent::NodeRemoved { id } => {
                self.nodes.remove(id);
            }
            PwEvent::LinkAdded(l) | PwEvent::LinkUpdated(l) => {
                self.links.insert(l.id, l.active);
            }
            PwEvent::LinkRemoved { id } => {
                self.links.remove(id);
            }
            PwEvent::Snapshot { nodes, links, default_sink, .. } => {
                self.nodes = nodes.iter().map(|n| (n.id, n.display_name())).collect();
                self.links = links.iter().map(|l| (l.id, l.active)).collect();
                self.sink = default_sink.clone();
            }
            PwEvent::DefaultsChanged { sink_name, .. } => self.sink = sink_name.clone(),
            _ => {}
        }
    }
}

#[test]
fn a_subscriber_that_follows_has_the_graph() {
    let mut g = PwEngine::new();
    let mut r = Replica::default();
    r.follow(&g.reset());
    let mut events = Vec::new();
    events.extend(g.node_appeared(3, Some(&sink("c"))));
    events.extend(g.node_appeared(1, Some(&sink("a"))));
    events.extend(g.node_informed(info(3, Some(&[("node.nick", "C")]))));
    events.push(g.link_informed(AudioLink { id: 8, output_node: 1, input_node: 3, active: true }));
    events.extend(g.default_changed(Some("default.audio.sink"), Some("c")));
    events.extend(g.removed(1));
    for e in &events {
        r.follow(e);
    }
    let mut late = Replica::default();
    late.nodes.insert(99, "stale".to_string());
    late.follow(&g.snapshot());
    assert_eq!(r.nodes, late.nodes);
    assert_eq!(r.links, late.links);
    assert_eq!(r.sink, late.sink);
    assert_eq!(r.nodes, BTreeMap::from([(3, "C".to_string())]));
    r.follow(&g.reset());
    assert!(r.nodes.is_empty() && r.links.is_empty() && r.sink.is_none());
}

#[test]
fn copies_of_events_say_the_same() {
    let mut g = PwEngine::new();
    g.node_appeared(2, Some(&sink("b")));
    g.node_appeared(1, Some(&sink("a")));
    g.link_informed(AudioLink { id: 9, output_node: 1, input_node: 2, active: true });
    g.link_informed(AudioLink { id: 8, output_node: 1, input_node: 2, active: false });
    match g.snapshot().clone() {
        PwEvent::Snapshot { nodes, links, default_sink, default_source } => {
            let names: Vec<String> = nodes.iter().map(|n| n.display_name()).collect();
            assert_eq!(names, vec!["a".to_string(), "b".to_string()]);
            assert_eq!(links.iter().map(|l| l.id).collect::<Vec<u32>>(), vec![8, 9]);
            assert!(default_sink.is_none() && default_source.is_none());
        }
        _ => panic!("no snapshot"),
    }
}

#[test]
fn nodes_are_listed_by_id() {
    let mut g = PwEngine::new();
    for id in [30, 10, 20] {
        g.node_appeared(id, Some(&sink("x")));
    }
    let ids: Vec<u32> = g.list_nodes().iter().map(|n| n.id).collect();
    assert_eq!(ids, vec![10, 20, 30]);
}

#[test]
fn printed_volumes_are_read() {
    let (v, m) = read_volume("Volume: 0.55 [MUTED]\n").unwrap();
    assert_eq!((v.text(), m), ("0.55", true));
    let (v, m) = read_volume(" Volume: 1.00").unwrap();
    assert_eq!((v.text(), m), ("1.00", false));
    assert!(read_volume("Volume: loud").is_none());
    assert!(read_volume("Object '7' not found").is_none());
    assert!(read_volume("Volume:").is_none());
}

#[test]
fn queued_ids_are_fetched_once() {
    assert_eq!(distinct_ids(&vec![3, 1, 3, 2, 1]), vec![3, 1, 2]);
    assert_eq!(distinct_ids(&vec![]), Vec::<u32>::new());
}

fn ended(success: bool, status: &str, stdout: &str) -> ProgramRun {
    ProgramRun::Ended { success, status: status.to_string(), stdout: stdout.to_string() }
}

#[test]
fn programs_are_asked() {
    assert_eq!(get_volume_args(57), vec!["get-volume", "57"]);
    assert_eq!(set_volume_args(57, "0.2500"), vec!["set-volume", "57", "0.2500"]);
    assert_eq!(toggle_mute_args(0), vec!["set-mute", "0", "toggle"]);
    let sink = Some("pw-ctrl.preset.game");
    assert_eq!(target_args(7, sink), vec!["7", "target.object", "pw-ctrl.preset.game"]);
    assert_eq!(target_args(7, None), vec!["7", "target.object", ""]);
}

#[test]
fn runs_of_programs_are_answered() {
    assert_eq!(answer_run("wpctl", ended(true, "exit status: 0", "")), (Status::Success, None));
    assert_eq!(
        answer_run("wpctl", ended(false, "exit status: 3", "")),
        (Status::ServerError, Some("wpctl exited exit status: 3".to_string()))
    );
    assert_eq!(
        answer_run("wpctl", ProgramRun::NotStarted("no such file".to_string())),
        (Status::ServerError, Some("no such file".to_string()))
    );
}

#[test]
fn listings_need_their_program() {
    assert_eq!(lv2_uris(ended(true, "", "urn:a\n\nurn:b\n")).unwrap(), vec!["urn:a", "urn:b"]);
    assert_eq!(ladspa_files(ended(true, "", "/a.so:\n\tA (1/a)\n")).unwrap(), vec!["/a.so"]);
    assert_eq!(
        lv2_uris(ended(false, "exit status: 1", "urn:a")).err().unwrap(),
        "lv2ls exited with exit status: 1"
    );
    assert_eq!(
        lv2_uris(ProgramRun::NotStarted("gone".to_string())).err().unwrap(),
        "failed to run lv2ls: gone. Is lilv installed?"
    );
    assert_eq!(
        ladspa_files(ProgramRun::NotStarted("gone".to_string())).err().unwrap(),
        "failed to run listplugins: gone. Is ladspa-sdk installed?"
    );
}

#[test]
fn volumes_come_from_runs_that_succeed() {
    let (v, m) = fetched_volume(ended(true, "", "Volume: 0.55 [MUTED]\n")).unwrap();
    assert_eq!((v.text(), m), ("0.55", true));
    assert!(fetched_volume(ended(false, "", "Volume: 0.55")).is_none());
    assert!(fetched_volume(ProgramRun::NotStarted("gone".to_string())).is_none());
}

#[test]
fn waits_double_up_to_five_seconds() {
    let mut b = Backoff::new();
    let mut waits = Vec::new();
    for i in 0..7 {
        let outcome = if i % 2 == 0 {
            ConnectionOutcome::ConnectFailed
        } else {
            ConnectionOutcome::Disconnected
        };
        if let Reconnect::After { wait_ms } = b.ended(outcome) {
            waits.push(wait_ms);
        }
    }
    assert_eq!(waits, vec![250, 500, 1000, 2000, 4000, 5000, 5000]);
    assert_eq!(b.ended(ConnectionOutcome::Connected), Reconnect::Now);
    assert_eq!(b.ended(ConnectionOutcome::ConnectFailed), Reconnect::After { wait_ms: 250 });
    assert_eq!(b.ended(ConnectionOutcome::Shutdown), Reconnect::Stop);
}

#[test]
fn errors_on_the_core_or_a_hang_up_end_the_session() {
    let mut s = Session::new();
    assert!(!s.core_error(3, -2));
    assert_eq!(s.outcome(), ConnectionOutcome::Connected);
    assert!(s.core_error(0, -2));
    assert_eq!(s.outcome(), ConnectionOutcome::Disconnected);
    let mut s = Session::new();
    assert!(s.core_error(3, -32));
    assert!(matches!(s.command::<f32, ()>(EngineCmd::Shutdown), CommandStep::Quit));
    assert_eq!(s.outcome(), ConnectionOutcome::Shutdown);
}

#[test]
fn commands_start_and_end_playbacks() {
    let mut s = Session::new();
    let step = s.command(EngineCmd::PlayClip {
        playback_id: "p".to_string(),
        clip_id: "c".to_string(),
        samples: Arc::new(vec![0.0f32; 96_001]),
        sample_rate: 48_000,
        target_node_name: None,
        knobs: 1u8,
    });
    match step {
        CommandStep::Start { playback_id, duration_ms, .. } => {
            assert_eq!(playback_id, "p");
            assert_eq!(duration_ms, 1000);
        }
        _ => panic!("not started"),
    }
    let stop: EngineCmd<f32, u8> = EngineCmd::StopPlayback { playback_id: "p".to_string() };
    assert!(matches!(s.command(stop), CommandStep::End { playback_id } if playback_id == "p"));
    let done: EngineCmd<f32, u8> = EngineCmd::PlaybackFinished { playback_id: "q".to_string() };
    assert!(matches!(s.command(done), CommandStep::End { playback_id } if playback_id == "q"));
    assert_eq!(s.outcome(), ConnectionOutcome::Connected);
}

#[test]
fn streams_live_from_start_to_end() {
    let mut p: Playbacks<u32> = Playbacks::new();
    let e = p.started("a".to_string(), "c".to_string(), None, 5, Some(7));
    assert!(matches!(e, PwEvent::PlaybackStarted { duration_ms: 5, .. }));
    let e = p.started("b".to_string(), "c".to_string(), None, 5, None);
    assert!(matches!(e, PwEvent::PlaybackEnded { playback_id } if playback_id == "b"));
    let (stream, e) = p.ended("a".to_string());
    assert_eq!(stream, Some(7));
    assert!(matches!(e, PwEvent::PlaybackEnded { playback_id } if playback_id == "a"));
    assert_eq!(p.ended("a".to_string()).0, None);
    assert_eq!(stream_node_name("a"), "pw-ctrl.sb.a");
}

#[test]
fn sockets_recover_from_lag() {
    assert!(matches!(socket_step(SocketInput::Lagged), SocketStep::SendSnapshot));
    assert!(matches!(socket_step(SocketInput::FeedClosed), SocketStep::Leave));
    assert!(matches!(socket_step(SocketInput::Close), SocketStep::Leave));
    assert!(matches!(socket_step(SocketInput::Gone), SocketStep::Leave));
    assert!(matches!(socket_step(SocketInput::Other), SocketStep::Wait));
    assert!(matches!(socket_step(SocketInput::Ping(vec![1])), SocketStep::Pong(d) if d == vec![1]));
    let e = PwEvent::NodeRemoved { id: 4 };
    assert!(matches!(
        socket_step(SocketInput::Event(e)),
        SocketStep::Send(PwEvent::NodeRemoved { id: 4 })
    ));
}
