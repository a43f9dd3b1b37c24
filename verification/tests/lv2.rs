use pipewire_control::lv2::{
    collect_plugins, listed_uris, parse_lv2info, plugin_from_run, primary_audio_port,
    sanitize_uri, ui_override_path, Lv2Catalog, Lv2InfoError, PortDirection, PortKind,
};
use pipewire_control::number::Number;

const SAMPLE_COMPRESSOR: &str = "http://lsp-plug.in/plugins/lv2/compressor_mono

\tName:              LSP Compressor Mono
\tClass:             Compressor Plugin
\tAuthor:            LSP LV2
\tAuthor Email:      sadko@example.org
\tHas latency:       yes, reported by port 1
\tBundle:            file:///usr/lib/lv2/lsp-plugins.lv2/
\tBinary:            file:///usr/lib/lv2/lsp-plugins.lv2/lsp-plugins-lv2.so
\tUIs:
\t\thttp://lsp-plug.in/ui/lv2/compressor_mono
\t\t\tClass:  http://lv2plug.in/ns/extensions/ui#X11UI
\t\t\tBinary: file:///usr/lib/lv2/lsp-plugins.lv2/lsp-plugins-lv2ui.so
\t\t\tBundle: file:///usr/lib/lv2/lsp-plugins.lv2/
\tData URIs:         http://lv2plug.in/ns/ext/state#interface
\tPort 0:
\t\tType:        http://lv2plug.in/ns/lv2core#InputPort
\t\t             http://lv2plug.in/ns/lv2core#AudioPort
\t\tScale Points:
\t\tSymbol:      in
\t\tName:        Input
\t\tDesignation: http://lv2plug.in/ns/ext/port-groups#center
\tPort 1:
\t\tType:        http://lv2plug.in/ns/lv2core#OutputPort
\t\t             http://lv2plug.in/ns/lv2core#AudioPort
\t\tSymbol:      out
\t\tName:        Output
\t\tDesignation: http://lv2plug.in/ns/ext/port-groups#center
\tPort 2:
\t\tType:        http://lv2plug.in/ns/lv2core#ControlPort
\t\t             http://lv2plug.in/ns/lv2core#InputPort
\t\tSymbol:      enabled
\t\tName:        Enabled
\t\tDesignation: http://lv2plug.in/ns/lv2core#enabled
\t\tMinimum:     0.000000
\t\tMaximum:     1.000000
\t\tDefault:     1.000000
\t\tProperties:  http://lv2plug.in/ns/lv2core#toggled
\tPort 3:
\t\tType:        http://lv2plug.in/ns/lv2core#ControlPort
\t\t             http://lv2plug.in/ns/lv2core#InputPort
\t\tSymbol:      in2lk
\t\tName:        Input to Link mix
\t\tMinimum:     0.000000
\t\tMaximum:     10.000000
\t\tDefault:     0.000000
\t\tProperties:  http://lv2plug.in/ns/ext/port-props#hasStrictBounds
\t\t             http://lv2plug.in/ns/ext/port-props#logarithmic
";

const SAMPLE_CHORUS: &str = "http://lsp-plug.in/plugins/lv2/chorus_mono

\tName:              LSP Chorus Mono
\tClass:             Chorus Plugin
\tPort 0:
\t\tType:        http://lv2plug.in/ns/lv2core#ControlPort
\t\t             http://lv2plug.in/ns/lv2core#InputPort
\t\tScale Points:
\t\t\t0 = \"off\"
\t\t\t1 = \"12 dB/oct\"
\t\t\t2 = \"24 dB/oct\"
\t\t\t3 = \"36 dB/oct\"
\t\tSymbol:      hpm
\t\tName:        High-pass filter mode
\t\tMinimum:     0
\t\tMaximum:     3
\t\tDefault:     0
\t\tProperties:  http://lv2plug.in/ns/lv2core#integer
\t\t             http://lv2plug.in/ns/ext/port-props#hasStrictBounds
";

fn value(n: &Option<Number>) -> Option<f32> {
    n.as_ref().map(|n| n.text().parse().unwrap())
}

#[test]
fn parses_compressor_header() {
    let p = parse_lv2info(SAMPLE_COMPRESSOR).expect("parse ok");
    assert_eq!(p.uri, "http://lsp-plug.in/plugins/lv2/compressor_mono");
    assert_eq!(p.name, "LSP Compressor Mono");
    assert_eq!(p.class, "Compressor Plugin");
    assert!(p.has_native_ui);
    assert!(!p.ports.is_empty());
}

#[test]
fn parses_audio_in_out() {
    let p = parse_lv2info(SAMPLE_COMPRESSOR).unwrap();
    let audio_in = p.ports.iter().find(|x| x.symbol == "in").unwrap();
    assert_eq!(audio_in.kind, PortKind::Audio);
    assert_eq!(audio_in.direction, PortDirection::Input);
    let audio_out = p.ports.iter().find(|x| x.symbol == "out").unwrap();
    assert_eq!(audio_out.kind, PortKind::Audio);
    assert_eq!(audio_out.direction, PortDirection::Output);
}

#[test]
fn parses_control_port_with_properties() {
    let p = parse_lv2info(SAMPLE_COMPRESSOR).unwrap();
    let in2lk = p.ports.iter().find(|x| x.symbol == "in2lk").unwrap();
    assert_eq!(in2lk.kind, PortKind::Control);
    assert!(in2lk.flags.logarithmic);
    assert!(in2lk.flags.strict_bounds);
    assert_eq!(value(&in2lk.min), Some(0.0));
    assert!(value(&in2lk.max).unwrap() > 9.9);
}

#[test]
fn parses_designation_enabled() {
    let p = parse_lv2info(SAMPLE_COMPRESSOR).unwrap();
    let enabled = p.ports.iter().find(|x| x.symbol == "enabled").unwrap();
    assert_eq!(
        enabled.designation.as_deref(),
        Some("http://lv2plug.in/ns/lv2core#enabled")
    );
    assert!(enabled.flags.toggled);
}

#[test]
fn parses_enumeration_with_scale_points() {
    let p = parse_lv2info(SAMPLE_CHORUS).unwrap();
    let hpm = p
        .ports
        .iter()
        .find(|x| x.symbol == "hpm")
        .expect("chorus_mono should expose hpm");
    assert!(hpm.flags.enumeration);
    assert!(hpm.flags.integer);
    assert_eq!(hpm.scale_points.len(), 4);
    assert!(hpm
        .scale_points
        .iter()
        .any(|(v, l)| v.text().parse::<f32>().unwrap() == 0.0 && l == "off"));
}

#[test]
fn primary_port_prefers_center_designation() {
    let p = parse_lv2info(SAMPLE_COMPRESSOR).unwrap();
    let inp = primary_audio_port(&p, PortDirection::Input).unwrap();
    assert_eq!(inp.symbol, "in");
    let outp = primary_audio_port(&p, PortDirection::Output).unwrap();
    assert_eq!(outp.symbol, "out");
}

#[test]
fn every_port_header_begins_a_port() {
    for sample in [SAMPLE_COMPRESSOR, SAMPLE_CHORUS] {
        let p = parse_lv2info(sample).unwrap();
        let headers = sample.lines().filter(|l| l.trim().starts_with("Port ")).count();
        assert_eq!(p.ports.len(), headers);
        assert!(p.ports.iter().all(|x| x.scale_points.is_empty() || x.flags.enumeration));
    }
}

#[test]
fn sanitize_matches_dump_script_format() {
    assert_eq!(
        sanitize_uri("http://lsp-plug.in/plugins/lv2/compressor_mono"),
        "http_lsp_plug_in_plugins_lv2_compressor_mono"
    );
}

#[test]
fn sanitizing_twice_changes_nothing() {
    for uri in ["", "___", "urn:a--b", "http://x/y#z", "plain"] {
        let once = sanitize_uri(uri);
        assert_eq!(sanitize_uri(&once), once);
        assert!(!once.starts_with('_') && !once.ends_with('_'));
    }
    assert_eq!(sanitize_uri("urn:a--b"), "urn_a_b");
    assert_eq!(ui_override_path("urn:a--b"), "/lv2-ui/urn_a_b/index.js");
}

#[test]
fn center_goes_before_left_and_left_before_the_first() {
    let text = "urn:x\n\tPort 0:\n\t\tType: http://lv2plug.in/ns/lv2core#AudioPort\n\t\tSymbol: a\n\tPort 1:\n\t\tType: http://lv2plug.in/ns/lv2core#AudioPort\n\t\tSymbol: b\n\t\tDesignation: urn:g#left\n";
    let p = parse_lv2info(text).unwrap();
    assert_eq!(primary_audio_port(&p, PortDirection::Input).unwrap().symbol, "b");
    assert!(primary_audio_port(&p, PortDirection::Output).is_none());
}

#[test]
fn blank_output_is_refused() {
    assert!(matches!(parse_lv2info("\n  \n"), Err(Lv2InfoError::Empty)));
    assert!(plugin_from_run(true, "").is_none());
    assert!(plugin_from_run(false, SAMPLE_CHORUS).is_none());
    assert_eq!(plugin_from_run(true, SAMPLE_CHORUS).unwrap().name, "LSP Chorus Mono");
}

#[test]
fn nameless_plugin_is_called_after_its_uri() {
    let p = parse_lv2info("http://example.org/plugins/fuzz\n").unwrap();
    assert_eq!(p.name, "fuzz");
    assert_eq!(p.class, "Plugin");
    assert!(p.author.is_none());
    assert!(!p.has_native_ui);
}

#[test]
fn uris_are_listed_one_on_each_line() {
    assert_eq!(listed_uris("urn:a\n\n  urn:b \r\n"), vec!["urn:a", "urn:b"]);
}

#[test]
fn failed_plugins_are_skipped_and_the_rest_sorted() {
    let b = parse_lv2info("urn:b\n\tName: beta\n").ok();
    let a = parse_lv2info("urn:a\n\tName: Alpha\n").ok();
    let cat = collect_plugins(vec![b, None, a]);
    let names: Vec<&str> = cat.plugins.iter().map(|p| p.name.as_str()).collect();
    assert_eq!(names, vec!["Alpha", "beta"]);
    assert_eq!(cat.find("urn:b").unwrap().name, "beta");
    assert!(cat.find("urn:c").is_none());
    assert!(!Lv2Catalog::needs_scan(&Some(cat)));
    assert!(Lv2Catalog::needs_scan(&None));
    assert!(Lv2Catalog::needs_scan(&Some(Lv2Catalog { plugins: vec![] })));
}

#[test]
fn lv2_cache_file() {
    assert_eq!(
        Lv2Catalog::cache_path_in(Some(b"/c/".to_vec())),
        b"/c/pipewire-control/lv2-catalog.json"
    );
    assert!(Lv2Catalog::cache_path().ends_with(b"/pipewire-control/lv2-catalog.json"));
}
