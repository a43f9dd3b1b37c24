use pipewire_control::ladspa::{
    collect_plugins, listed_files, parse_analyseplugin, parse_num, parse_port_line,
    plugins_from_run, primary_audio_port, unquote, LadspaCatalog, PortDirection, PortKind,
};
use pipewire_control::number::Number;

const SAMPLE: &str = r#"
Plugin Name: "Mono Amplifier"
Plugin Label: "amp_mono"
Plugin Unique ID: 1048
Maker: "Richard Furse (LADSPA example plugins)"
Copyright: "None"
Must Run Real-Time: No
Ports:	"Gain" input, control, 0 to ..., default 1, logarithmic
	"Input" input, audio
	"Output" output, audio

Plugin Name: "Stereo Amplifier"
Plugin Label: "amp_stereo"
Plugin Unique ID: 1049
Maker: "Richard Furse (LADSPA example plugins)"
Ports:	"Gain" input, control, 0 to ..., default 1, logarithmic
	"Input (Left)" input, audio
	"Output (Left)" output, audio
	"Input (Right)" input, audio
	"Output (Right)" output, audio
"#;

fn value(n: &Option<Number>) -> Option<f32> {
    n.as_ref().map(|n| n.text().parse().unwrap())
}

fn chars(s: &str) -> Vec<char> {
    s.chars().collect()
}

#[test]
fn parses_two_plugins() {
    let plugins = parse_analyseplugin(SAMPLE, "/usr/lib/ladspa/amp.so");
    assert_eq!(plugins.len(), 2);
    assert_eq!(plugins[0].label, "amp_mono");
    assert_eq!(plugins[0].name, "Mono Amplifier");
    assert_eq!(plugins[0].unique_id, 1048);
    assert_eq!(plugins[1].label, "amp_stereo");
}

#[test]
fn parses_control_port_with_default_and_log() {
    let p = &parse_analyseplugin(SAMPLE, "/x.so")[0];
    let gain = p.ports.iter().find(|x| x.name == "Gain").unwrap();
    assert_eq!(gain.kind, PortKind::Control);
    assert_eq!(gain.direction, PortDirection::Input);
    assert_eq!(value(&gain.min), Some(0.0));
    assert_eq!(value(&gain.max), None);
    assert_eq!(value(&gain.default), Some(1.0));
    assert!(gain.flags.logarithmic);
}

#[test]
fn primary_audio_picks_first_in_order() {
    let p = &parse_analyseplugin(SAMPLE, "/x.so")[1];
    let i = primary_audio_port(p, PortDirection::Input).unwrap();
    let o = primary_audio_port(p, PortDirection::Output).unwrap();
    assert_eq!(i.name, "Input (Left)");
    assert_eq!(o.name, "Output (Left)");
}

#[test]
fn parses_integer_range() {
    let line = r#""VAD Threshold (%)" input, control, 0 to 99, default 49.5, integer"#;
    let p = parse_port_line(line, 0).unwrap();
    assert_eq!(value(&p.min), Some(0.0));
    assert_eq!(value(&p.max), Some(99.0));
    assert_eq!(value(&p.default), Some(49.5));
    assert!(p.flags.integer);
}

#[test]
fn ports_are_numbered_in_order() {
    let p = &parse_analyseplugin(SAMPLE, "/x.so")[1];
    let indices: Vec<u32> = p.ports.iter().map(|x| x.index).collect();
    assert_eq!(indices, vec![0, 1, 2, 3, 4]);
    assert_eq!(p.path, "/x.so");
}

#[test]
fn port_lines_without_a_quoted_name_are_passed_over() {
    assert!(parse_port_line("no quotes here", 0).is_none());
    assert!(parse_port_line(r#""Gain" sideways, control"#, 0).is_none());
    assert!(parse_port_line(r#""Gain" input, smell"#, 0).is_none());
}

#[test]
fn quotes_come_off() {
    assert_eq!(unquote(&chars(" \"amp\" ")), "amp");
    assert_eq!(unquote(&chars("amp")), "amp");
}

#[test]
fn open_bounds_are_no_numbers() {
    assert!(parse_num(&chars("...")).is_none());
    assert_eq!(value(&parse_num(&chars("-2.5"))), Some(-2.5));
}

#[test]
fn shares_of_the_sample_rate_are_bounds() {
    for s in ["0.5*srate", " 0.5*srate ", "0.5*srate (half)", "0.5 (half)", "0.5*", "0.5**"] {
        let n = parse_num(&chars(s)).unwrap();
        assert_eq!(n.text(), "0.5", "{}", s);
    }
    for s in ["*srate", "...*srate", "0.5*rate", "srate", ""] {
        assert!(parse_num(&chars(s)).is_none(), "{}", s);
    }
    let line = r#""Freq" input, control, 0*srate to 0.5*srate, default 440"#;
    let p = parse_port_line(line, 0).unwrap();
    assert_eq!(value(&p.min), Some(0.0));
    assert_eq!(value(&p.max), Some(0.5));
    assert_eq!(value(&p.default), Some(440.0));
    let line = r#""Cutoff" input, control, -0.5*srate to ..., default 0.25*srate, logarithmic"#;
    let p = parse_port_line(line, 1).unwrap();
    assert_eq!((value(&p.min), value(&p.max)), (Some(-0.5), None));
    assert_eq!(value(&p.default), Some(0.25));
    assert!(p.flags.logarithmic);
}

#[test]
fn failed_runs_describe_nothing() {
    assert_eq!(plugins_from_run(false, SAMPLE, "/x.so").len(), 0);
    assert_eq!(plugins_from_run(true, SAMPLE, "/x.so").len(), 2);
    assert_eq!(parse_analyseplugin("", "/x.so").len(), 0);
}

#[test]
fn library_files_end_in_a_colon() {
    let out = "/usr/lib/ladspa/amp.so:\n\tMono Amplifier (1048/amp_mono)\nnot a path:\n/a/b.so:  \n";
    assert_eq!(listed_files(out), vec!["/usr/lib/ladspa/amp.so", "/a/b.so"]);
}

#[test]
fn library_files_are_listed_once() {
    let out = "/b.so:\n\tX (1/x)\n/a.so:\n/b.so: \n/a.so::\n/c.so:\n";
    assert_eq!(listed_files(out), vec!["/b.so", "/a.so", "/c.so"]);
}

#[test]
fn empty_catalogs_need_a_scan() {
    let cat = collect_plugins(vec![parse_analyseplugin(SAMPLE, "/x.so")]);
    assert!(!LadspaCatalog::needs_scan(&Some(cat)));
    assert!(LadspaCatalog::needs_scan(&None));
    assert!(LadspaCatalog::needs_scan(&Some(LadspaCatalog { plugins: vec![] })));
}

#[test]
fn catalog_is_sorted_by_lower_case_name_and_searched_by_key() {
    let a = parse_analyseplugin("Plugin Name: \"zeta\"\nPlugin Label: \"z\"\nPlugin Unique ID: 1\nPorts:\t\"In\" input, audio\n", "/z.so");
    let b = parse_analyseplugin("Plugin Name: \"Alpha\"\nPlugin Label: \"a\"\nPlugin Unique ID: 2\nPorts:\t\"In\" input, audio\n", "/a.so");
    let cat = collect_plugins(vec![a, b]);
    let names: Vec<&str> = cat.plugins.iter().map(|p| p.name.as_str()).collect();
    assert_eq!(names, vec!["Alpha", "zeta"]);
    assert_eq!(cat.plugins[0].key(), "/a.so::a");
    assert_eq!(cat.find("/z.so::z").unwrap().unique_id, 1);
    assert!(cat.find("/z.so:z").is_none());
    assert!(cat.find_pair("/z.so", "a").is_none());
    assert_eq!(cat.find_pair("/z.so", "z").unwrap().name, "zeta");
}

#[test]
fn ladspa_cache_file() {
    assert_eq!(
        LadspaCatalog::cache_path_in(Some(b"/home/u/.cache".to_vec())),
        b"/home/u/.cache/pipewire-control/ladspa-catalog.json"
    );
    assert_eq!(
        LadspaCatalog::cache_path_in(None),
        b"/tmp/pipewire-control/ladspa-catalog.json"
    );
    assert!(LadspaCatalog::cache_path().ends_with(b"/pipewire-control/ladspa-catalog.json"));
}
