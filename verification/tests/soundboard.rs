use pipewire_control::level::Level;
use pipewire_control::maps::TextMap;
use pipewire_control::model::PwEvent;
use pipewire_control::playback::{DecodedClip, PlaybackEntry};
use pipewire_control::soundboard::{
    build_clip, clip_path, clip_path_in, default_volume, download_args, download_file_name,
    download_template, found_download, title_args,
    downloaded_path, filter_clips, normalize_tags, printed_title, probed_duration, slugify,
    sounds_dir, sounds_dir_in, tag_index, template_name, unique_file_name, upload_file_name,
    DownloadError, ProbedDuration, SoundClip,
};
use pipewire_control::soundboard_api::{
    follow_event, list_playbacks, list_sounds, list_tags, mime_for, order_lost, play_sound,
    set_playback_loop, set_playback_volume, stop_playback, youtube_name, FieldRead, ListQuery,
    LoopBody, PlayBody, UpdateSoundBody, UploadForm, UploadStep, VolumeBody, YoutubeBody,
};
use pipewire_control::state::{AppState, Status};
use std::sync::Arc;

fn texts(v: &[&str]) -> Vec<String> {
    v.iter().map(|s| s.to_string()).collect()
}

fn clip(name: &str, tags: &[&str]) -> SoundClip {
    build_clip(name.to_string(), format!("{name}.ogg"), texts(tags), None, 10, 20)
}

fn level(v: f32) -> Level {
    Level { bits: v.to_bits() }
}

fn is_hyphenated(s: &str) -> bool {
    let groups: Vec<&str> = s.split('-').collect();
    groups.iter().map(|g| g.len()).collect::<Vec<usize>>() == vec![8, 4, 4, 4, 12]
        && groups.concat().chars().all(|c| c.is_ascii_digit() || ('a'..='f').contains(&c))
        && groups[2].starts_with('4')
        && ['8', '9', 'a', 'b'].contains(&groups[3].chars().next().unwrap())
}

#[test]
fn slugs() {
    for (s, want) in [
        ("Air Horn", "air-horn"),
        ("  Air . Horn!! ", "air-horn"),
        ("a--b__c", "a--b__c"),
        ("trailing -", "trailing"),
        ("...", "clip"),
        ("", "clip"),
        ("Ünï", "n"),
        ("-x", "-x"),
    ] {
        assert_eq!(slugify(s), want);
        assert_eq!(slugify(&slugify(s)), slugify(s));
    }
}

#[test]
fn file_names_are_counted_up_until_one_is_free() {
    assert_eq!(unique_file_name("a", "ogg", &vec![]), "a.ogg");
    assert_eq!(unique_file_name("a", "ogg", &texts(&["a.ogg"])), "a-2.ogg");
    assert_eq!(unique_file_name("a", "ogg", &texts(&["a-2.ogg", "a.ogg", "a-3.ogg"])), "a-4.ogg");
}

#[test]
fn uploads_keep_their_extension() {
    assert_eq!(upload_file_name("Horn.MP3", Some("Air Horn"), &vec![]), "air-horn.mp3");
    assert_eq!(upload_file_name("My Horn.wav", None, &texts(&["my-horn.wav"])), "my-horn-2.wav");
    assert_eq!(upload_file_name("noext", None, &vec![]), "noext.bin");
    assert_eq!(upload_file_name("..", None, &vec![]), "clip.bin");
}

#[test]
fn tags_are_normalized() {
    assert_eq!(normalize_tags(texts(&[" Meme ", "funny", "", "  ", "MEME", "Ünï"])), texts(&["funny", "meme", "ünï"]));
    assert_eq!(normalize_tags(vec![]), Vec::<String>::new());
    let kept = normalize_tags(texts(&["b c", " A", "b c "]));
    assert_eq!(kept, texts(&["a", "b c"]));
    assert_eq!(normalize_tags(kept.clone()), kept);
}

#[test]
fn new_clips_have_a_uuid_and_the_defaults() {
    let c = build_clip(
        "Horn".to_string(),
        "horn.ogg".to_string(),
        texts(&["B", "a"]),
        Some("http://x".to_string()),
        5,
        6,
    );
    assert!(is_hyphenated(&c.id));
    assert_ne!(c.id, clip("Horn", &[]).id);
    assert_eq!(c.tags, texts(&["a", "b"]));
    assert_eq!(c.default_volume.bits, 1.0f32.to_bits());
    assert_eq!(default_volume().bits, 1.0f32.to_bits());
    assert!(!c.default_loop);
    assert_eq!((c.duration_ms, c.added_at), (5, 6));
    assert_eq!(c.source_url.as_deref(), Some("http://x"));
}

#[test]
fn sounds_are_kept_below_the_configuration() {
    assert_eq!(sounds_dir_in(Some(b"/c".to_vec())), b"/c/pipewire-control/sounds");
    assert_eq!(sounds_dir_in(Some(vec![b'/', 0xfe])), b"/\xfe/pipewire-control/sounds");
    assert_eq!(clip_path_in(None, "a.ogg"), b"~/.config/pipewire-control/sounds/a.ogg");
    assert!(sounds_dir().ends_with(b"/pipewire-control/sounds"));
    assert_eq!(clip_path("a.ogg"), [sounds_dir(), b"/a.ogg".to_vec()].concat());
}

#[test]
fn probed_durations() {
    let ms = |r, n, t| match probed_duration(r, n, t) {
        ProbedDuration::Millis(ms) => Some(ms),
        ProbedDuration::FromTimeBase => None,
    };
    assert_eq!(ms(Some(44_100), Some(66_150), false), Some(1500));
    assert_eq!(ms(Some(0), Some(5), true), None);
    assert_eq!(ms(None, Some(5), true), None);
    assert_eq!(ms(Some(8000), Some(0), true), None);
    assert_eq!(ms(Some(8000), None, true), Some(0));
    assert_eq!(ms(None, Some(5), false), Some(0));
}

#[test]
fn downloads_report_their_file_last() {
    let ok = downloaded_path(true, "[info] x\n/tmp/__dl_1.ogg \n\n", String::new());
    assert_eq!(ok.unwrap(), "/tmp/__dl_1.ogg");
    let e = downloaded_path(true, " \n", String::new()).err().unwrap();
    assert_eq!(e.to_text(), "yt-dlp produced no filepath output");
    let e = downloaded_path(false, "/x", "boom".to_string()).err().unwrap();
    assert_eq!(e.to_text(), "yt-dlp failed: boom");
    let e = DownloadError::Missing("/x".to_string());
    assert_eq!(e.to_text(), "yt-dlp reported /x but file is missing");
}

#[test]
fn temporary_names_do_not_stay() {
    let t = download_template();
    assert!(t.starts_with("__dl_") && t.ends_with(".%(ext)s"));
    assert_eq!(t.len(), 5 + 32 + 8);
    assert_ne!(t, download_template());
    assert_eq!(template_name("7"), "__dl_7.%(ext)s");
    let path = format!("/s/{}", t.replace("%(ext)s", "ogg"));
    assert_eq!(download_file_name(&path, None, &vec![]), "yt-clip.ogg");
    assert_eq!(download_file_name(&path, Some("My Clip"), &vec![]), "my-clip.ogg");
    assert_eq!(download_file_name("/s/__dl_Song.OGG", None, &vec![]), "song.OGG");
    assert_eq!(download_file_name("/s/song", None, &texts(&["song.opus"])), "song-2.opus");
}

#[test]
fn printed_titles() {
    assert_eq!(printed_title(true, " A Title\n").as_deref(), Some("A Title"));
    assert_eq!(printed_title(true, " \n"), None);
    assert_eq!(printed_title(false, "A Title"), None);
}

#[test]
fn clips_are_found_by_tags_and_name() {
    let clips = vec![clip("Air Horn", &["meme", "loud"]), clip("Rain", &["calm"]), clip("AIRPORT", &["loud"])];
    let names = |tags: &[&str], q: Option<&str>| -> Vec<String> {
        filter_clips(&clips, &texts(tags), q).iter().map(|c| c.name.clone()).collect()
    };
    assert_eq!(names(&[], None), texts(&["Air Horn", "Rain", "AIRPORT"]));
    assert_eq!(names(&[" LOUD "], None), texts(&["Air Horn", "AIRPORT"]));
    assert_eq!(names(&["loud", "meme", ""], None), texts(&["Air Horn"]));
    assert_eq!(names(&[], Some("aIr")), texts(&["Air Horn", "AIRPORT"]));
    assert_eq!(names(&["calm"], Some("air")), Vec::<String>::new());
    let mut s = AppState::default();
    for c in clips {
        s.add_sound(c);
    }
    let q = ListQuery { tags: Some("loud, meme".to_string()), q: None };
    assert_eq!(list_sounds(&q, &s).len(), 1);
    let q = ListQuery { tags: None, q: Some("i".to_string()) };
    assert_eq!(list_sounds(&q, &s).len(), 3);
}

#[test]
fn tags_are_counted_most_frequent_first() {
    let clips = vec![clip("a", &["x", "b"]), clip("b", &["b", "c"]), clip("c", &["a", "c"])];
    let want: Vec<(String, usize)> =
        vec![("b".to_string(), 2), ("c".to_string(), 2), ("a".to_string(), 1), ("x".to_string(), 1)];
    assert_eq!(tag_index(&clips), want);
    let mut s = AppState::default();
    assert!(list_tags(&s).is_empty());
    s.add_sound(clip("a", &["x"]));
    assert_eq!(list_tags(&s), vec![("x".to_string(), 1)]);
}

#[test]
fn clips_are_updated_and_deleted() {
    let mut s = AppState::default();
    assert_eq!(s.add_sound(clip("a", &["x"])), 0);
    assert_eq!(s.add_sound(clip("b", &[])), 1);
    let id = s.clips[1].id.clone();
    let body = UpdateSoundBody {
        name: Some("B".to_string()),
        tags: Some(texts(&["Z", "y", "z "])),
        default_volume: Some(level(9.0)),
        default_loop: Some(true),
    };
    assert_eq!(s.update_sound(&id, body), Ok((Status::Success, 1)));
    let c = s.get_sound(&id).unwrap();
    assert_eq!(c.name, "B");
    assert_eq!(c.tags, texts(&["y", "z"]));
    assert_eq!(c.default_volume.bits, 2.0f32.to_bits());
    assert!(c.default_loop);
    let nothing = || UpdateSoundBody { name: None, tags: None, default_volume: None, default_loop: None };
    assert_eq!(s.update_sound("absent", nothing()), Err(Status::NotFound));
    assert_eq!(s.update_sound(&id, nothing()), Ok((Status::Success, 1)));
    assert_eq!(s.clips[1].tags, texts(&["y", "z"]));
    assert!(matches!(s.delete_sound("absent"), Err(Status::NotFound)));
    assert_eq!(s.sound_to_play(&id).unwrap().name, "B");
    let (status, gone) = s.delete_sound(&id).unwrap();
    assert_eq!((status, gone.file_name.as_str()), (Status::NoContent, "b.ogg"));
    assert_eq!(s.get_sound(&id).err(), Some(Status::NotFound));
    assert_eq!(s.sound_to_play(&id).err(), Some((Status::NotFound, "clip not found")));
    assert_eq!(s.clips.len(), 1);
    let first = s.clips[0].id.clone();
    assert_eq!(s.get_sound(&first).unwrap().name, "a");
}

#[test]
fn uploads_need_a_file() {
    let mut f = UploadForm::new();
    assert!(UploadForm::is_file("file") && !UploadForm::is_file("name"));
    let text = |n: &str, v: &str| FieldRead::Text { name: n.to_string(), value: Ok(v.to_string()) };
    assert!(matches!(f.on_field(text("name", "  ")), UploadStep::Next));
    assert!(matches!(f.on_field(text("tags", "a, b,")), UploadStep::Next));
    let file = FieldRead::File { file_name: Some("Air Horn.mp3".to_string()), bytes: Ok(vec![1, 2]) };
    assert!(matches!(f.on_field(file), UploadStep::Next));
    assert!(matches!(f.on_field(FieldRead::End), UploadStep::Finish));
    let u = f.finish().unwrap();
    assert_eq!(u.original_name, "Air Horn.mp3");
    assert_eq!(u.display_name, "Air Horn");
    assert_eq!(u.bytes, vec![1, 2]);
    assert_eq!(u.tags, texts(&["a", " b", ""]));
    assert_eq!(u.stem_hint, "air-horn");

    let mut f = UploadForm::new();
    f.take_file(None, vec![]);
    f.take_text("name".to_string(), "Shown".to_string());
    let u = f.finish().unwrap();
    assert_eq!((u.original_name.as_str(), u.display_name.as_str()), ("upload.bin", "Shown"));
    assert!(u.tags.is_empty());
    assert_eq!(UploadForm::new().finish().err(), Some((Status::BadRequest, "missing 'file' field")));
}

#[test]
fn stored_files_become_clips() {
    let mut s = AppState::default();
    let mut f = UploadForm::new();
    f.take_file(Some("Air Horn.mp3".to_string()), vec![1]);
    f.take_text("tags".to_string(), "B, a,b,".to_string());
    let u = f.finish().unwrap();
    assert_eq!(s.ingest_upload(u, "air-horn.mp3".to_string(), 7, 8), (Status::Created, 0));
    let c = &s.clips[0];
    assert_eq!((c.name.as_str(), c.file_name.as_str()), ("Air Horn", "air-horn.mp3"));
    assert_eq!(c.tags, texts(&["a", "b"]));
    assert_eq!((c.duration_ms, c.added_at), (7, 8));
    assert!(c.source_url.is_none());

    let body = YoutubeBody { url: "http://v".to_string(), name: None, tags: texts(&["X"]) };
    let r = s.ingest_download(body, "Title".to_string(), "title.ogg".to_string(), 9, 10);
    assert_eq!(r, (Status::Created, 1));
    let c = &s.clips[1];
    assert_eq!((c.name.as_str(), c.file_name.as_str()), ("Title", "title.ogg"));
    assert_eq!(c.source_url.as_deref(), Some("http://v"));
    assert_eq!(c.tags, texts(&["x"]));
    assert_eq!((c.duration_ms, c.added_at), (9, 10));
}

#[test]
fn the_downloader_is_asked_for_vorbis_of_one_video() {
    assert_eq!(
        download_args("http://v", "/d/__dl_0.%(ext)s"),
        texts(&["--no-playlist", "-x", "--audio-format", "vorbis", "-o", "/d/__dl_0.%(ext)s",
            "--print", "after_move:filepath", "http://v"])
    );
    assert_eq!(
        title_args("http://v"),
        texts(&["--no-playlist", "--print", "title", "--skip-download", "http://v"])
    );
}

#[test]
fn reported_downloads_have_to_exist() {
    assert_eq!(found_download("/d/x.ogg".to_string(), true).ok(), Some("/d/x.ogg".to_string()));
    let e = found_download("/d/x.ogg".to_string(), false).err().unwrap();
    assert_eq!(e.to_text(), "yt-dlp reported /d/x.ogg but file is missing");
}

#[test]
fn broken_uploads_are_refused() {
    let mut f = UploadForm::new();
    let refused = |s: UploadStep| match s {
        UploadStep::Refuse(status, words) => (status, words),
        _ => panic!("not refused"),
    };
    let file = FieldRead::File { file_name: None, bytes: Err("cut".to_string()) };
    assert_eq!(refused(f.on_field(file)), (Status::BadRequest, "file read: cut".to_string()));
    let text = FieldRead::Text { name: "name".to_string(), value: Err("cut".to_string()) };
    assert_eq!(refused(f.on_field(text)), (Status::BadRequest, "field read: cut".to_string()));
    let failed = FieldRead::Failed("cut".to_string());
    assert_eq!(refused(f.on_field(failed)), (Status::BadRequest, "multipart: cut".to_string()));
}

#[test]
fn youtube_requests_need_a_url() {
    let body = |url: &str, name: Option<&str>| YoutubeBody {
        url: url.to_string(),
        name: name.map(|n| n.to_string()),
        tags: vec![],
    };
    assert_eq!(body(" ", None).check().err(), Some((Status::BadRequest, "missing url")));
    assert_eq!(body("u", Some(" ")).check(), Ok(None));
    assert_eq!(body("u", Some("N")).check(), Ok(Some("N".to_string())));
    assert_eq!(youtube_name(Some("N".to_string()), Some("T".to_string())), "N");
    assert_eq!(youtube_name(None, Some("T".to_string())), "T");
    assert_eq!(youtube_name(None, None), "YouTube Clip");
}

fn playing(body: PlayBody) -> (TextMap<PlaybackEntry>, String) {
    let mut pbs = TextMap::new();
    let mut c = clip("a", &[]);
    c.default_volume = level(0.75);
    c.default_loop = true;
    let decoded = DecodedClip { samples: Arc::new(vec![0.0f32; 16_000]), sample_rate: 8000 };
    let (status, order) = play_sound(&mut pbs, &c, &body, Ok(decoded), 99).ok().unwrap();
    assert_eq!(status, Status::Success);
    assert_eq!(order.duration_ms, 1000);
    assert_eq!(order.clip_id, c.id);
    assert_eq!(order.playback_id.len(), 32);
    (pbs, order.playback_id)
}

#[test]
fn playbacks_start_with_the_defaults_of_the_clip() {
    let (pbs, id) = playing(PlayBody::default());
    let infos = list_playbacks(&pbs);
    assert_eq!(infos.len(), 1);
    assert_eq!(infos[0].playback_id, id);
    assert_eq!(infos[0].volume.bits, 0.75f32.to_bits());
    assert!(infos[0].loop_mode);
    assert_eq!((infos[0].duration_ms, infos[0].started_at), (1000, 99));
    let (pbs, _) = playing(PlayBody {
        target_node_name: Some("sink".to_string()),
        volume: Some(level(-3.0)),
        loop_mode: Some(false),
    });
    let infos = list_playbacks(&pbs);
    assert_eq!(infos[0].volume.bits, 0);
    assert!(!infos[0].loop_mode);
    assert_eq!(infos[0].target_node_name.as_deref(), Some("sink"));
}

#[test]
fn undecoded_clips_do_not_play() {
    let mut pbs: TextMap<PlaybackEntry> = TextMap::new();
    let c = clip("a", &[]);
    let bad: Result<DecodedClip<f32>, String> = Err("no codec".to_string());
    let r = play_sound(&mut pbs, &c, &PlayBody::default(), bad, 0);
    assert_eq!(r.err(), Some((Status::ServerError, "decode: no codec".to_string())));
    assert_eq!(pbs.len(), 0);
}

#[test]
fn running_playbacks_are_changed_by_id() {
    let (mut pbs, id) = playing(PlayBody::default());
    assert_eq!(set_playback_volume(&mut pbs, "x", VolumeBody { volume: level(1.0) }), Status::NotFound);
    assert_eq!(set_playback_volume(&mut pbs, &id, VolumeBody { volume: level(5.0) }), Status::Success);
    assert_eq!(set_playback_loop(&mut pbs, "x", LoopBody { loop_mode: false }), Status::NotFound);
    assert_eq!(set_playback_loop(&mut pbs, &id, LoopBody { loop_mode: false }), Status::Success);
    assert_eq!(stop_playback(&mut pbs, "x"), Status::NotFound);
    assert_eq!(stop_playback(&mut pbs, &id), Status::Success);
    let e = pbs.get(&id).unwrap();
    assert_eq!(e.knobs.volume().bits, 2.0f32.to_bits());
    assert!(!e.knobs.looped() && e.knobs.stop_requested());
}

#[test]
fn ended_and_lost_playbacks_are_forgotten() {
    let (mut pbs, id) = playing(PlayBody::default());
    follow_event(&mut pbs, &PwEvent::NodeRemoved { id: 1 });
    assert_eq!(pbs.len(), 1);
    follow_event(&mut pbs, &PwEvent::PlaybackEnded { playback_id: id });
    assert_eq!(pbs.len(), 0);
    let (mut pbs, id) = playing(PlayBody::default());
    assert_eq!(order_lost(&mut pbs, &id), (Status::ServerError, "engine cmd send failed"));
    assert_eq!(pbs.len(), 0);
}

#[test]
fn media_types_go_by_the_extension() {
    for (n, t) in [
        ("a.ogg", "audio/ogg"),
        ("a.OPUS", "audio/ogg"),
        ("a.mp3", "audio/mpeg"),
        ("a.wav", "audio/wav"),
        ("a.flac", "audio/flac"),
        ("a.m4a", "audio/aac"),
        ("a.aac", "audio/aac"),
        ("a.txt", "application/octet-stream"),
        ("ogg", "application/octet-stream"),
    ] {
        assert_eq!(mime_for(n), t);
    }
}
