//! The programs that are run for a request: what they are asked, and what is made
//! of how they ended.

use vstd::prelude::*;
use crate::ladspa;
use crate::lv2;
use crate::number;
use crate::number::Number;
use crate::pw_engine;
use crate::state::Status;
use crate::text;

verus! {

// ── What programs are asked ──────────────────────────────────────────────────

fn id_text(id: u32) -> (r: String)
    ensures
        r@ == number::decimal(id as nat),
{
    let mut r = "".to_owned();
    number::push_decimal(&mut r, id as u64);
    proof {
        reveal_strlit("");
        assert(r@ =~= number::decimal(id as nat));
    }
    r
}

/// The words with which to ask `wpctl` for the volume of a node.
pub fn get_volume_args(id: u32) -> (r: Vec<String>)
    ensures
        text::texts(r@) == seq!["get-volume"@, number::decimal(id as nat)],
{
    let mut r: Vec<String> = Vec::new();
    r.push("get-volume".to_owned());
    r.push(id_text(id));
    assert(text::texts(r@) =~= seq!["get-volume"@, number::decimal(id as nat)]);
    r
}

/// The words with which to ask `wpctl` to set the volume of a node, which is
/// written as `volume`.
pub fn set_volume_args(id: u32, volume: &str) -> (r: Vec<String>)
    ensures
        text::texts(r@) == seq!["set-volume"@, number::decimal(id as nat), volume@],
{
    let mut r: Vec<String> = Vec::new();
    r.push("set-volume".to_owned());
    r.push(id_text(id));
    r.push(volume.to_owned());
    assert(text::texts(r@) =~= seq!["set-volume"@, number::decimal(id as nat), volume@]);
    r
}

/// The words with which to ask `wpctl` to mute a node, or to end that.
pub fn toggle_mute_args(id: u32) -> (r: Vec<String>)
    ensures
        text::texts(r@) == seq!["set-mute"@, number::decimal(id as nat), "toggle"@],
{
    let mut r: Vec<String> = Vec::new();
    r.push("set-mute".to_owned());
    r.push(id_text(id));
    r.push("toggle".to_owned());
    assert(text::texts(r@) =~= seq!["set-mute"@, number::decimal(id as nat), "toggle"@]);
    r
}

/// The words with which to ask `pw-metadata` to send a stream to the sink `target`,
/// or back to the default where there is none.
pub fn target_args(node_id: u32, target: Option<&str>) -> (r: Vec<String>)
    ensures
        text::texts(r@) == seq![
            number::decimal(node_id as nat),
            "target.object"@,
            match target {
                Some(t) => t@,
                None => ""@,
            },
        ],
{
    let mut r: Vec<String> = Vec::new();
    r.push(id_text(node_id));
    r.push("target.object".to_owned());
    r.push(
        match target {
            Some(t) => t.to_owned(),
            None => "".to_owned(),
        },
    );
    assert(text::texts(r@) =~= seq![
        number::decimal(node_id as nat),
        "target.object"@,
        match target {
            Some(t) => t@,
            None => ""@,
        },
    ]);
    r
}

// ── How programs end ─────────────────────────────────────────────────────────

/// How the run of a program ended.
#[derive(Debug)]
pub enum ProgramRun {
    /// It could not be started; why.
    NotStarted(String),
    /// It ended, with a status that is written as `status`.
    Ended { success: bool, status: String, stdout: String },
}

/// What is answered after the run of a program that only had to succeed: the
/// status, and words where it failed.
pub open spec fn run_answer(program: Seq<char>, run: ProgramRun) -> (Status, Option<Seq<char>>) {
    match run {
        ProgramRun::NotStarted(e) => (Status::ServerError, Some(e@)),
        ProgramRun::Ended { success, status, .. } => if success {
            (Status::Success, None)
        } else {
            (Status::ServerError, Some(program + " exited "@ + status@))
        },
    }
}

/// Answers after the run of a program that only had to succeed.
pub fn answer_run(program: &str, run: ProgramRun) -> (r: (Status, Option<String>))
    ensures
        (r.0, text::opt_text(r.1)) == run_answer(program@, run),
{
    match run {
        ProgramRun::NotStarted(e) => (Status::ServerError, Some(e)),
        ProgramRun::Ended { success, status, .. } => if success {
            (Status::Success, None)
        } else {
            let mut words = program.to_owned();
            words.append(" exited ");
            words.append(status.as_str());
            (Status::ServerError, Some(words))
        },
    }
}

/// What a program that lists plugins printed, or the words for why there is no
/// list: `hint` tells what may be missing.
pub open spec fn listing(
    program: Seq<char>,
    hint: Seq<char>,
    run: ProgramRun,
) -> Result<Seq<char>, Seq<char>> {
    match run {
        ProgramRun::NotStarted(e) => Err("failed to run "@ + program + ": "@ + e@ + ". "@ + hint),
        ProgramRun::Ended { success, status, stdout } => if success {
            Ok(stdout@)
        } else {
            Err(program + " exited with "@ + status@)
        },
    }
}

fn printed_listing(program: &str, hint: &str, run: ProgramRun) -> (r: Result<String, String>)
    ensures
        match r {
            Ok(out) => listing(program@, hint@, run) == Ok::<Seq<char>, Seq<char>>(out@),
            Err(words) => listing(program@, hint@, run) == Err::<Seq<char>, Seq<char>>(words@),
        },
{
    match run {
        ProgramRun::NotStarted(e) => {
            let mut words = "failed to run ".to_owned();
            words.append(program);
            words.append(": ");
            words.append(e.as_str());
            words.append(". ");
            words.append(hint);
            Err(words)
        },
        ProgramRun::Ended { success, status, stdout } => if success {
            Ok(stdout)
        } else {
            let mut words = program.to_owned();
            words.append(" exited with ");
            words.append(status.as_str());
            Err(words)
        },
    }
}

/// The URIs of the LV2 plugins to scan, after the run of `lv2ls`.
pub fn lv2_uris(run: ProgramRun) -> (r: Result<Vec<String>, String>)
    ensures
        match r {
            Ok(uris) => listing("lv2ls"@, "Is lilv installed?"@, run) matches Ok(out)
                && text::texts(uris@) == lv2::filled_lines(text::lines(out)),
            Err(words) => listing("lv2ls"@, "Is lilv installed?"@, run) matches Err(w) && words@
                == w,
        },
{
    match printed_listing("lv2ls", "Is lilv installed?", run) {
        Ok(out) => Ok(lv2::listed_uris(out.as_str())),
        Err(words) => Err(words),
    }
}

/// The files of LADSPA plugins to scan, after the run of `listplugins`.
pub fn ladspa_files(run: ProgramRun) -> (r: Result<Vec<String>, String>)
    ensures
        match r {
            Ok(files) => listing("listplugins"@, "Is ladspa-sdk installed?"@, run) matches Ok(out)
                && text::texts(files@) == ladspa::files_named(text::lines(out)),
            Err(words) => listing("listplugins"@, "Is ladspa-sdk installed?"@, run) matches Err(w)
                && words@ == w,
        },
{
    match printed_listing("listplugins", "Is ladspa-sdk installed?", run) {
        Ok(out) => Ok(ladspa::listed_files(out.as_str())),
        Err(words) => Err(words),
    }
}

/// The volume of a node and whether it is muted, after the run of `wpctl`.
pub fn fetched_volume(run: ProgramRun) -> (r: Option<(Number, bool)>)
    ensures
        match r {
            Some((n, m)) => run matches ProgramRun::Ended { success, stdout, .. } && success
                && pw_engine::volume_printed(stdout@) == Some((n@, m)),
            None => run matches ProgramRun::Ended { success, stdout, .. } ==> (success
                ==> pw_engine::volume_printed(stdout@) is None),
        },
{
    match run {
        ProgramRun::NotStarted(_) => None,
        ProgramRun::Ended { success, stdout, .. } => if success {
            pw_engine::read_volume(stdout.as_str())
        } else {
            None
        },
    }
}

// ── What is told of a run ────────────────────────────────────────────────────

/// A run is answered with success, and without words, only where the program ended so;
/// else the words tell why it was not started, or the program and how it exited.
pub proof fn runs_are_answered_as_they_ended(program: Seq<char>, run: ProgramRun)
    ensures
        ({
            let (status, words) = run_answer(program, run);
            &&& status is Success <==> (run is Ended && run->success)
            &&& status is Success || status is ServerError
            &&& status is Success <==> words is None
            &&& run matches ProgramRun::NotStarted(e) ==> words == Some(e@)
            &&& run matches ProgramRun::Ended { success, status: s, stdout } ==> (!success
                ==> words == Some(program + " exited "@ + s@))
        }),
{
}

/// A list is what the program printed, where it succeeded; else the words name the
/// program and tell how it exited, or why it was not started and what may be missing.
pub proof fn lists_are_what_was_printed(program: Seq<char>, hint: Seq<char>, run: ProgramRun)
    ensures
        listing(program, hint, run) is Ok <==> (run is Ended && run->success),
        run matches ProgramRun::Ended { success, status, stdout } ==> (success ==> listing(
            program,
            hint,
            run,
        ) == Ok::<Seq<char>, Seq<char>>(stdout@)) && (!success ==> listing(program, hint, run)
            == Err::<Seq<char>, Seq<char>>(program + " exited with "@ + status@)),
        run matches ProgramRun::NotStarted(e) ==> listing(program, hint, run) == Err::<
            Seq<char>,
            Seq<char>,
        >("failed to run "@ + program + ": "@ + e@ + ". "@ + hint),
{
}

} // verus!
