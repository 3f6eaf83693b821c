//! The running program's state: the project that is open, the background work that
//! is under way, and what becomes of its results.
//!
//! Windows, threads and files are handled elsewhere: every function here changes
//! the state and says in [`Actions`] what is to be done outside.

use crate::arrange::{Arranged, Placement, TIME_LIMIT};
use crate::discover::{join_path, Shoot};
use crate::ffmpeg::HwAccel;
use crate::model::{
    clips_in_range, file_name, last_part_range, Camera, Clip, Grade, LayoutId, Project, Range, Slot, CAMERA_COUNT,
};
use crate::sampling::{is_project_ok, sample_total};
use crate::text::{chars_of, join2, join3, join4, number_text};
use vstd::prelude::*;

verus! {

/// The pages of the side panel.
#[derive(Debug, Clone, Copy, PartialEq, Eq, Structural)]
pub enum Tab {
    Import,
    Layout,
    Grade,
    Export,
}

/// Flags and counters.
#[derive(Debug, Clone, Copy)]
pub struct Flow {
    /// There are changes that are not saved.
    pub dirty: bool,
    pub hwaccel: HwAccel,
    pub hwaccel_checked: bool,
    /// Length of the master recording, once it is loaded.
    pub wav: Option<i64>,
    pub syncing: bool,
    pub sync_done: usize,
    pub sync_total: usize,
    pub grading: bool,
    pub grade_done: usize,
    pub grade_total: usize,
    /// What the last automatic grade produced.
    pub auto_grades: Option<(Grade, Grade, Grade)>,
    /// Preview without any grade.
    pub show_original: bool,
    /// Folder scans still running for an opened folder.
    pub pending_scans: usize,
    /// Sync starts as soon as the scans and the master recording have arrived.
    pub auto_sync: bool,
    pub tab: Tab,
}

/// The running program's state.
#[derive(Debug)]
pub struct App {
    pub project: Project,
    pub project_path: Option<String>,
    pub status: String,
    pub error: Option<String>,
    /// Names of clips that the running sync could not match.
    pub unmatched: Vec<String>,
    pub flow: Flow,
}

/// What is to be done outside.
#[derive(Debug, Clone, Copy, PartialEq, Eq, Structural)]
pub struct Actions {
    /// End all decoders; they restart at the current time.
    pub reset_streams: bool,
    /// Set the decoders up anew.
    pub rebuild_streams: bool,
    /// Look at every camera again.
    pub revisit: bool,
    /// Show the whole timeline again.
    pub reset_view: bool,
    /// Find the decode path.
    pub detect_hwaccel: bool,
    /// Sync all clips.
    pub start_sync: bool,
    /// Measure all cameras.
    pub start_grade: bool,
    /// Load the project's master recording.
    pub load_wav: bool,
    /// Stop at the start, without a recording.
    pub stop: bool,
}

/// Nothing is to be done.
pub open spec fn no_actions() -> Actions {
    Actions {
        reset_streams: false,
        rebuild_streams: false,
        revisit: false,
        reset_view: false,
        detect_hwaccel: false,
        start_sync: false,
        start_grade: false,
        load_wav: false,
        stop: false,
    }
}

/// Nothing is to be done.
fn nothing() -> (a: Actions)
    ensures
        a == no_actions(),
{
    Actions {
        reset_streams: false,
        rebuild_streams: false,
        revisit: false,
        reset_view: false,
        detect_hwaccel: false,
        start_sync: false,
        start_grade: false,
        load_wav: false,
        stop: false,
    }
}

/// The characters of the error that is shown.
pub open spec fn error_of(s: App) -> Option<Seq<char>> {
    crate::probe::text_of(s.error)
}

/// Everything but the cameras is the same.
pub open spec fn only_cameras(a: Project, b: Project) -> bool {
    &&& a.version == b.version
    &&& a.wav == b.wav
    &&& a.layout == b.layout
    &&& a.slots == b.slots
    &&& a.output == b.output
    &&& a.range == b.range
    &&& a.cameras@.len() == b.cameras@.len()
}

/// Some camera has a clip.
pub open spec fn has_clip(project: Project) -> bool {
    exists|c: int| 0 <= c < project.cameras@.len() && (#[trigger] project.cameras@[c]).clips@.len() > 0
}

/// Number of clips of the first `n` cameras.
pub open spec fn clip_total(project: Project, n: int) -> int
    decreases n,
{
    if n <= 0 {
        0
    } else {
        clip_total(project, n - 1) + project.cameras@[n - 1].clips@.len()
    }
}

/// Number of clips of all cameras, as far as it can be counted.
pub open spec fn clip_count(project: Project) -> int {
    crate::sampling::least(clip_total(project, project.cameras@.len() as int), usize::MAX as int)
}

/// `done` of `total`.
pub open spec fn progress_text(verb: Seq<char>, done: int, total: int, noun: Seq<char>) -> Seq<char> {
    verb + crate::text::decimal(done as nat) + "/"@ + crate::text::decimal(total as nat) + noun
}

/// `done` of `total`.
fn progress(verb: &str, done: usize, total: usize, noun: &str) -> (s: String)
    ensures
        s@ == progress_text(verb@, done as int, total as int, noun@),
{
    let d: String = number_text(done as u64);
    let t: String = number_text(total as u64);
    let head: String = join4(verb, d.as_str(), "/", t.as_str());
    join2(head.as_str(), noun)
}

/// Seconds with one place.
pub open spec fn tenths_text(t: int) -> Seq<char> {
    let d = crate::units::even_rounded(
        if t < 0 {
            0
        } else {
            t
        },
        100_000,
    );
    crate::text::decimal((d / 10) as nat) + "."@ + crate::text::decimal((d % 10) as nat)
}

/// Seconds with one place.
pub fn seconds_text(t: i64) -> (s: String)
    ensures
        s@ == tenths_text(t as int),
{
    let u: i64 = if t < 0 {
        0
    } else {
        t
    };
    let d: i128 = crate::units::round_even(u as i128, 100_000);
    proof {
        crate::units::lemma_even_near(u as int, 100_000);
    }
    let a: String = number_text((d / 10) as u64);
    let b: String = number_text((d % 10) as u64);
    join3(a.as_str(), ".", b.as_str())
}

/// Texts with a separator between them.
pub open spec fn joined(list: Seq<Seq<char>>, sep: Seq<char>) -> Seq<char>
    decreases list.len(),
{
    if list.len() == 0 {
        Seq::empty()
    } else if list.len() == 1 {
        list[0]
    } else {
        joined(list.drop_last(), sep) + sep + list.last()
    }
}

/// Texts with a separator between them.
pub fn join_all(list: &Vec<String>, sep: &str) -> (s: String)
    ensures
        s@ == joined(crate::text::text_views(list@), sep@),
{
    let ghost views = crate::text::text_views(list@);
    let mut s: String = String::new();
    let mut i: usize = 0;
    assert(views.take(0) =~= Seq::<Seq<char>>::empty());
    while i < list.len()
        invariant
            views == crate::text::text_views(list@),
            i <= list@.len(),
            s@ == joined(views.take(i as int), sep@),
        decreases list@.len() - i,
    {
        proof {
            assert(views.take(i + 1).drop_last() =~= views.take(i as int));
            assert(views.take(i + 1).last() == list@[i as int]@);
        }
        if i > 0 {
            s.append(sep);
        } else {
            assert(s@ =~= Seq::<char>::empty());
        }
        s.append(list[i].as_str());
        proof {
            if i == 0 {
                assert(s@ =~= list@[0]@);
                assert(views.take(1).len() == 1);
            }
        }
        i = i + 1;
    }
    assert(views.take(i as int) =~= views);
    s
}

/// What a path is called: its last part, or the path itself where it has none.
pub open spec fn name_of(path: Seq<char>) -> Seq<char> {
    match crate::model::last_part(path) {
        Some(n) => n,
        None => path,
    }
}

/// What a path is called: its last part, or the path itself where it has none.
pub fn existing_name(path: &str) -> (s: String)
    ensures
        s@ == name_of(path@),
{
    let v: Vec<char> = chars_of(path);
    match last_part_range(&v) {
        Some((a, b)) => path.substring_char(a, b).to_owned(),
        None => path.to_owned(),
    }
}

/// The first clip of the first camera that has one.
pub fn first_clip(project: &Project) -> (r: Option<String>)
    ensures
        r is Some <==> has_clip(*project),
        r matches Some(p) ==> exists|c: int|
            {
                &&& 0 <= c < project.cameras@.len()
                &&& (#[trigger] project.cameras@[c]).clips@.len() > 0
                &&& p@ == project.cameras@[c].clips@[0].path@
                &&& forall|d: int| 0 <= d < c ==> (#[trigger] project.cameras@[d]).clips@.len() == 0
            },
{
    let mut c: usize = 0;
    while c < project.cameras.len()
        invariant
            c <= project.cameras@.len(),
            forall|d: int| 0 <= d < c ==> (#[trigger] project.cameras@[d]).clips@.len() == 0,
        decreases project.cameras@.len() - c,
    {
        if project.cameras[c].clips.len() > 0 {
            assert(project.cameras@[c as int].clips@.len() > 0);
            return Some(project.cameras[c].clips[0].path.clone());
        }
        c = c + 1;
    }
    None
}

/// Whether all grades are untouched.
pub open spec fn untouched(project: Project) -> bool {
    forall|c: int| 0 <= c < project.cameras@.len() ==> (#[trigger] project.cameras@[c]).grade == Grade::neutral()
}

// ---------------------------------------------------------------- what the functions do

/// The state after a look for the decode path was asked for.
pub open spec fn hwaccel_asked(s: Flow, project: Project) -> (Flow, bool) {
    if s.hwaccel_checked || !has_clip(project) {
        (s, false)
    } else {
        (Flow { hwaccel_checked: true, ..s }, true)
    }
}

/// The deferred sync is due: every scan and the master recording are in.
pub open spec fn sync_due(f: Flow) -> bool {
    f.auto_sync && f.pending_scans == 0 && f.wav is Some
}

/// The flags after sync was started with `total` clips.
pub open spec fn sync_begun(f: Flow, total: int) -> Flow {
    if total == 0 {
        f
    } else {
        Flow { syncing: true, sync_done: 0, sync_total: total as usize, ..f }
    }
}

/// `b` is `a` after the deferred sync was looked at: started where it is due.
pub open spec fn after_maybe_sync(a: App, b: App, started: bool) -> bool {
    let total = clip_count(a.project);
    &&& b.project == a.project
    &&& b.project_path == a.project_path
    &&& b.error == a.error
    &&& b.unmatched == a.unmatched
    &&& if sync_due(a.flow) {
        &&& b.flow == sync_begun(Flow { auto_sync: false, ..a.flow }, total)
        &&& started == (total > 0)
        &&& b.status@ == if total > 0 {
            progress_text("Syncing "@, 0, total, " clips…"@)
        } else {
            a.status@
        }
    } else {
        &&& b.flow == a.flow
        &&& !started
        &&& b.status == a.status
    }
}

/// One scan less is running.
pub open spec fn scan_done(f: Flow) -> Flow {
    Flow {
        pending_scans: if f.pending_scans == 0 {
            0
        } else {
            (f.pending_scans - 1) as usize
        },
        ..f
    }
}

/// `b` is `a` after the clips of a camera were found.
pub open spec fn after_scan(
    a: App,
    b: App,
    cam: int,
    folder: String,
    clips: Vec<Clip>,
    act: Actions,
) -> bool {
    let total = clip_count(b.project);
    let (f1, detect) = hwaccel_asked(Flow { dirty: true, ..a.flow }, b.project);
    let f2 = scan_done(f1);
    &&& only_cameras(b.project, a.project)
    &&& b.project.cameras@ == a.project.cameras@.update(
        cam,
        Camera { folder: Some(folder), clips, ..a.project.cameras@[cam] },
    )
    &&& b.project_path == a.project_path
    &&& b.error == a.error
    &&& b.unmatched == a.unmatched
    &&& b.flow == if sync_due(f2) {
        sync_begun(Flow { auto_sync: false, ..f2 }, total)
    } else {
        f2
    }
    &&& b.status@ == if sync_due(f2) && total > 0 {
        progress_text("Syncing "@, 0, total, " clips…"@)
    } else {
        folder@ + ": "@ + crate::text::decimal(clips@.len()) + " clips"@
    }
    &&& act == (Actions {
        reset_streams: true,
        reset_view: true,
        detect_hwaccel: detect,
        start_sync: sync_due(f2) && total > 0,
        ..no_actions()
    })
}

/// `b` is `a` after a scan failed.
pub open spec fn after_scan_failure(a: App, b: App, message: String, act: Actions) -> bool {
    let total = clip_count(a.project);
    let f = scan_done(a.flow);
    &&& b.project == a.project
    &&& b.project_path == a.project_path
    &&& b.error == Some(message)
    &&& b.unmatched == a.unmatched
    &&& b.flow == if sync_due(f) {
        sync_begun(Flow { auto_sync: false, ..f }, total)
    } else {
        f
    }
    &&& b.status@ == if sync_due(f) && total > 0 {
        progress_text("Syncing "@, 0, total, " clips…"@)
    } else {
        a.status@
    }
    &&& act == (Actions { start_sync: sync_due(f) && total > 0, ..no_actions() })
}

/// `b` is `a` after the master recording was loaded.
pub open spec fn after_wav(a: App, b: App, length: i64, act: Actions) -> bool {
    let total = clip_count(a.project);
    let f = Flow { wav: Some(length), dirty: true, ..a.flow };
    &&& b.project == a.project
    &&& b.project_path == a.project_path
    &&& b.error == a.error
    &&& b.unmatched == a.unmatched
    &&& b.flow == if sync_due(f) {
        sync_begun(Flow { auto_sync: false, ..f }, total)
    } else {
        f
    }
    &&& b.status@ == if sync_due(f) && total > 0 {
        progress_text("Syncing "@, 0, total, " clips…"@)
    } else {
        "WAV loaded: "@ + tenths_text(length as int) + "s"@
    }
    &&& act == (Actions {
        reset_view: true,
        start_sync: sync_due(f) && total > 0,
        ..no_actions()
    })
}

/// `b` is `a` after one clip was placed: a clip that is no longer there is passed
/// over.
pub open spec fn after_placed(a: App, b: App, cam: int, index: int, r: Arranged) -> bool {
    let clips = a.project.cameras@[cam].clips@;
    &&& b.project_path == a.project_path
    &&& b.error == a.error
    &&& b.status == a.status
    &&& if index < clips.len() {
        &&& only_cameras(b.project, a.project)
        &&& forall|c: int|
            0 <= c < a.project.cameras@.len() && c != cam ==> #[trigger] b.project.cameras@[c]
                == a.project.cameras@[c]
        &&& b.project.cameras@[cam].name == a.project.cameras@[cam].name
        &&& b.project.cameras@[cam].folder == a.project.cameras@[cam].folder
        &&& b.project.cameras@[cam].grade == a.project.cameras@[cam].grade
        &&& b.project.cameras@[cam].clips@ == clips.update(
            index,
            Clip { offset: r.offset, sync_confidence: Some(r.confidence), ..clips[index] },
        )
        &&& b.flow == (Flow { dirty: true, ..a.flow })
        &&& crate::text::text_views(b.unmatched@) == if r.placement != Placement::Audio {
            crate::text::text_views(a.unmatched@).push(crate::model::file_name_of(clips[index].path@))
        } else {
            crate::text::text_views(a.unmatched@)
        }
    } else {
        &&& b.project == a.project
        &&& b.flow == a.flow
        &&& b.unmatched == a.unmatched
    }
}

/// What is said when sync is over.
pub open spec fn sync_message(unmatched: Seq<Seq<char>>) -> Seq<char> {
    if unmatched.len() == 0 {
        "Sync finished"@
    } else {
        "Sync finished; no audio match for "@ + joined(unmatched, ", "@) + " (placed by timestamp)"@
    }
}

/// Automatic grading follows a sync while the grades are untouched.
pub open spec fn grade_due(project: Project, grading: bool, total: int) -> bool {
    untouched(project) && total > 0 && !grading
}

/// Number of frames that an automatic grade analyses.
pub open spec fn frames_to_grade(project: Project) -> int {
    let times = crate::sampling::sampled(project, crate::sampling::SAMPLE_COUNT as int);
    crate::sampling::total_cover(project, times, times.len() as int)
}

/// The flags after automatic grading was started.
pub open spec fn grade_begun(f: Flow, total: int) -> Flow {
    Flow { grading: true, grade_done: 0, grade_total: total as usize, ..f }
}

/// `b` is `a` after sync was over: the layout is shown.
pub open spec fn after_sync(a: App, b: App, act: Actions) -> bool {
    let total = frames_to_grade(a.project);
    let f = Flow { syncing: false, dirty: true, tab: Tab::Layout, ..a.flow };
    let grade = grade_due(a.project, a.flow.grading, total);
    &&& b.project == a.project
    &&& b.project_path == a.project_path
    &&& b.error == a.error
    &&& b.unmatched@.len() == 0
    &&& b.flow == if grade {
        grade_begun(f, total)
    } else {
        f
    }
    &&& b.status@ == if grade {
        progress_text("Auto grading "@, 0, total, " frames…"@)
    } else {
        sync_message(crate::text::text_views(a.unmatched@))
    }
    &&& act == (Actions { revisit: true, start_grade: grade, ..no_actions() })
}

/// The grade for camera `c`: the new one, as far as there are new ones.
pub open spec fn new_grade(grades: Seq<Grade>, c: int, was: Grade) -> Grade {
    if c < grades.len() && c < 3 {
        grades[c]
    } else {
        was
    }
}

/// `b` is `a` after new grades came.
pub open spec fn after_grades(a: App, b: App, grades: Seq<Grade>) -> bool {
    let n = a.project.cameras@.len() as int;
    &&& only_cameras(b.project, a.project)
    &&& forall|c: int|
        0 <= c < n ==> #[trigger] b.project.cameras@[c] == (Camera {
            grade: new_grade(grades, c, a.project.cameras@[c].grade),
            ..a.project.cameras@[c]
        })
    &&& b.project_path == a.project_path
    &&& b.error == a.error
    &&& b.unmatched == a.unmatched
    &&& b.flow == (Flow {
        grading: false,
        dirty: true,
        auto_grades: Some(
            (
                kept_grade(grades, 0, n),
                kept_grade(grades, 1, n),
                kept_grade(grades, 2, n),
            ),
        ),
        ..a.flow
    })
    &&& b.status@ == "Cameras matched; fine-tune on the Grade tab"@
}

/// The grade that is kept for camera `c`: the new one where there is such a camera.
pub open spec fn kept_grade(grades: Seq<Grade>, c: int, cameras: int) -> Grade {
    if c < grades.len() && c < cameras {
        grades[c]
    } else {
        Grade::neutral()
    }
}

/// Results of background work.
#[derive(Debug)]
pub enum JobResult {
    Scanned { cam: usize, folder: String, found: Result<Vec<Clip>, String> },
    /// Length of the recording.
    WavLoaded(Result<i64, String>),
    /// One clip's audio has been analysed.
    SyncProgress,
    Synced { cam: usize, index: usize, result: Arranged },
    SyncFinished,
    HwAccelFound(HwAccel),
    /// One sample frame has been analysed.
    GradeProgress,
    Graded(Result<Vec<Grade>, String>),
}

/// The result is a job's last: progress and single clips are not.
pub open spec fn is_last(r: JobResult) -> bool {
    !(r is Synced) && !(r is SyncProgress) && !(r is GradeProgress)
}

/// Jobs that still run after the first `n` results.
pub open spec fn left_running(running: int, results: Seq<JobResult>, n: int) -> int
    decreases n,
{
    if n <= 0 {
        running
    } else {
        let k = left_running(running, results, n - 1);
        if is_last(results[n - 1]) && k > 0 {
            k - 1
        } else {
            k
        }
    }
}

/// Jobs that still run after results came in.
pub fn jobs_left(running: usize, results: &Vec<JobResult>) -> (n: usize)
    ensures
        n == left_running(running as int, results@, results@.len() as int),
{
    let mut n: usize = running;
    let mut i: usize = 0;
    while i < results.len()
        invariant
            i <= results@.len(),
            n == left_running(running as int, results@, i as int),
        decreases results@.len() - i,
    {
        let last: bool = match &results[i] {
            JobResult::Synced { .. } => false,
            JobResult::SyncProgress => false,
            JobResult::GradeProgress => false,
            _ => true,
        };
        if last && n > 0 {
            n = n - 1;
        }
        i = i + 1;
    }
    n
}

/// The counter one further; it stays where it cannot go further.
pub open spec fn counted(n: usize) -> usize {
    if n == usize::MAX {
        n
    } else {
        (n + 1) as usize
    }
}

/// The counter one further.
fn count_on(n: usize) -> (m: usize)
    ensures
        m == counted(n),
{
    if n == usize::MAX {
        n
    } else {
        n + 1
    }
}

/// The flags are the same but for the progress.
pub open spec fn after_progress(a: App, b: App, flow: Flow, status: Seq<char>) -> bool {
    &&& b.project == a.project
    &&& b.project_path == a.project_path
    &&& b.error == a.error
    &&& b.unmatched == a.unmatched
    &&& b.flow == flow
    &&& b.status@ == status
}

/// What a result can say: a camera that there is, times that are in range.
pub open spec fn result_ok(s: App, r: JobResult) -> bool {
    match r {
        JobResult::Scanned { cam, folder, found } => cam < s.project.cameras@.len() && (found matches Ok(
            clips,
        ) ==> crate::model::clip_times_ok(clips@)),
        JobResult::Synced { cam, index, result } => cam < s.project.cameras@.len()
            && crate::arrange::in_limit(result.offset as int),
        _ => true,
    }
}

/// `b` is `a` after a result of background work was applied.
pub open spec fn after_result(a: App, b: App, r: JobResult, act: Actions) -> bool {
    match r {
        JobResult::Scanned { cam, folder, found } => match found {
            Ok(clips) => after_scan(a, b, cam as int, folder, clips, act),
            Err(e) => after_scan_failure(a, b, e, act),
        },
        JobResult::WavLoaded(result) => match result {
            Ok(length) => after_wav(a, b, length, act),
            Err(e) => {
                &&& b.project == a.project
                &&& b.project_path == a.project_path
                &&& b.error == Some(e)
                &&& b.unmatched == a.unmatched
                &&& b.status == a.status
                &&& b.flow == (Flow { auto_sync: false, ..a.flow })
                &&& act == no_actions()
            },
        },
        JobResult::SyncProgress => {
            let f = Flow { sync_done: counted(a.flow.sync_done), ..a.flow };
            after_progress(
                a,
                b,
                f,
                progress_text("Syncing "@, f.sync_done as int, f.sync_total as int, " clips…"@),
            ) && act == no_actions()
        },
        JobResult::Synced { cam, index, result } => after_placed(a, b, cam as int, index as int, result) && act
            == no_actions(),
        JobResult::SyncFinished => after_sync(a, b, act),
        JobResult::HwAccelFound(h) => after_progress(
            a,
            b,
            Flow { hwaccel: h, ..a.flow },
            "Decoding: "@ + h.name(),
        ) && act == (Actions { rebuild_streams: true, ..no_actions() }),
        JobResult::GradeProgress => {
            let f = Flow { grade_done: counted(a.flow.grade_done), ..a.flow };
            after_progress(
                a,
                b,
                f,
                progress_text(
                    "Auto grading "@,
                    f.grade_done as int,
                    f.grade_total as int,
                    " frames…"@,
                ),
            ) && act == no_actions()
        },
        JobResult::Graded(result) => match result {
            Ok(grades) => after_grades(a, b, grades@) && act == no_actions(),
            Err(e) => {
                &&& b.project == a.project
                &&& b.project_path == a.project_path
                &&& error_of(b) == Some("Auto grade: "@ + e@)
                &&& b.unmatched == a.unmatched
                &&& b.status@ == "Auto grade failed"@
                &&& b.flow == (Flow { grading: false, ..a.flow })
                &&& act == no_actions()
            },
        },
    }
}

/// A result can be applied: it fits the project, and where a grade may follow, the
/// project's times are in range.
pub open spec fn applicable(s: App, r: JobResult) -> bool {
    result_ok(s, r) && (r is SyncFinished ==> crate::sampling::project_ok(s.project))
}

/// `b` is `a` after a result that cannot be applied: the error is shown, nothing of
/// the result is taken, and the job that it ends is over.
pub open spec fn after_refusal(a: App, b: App, r: JobResult, act: Actions) -> bool {
    &&& b.project == a.project
    &&& b.project_path == a.project_path
    &&& match r {
        JobResult::Scanned { cam, folder, found } => {
            &&& error_of(b) == Some(folder@ + ": times out of range"@)
            &&& after_scan_failure(a, b, b.error->0, act)
        },
        JobResult::SyncFinished => {
            &&& error_of(b) == Some("Sync: times out of range"@)
            &&& b.unmatched@.len() == 0
            &&& b.flow == (Flow { syncing: false, dirty: true, tab: Tab::Layout, ..a.flow })
            &&& b.status@ == sync_message(crate::text::text_views(a.unmatched@))
            &&& act == (Actions { revisit: true, ..no_actions() })
        },
        _ => {
            &&& error_of(b) == Some("Sync: times out of range"@)
            &&& b.unmatched == a.unmatched
            &&& b.flow == a.flow
            &&& b.status == a.status
            &&& act == no_actions()
        },
    }
}

// ---------------------------------------------------------------- functions

/// Number of clips of all cameras.
fn count_clips(project: &Project) -> (n: usize)
    ensures
        n == clip_count(*project),
{
    let mut n: usize = 0;
    let mut c: usize = 0;
    while c < project.cameras.len()
        invariant
            c <= project.cameras@.len(),
            n == clip_total(*project, c as int),
        decreases project.cameras@.len() - c,
    {
        let k: usize = project.cameras[c].clips.len();
        if k > usize::MAX - n {
            proof {
                lemma_total_grows(*project, c + 1, project.cameras@.len() as int);
            }
            return usize::MAX;
        }
        n = n + k;
        c = c + 1;
    }
    n
}

proof fn lemma_total_grows(project: Project, k: int, n: int)
    requires
        0 <= k <= n <= project.cameras@.len(),
    ensures
        clip_total(project, k) <= clip_total(project, n),
    decreases n - k,
{
    if k < n {
        lemma_total_grows(project, k, n - 1);
    }
}

impl App {
    /// Runs the deferred sync once every scan and the master recording are in; says
    /// whether it starts.
    fn maybe_auto_sync(&mut self) -> (start: bool)
        ensures
            after_maybe_sync(*old(self), *final(self), start),
    {
        if self.flow.auto_sync && self.flow.pending_scans == 0 && self.flow.wav.is_some() {
            self.flow.auto_sync = false;
            self.begin_sync()
        } else {
            false
        }
    }

    /// Starts sync with all clips there are.
    fn begin_sync(&mut self) -> (start: bool)
        ensures
            ({
                let total = clip_count(old(self).project);
                &&& start == (total > 0)
                &&& final(self).flow == sync_begun(old(self).flow, total)
                &&& final(self).project == old(self).project
                &&& final(self).project_path == old(self).project_path
                &&& final(self).error == old(self).error
                &&& final(self).unmatched == old(self).unmatched
                &&& final(self).status@ == if total > 0 {
                    progress_text("Syncing "@, 0, total, " clips…"@)
                } else {
                    old(self).status@
                }
            }),
    {
        let total: usize = count_clips(&self.project);
        if total == 0 {
            return false;
        }
        self.flow.syncing = true;
        self.flow.sync_done = 0;
        self.flow.sync_total = total;
        self.status = progress("Syncing ", 0, total, " clips…");
        true
    }

    /// Starts sync by hand: needs the master recording, and at least one clip.
    pub fn start_sync_all(&mut self) -> (start: bool)
        ensures
            ({
                let total = clip_count(old(self).project);
                &&& start == (old(self).flow.wav is Some && total > 0)
                &&& final(self).project == old(self).project
                &&& final(self).project_path == old(self).project_path
                &&& final(self).unmatched == old(self).unmatched
                &&& final(self).flow == if old(self).flow.wav is Some {
                    sync_begun(old(self).flow, total)
                } else {
                    old(self).flow
                }
                &&& error_of(*final(self)) == if old(self).flow.wav is Some {
                    error_of(*old(self))
                } else {
                    Some("Load the WAV first"@)
                }
                &&& final(self).status@ == if start {
                    progress_text("Syncing "@, 0, total, " clips…"@)
                } else {
                    old(self).status@
                }
            }),
    {
        if self.flow.wav.is_none() {
            self.error = Some("Load the WAV first".to_owned());
            return false;
        }
        self.begin_sync()
    }

    /// Looks for the decode path once there is a clip to try it on; says whether to
    /// start.
    pub fn ensure_hwaccel(&mut self) -> (start: bool)
        ensures
            (final(self).flow, start) == hwaccel_asked(old(self).flow, old(self).project),
            final(self).project == old(self).project,
            final(self).project_path == old(self).project_path,
            final(self).error == old(self).error,
            final(self).unmatched == old(self).unmatched,
            final(self).status == old(self).status,
    {
        if self.flow.hwaccel_checked {
            return false;
        }
        match first_clip(&self.project) {
            Some(_) => {
                self.flow.hwaccel_checked = true;
                true
            },
            None => false,
        }
    }

    /// Starts the automatic grade; says whether there is anything to measure.
    pub fn start_auto_grade(&mut self) -> (start: bool)
        requires
            crate::sampling::project_ok(old(self).project),
        ensures
            ({
                let total = frames_to_grade(old(self).project);
                &&& start == (!old(self).flow.grading && total > 0)
                &&& final(self).project == old(self).project
                &&& final(self).project_path == old(self).project_path
                &&& final(self).unmatched == old(self).unmatched
                &&& final(self).flow == if start {
                    grade_begun(old(self).flow, total)
                } else {
                    old(self).flow
                }
                &&& final(self).status@ == if start {
                    progress_text("Auto grading "@, 0, total, " frames…"@)
                } else {
                    old(self).status@
                }
                &&& start || old(self).flow.grading ==> final(self).error == old(self).error
                &&& error_of(*final(self)) == if !old(self).flow.grading && total == 0 {
                    Some("Nothing to grade: no clips on the timeline"@)
                } else {
                    error_of(*old(self))
                }
            }),
    {
        if self.flow.grading {
            return false;
        }
        let total: usize = sample_total(&self.project);
        if total == 0 {
            self.error = Some("Nothing to grade: no clips on the timeline".to_owned());
            return false;
        }
        self.flow.grading = true;
        self.flow.grade_done = 0;
        self.flow.grade_total = total;
        self.status = progress("Auto grading ", 0, total, " frames…");
        true
    }

    /// Whether all grades are untouched.
    fn grades_untouched(&self) -> (b: bool)
        ensures
            b == untouched(self.project),
    {
        let neutral: Grade = Grade::default();
        let mut c: usize = 0;
        while c < self.project.cameras.len()
            invariant
                neutral == Grade::neutral(),
                c <= self.project.cameras@.len(),
                forall|d: int|
                    0 <= d < c ==> (#[trigger] self.project.cameras@[d]).grade == Grade::neutral(),
            decreases self.project.cameras@.len() - c,
        {
            if self.project.cameras[c].grade != neutral {
                assert(self.project.cameras@[c as int].grade != Grade::neutral());
                return false;
            }
            c = c + 1;
        }
        true
    }

    /// The clips of a camera were found.
    pub fn scanned(&mut self, cam: usize, folder: String, clips: Vec<Clip>) -> (act: Actions)
        requires
            cam < old(self).project.cameras@.len(),
        ensures
            after_scan(*old(self), *final(self), cam as int, folder, clips, act),
    {
        let n: String = number_text(clips.len() as u64);
        let status: String = join4(folder.as_str(), ": ", n.as_str(), " clips");
        self.status = status;
        let ghost was = self.project.cameras@;
        let ghost dir = folder;
        let ghost found = clips;
        self.project.cameras[cam].folder = Some(folder);
        self.project.cameras[cam].clips = clips;
        assert(self.project.cameras@ =~= was.update(
            cam as int,
            Camera { folder: Some(dir), clips: found, ..was[cam as int] },
        ));
        self.flow.dirty = true;
        let detect: bool = self.ensure_hwaccel();
        self.flow.pending_scans = if self.flow.pending_scans == 0 {
            0
        } else {
            self.flow.pending_scans - 1
        };
        let start: bool = self.maybe_auto_sync();
        Actions {
            reset_streams: true,
            reset_view: true,
            detect_hwaccel: detect,
            start_sync: start,
            ..nothing()
        }
    }

    /// A scan failed.
    pub fn scan_failed(&mut self, message: String) -> (act: Actions)
        ensures
            after_scan_failure(*old(self), *final(self), message, act),
    {
        self.error = Some(message);
        self.flow.pending_scans = if self.flow.pending_scans == 0 {
            0
        } else {
            self.flow.pending_scans - 1
        };
        let start: bool = self.maybe_auto_sync();
        Actions { start_sync: start, ..nothing() }
    }

    /// The master recording was loaded.
    pub fn wav_loaded(&mut self, length: i64) -> (act: Actions)
        ensures
            after_wav(*old(self), *final(self), length, act),
    {
        let t: String = seconds_text(length);
        self.status = join3("WAV loaded: ", t.as_str(), "s");
        self.flow.wav = Some(length);
        self.flow.dirty = true;
        let start: bool = self.maybe_auto_sync();
        Actions { reset_view: true, start_sync: start, ..nothing() }
    }

    /// One clip was placed.
    pub fn placed(&mut self, cam: usize, index: usize, r: Arranged)
        requires
            cam < old(self).project.cameras@.len(),
        ensures
            after_placed(*old(self), *final(self), cam as int, index as int, r),
    {
        if index >= self.project.cameras[cam].clips.len() {
            return;
        }
        let ghost was = self.project.cameras@;
        let ghost clips = self.project.cameras@[cam as int].clips@;
        let name: String = self.project.cameras[cam].clips[index].file_name();
        self.project.cameras[cam].clips[index].offset = r.offset;
        self.project.cameras[cam].clips[index].sync_confidence = Some(r.confidence);
        assert(self.project.cameras@[cam as int].clips@ =~= clips.update(
            index as int,
            Clip { offset: r.offset, sync_confidence: Some(r.confidence), ..clips[index as int] },
        ));
        if r.placement != Placement::Audio {
            let ghost list = self.unmatched@;
            self.unmatched.push(name);
            assert(crate::text::text_views(self.unmatched@) =~= crate::text::text_views(list).push(name@));
        }
        self.flow.dirty = true;
    }

    /// Sync is over, and says which clips it could not match.
    fn end_sync(&mut self)
        ensures
            final(self).project == old(self).project,
            final(self).project_path == old(self).project_path,
            final(self).error == old(self).error,
            final(self).unmatched@.len() == 0,
            final(self).flow == (Flow { syncing: false, dirty: true, tab: Tab::Layout, ..old(self).flow }),
            final(self).status@ == sync_message(crate::text::text_views(old(self).unmatched@)),
    {
        self.flow.syncing = false;
        self.status = if self.unmatched.len() == 0 {
            "Sync finished".to_owned()
        } else {
            let names: String = join_all(&self.unmatched, ", ");
            join3("Sync finished; no audio match for ", names.as_str(), " (placed by timestamp)")
        };
        self.unmatched = Vec::new();
        self.flow.dirty = true;
        self.flow.tab = Tab::Layout;
    }

    /// Sync is over: the layout is shown, and the automatic grade follows while the
    /// grades are untouched.
    pub fn sync_finished(&mut self) -> (act: Actions)
        requires
            crate::sampling::project_ok(old(self).project),
        ensures
            after_sync(*old(self), *final(self), act),
    {
        self.end_sync();
        let start: bool = if self.grades_untouched() && sample_total(&self.project) > 0 {
            self.start_auto_grade()
        } else {
            false
        };
        Actions { revisit: true, start_grade: start, ..nothing() }
    }

    /// New grades came.
    pub fn graded(&mut self, grades: &Vec<Grade>)
        ensures
            after_grades(*old(self), *final(self), grades@),
    {
        let ghost was = self.project.cameras@;
        let n: usize = self.project.cameras.len();
        let mut c: usize = 0;
        while c < n && c < 3 && c < grades.len()
            invariant
                n == was.len(),
                c <= n,
                c <= 3,
                c <= grades@.len(),
                self.project.cameras@.len() == n,
                only_cameras(self.project, old(self).project),
                self.project_path == old(self).project_path,
                self.error == old(self).error,
                self.unmatched == old(self).unmatched,
                self.flow == old(self).flow,
                forall|d: int|
                    0 <= d < c ==> #[trigger] self.project.cameras@[d] == (Camera {
                        grade: grades@[d],
                        ..was[d]
                    }),
                forall|d: int| c <= d < n ==> #[trigger] self.project.cameras@[d] == was[d],
            decreases n - c,
        {
            self.project.cameras[c].grade = grades[c];
            c = c + 1;
        }
        let neutral: Grade = Grade::default();
        let a: Grade = if c > 0 {
            grades[0]
        } else {
            neutral
        };
        let b: Grade = if c > 1 {
            grades[1]
        } else {
            neutral
        };
        let d: Grade = if c > 2 {
            grades[2]
        } else {
            neutral
        };
        self.flow.grading = false;
        self.flow.auto_grades = Some((a, b, d));
        self.flow.dirty = true;
        self.status = "Cameras matched; fine-tune on the Grade tab".to_owned();
    }

    /// Applies a result of background work.
    pub fn apply_job(&mut self, r: JobResult) -> (act: Actions)
        requires
            applicable(*old(self), r),
        ensures
            after_result(*old(self), *final(self), r, act),
    {
        match r {
            JobResult::Scanned { cam, folder, found } => match found {
                Ok(clips) => self.scanned(cam, folder, clips),
                Err(e) => self.scan_failed(e),
            },
            JobResult::WavLoaded(result) => match result {
                Ok(length) => self.wav_loaded(length),
                Err(e) => {
                    self.error = Some(e);
                    self.flow.auto_sync = false;
                    nothing()
                },
            },
            JobResult::SyncProgress => {
                self.flow.sync_done = count_on(self.flow.sync_done);
                self.status = progress(
                    "Syncing ",
                    self.flow.sync_done,
                    self.flow.sync_total,
                    " clips…",
                );
                nothing()
            },
            JobResult::Synced { cam, index, result } => {
                self.placed(cam, index, result);
                nothing()
            },
            JobResult::SyncFinished => self.sync_finished(),
            JobResult::HwAccelFound(h) => {
                self.flow.hwaccel = h;
                self.status = join2("Decoding: ", h.label());
                Actions { rebuild_streams: true, ..nothing() }
            },
            JobResult::GradeProgress => {
                self.flow.grade_done = count_on(self.flow.grade_done);
                self.status = progress(
                    "Auto grading ",
                    self.flow.grade_done,
                    self.flow.grade_total,
                    " frames…",
                );
                nothing()
            },
            JobResult::Graded(result) => match result {
                Ok(grades) => {
                    self.graded(&grades);
                    nothing()
                },
                Err(e) => {
                    self.flow.grading = false;
                    self.status = "Auto grade failed".to_owned();
                    let message: String = join2("Auto grade: ", e.as_str());
                    self.error = Some(message);
                    nothing()
                },
            },
        }
    }
}

impl App {
    /// Whether a result can be applied.
    fn can_apply(&self, r: &JobResult) -> (b: bool)
        ensures
            b == applicable(*self, *r),
    {
        match r {
            JobResult::Scanned { cam, found, .. } => {
                let fits: bool = match found {
                    Ok(clips) => clips_in_range(clips),
                    Err(_) => true,
                };
                *cam < self.project.cameras.len() && fits
            },
            JobResult::Synced { cam, result, .. } => *cam < self.project.cameras.len() && -TIME_LIMIT
                <= result.offset && result.offset <= TIME_LIMIT,
            JobResult::SyncFinished => is_project_ok(&self.project),
            _ => true,
        }
    }

    /// Takes a result of background work, whatever it says: one that cannot be applied
    /// is reported, and still ends its job.
    pub fn take_result(&mut self, r: JobResult) -> (act: Actions)
        ensures
            applicable(*old(self), r) ==> after_result(*old(self), *final(self), r, act),
            !applicable(*old(self), r) ==> after_refusal(*old(self), *final(self), r, act),
            r is SyncFinished ==> !final(self).flow.syncing,
    {
        if self.can_apply(&r) {
            return self.apply_job(r);
        }
        match r {
            JobResult::Scanned { folder, .. } => {
                let message: String = join2(folder.as_str(), ": times out of range");
                self.scan_failed(message)
            },
            JobResult::SyncFinished => {
                self.end_sync();
                self.error = Some("Sync: times out of range".to_owned());
                Actions { revisit: true, ..nothing() }
            },
            _ => {
                self.error = Some("Sync: times out of range".to_owned());
                nothing()
            },
        }
    }
}

// ---------------------------------------------------------------- opening

/// The flags of a project that was just begun.
pub open spec fn cleared(f: Flow) -> Flow {
    Flow {
        wav: None,
        dirty: false,
        pending_scans: 0,
        auto_sync: false,
        auto_grades: None,
        show_original: false,
        ..f
    }
}

/// What is said about a folder that was opened.
pub open spec fn folder_notes(shoot: Shoot) -> Seq<Seq<char>> {
    let few = if shoot.cameras@.len() < 3 {
        seq!["only "@ + crate::text::decimal(shoot.cameras@.len()) + " camera folder(s)"@]
    } else {
        seq![]
    };
    let extra = if shoot.skipped_cameras@.len() > 0 {
        seq![
            "ignored extra folder(s) "@ + joined(names_of(shoot.skipped_cameras@), ", "@),
        ]
    } else {
        seq![]
    };
    let sound = match shoot.wav {
        Some(w) => if shoot.other_audio@.len() > 0 {
            seq!["using "@ + name_of(w@) + " as master audio"@]
        } else {
            seq![]
        },
        None => seq!["no audio file in the folder, sync skipped"@],
    };
    few + extra + sound
}

/// What the paths are called.
pub open spec fn names_of(paths: Seq<String>) -> Seq<Seq<char>> {
    Seq::new(paths.len(), |i: int| name_of(paths[i]@))
}

/// What is said about a folder that was opened.
pub open spec fn folder_status(root: Seq<char>, notes: Seq<Seq<char>>) -> Seq<char> {
    if notes.len() == 0 {
        "Opened "@ + root + ": scanning cameras…"@
    } else {
        "Opened "@ + root + ": "@ + joined(notes, "; "@)
    }
}

/// Where the project of a folder is saved.
pub open spec fn folder_project(root: Seq<char>) -> Seq<char> {
    crate::discover::path_in(
        root,
        (match crate::model::last_part(root) {
            Some(n) => n,
            None => "band"@,
        }) + ".trio.json"@,
    )
}

/// The name of camera `c` after its folder was opened.
pub open spec fn folder_camera_name(shoot: Shoot, c: int) -> Seq<char> {
    if c < shoot.cameras@.len() && crate::model::last_part(shoot.cameras@[c]@) is Some {
        crate::model::last_part(shoot.cameras@[c]@)->0
    } else {
        "Cam "@ + crate::text::decimal((c + 1) as nat)
    }
}

/// `b` is `a` after a folder with cameras was opened: a new project with a name for
/// each camera, whose folders are being scanned, and with the master recording,
/// which is being loaded.
pub open spec fn after_folder(a: App, b: App, root: Seq<char>, shoot: Shoot, act: Actions) -> bool {
    let p = b.project;
    &&& p.version == 1
    &&& crate::probe::text_of(p.wav) == crate::probe::text_of(shoot.wav)
    &&& p.cameras@.len() == CAMERA_COUNT
    &&& forall|c: int|
        0 <= c < CAMERA_COUNT ==> (#[trigger] p.cameras@[c]).name@ == folder_camera_name(shoot, c)
            && p.cameras@[c].folder is None && p.cameras@[c].clips@.len() == 0 && p.cameras@[c].grade
            == Grade::neutral()
    &&& p.layout == LayoutId::HBigLeft
    &&& forall|k: int| 0 <= k < 3 ==> #[trigger] p.slots@[k] == Slot::plain(k as usize)
    &&& crate::model::fresh_output(p.output)
    &&& p.range == (Range { start: 0, end: 0 })
    &&& crate::probe::text_of(b.project_path) == Some(folder_project(root))
    &&& b.status@ == folder_status(root, folder_notes(shoot))
    &&& b.error == a.error
    &&& b.unmatched == a.unmatched
    &&& b.flow == (Flow {
        dirty: true,
        pending_scans: shoot.cameras@.len() as usize,
        auto_sync: shoot.wav is Some,
        tab: Tab::Layout,
        ..cleared(a.flow)
    })
    &&& act == (Actions {
        stop: true,
        reset_streams: true,
        reset_view: true,
        load_wav: shoot.wav is Some,
        ..no_actions()
    })
}

/// `b` is `a` after a project file was opened.
pub open spec fn after_open(a: App, b: App, path: Seq<char>, project: Project, act: Actions) -> bool {
    let (f, detect) = hwaccel_asked(cleared(a.flow), project);
    &&& b.project == project
    &&& crate::probe::text_of(b.project_path) == Some(path)
    &&& b.error == a.error
    &&& b.unmatched == a.unmatched
    &&& b.flow == (Flow { tab: Tab::Layout, ..f })
    &&& b.status@ == if project.wav is Some {
        "Loading WAV…"@
    } else {
        a.status@
    }
    &&& act == (Actions {
        stop: true,
        reset_streams: true,
        reset_view: true,
        load_wav: project.wav is Some,
        detect_hwaccel: detect,
        ..no_actions()
    })
}

/// The name ends with these characters.
pub open spec fn ends_with(s: Seq<char>, tail: Seq<char>) -> bool {
    s.len() >= tail.len() && s.skip(s.len() - tail.len()) == tail
}

/// The name is that of a project file.
pub open spec fn is_project_name(name: Seq<char>) -> bool {
    ends_with(name, ".trio.json"@)
}

/// Whether the name is that of a project file.
pub fn names_project(name: &str) -> (b: bool)
    ensures
        b == is_project_name(name@),
{
    let v: Vec<char> = chars_of(name);
    let n: usize = ".trio.json".unicode_len();
    if v.len() < n {
        return false;
    }
    let tail: Vec<char> = crate::text::part(&v, v.len() - n, v.len());
    assert(tail@ =~= v@.skip(v@.len() - n));
    crate::text::spells(&tail, ".trio.json")
}

/// `k` is the first project file among a folder's files, by name.
pub open spec fn is_first_project(names: Seq<String>, k: int) -> bool {
    &&& 0 <= k < names.len()
    &&& is_project_name(names[k]@)
    &&& forall|j: int|
        0 <= j < names.len() && is_project_name((#[trigger] names[j])@) ==> !crate::order::key_less(
            crate::discover::text_key(names[j]@),
            crate::discover::text_key(names[k]@),
        )
}

/// A name as a sort key.
fn name_key(name: &str) -> (key: Vec<i64>)
    ensures
        key@ == crate::discover::text_key(name@),
{
    let v: Vec<char> = chars_of(name);
    let mut key: Vec<i64> = Vec::new();
    let mut i: usize = 0;
    while i < v.len()
        invariant
            i <= v@.len(),
            key@.len() == i,
            forall|k: int| 0 <= k < i ==> #[trigger] key@[k] == (v@[k] as u32) as i64,
        decreases v@.len() - i,
    {
        key.push((v[i] as u32) as i64);
        i = i + 1;
    }
    assert(key@ =~= crate::discover::text_key(v@));
    key
}

/// The project file that a folder holds, if any.
pub fn project_in_folder(root: &str, names: &Vec<String>) -> (r: Option<String>)
    ensures
        match r {
            Some(p) => exists|k: int| #[trigger]
                is_first_project(names@, k) && p@ == crate::discover::path_in(root@, names@[k]@),
            None => forall|k: int| 0 <= k < names@.len() ==> !is_project_name((#[trigger] names@[k])@),
        },
{
    let mut best: Option<usize> = None;
    let mut i: usize = 0;
    while i < names.len()
        invariant
            i <= names@.len(),
            match best {
                Some(k) => {
                    &&& k < i
                    &&& is_project_name(names@[k as int]@)
                    &&& forall|j: int|
                        0 <= j < i && is_project_name((#[trigger] names@[j])@) ==> !crate::order::key_less(
                            crate::discover::text_key(names@[j]@),
                            crate::discover::text_key(names@[k as int]@),
                        )
                },
                None => forall|j: int| 0 <= j < i ==> !is_project_name((#[trigger] names@[j])@),
            },
        decreases names@.len() - i,
    {
        if names_project(names[i].as_str()) {
            let key: Vec<i64> = name_key(names[i].as_str());
            let better: bool = match best {
                Some(k) => {
                    let top: Vec<i64> = name_key(names[k].as_str());
                    crate::order::less(&key, &top)
                },
                None => true,
            };
            proof {
                crate::order::lemma_key_irreflexive(key@);
                if let Some(k) = best {
                    if better {
                        assert forall|j: int|
                            0 <= j < i + 1 && is_project_name((#[trigger] names@[j])@) implies !crate::order::key_less(
                            crate::discover::text_key(names@[j]@),
                            key@,
                        ) by {
                            if j < i && crate::order::key_less(crate::discover::text_key(names@[j]@), key@) {
                                crate::order::lemma_key_transitive(
                                    crate::discover::text_key(names@[j]@),
                                    key@,
                                    crate::discover::text_key(names@[k as int]@),
                                );
                            }
                        }
                    }
                }
            }
            if better {
                best = Some(i);
            }
        }
        i = i + 1;
    }
    match best {
        Some(k) => {
            assert(is_first_project(names@, k as int));
            Some(join_path(root, names[k].as_str()))
        },
        None => None,
    }
}

/// What is said about a folder that was opened.
fn notes_of(shoot: &Shoot) -> (notes: Vec<String>)
    ensures
        crate::text::text_views(notes@) == folder_notes(*shoot),
{
    let mut notes: Vec<String> = Vec::new();
    if shoot.cameras.len() < 3 {
        let n: String = number_text(shoot.cameras.len() as u64);
        let note: String = join3("only ", n.as_str(), " camera folder(s)");
        crate::text::push_word(&mut notes, note.as_str());
    }
    if shoot.skipped_cameras.len() > 0 {
        let mut names: Vec<String> = Vec::new();
        let mut i: usize = 0;
        while i < shoot.skipped_cameras.len()
            invariant
                i <= shoot.skipped_cameras@.len(),
                names@.len() == i,
                forall|k: int|
                    0 <= k < i ==> (#[trigger] names@[k])@ == name_of(shoot.skipped_cameras@[k]@),
            decreases shoot.skipped_cameras@.len() - i,
        {
            names.push(existing_name(shoot.skipped_cameras[i].as_str()));
            i = i + 1;
        }
        assert(crate::text::text_views(names@) =~= names_of(shoot.skipped_cameras@));
        let list: String = join_all(&names, ", ");
        let note: String = join2("ignored extra folder(s) ", list.as_str());
        crate::text::push_word(&mut notes, note.as_str());
    }
    match &shoot.wav {
        Some(w) => {
            if shoot.other_audio.len() > 0 {
                let name: String = existing_name(w.as_str());
                let note: String = join3("using ", name.as_str(), " as master audio");
                crate::text::push_word(&mut notes, note.as_str());
            }
        },
        None => {
            crate::text::push_word(&mut notes, "no audio file in the folder, sync skipped");
        },
    }
    assert(crate::text::text_views(notes@) =~= folder_notes(*shoot));
    notes
}

impl App {
    /// The state of a program that was just started.
    pub fn new(status: String) -> (s: App)
        ensures
            crate::model::fresh_project(s.project),
            s.project_path is None,
            s.status == status,
            s.error is None,
            s.unmatched@.len() == 0,
            s.flow == (Flow {
                dirty: false,
                hwaccel: HwAccel::Software,
                hwaccel_checked: false,
                wav: None,
                syncing: false,
                sync_done: 0,
                sync_total: 0,
                grading: false,
                grade_done: 0,
                grade_total: 0,
                auto_grades: None,
                show_original: false,
                pending_scans: 0,
                auto_sync: false,
                tab: Tab::Import,
            }),
    {
        App {
            project: Project::default(),
            project_path: None,
            status,
            error: None,
            unmatched: Vec::new(),
            flow: Flow {
                dirty: false,
                hwaccel: HwAccel::Software,
                hwaccel_checked: false,
                wav: None,
                syncing: false,
                sync_done: 0,
                sync_total: 0,
                grading: false,
                grade_done: 0,
                grade_total: 0,
                auto_grades: None,
                show_original: false,
                pending_scans: 0,
                auto_sync: false,
                tab: Tab::Import,
            },
        }
    }

    /// Length of the timeline.
    pub fn duration(&self) -> (d: i64)
        requires
            self.project.times_ok(),
        ensures
            d == crate::model::timeline_length(self.project, self.flow.wav),
    {
        self.project.duration(self.flow.wav)
    }

    /// Begins a new project.
    pub fn new_project(&mut self) -> (act: Actions)
        ensures
            crate::model::fresh_project(final(self).project),
            final(self).project_path is None,
            final(self).status == old(self).status,
            final(self).error == old(self).error,
            final(self).unmatched == old(self).unmatched,
            final(self).flow == cleared(old(self).flow),
            act == (Actions { stop: true, reset_streams: true, ..no_actions() }),
    {
        self.project = Project::default();
        self.project_path = None;
        self.flow.wav = None;
        self.flow.dirty = false;
        self.flow.pending_scans = 0;
        self.flow.auto_sync = false;
        self.flow.auto_grades = None;
        self.flow.show_original = false;
        Actions { stop: true, reset_streams: true, ..nothing() }
    }

    /// Opens a folder that holds everything: a subfolder per camera and the master
    /// recording. The cameras are to be scanned, the recording is to be loaded, and
    /// then all is synced. `None` where there is no camera.
    pub fn open_folder(&mut self, root: &str, shoot: &Shoot) -> (r: Option<Actions>)
        requires
            shoot.cameras@.len() <= CAMERA_COUNT,
        ensures
            match r {
                Some(act) => shoot.cameras@.len() > 0 && after_folder(
                    *old(self),
                    *final(self),
                    root@,
                    *shoot,
                    act,
                ),
                None => {
                    &&& shoot.cameras@.len() == 0
                    &&& error_of(*final(self)) == Some(
                        "No camera folders found in "@ + root@
                            + ".\nExpected subfolders with video files."@,
                    )
                    &&& final(self).project == old(self).project
                    &&& final(self).project_path == old(self).project_path
                    &&& final(self).status == old(self).status
                    &&& final(self).unmatched == old(self).unmatched
                    &&& final(self).flow == old(self).flow
                },
            },
    {
        if shoot.cameras.len() == 0 {
            let message: String = join3(
                "No camera folders found in ",
                root,
                ".\nExpected subfolders with video files.",
            );
            self.error = Some(message);
            return None;
        }
        let ghost was = *self;
        self.new_project();
        let v: Vec<char> = chars_of(root);
        let stem: String = match last_part_range(&v) {
            Some(_) => file_name(root),
            None => "band".to_owned(),
        };
        let name: String = join2(stem.as_str(), ".trio.json");
        self.project_path = Some(join_path(root, name.as_str()));
        let mut c: usize = 0;
        while c < shoot.cameras.len()
            invariant
                shoot.cameras@.len() <= CAMERA_COUNT,
                c <= shoot.cameras@.len(),
                self.project.version == 1,
                self.project.wav is None,
                self.project.layout == LayoutId::HBigLeft,
                forall|k: int| 0 <= k < 3 ==> #[trigger] self.project.slots@[k] == Slot::plain(k as usize),
                crate::model::fresh_output(self.project.output),
                self.project.range == (Range { start: 0, end: 0 }),
                self.project.cameras@.len() == CAMERA_COUNT,
                forall|d: int|
                    0 <= d < c ==> (#[trigger] self.project.cameras@[d]).name@ == folder_camera_name(
                        *shoot,
                        d,
                    ),
                forall|d: int|
                    c <= d < CAMERA_COUNT ==> (#[trigger] self.project.cameras@[d]).name@ == "Cam "@
                        + crate::text::decimal((d + 1) as nat),
                forall|d: int|
                    0 <= d < CAMERA_COUNT ==> (#[trigger] self.project.cameras@[d]).folder is None
                        && self.project.cameras@[d].clips@.len() == 0 && self.project.cameras@[d].grade
                        == Grade::neutral(),
                crate::probe::text_of(self.project_path) == Some(folder_project(root@)),
                self.error == was.error,
                self.unmatched == was.unmatched,
                self.flow == cleared(was.flow),
            decreases shoot.cameras@.len() - c,
        {
            let dir: Vec<char> = chars_of(shoot.cameras[c].as_str());
            if last_part_range(&dir).is_some() {
                self.project.cameras[c].name = file_name(shoot.cameras[c].as_str());
            }
            c = c + 1;
        }
        let notes: Vec<String> = notes_of(shoot);
        match &shoot.wav {
            Some(w) => {
                self.project.wav = Some(w.clone());
                self.flow.auto_sync = true;
            },
            None => {},
        }
        self.status = if notes.len() == 0 {
            join3("Opened ", root, ": scanning cameras…")
        } else {
            let list: String = join_all(&notes, "; ");
            join4("Opened ", root, ": ", list.as_str())
        };
        self.flow.dirty = true;
        self.flow.pending_scans = shoot.cameras.len();
        self.flow.tab = Tab::Layout;
        Some(
            Actions {
                stop: true,
                reset_streams: true,
                reset_view: true,
                load_wav: shoot.wav.is_some(),
                ..nothing()
            },
        )
    }

    /// Scans one camera folder picked by hand; its clips are synced once the master
    /// recording is there.
    pub fn import_camera(&mut self)
        ensures
            final(self).project == old(self).project,
            final(self).project_path == old(self).project_path,
            final(self).error == old(self).error,
            final(self).unmatched == old(self).unmatched,
            final(self).status@ == "Scanning…"@,
            final(self).flow == (Flow { auto_sync: true, ..old(self).flow }),
    {
        self.status = "Scanning…".to_owned();
        self.flow.auto_sync = true;
    }

    /// Takes a master recording, which is to be loaded.
    pub fn request_wav(&mut self, path: &str)
        ensures
            crate::probe::text_of(final(self).project.wav) == Some(path@),
            final(self).project == (Project { wav: final(self).project.wav, ..old(self).project }),
            final(self).project_path == old(self).project_path,
            final(self).error == old(self).error,
            final(self).unmatched == old(self).unmatched,
            final(self).status@ == "Loading WAV…"@,
            final(self).flow == old(self).flow,
    {
        self.project.wav = Some(path.to_owned());
        self.status = "Loading WAV…".to_owned();
    }

    /// Takes a master recording picked by hand; the clips are synced to it.
    pub fn import_wav(&mut self, path: &str)
        ensures
            crate::probe::text_of(final(self).project.wav) == Some(path@),
            final(self).project == (Project { wav: final(self).project.wav, ..old(self).project }),
            final(self).project_path == old(self).project_path,
            final(self).status@ == "Loading WAV…"@,
            final(self).error == old(self).error,
            final(self).unmatched == old(self).unmatched,
            final(self).flow == (Flow { auto_sync: true, ..old(self).flow }),
    {
        self.request_wav(path);
        self.flow.auto_sync = true;
    }

    /// Opens a project file that was read, or says why it could not be.
    pub fn open_project(&mut self, path: &str, found: Result<Project, String>) -> (act: Actions)
        ensures
            final(self).unmatched == old(self).unmatched,
            match found {
                Ok(project) => after_open(*old(self), *final(self), path@, project, act),
                Err(e) => *final(self) == (App { error: Some(e), ..*old(self) }) && act == no_actions(),
            },
    {
        match found {
            Ok(project) => {
                self.new_project();
                let load: bool = project.wav.is_some();
                self.project = project;
                self.project_path = Some(path.to_owned());
                if load {
                    self.status = "Loading WAV…".to_owned();
                }
                let detect: bool = self.ensure_hwaccel();
                self.flow.tab = Tab::Layout;
                Actions {
                    stop: true,
                    reset_streams: true,
                    reset_view: true,
                    load_wav: load,
                    detect_hwaccel: detect,
                    ..nothing()
                }
            },
            Err(e) => {
                self.error = Some(e);
                nothing()
            },
        }
    }

    /// The project was written to a file, or could not be.
    pub fn save_project(&mut self, path: &str, failure: Option<String>)
        ensures
            final(self).project == old(self).project,
            final(self).unmatched == old(self).unmatched,
            match failure {
                None => {
                    &&& crate::probe::text_of(final(self).project_path) == Some(path@)
                    &&& final(self).error == old(self).error
                    &&& final(self).status@ == "Project saved"@
                    &&& final(self).flow == (Flow { dirty: false, ..old(self).flow })
                },
                Some(e) => *final(self) == (App { error: Some(e), ..*old(self) }),
            },
    {
        match failure {
            None => {
                self.project_path = Some(path.to_owned());
                self.flow.dirty = false;
                self.status = "Project saved".to_owned();
            },
            Some(e) => {
                self.error = Some(e);
            },
        }
    }

    /// An export was started, or could not be.
    pub fn start_export(&mut self, failure: Option<String>)
        ensures
            final(self).project == old(self).project,
            final(self).project_path == old(self).project_path,
            final(self).unmatched == old(self).unmatched,
            final(self).flow == old(self).flow,
            match failure {
                None => {
                    let (w, h) = old(self).project.size_of_output();
                    &&& final(self).error == old(self).error
                    &&& final(self).status@ == "Exporting "@ + crate::text::decimal(w as nat) + "x"@
                        + crate::text::decimal(h as nat) + "…"@
                },
                Some(e) => final(self).error == Some(e) && final(self).status == old(self).status,
            },
    {
        match failure {
            None => {
                let (w, h): (u32, u32) = self.project.output_size();
                let a: String = number_text(w as u64);
                let b: String = number_text(h as u64);
                let size: String = join4("Exporting ", a.as_str(), "x", b.as_str());
                self.status = join2(size.as_str(), "…");
            },
            Some(e) => {
                self.error = Some(e);
            },
        }
    }

    /// An export is over.
    pub fn export_ended(&mut self, error: Option<String>, path: &str)
        ensures
            final(self).project == old(self).project,
            final(self).project_path == old(self).project_path,
            final(self).unmatched == old(self).unmatched,
            final(self).flow == old(self).flow,
            final(self).status@ == match error {
                Some(e) => "Export failed: "@ + e@,
                None => "Export finished: "@ + path@,
            },
            final(self).error == match error {
                Some(e) => Some(e),
                None => old(self).error,
            },
    {
        match error {
            Some(e) => {
                self.status = join2("Export failed: ", e.as_str());
                self.error = Some(e);
            },
            None => {
                self.status = join2("Export finished: ", path);
            },
        }
    }

    /// Clips were moved: every camera is looked at again.
    pub fn project_changed(&mut self) -> (act: Actions)
        ensures
            *final(self) == (App { flow: Flow { dirty: true, ..old(self).flow }, ..*old(self) }),
            act == (Actions { revisit: true, ..no_actions() }),
    {
        self.flow.dirty = true;
        Actions { revisit: true, ..nothing() }
    }

    /// Another page of the side panel is shown. The preview is ungraded only while the
    /// grades are.
    pub fn show_tab(&mut self, tab: Tab)
        ensures
            *final(self) == (App {
                flow: Flow {
                    tab,
                    show_original: old(self).flow.show_original && tab == Tab::Grade,
                    ..old(self).flow
                },
                ..*old(self)
            }),
    {
        self.flow.tab = tab;
        if tab != Tab::Grade {
            self.flow.show_original = false;
        }
    }

    /// Drops all changes to the grades since the last automatic grade; says whether
    /// there was one.
    pub fn back_to_automatic(&mut self) -> (done: bool)
        ensures
            done == (old(self).flow.auto_grades is Some),
            !done ==> *final(self) == *old(self),
            old(self).flow.auto_grades matches Some(g) ==> {
                &&& only_cameras(final(self).project, old(self).project)
                &&& forall|c: int|
                    0 <= c < old(self).project.cameras@.len() ==> #[trigger] final(self).project.cameras@[c]
                        == (Camera {
                        grade: new_grade(seq![g.0, g.1, g.2], c, old(self).project.cameras@[c].grade),
                        ..old(self).project.cameras@[c]
                    })
                &&& final(self).flow == (Flow { dirty: true, ..old(self).flow })
                &&& final(self).project_path == old(self).project_path
                &&& final(self).status == old(self).status
                &&& final(self).error == old(self).error
                &&& final(self).unmatched == old(self).unmatched
            },
    {
        match self.flow.auto_grades {
            Some((a, b, d)) => {
                if self.project.cameras.len() > 0 {
                    self.project.cameras[0].grade = a;
                }
                if self.project.cameras.len() > 1 {
                    self.project.cameras[1].grade = b;
                }
                if self.project.cameras.len() > 2 {
                    self.project.cameras[2].grade = d;
                }
                self.flow.dirty = true;
                true
            },
            None => false,
        }
    }
}

/// Background work keeps all times in range.
pub proof fn lemma_results_keep_times(a: App, b: App, r: JobResult, act: Actions)
    requires
        crate::sampling::project_ok(a.project),
        result_ok(a, r),
        after_result(a, b, r, act),
    ensures
        crate::sampling::project_ok(b.project),
{
    assert forall|c: int| 0 <= c < b.project.cameras@.len() implies crate::model::clip_times_ok(
        #[trigger] b.project.cameras@[c].clips@,
    ) by {
        assert(crate::model::clip_times_ok(a.project.cameras@[c].clips@));
        match r {
            JobResult::Synced { cam, index, result } => {
                let was = a.project.cameras@[c].clips@;
                assert forall|i: int| 0 <= i < b.project.cameras@[c].clips@.len() implies (
                #[trigger] b.project.cameras@[c].clips@[i]).times_ok() by {
                    assert(was[i].times_ok());
                }
            },
            _ => {},
        }
    }
}

/// A deferred sync starts once: where background work starts it, it is no longer
/// deferred, and everything it waited for is there.
pub proof fn lemma_sync_starts_once(a: App, b: App, r: JobResult, act: Actions)
    requires
        after_result(a, b, r, act),
        act.start_sync,
    ensures
        !b.flow.auto_sync,
        b.flow.pending_scans == 0,
        b.flow.wav is Some,
        b.flow.syncing,
        b.flow.sync_done == 0,
        b.flow.sync_total > 0,
{
}

/// Dropping the changes to the grades brings back what the automatic grade gave:
/// `c` is what [`App::back_to_automatic`] leaves of any `b` that has the flags and the
/// number of cameras which [`App::graded`] left.
pub proof fn lemma_automatic_comes_back(a: App, m: App, b: App, c: App, grades: Seq<Grade>, k: int)
    requires
        after_grades(a, m, grades),
        grades.len() >= m.project.cameras@.len(),
        m.project.cameras@.len() <= 3,
        b.flow.auto_grades == m.flow.auto_grades,
        b.project.cameras@.len() == m.project.cameras@.len(),
        0 <= k < m.project.cameras@.len(),
        ({
            let g = b.flow.auto_grades->0;
            c.project.cameras@[k].grade == new_grade(
                seq![g.0, g.1, g.2],
                k,
                b.project.cameras@[k].grade,
            )
        }),
    ensures
        c.project.cameras@[k].grade == m.project.cameras@[k].grade,
{
}

} // verus!
