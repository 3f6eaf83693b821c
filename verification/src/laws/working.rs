//! What becomes of the results of background work, of folders that are opened, and of the
//! words of the command line.

use crate::app::{
    after_folder, after_grades, after_open, after_placed, after_result, after_scan, after_sync, clip_count,
    clip_total, folder_project, has_clip, hwaccel_asked, is_project_name, joined, left_running, tenths_text,
    Actions, App, Flow, JobResult, Tab,
};
use crate::arrange::{Arranged, Placement};
use crate::cli::{
    command_of, items_from, note_of, numbered_tab, signed_hundredths, source_of, Command, Source,
};
use crate::discover::Shoot;
use crate::model::{file_name_of, Clip, Grade, LayoutId, Project, Slot};
use crate::panels::{format_of, menu, moved_on, summary_of, title_of, total_length};
use crate::text::{decimal, padded};
use crate::units::{even_rounded, lemma_even_near, size};
use vstd::prelude::*;

verus! {

// ---------------------------------------------------------------- results

/// Sync starts by itself only with everything it needs: no folder is still being scanned,
/// the master recording is there, and there are clips. It is then under way, with all
/// clips ahead of it, and does not start by itself again.
pub proof fn lemma_sync_waits_for_everything(a: App, b: App, r: JobResult, act: Actions)
    requires
        after_result(a, b, r, act),
        act.start_sync,
    ensures
        b.flow.pending_scans == 0,
        b.flow.wav is Some,
        b.flow.syncing,
        b.flow.sync_done == 0,
        b.flow.sync_total == clip_count(b.project),
        b.flow.sync_total > 0,
        a.flow.auto_sync,
        !b.flow.auto_sync,
{
}

/// Sync starts with the last of what it waits for: with the last folder, found or not, or
/// with the recording.
pub proof fn lemma_sync_starts_with_the_last_arrival(a: App, b: App, r: JobResult, act: Actions)
    requires
        after_result(a, b, r, act),
        a.flow.auto_sync,
        clip_count(b.project) > 0,
    ensures
        r is Scanned && a.flow.pending_scans <= 1 && a.flow.wav is Some ==> act.start_sync,
        (r matches JobResult::WavLoaded(w) && w is Ok) && a.flow.pending_scans == 0 ==> act.start_sync,
        (r matches JobResult::WavLoaded(w) && w is Err) ==> !act.start_sync && !b.flow.auto_sync,
{
}

/// Each folder that was looked at is one less to wait for, whether it could be read or
/// not; nothing else is.
pub proof fn lemma_scans_are_counted_down(a: App, b: App, r: JobResult, act: Actions)
    requires
        after_result(a, b, r, act),
    ensures
        r is Scanned && a.flow.pending_scans > 0 ==> b.flow.pending_scans == a.flow.pending_scans - 1,
        !(r is Scanned) ==> b.flow.pending_scans == a.flow.pending_scans,
{
}

/// A folder's clips go to its camera, which keeps its name and its grade; no other camera
/// changes, and the project is not saved any more.
pub proof fn lemma_scan_fills_one_camera(a: App, b: App, cam: int, folder: String, clips: Vec<Clip>, act: Actions, c: int)
    requires
        after_scan(a, b, cam, folder, clips, act),
        0 <= cam < a.project.cameras@.len(),
        0 <= c < a.project.cameras@.len(),
    ensures
        b.project.cameras@[cam].clips == clips,
        b.project.cameras@[cam].name == a.project.cameras@[cam].name,
        b.project.cameras@[cam].grade == a.project.cameras@[cam].grade,
        c != cam ==> b.project.cameras@[c] == a.project.cameras@[c],
        b.flow.dirty,
        act.reset_streams,
        b.project.wav == a.project.wav,
        b.project.slots == a.project.slots,
{
}

/// Placing a clip moves that clip and no other, and nothing of it but where it lies and how
/// sure that is; a clip that its sound did not place is remembered by name.
pub proof fn lemma_placing_moves_one_clip(a: App, b: App, cam: int, index: int, r: Arranged, k: int)
    requires
        after_placed(a, b, cam, index, r),
        0 <= cam < a.project.cameras@.len(),
        0 <= index < a.project.cameras@[cam].clips@.len(),
        0 <= k < a.project.cameras@[cam].clips@.len(),
    ensures
        b.project.cameras@[cam].clips@.len() == a.project.cameras@[cam].clips@.len(),
        b.project.cameras@[cam].clips@[index].offset == r.offset,
        b.project.cameras@[cam].clips@[index].sync_confidence == Some(r.confidence),
        b.project.cameras@[cam].clips@[k].path == a.project.cameras@[cam].clips@[k].path,
        b.project.cameras@[cam].clips@[k].duration == a.project.cameras@[cam].clips@[k].duration,
        k != index ==> b.project.cameras@[cam].clips@[k] == a.project.cameras@[cam].clips@[k],
        r.placement == Placement::Audio ==> b.unmatched@.len() == a.unmatched@.len(),
        r.placement != Placement::Audio ==> b.unmatched@.len() == a.unmatched@.len() + 1 && b.unmatched@[
            a.unmatched@.len() as int
        ]@ == file_name_of(a.project.cameras@[cam].clips@[index].path@),
        b.flow.dirty,
{
    let was = crate::text::text_views(a.unmatched@);
    let now = crate::text::text_views(b.unmatched@);
    assert(was.len() == a.unmatched@.len() && now.len() == b.unmatched@.len());
    if r.placement != Placement::Audio {
        assert(now[was.len() as int] == b.unmatched@[was.len() as int]@);
    }
}

/// Grading follows a sync by itself only where nobody has graded a camera yet, and not
/// twice at once.
pub proof fn lemma_own_grades_are_kept(a: App, b: App, act: Actions, c: int)
    requires
        after_sync(a, b, act),
        0 <= c < a.project.cameras@.len(),
    ensures
        a.project.cameras@[c].grade != Grade::neutral() ==> !act.start_grade,
        a.flow.grading ==> !act.start_grade,
        act.start_grade ==> b.flow.grading && b.flow.grade_done == 0,
        b.project == a.project,
        !b.flow.syncing,
        b.unmatched@.len() == 0,
        b.flow.tab == Tab::Layout,
{
}

/// New grades go to their cameras, in order, and change nothing else of them; they are
/// what is remembered as automatic.
pub proof fn lemma_grades_go_to_their_cameras(a: App, b: App, grades: Seq<Grade>, c: int)
    requires
        after_grades(a, b, grades),
        a.project.cameras@.len() == 3,
        grades.len() == 3,
        0 <= c < 3,
    ensures
        b.project.cameras@[c].grade == grades[c],
        b.project.cameras@[c].clips == a.project.cameras@[c].clips,
        b.project.cameras@[c].name == a.project.cameras@[c].name,
        b.flow.auto_grades == Some((grades[0], grades[1], grades[2])),
        !b.flow.grading,
        b.flow.dirty,
{
}

/// Progress counts one further and changes nothing of the project; what is said tells how
/// far it is.
pub proof fn lemma_progress_counts_on(a: App, b: App, r: JobResult, act: Actions)
    requires
        after_result(a, b, r, act),
        a.flow.sync_done < usize::MAX,
        a.flow.grade_done < usize::MAX,
    ensures
        r is SyncProgress ==> b.flow.sync_done == a.flow.sync_done + 1 && b.flow.grade_done == a.flow.grade_done
            && b.project == a.project && b.status@ == "Syncing "@ + decimal((a.flow.sync_done + 1) as nat) + "/"@
            + decimal(a.flow.sync_total as nat) + " clips…"@,
        r is GradeProgress ==> b.flow.grade_done == a.flow.grade_done + 1 && b.flow.sync_done == a.flow.sync_done
            && b.project == a.project && b.status@ == "Auto grading "@ + decimal((a.flow.grade_done + 1) as nat) + "/"@
            + decimal(a.flow.grade_total as nat) + " frames…"@,
{
}

/// Jobs end with their last results alone: a result of each kind of job ends it, reports on
/// the way end none, and no more jobs end than run.
pub proof fn lemma_jobs_end_once(running: int, results: Seq<JobResult>, n: int)
    requires
        running >= 0,
        0 < n <= results.len(),
    ensures
        0 <= left_running(running, results, n) <= running,
        results[n - 1] is Synced || results[n - 1] is SyncProgress || results[n - 1] is GradeProgress
            ==> left_running(running, results, n) == left_running(running, results, n - 1),
        (results[n - 1] is Scanned || results[n - 1] is WavLoaded || results[n - 1] is SyncFinished
            || results[n - 1] is HwAccelFound || results[n - 1] is Graded) && left_running(running, results, n - 1) > 0
            ==> left_running(running, results, n) == left_running(running, results, n - 1) - 1,
    decreases n,
{
    if n > 1 {
        lemma_jobs_end_once(running, results, n - 1);
    } else {
        assert(left_running(running, results, 0) == running);
    }
}

proof fn lemma_total_counts(project: Project, n: int)
    requires
        0 <= n <= project.cameras@.len(),
    ensures
        clip_total(project, n) >= 0,
        clip_total(project, n) > 0 <==> exists|c: int|
            0 <= c < n && (#[trigger] project.cameras@[c]).clips@.len() > 0,
    decreases n,
{
    if n > 0 {
        lemma_total_counts(project, n - 1);
        if clip_total(project, n) > 0 {
            if project.cameras@[n - 1].clips@.len() == 0 {
                let c = choose|c: int| 0 <= c < n - 1 && (#[trigger] project.cameras@[c]).clips@.len() > 0;
                assert(project.cameras@[c].clips@.len() > 0);
            } else {
                assert(project.cameras@[n - 1].clips@.len() > 0);
            }
        }
    }
}

/// There are clips to sync where a camera has one.
pub proof fn lemma_clips_are_counted(project: Project)
    ensures
        clip_count(project) > 0 <==> has_clip(project),
{
    lemma_total_counts(project, project.cameras@.len() as int);
}

/// The decode path is looked for once, as soon as there is a clip to try it with.
pub proof fn lemma_decode_path_is_looked_for_once(f: Flow, project: Project)
    ensures
        ({
            let (g, asked) = hwaccel_asked(f, project);
            let (h, again) = hwaccel_asked(g, project);
            &&& asked <==> has_clip(project) && !f.hwaccel_checked
            &&& asked ==> !again && h == g
            &&& !asked ==> g == f
        }),
{
}

// ---------------------------------------------------------------- opening

/// A folder that is opened starts a new project: every camera folder is scanned, and sync
/// follows where there is a recording to sync with. Nothing of the project before stays.
pub proof fn lemma_opened_folder_starts_anew(a: App, b: App, root: Seq<char>, shoot: Shoot, act: Actions, c: int)
    requires
        after_folder(a, b, root, shoot, act),
        shoot.cameras@.len() <= 3,
        0 <= c < 3,
    ensures
        b.flow.pending_scans == shoot.cameras@.len(),
        b.flow.auto_sync == (shoot.wav is Some),
        act.load_wav == (shoot.wav is Some),
        act.stop && act.reset_streams && act.reset_view,
        b.flow.wav is None,
        b.project.cameras@[c].clips@.len() == 0,
        b.project.cameras@[c].grade == Grade::neutral(),
        b.project.slots@[c].camera == c,
        b.project.slots@[c].zoom == 1_000_000,
{
    assert(b.project.slots@[c] == Slot::plain(c as usize));
    assert(b.project.cameras@[c].folder is None);
}

/// A project that is opened is shown as it was saved, and is saved.
pub proof fn lemma_opened_project_is_unchanged(a: App, b: App, path: Seq<char>, project: Project, act: Actions)
    requires
        after_open(a, b, path, project, act),
    ensures
        b.project == project,
        !b.flow.dirty,
        b.flow.pending_scans == 0,
        !b.flow.auto_sync,
        act.load_wav == (project.wav is Some),
        act.stop && act.reset_streams && act.reset_view,
        !act.start_sync && !act.start_grade,
{
}

/// A folder's project is saved in the folder, under the folder's name, as a project file.
pub proof fn lemma_project_is_saved_in_its_folder(dir: Seq<char>, name: Seq<char>)
    requires
        name.len() > 0,
        forall|i: int| 0 <= i < name.len() ==> #[trigger] name[i] != '/',
        name != seq!['.'],
        name != seq!['.', '.'],
    ensures
        ({
            let root = dir + seq!['/'] + name;
            &&& file_name_of(folder_project(root)) == name + ".trio.json"@
            &&& is_project_name(file_name_of(folder_project(root)))
            &&& root.is_prefix_of(folder_project(root))
        }),
{
    let root = dir + seq!['/'] + name;
    let tail = ".trio.json"@;
    reveal_strlit(".trio.json");
    crate::laws::projects::lemma_last_part_is_the_name(dir, name);
    assert(crate::model::last_part(root) == Some(name)) by {
        if crate::model::last_part(root) is None {
            assert(file_name_of(root).len() == 0);
        }
    }
    let file = name + tail;
    assert forall|i: int| 0 <= i < file.len() implies #[trigger] file[i] != '/' by {
        if i < name.len() {
            assert(file[i] == name[i]);
        } else {
            assert(file[i] == tail[i - name.len()]);
        }
    }
    assert(file.len() > 2);
    crate::laws::shoots::lemma_entry_lies_in_its_folder(root, file);
    assert(file.skip(file.len() - tail.len()) =~= tail);
}

/// Seconds are shown with the nearest tenth.
pub proof fn lemma_seconds_are_near(t: int)
    requires
        t >= 0,
    ensures
        exists|s: int, d: int|
            #![trigger decimal(s as nat), decimal(d as nat)]
            {
                &&& 0 <= s && 0 <= d < 10
                &&& tenths_text(t) == decimal(s as nat) + "."@ + decimal(d as nat)
                &&& 2 * size(s * 1_000_000 + d * 100_000 - t) <= 100_000
            },
{
    let h = even_rounded(t, 100_000);
    lemma_even_near(t, 100_000);
    let (s, d) = (h / 10, h % 10);
    assert(2 * size(s * 1_000_000 + d * 100_000 - t) <= 100_000);
    assert(tenths_text(t) == decimal(s as nat) + "."@ + decimal(d as nat));
}

/// Joined texts stand one behind the other, with the separator between any two.
pub proof fn lemma_joined_texts_follow(a: Seq<char>, b: Seq<char>, c: Seq<char>, sep: Seq<char>)
    ensures
        joined(seq![], sep).len() == 0,
        joined(seq![a], sep) == a,
        joined(seq![a, b], sep) == a + sep + b,
        joined(seq![a, b, c], sep) == a + sep + b + sep + c,
{
    assert(seq![a, b].drop_last() =~= seq![a]);
    assert(seq![a, b, c].drop_last() =~= seq![a, b]);
    assert(joined(seq![a], sep) == a);
    assert(joined(seq![a, b], sep) == a + sep + b);
}

// ---------------------------------------------------------------- panels

/// Rotating moves every camera to the next slot, the last to the first; the slots keep
/// what they are zoomed and panned to.
pub proof fn lemma_rotation_moves_cameras_on(s: Seq<Slot>, k: int)
    requires
        s.len() == 3,
        0 <= k < 3,
    ensures
        moved_on(s).len() == 3,
        moved_on(s)[(k + 1) % 3].camera == s[k].camera,
        moved_on(s)[k].zoom == s[k].zoom,
        moved_on(s)[k].pan == s[k].pan,
{
}

/// The menu offers every layout once, the horizontal ones first.
pub proof fn lemma_menu_offers_every_layout(l: LayoutId, i: int, j: int)
    requires
        0 <= i < 6,
        0 <= j < 6,
    ensures
        menu().len() == 6,
        menu().contains(l),
        i != j ==> menu()[i] != menu()[j],
        menu()[i].is_horizontal() <==> i < 3,
{
    let m = menu();
    assert(m[0] == l || m[1] == l || m[2] == l || m[3] == l || m[4] == l || m[5] == l);
}

/// The title is the project's file name, and says whether there are changes.
pub proof fn lemma_title_is_the_file_name(dir: Seq<char>, name: Seq<char>)
    requires
        name.len() > 0,
        forall|i: int| 0 <= i < name.len() ==> #[trigger] name[i] != '/',
        name != seq!['.'],
        name != seq!['.', '.'],
    ensures
        title_of(Some(dir + seq!['/'] + name), false) == name,
        title_of(Some(dir + seq!['/'] + name), true) == name + seq![' ', '*'],
        title_of(None, false) == "untitled"@,
{
    reveal_strlit("");
    reveal_strlit(" *");
    crate::laws::projects::lemma_last_part_is_the_name(dir, name);
    let path = dir + seq!['/'] + name;
    assert(crate::model::last_part(path) == Some(name)) by {
        if crate::model::last_part(path) is None {
            assert(file_name_of(path).len() == 0);
        }
    }
    assert(title_of(Some(path), false) =~= name);
    assert(" *"@ =~= seq![' ', '*']);
    assert(title_of(None, false) =~= "untitled"@);
}

/// Lengths of clips add up, in whatever two parts they are taken.
pub proof fn lemma_lengths_add_up(a: Seq<Clip>, b: Seq<Clip>, n: int)
    requires
        0 <= n <= b.len(),
    ensures
        total_length(a + b, a.len() + n) == total_length(a, a.len() as int) + total_length(b, n),
    decreases n,
{
    if n > 0 {
        lemma_lengths_add_up(a, b, n - 1);
        assert((a + b)[a.len() + n - 1] == b[n - 1]);
    } else {
        lemma_prefix_length(a, b, a.len() as int);
    }
}

proof fn lemma_prefix_length(a: Seq<Clip>, b: Seq<Clip>, n: int)
    requires
        0 <= n <= a.len(),
    ensures
        total_length(a + b, n) == total_length(a, n),
    decreases n,
{
    if n > 0 {
        lemma_prefix_length(a, b, n - 1);
        assert((a + b)[n - 1] == a[n - 1]);
    }
}

/// A camera is summed up by the number of its clips and their length to the second.
pub proof fn lemma_summary_is_near(clips: Seq<Clip>)
    ensures
        exists|s: int|
            #![trigger crate::text::signed(s)]
            summary_of(clips) == decimal(clips.len()) + " clips, "@ + crate::text::signed(s) + "s"@ && 2 * size(
                s * 1_000_000 - total_length(clips, clips.len() as int),
            ) <= 1_000_000,
{
    let t = total_length(clips, clips.len() as int);
    let s = even_rounded(t, 1_000_000);
    lemma_even_near(t, 1_000_000);
    assert(summary_of(clips) == decimal(clips.len()) + " clips, "@ + crate::text::signed(s) + "s"@);
}

/// A clip's format names its width, its height and its rate to the hundredth, in this
/// order, and whether it has a high dynamic range.
pub proof fn lemma_format_is_near(c: Clip)
    requires
        c.fps.num >= 0,
        c.fps.den > 0,
    ensures
        exists|w: int, h: int|
            #![trigger decimal(w as nat), padded(h as nat, 2)]
            {
                &&& 0 <= w && 0 <= h < 100
                &&& 2 * size((100 * w + h) * c.fps.den - 100 * c.fps.num) <= c.fps.den
                &&& format_of(c) == decimal(c.width as nat) + "x"@ + decimal(c.height as nat) + " @ "@ + decimal(
                    w as nat,
                ) + "."@ + padded(h as nat, 2) + " fps"@ + if c.hdr {
                    " HDR"@
                } else {
                    ""@
                }
            },
{
    let n = c.fps.num * 100;
    let d = c.fps.den as int;
    let r = even_rounded(n, d);
    lemma_even_near(n, d);
    let (w, h) = (r / 100, r % 100);
    assert(100 * w + h == r);
    assert(0 <= w && 0 <= h < 100);
    let (a, b) = (decimal(w as nat), padded(h as nat, 2));
    assert(format_of(c) == decimal(c.width as nat) + "x"@ + decimal(c.height as nat) + " @ "@ + a + "."@ + b + " fps"@
        + if c.hdr {
        " HDR"@
    } else {
        ""@
    });
}

// ---------------------------------------------------------------- command line

/// The first word alone says what is done; without one of the commands the window opens.
pub proof fn lemma_first_word_is_the_command(rest: Seq<Seq<char>>, word: Seq<char>)
    ensures
        command_of(seq!["new"@] + rest) == Command::New,
        command_of(seq!["sync"@] + rest) == Command::Sync,
        command_of(seq!["export"@] + rest) == Command::Export,
        command_of(seq!["grade"@] + rest) == Command::Grade,
        command_of(seq!["probe"@] + rest) == Command::Probe,
        command_of(seq![]) == Command::Window,
        word != "new"@ && word != "sync"@ && word != "export"@ && word != "grade"@ && word != "probe"@ ==> command_of(
            seq![word] + rest,
        ) == Command::Window,
{
    reveal_strlit("new");
    reveal_strlit("sync");
    reveal_strlit("export");
    reveal_strlit("grade");
    reveal_strlit("probe");
    let new_word = "new"@;
    let sync_word = "sync"@;
    let export_word = "export"@;
    let grade_word = "grade"@;
    let probe_word = "probe"@;
    assert(new_word.len() == 3 && sync_word.len() == 4 && export_word.len() == 6);
    assert(grade_word[0] == 'g' && probe_word[0] == 'p');
}

/// The word that asks for a part of a new project.
pub open spec fn flag_of(s: Source) -> Seq<char> {
    match s {
        Source::Root => "--root"@,
        Source::Cam => "--cam"@,
        Source::Wav => "--wav"@,
    }
}

/// The words that ask for parts of a new project.
pub open spec fn words_for(items: Seq<(Source, Seq<char>)>) -> Seq<Seq<char>>
    decreases items.len(),
{
    if items.len() == 0 {
        Seq::empty()
    } else {
        seq![flag_of(items[0].0), items[0].1] + words_for(items.drop_first())
    }
}

proof fn lemma_flags_are_read(s: Source)
    ensures
        source_of(flag_of(s)) == Some(s),
{
    reveal_strlit("--root");
    reveal_strlit("--cam");
    reveal_strlit("--wav");
    let root = "--root"@;
    let cam = "--cam"@;
    let wav = "--wav"@;
    assert(root[2] == 'r' && cam[2] == 'c' && wav[2] == 'w');
}

/// Parts that are asked for are understood, each with its folder or file and in their
/// order, whatever stands before them.
pub proof fn lemma_parts_are_understood(head: Seq<Seq<char>>, items: Seq<(Source, Seq<char>)>)
    ensures
        items_from(head + words_for(items), head.len() as int) == (items, true),
    decreases items.len(),
{
    let args = head + words_for(items);
    let i = head.len() as int;
    if items.len() == 0 {
        assert(args.len() == head.len());
        assert(items_from(args, i).0 =~= items);
    } else {
        let first = items[0];
        let two = seq![flag_of(first.0), first.1];
        let rest = items.drop_first();
        lemma_flags_are_read(first.0);
        lemma_parts_are_understood(head + two, rest);
        assert(args =~= (head + two) + words_for(rest));
        assert(args[i] == flag_of(first.0));
        assert(args[i + 1] == first.1);
        assert(seq![first] + rest =~= items);
    }
}

/// The pages are numbered in the order of the work, from one to four.
pub proof fn lemma_pages_are_numbered(n: int)
    ensures
        numbered_tab(n) is Some <==> 1 <= n <= 4,
        numbered_tab(1) == Some(Tab::Import),
        numbered_tab(2) == Some(Tab::Layout),
        numbered_tab(3) == Some(Tab::Grade),
        numbered_tab(4) == Some(Tab::Export),
{
}

/// A note stands only where the sound did not place a clip, and says what did.
pub proof fn lemma_only_unmatched_clips_get_a_note()
    ensures
        note_of(Placement::Audio).len() == 0,
        note_of(Placement::Timestamp).len() > 0,
        note_of(Placement::Unknown).len() > 0,
        note_of(Placement::Timestamp) != note_of(Placement::Unknown),
{
    reveal_strlit("");
    reveal_strlit("  (no audio match, placed by timestamp)");
    reveal_strlit("  (no audio match, offset unchanged)");
    assert(note_of(Placement::Timestamp).len() != note_of(Placement::Unknown).len());
}

/// A number with a sign always shows it, and its digits are those without it.
pub proof fn lemma_signs_are_shown(n: int)
    ensures
        n >= 0 ==> signed_hundredths(n) == seq!['+'] + crate::text::fixed_to(n, 2),
        n < 0 ==> signed_hundredths(n) == crate::text::fixed_to(n, 2),
{
    reveal_strlit("+");
    assert("+"@ =~= seq!['+']);
}

// ---------------------------------------------------------------- what is said

/// What is said of a folder: that there are fewer than three cameras, which folders did not
/// fit, and which recording was taken of several or that there is none; nothing where all
/// is as it should be.
pub proof fn lemma_folder_notes_say_what_is_unusual(shoot: Shoot)
    ensures
        ({
            let few: int = if shoot.cameras@.len() < 3 {
                1
            } else {
                0
            };
            let extra: int = if shoot.skipped_cameras@.len() >= 1 {
                1
            } else {
                0
            };
            let sound: int = if shoot.wav is None || shoot.other_audio@.len() >= 1 {
                1
            } else {
                0
            };
            crate::app::folder_notes(shoot).len() == few + extra + sound
        }),
{
}

/// What is said after a sync names every clip that its sound did not place, and no other.
pub proof fn lemma_sync_message_names_the_unmatched(a: Seq<char>, b: Seq<char>)
    ensures
        crate::app::sync_message(seq![]) == "Sync finished"@,
        crate::app::sync_message(seq![a]) == "Sync finished; no audio match for "@ + a + " (placed by timestamp)"@,
        crate::app::sync_message(seq![a, b]) == "Sync finished; no audio match for "@ + a + ", "@ + b
            + " (placed by timestamp)"@,
{
    lemma_joined_texts_follow(a, b, b, ", "@);
    let s = "Sync finished; no audio match for "@;
    let t = " (placed by timestamp)"@;
    assert(s + (a + ", "@ + b) + t =~= s + a + ", "@ + b + t);
}

/// A camera is called like its folder.
pub proof fn lemma_cameras_are_called_like_their_folders(dir: Seq<char>, name: Seq<char>, was: Seq<char>, shoot: Shoot, c: int)
    requires
        name.len() > 0,
        forall|i: int| 0 <= i < name.len() ==> #[trigger] name[i] != '/',
        name != seq!['.'],
        name != seq!['.', '.'],
        0 <= c < shoot.cameras@.len(),
        shoot.cameras@[c]@ == dir + seq!['/'] + name,
    ensures
        crate::cli::camera_name(dir + seq!['/'] + name, was) == name,
        crate::app::folder_camera_name(shoot, c) == name,
        crate::app::name_of(dir + seq!['/'] + name) == name,
{
    crate::laws::projects::lemma_last_part_is_the_name(dir, name);
    let path = dir + seq!['/'] + name;
    assert(crate::model::last_part(path) == Some(name)) by {
        if crate::model::last_part(path) is None {
            assert(file_name_of(path).len() == 0);
        }
    }
}

/// Words with two dashes are options and never opened; else folders are, and project files.
pub proof fn lemma_what_can_be_opened(word: Seq<char>, dir: Seq<char>, stem: Seq<char>)
    requires
        stem.len() > 0,
        forall|i: int| 0 <= i < stem.len() ==> #[trigger] stem[i] != '/',
        dir.len() > 0,
        dir[0] != '-',
    ensures
        !crate::cli::can_open(seq!['-', '-'] + word, true),
        !crate::cli::can_open(seq!['-', '-'] + word, false),
        crate::cli::can_open(dir + seq!['/'] + (stem + ".json"@), false),
        crate::cli::can_open(dir, true),
{
    reveal_strlit(".json");
    reveal_strlit("json");
    let e = "json"@;
    assert(stem + ".json"@ =~= stem + seq!['.'] + e);
    assert forall|i: int| 0 <= i < e.len() implies #[trigger] e[i] != '/' && e[i] != '.' by {
        assert(e[0] == 'j' && e[1] == 's' && e[2] == 'o' && e[3] == 'n');
        assert(i == 0 || i == 1 || i == 2 || i == 3);
    }
    crate::laws::shoots::lemma_extension_stands_behind_the_dot(dir, stem, e);
    let path = dir + seq!['/'] + (stem + ".json"@);
    assert(path[0] == dir[0]);
    let o = seq!['-', '-'] + word;
    assert(o[0] == '-' && o[1] == '-');
}

/// A project file's name ends with both of its endings: another document is none.
pub proof fn lemma_other_documents_are_no_projects(stem: Seq<char>)
    ensures
        is_project_name(stem + ".json"@) <==> crate::app::ends_with(stem, ".trio"@),
{
    reveal_strlit(".json");
    reveal_strlit(".trio");
    reveal_strlit(".trio.json");
    let s = stem + ".json"@;
    let n = stem.len() as int;
    assert(".trio.json"@ =~= ".trio"@ + ".json"@);
    if n >= 5 {
        let tail = s.skip(s.len() - 10);
        let last = stem.skip(n - 5);
        assert(tail =~= last + ".json"@);
        if last == ".trio"@ {
            assert(tail =~= ".trio.json"@);
        }
        if tail == ".trio.json"@ {
            assert(last =~= tail.take(5));
            assert(".trio"@ =~= ".trio.json"@.take(5));
        }
    }
}

} // verus!
