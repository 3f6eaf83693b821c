//! The command line: what the words ask for, and what is printed.

use crate::app::Tab;
use crate::arrange::{Arranged, Placement};
use crate::discover::extension;
use crate::model::{last_part_range, Clip, Grade, Project};
use crate::text::{chars_of, fixed_text, join2, join3, join4, left_text, parse_int, parse_micros, right_text, same, spells};
use vstd::prelude::*;

verus! {

/// The word is the name of a command.
pub open spec fn names_command(word: Seq<char>) -> bool {
    word == "new"@ || word == "sync"@ || word == "export"@ || word == "grade"@ || word == "probe"@
}

/// What the first word asks for.
#[derive(Debug, Clone, Copy, PartialEq, Eq, Structural)]
pub enum Command {
    New,
    Sync,
    Export,
    Grade,
    Probe,
    /// No command: the window opens.
    Window,
}

/// What the first word asks for.
pub open spec fn command_of(args: Seq<Seq<char>>) -> Command {
    if args.len() == 0 || !names_command(args[0]) {
        Command::Window
    } else if args[0] == "new"@ {
        Command::New
    } else if args[0] == "sync"@ {
        Command::Sync
    } else if args[0] == "export"@ {
        Command::Export
    } else if args[0] == "grade"@ {
        Command::Grade
    } else {
        Command::Probe
    }
}

/// What the first word asks for.
pub fn command(args: &Vec<String>) -> (c: Command)
    ensures
        c == command_of(crate::text::text_views(args@)),
{
    if args.len() == 0 {
        return Command::Window;
    }
    let word: &str = args[0].as_str();
    assert(crate::text::text_views(args@)[0] == word@);
    if same(word, "new") {
        Command::New
    } else if same(word, "sync") {
        Command::Sync
    } else if same(word, "export") {
        Command::Export
    } else if same(word, "grade") {
        Command::Grade
    } else if same(word, "probe") {
        Command::Probe
    } else {
        Command::Window
    }
}

/// How the program is called.
pub fn usage() -> (s: &'static str)
    ensures
        s@ == "usage:\n  trio-capture new <out.trio.json> --root SHOOT_DIR\n  trio-capture new <out.trio.json> --cam DIR --cam DIR --cam DIR [--wav FILE]\n  trio-capture sync <project.trio.json>\n  trio-capture export <project.trio.json> [--out FILE]\n  trio-capture grade <project.trio.json>\n  trio-capture probe FILE..."@,
{
    "usage:\n  trio-capture new <out.trio.json> --root SHOOT_DIR\n  trio-capture new <out.trio.json> --cam DIR --cam DIR --cam DIR [--wav FILE]\n  trio-capture sync <project.trio.json>\n  trio-capture export <project.trio.json> [--out FILE]\n  trio-capture grade <project.trio.json>\n  trio-capture probe FILE..."
}

// ---------------------------------------------------------------- options

/// The first place at or behind `i` where `word` stands, or the number of words.
pub open spec fn place_of(args: Seq<Seq<char>>, word: Seq<char>, i: int) -> int
    decreases args.len() - i,
{
    if i < 0 || i >= args.len() || args[i] == word {
        i
    } else {
        place_of(args, word, i + 1)
    }
}

/// An option with a value.
#[derive(Debug)]
pub enum Given {
    Absent,
    /// The option is the last word.
    Incomplete,
    Value(String),
}

/// What was given for an option.
pub open spec fn given_of(args: Seq<Seq<char>>, flag: Seq<char>, g: Given) -> bool {
    let k = place_of(args, flag, 0);
    match g {
        Given::Absent => k >= args.len(),
        Given::Incomplete => k + 1 == args.len(),
        Given::Value(v) => k + 1 < args.len() && v@ == args[k + 1],
    }
}

/// Where `word` stands first.
fn find(args: &Vec<String>, word: &str) -> (k: usize)
    ensures
        k == place_of(crate::text::text_views(args@), word@, 0),
        k <= args@.len(),
{
    let ghost views = crate::text::text_views(args@);
    let mut k: usize = 0;
    while k < args.len()
        invariant
            views == crate::text::text_views(args@),
            k <= args@.len(),
            place_of(views, word@, 0) == place_of(views, word@, k as int),
        decreases args@.len() - k,
    {
        assert(views[k as int] == args@[k as int]@);
        if same(args[k].as_str(), word) {
            return k;
        }
        k = k + 1;
    }
    k
}

/// What was given for an option.
pub fn option_value(args: &Vec<String>, flag: &str) -> (g: Given)
    ensures
        given_of(crate::text::text_views(args@), flag@, g),
{
    let k: usize = find(args, flag);
    if k >= args.len() {
        Given::Absent
    } else if k + 1 == args.len() {
        Given::Incomplete
    } else {
        let v: String = args[k + 1].clone();
        assert(crate::text::text_views(args@)[k + 1] == v@);
        Given::Value(v)
    }
}

/// Whether an option was given.
pub fn has_flag(args: &Vec<String>, flag: &str) -> (b: bool)
    ensures
        b == crate::text::text_views(args@).contains(flag@),
{
    let ghost views = crate::text::text_views(args@);
    let k: usize = find(args, flag);
    proof {
        lemma_place(views, flag@, 0);
        if k < views.len() {
            assert(views[k as int] == flag@);
        }
    }
    k < args.len()
}

/// The place of a word is the first where it stands.
pub proof fn lemma_place(args: Seq<Seq<char>>, word: Seq<char>, i: int)
    requires
        0 <= i <= args.len(),
    ensures
        i <= place_of(args, word, i) <= args.len(),
        place_of(args, word, i) < args.len() ==> args[place_of(args, word, i)] == word,
        forall|j: int| i <= j < place_of(args, word, i) ==> #[trigger] args[j] != word,
    decreases args.len() - i,
{
    if i < args.len() && args[i] != word {
        lemma_place(args, word, i + 1);
    }
}

/// The time that `--at` asks for.
pub fn start_time(args: &Vec<String>) -> (t: Option<i64>)
    ensures
        ({
            let views = crate::text::text_views(args@);
            let k = place_of(views, "--at"@, 0);
            match t {
                Some(u) => k + 1 < views.len() && crate::text::spelled_micros(views[k + 1]) == Some(u as int),
                None => k + 1 >= views.len() || !(crate::text::spelled_micros(views[k + 1]) matches Some(u)
                    && -crate::arrange::TIME_LIMIT < u < crate::arrange::TIME_LIMIT),
            }
        }),
{
    match option_value(args, "--at") {
        Given::Value(v) => {
            let c: Vec<char> = chars_of(v.as_str());
            parse_micros(&c)
        },
        _ => None,
    }
}

/// The page of the side panel with this number, from one on.
pub open spec fn numbered_tab(n: int) -> Option<Tab> {
    if n == 1 {
        Some(Tab::Import)
    } else if n == 2 {
        Some(Tab::Layout)
    } else if n == 3 {
        Some(Tab::Grade)
    } else if n == 4 {
        Some(Tab::Export)
    } else {
        None
    }
}

/// The page that `--step` asks for.
pub fn start_tab(args: &Vec<String>) -> (t: Option<Tab>)
    ensures
        ({
            let views = crate::text::text_views(args@);
            let k = place_of(views, "--step"@, 0);
            t == if k + 1 < views.len() {
                match crate::text::spelled_int(views[k + 1]) {
                    Some(n) => numbered_tab(n),
                    None => None,
                }
            } else {
                None
            }
        }),
{
    match option_value(args, "--step") {
        Given::Value(v) => {
            let c: Vec<char> = chars_of(v.as_str());
            match parse_int(&c) {
                Some(n) => if n == 1 {
                    Some(Tab::Import)
                } else if n == 2 {
                    Some(Tab::Layout)
                } else if n == 3 {
                    Some(Tab::Grade)
                } else if n == 4 {
                    Some(Tab::Export)
                } else {
                    None
                },
                None => None,
            }
        },
        _ => None,
    }
}

/// What is done once the project is loaded: go to a time, and play.
pub fn startup(at: Option<i64>, play: bool) -> (r: Option<(i64, bool)>)
    ensures
        r == match at {
            Some(t) => Some((t, play)),
            None => if play {
                Some((0i64, true))
            } else {
                None
            },
        },
{
    match at {
        Some(t) => Some((t, play)),
        None => if play {
            Some((0, true))
        } else {
            None
        },
    }
}

/// The word starts with two dashes.
pub open spec fn is_option(word: Seq<char>) -> bool {
    word.len() >= 2 && word[0] == '-' && word[1] == '-'
}

/// The word names something that can be opened: a folder, or a project file.
pub open spec fn can_open(word: Seq<char>, is_dir: bool) -> bool {
    !is_option(word) && (is_dir || crate::discover::path_extension(word) == Some("json"@))
}

/// The first word that names something that can be opened. `dirs` says which words
/// name folders.
pub fn startup_project(args: &Vec<String>, dirs: &Vec<bool>) -> (r: Option<usize>)
    requires
        args@.len() == dirs@.len(),
    ensures
        match r {
            Some(k) => {
                &&& k < args@.len()
                &&& can_open(args@[k as int]@, dirs@[k as int])
                &&& forall|j: int| 0 <= j < k ==> !can_open(#[trigger] args@[j]@, dirs@[j])
            },
            None => forall|j: int| 0 <= j < args@.len() ==> !can_open(#[trigger] args@[j]@, dirs@[j]),
        },
{
    let mut k: usize = 0;
    while k < args.len()
        invariant
            args@.len() == dirs@.len(),
            k <= args@.len(),
            forall|j: int| 0 <= j < k ==> !can_open(#[trigger] args@[j]@, dirs@[j]),
        decreases args@.len() - k,
    {
        let word: &str = args[k].as_str();
        let option: bool = word.unicode_len() >= 2 && word.get_char(0) == '-' && word.get_char(1) == '-';
        let project: bool = match extension(word) {
            Some(e) => spells(&e, "json"),
            None => false,
        };
        if !option && (dirs[k] || project) {
            return Some(k);
        }
        k = k + 1;
    }
    None
}

// ---------------------------------------------------------------- new projects

/// Where a part of a new project comes from.
#[derive(Debug, Clone, Copy, PartialEq, Eq, Structural)]
pub enum Source {
    /// A shoot folder.
    Root,
    /// A camera folder.
    Cam,
    /// The master recording.
    Wav,
}

/// A part of a new project.
#[derive(Debug)]
pub struct NewItem {
    pub source: Source,
    pub path: String,
}

/// A new project, as it is asked for.
#[derive(Debug)]
pub struct NewPlan {
    /// The project file.
    pub out: String,
    /// What is taken in, one after the other.
    pub items: Vec<NewItem>,
    /// All words were understood. Where they were not, the items are those before
    /// the first that was not.
    pub complete: bool,
}

/// The option's meaning.
pub open spec fn source_of(word: Seq<char>) -> Option<Source> {
    if word == "--root"@ {
        Some(Source::Root)
    } else if word == "--cam"@ {
        Some(Source::Cam)
    } else if word == "--wav"@ {
        Some(Source::Wav)
    } else {
        None
    }
}

/// The parts that the words from `i` on ask for, and whether all were understood.
pub open spec fn items_from(args: Seq<Seq<char>>, i: int) -> (Seq<(Source, Seq<char>)>, bool)
    decreases args.len() - i,
{
    if i < 0 || i >= args.len() {
        (Seq::empty(), true)
    } else {
        match source_of(args[i]) {
            Some(s) => if i + 1 < args.len() {
                let rest = items_from(args, i + 2);
                (seq![(s, args[i + 1])] + rest.0, rest.1)
            } else {
                (Seq::empty(), false)
            },
            None => (Seq::empty(), false),
        }
    }
}

/// The parts, as sources and paths.
pub open spec fn item_views(items: Seq<NewItem>) -> Seq<(Source, Seq<char>)> {
    Seq::new(items.len(), |i: int| (items[i].source, items[i].path@))
}

/// The option's meaning.
fn source(word: &str) -> (s: Option<Source>)
    ensures
        s == source_of(word@),
{
    if same(word, "--root") {
        Some(Source::Root)
    } else if same(word, "--cam") {
        Some(Source::Cam)
    } else if same(word, "--wav") {
        Some(Source::Wav)
    } else {
        None
    }
}

/// What a new project is made of; `None` without a project file. `args` are the
/// words behind the command.
pub fn plan_new(args: &Vec<String>) -> (r: Option<NewPlan>)
    ensures
        r is None <==> args@.len() == 0,
        r matches Some(p) ==> {
            let views = crate::text::text_views(args@);
            p.out@ == views[0] && (item_views(p.items@), p.complete) == items_from(views, 1)
        },
{
    if args.len() == 0 {
        return None;
    }
    let ghost views = crate::text::text_views(args@);
    let out: String = args[0].clone();
    let mut items: Vec<NewItem> = Vec::new();
    let mut i: usize = 1;
    assert(item_views(items@) + items_from(views, 1).0 =~= items_from(views, 1).0);
    while i < args.len()
        invariant
            views == crate::text::text_views(args@),
            args@.len() > 0,
            out@ == views[0],
            1 <= i <= args@.len(),
            item_views(items@) + items_from(views, i as int).0 == items_from(views, 1).0,
            items_from(views, i as int).1 == items_from(views, 1).1,
        decreases args@.len() - i,
    {
        assert(views[i as int] == args@[i as int]@);
        match source(args[i].as_str()) {
            Some(s) if i + 1 < args.len() => {
                let path: String = args[i + 1].clone();
                let ghost was = items@;
                items.push(NewItem { source: s, path });
                proof {
                    assert(views[i + 1] == path@);
                    let rest = items_from(views, i + 2).0;
                    assert(item_views(items@) =~= item_views(was).push((s, path@)));
                    assert(item_views(items@) + rest =~= item_views(was) + (seq![(s, path@)] + rest));
                }
                i = i + 2;
            },
            _ => {
                assert(item_views(items@) + Seq::empty() =~= item_views(items@));
                return Some(NewPlan { out, items, complete: false });
            },
        }
    }
    assert(item_views(items@) + Seq::empty() =~= item_views(items@));
    Some(NewPlan { out, items, complete: true })
}

/// The name of a camera whose folder is `dir`; `was` where the folder has no name.
pub open spec fn camera_name(dir: Seq<char>, was: Seq<char>) -> Seq<char> {
    match crate::model::last_part(dir) {
        Some(n) => n,
        None => was,
    }
}

/// Puts the clips of a folder into camera `cam`; says whether there is such a camera.
pub fn add_camera(project: &mut Project, cam: usize, dir: &str, clips: Vec<Clip>) -> (added: bool)
    ensures
        added == (cam < old(project).cameras@.len()),
        !added ==> *final(project) == *old(project),
        added ==> {
            let a = old(project).cameras@;
            let b = final(project).cameras@;
            &&& crate::app::only_cameras(*final(project), *old(project))
            &&& forall|c: int| 0 <= c < a.len() && c != cam ==> #[trigger] b[c] == a[c]
            &&& b[cam as int].name@ == camera_name(dir@, a[cam as int].name@)
            &&& crate::probe::text_of(b[cam as int].folder) == Some(dir@)
            &&& b[cam as int].clips == clips
            &&& b[cam as int].grade == a[cam as int].grade
        },
{
    if cam >= project.cameras.len() {
        return false;
    }
    let v: Vec<char> = chars_of(dir);
    match last_part_range(&v) {
        Some((a, b)) => {
            project.cameras[cam].name = dir.substring_char(a, b).to_owned();
        },
        None => {},
    }
    project.cameras[cam].folder = Some(dir.to_owned());
    project.cameras[cam].clips = clips;
    true
}

// ---------------------------------------------------------------- results

/// Puts clips where sync found them, as far as there are results.
pub fn place_clips(clips: &mut Vec<Clip>, found: &Vec<Arranged>)
    ensures
        final(clips)@.len() == old(clips)@.len(),
        forall|i: int|
            0 <= i < old(clips)@.len() ==> #[trigger] final(clips)@[i] == if i < found@.len() {
                Clip {
                    offset: found@[i].offset,
                    sync_confidence: Some(found@[i].confidence),
                    ..old(clips)@[i]
                }
            } else {
                old(clips)@[i]
            },
{
    let ghost was = clips@;
    let mut i: usize = 0;
    while i < clips.len() && i < found.len()
        invariant
            clips@.len() == was.len(),
            i <= clips@.len(),
            i <= found@.len(),
            forall|j: int| i <= j < was.len() ==> #[trigger] clips@[j] == was[j],
            forall|j: int|
                0 <= j < i ==> #[trigger] clips@[j] == (Clip {
                    offset: found@[j].offset,
                    sync_confidence: Some(found@[j].confidence),
                    ..was[j]
                }),
        decreases clips@.len() - i,
    {
        clips[i].offset = found[i].offset;
        clips[i].sync_confidence = Some(found[i].confidence);
        i = i + 1;
    }
}

/// What is said of a clip that its sound did not place.
pub open spec fn note_of(p: Placement) -> Seq<char> {
    match p {
        Placement::Audio => ""@,
        Placement::Timestamp => "  (no audio match, placed by timestamp)"@,
        Placement::Unknown => "  (no audio match, offset unchanged)"@,
    }
}

/// What is said of a clip that its sound did not place.
pub fn placement_note(p: Placement) -> (s: &'static str)
    ensures
        s@ == note_of(p),
{
    match p {
        Placement::Audio => "",
        Placement::Timestamp => "  (no audio match, placed by timestamp)",
        Placement::Unknown => "  (no audio match, offset unchanged)",
    }
}

/// The line that is printed for a clip.
pub fn sync_line(name: &str, r: Arranged) -> (s: String)
    requires
        r.offset > i64::MIN,
    ensures
        s@ == crate::text::left_in(name@, 28) + " offset "@ + crate::text::right_in(
            crate::text::fixed_to(r.offset as int, 3),
            9,
        ) + "s  confidence "@ + crate::text::fixed_to(r.confidence as int, 2) + note_of(r.placement),
{
    let head: String = left_text(name, 28);
    let offset: String = fixed_text(r.offset, 3);
    let field: String = right_text(offset.as_str(), 9);
    let confidence: String = fixed_text(r.confidence as i64, 2);
    let s: String = join4(head.as_str(), " offset ", field.as_str(), "s  confidence ");
    join3(s.as_str(), confidence.as_str(), placement_note(r.placement))
}

/// A number with two places and its sign.
pub open spec fn signed_hundredths(n: int) -> Seq<char> {
    if n < 0 {
        crate::text::fixed_to(n, 2)
    } else {
        "+"@ + crate::text::fixed_to(n, 2)
    }
}

/// A number with two places and its sign.
fn signed_fixed(n: i64) -> (s: String)
    requires
        n > i64::MIN,
    ensures
        s@ == signed_hundredths(n as int),
{
    let s: String = fixed_text(n, 2);
    if n < 0 {
        s
    } else {
        join2("+", s.as_str())
    }
}

/// The line that is printed for a camera's grade.
pub fn grade_line(name: &str, g: Grade) -> (s: String)
    requires
        g.exposure > i64::MIN,
        g.contrast > i64::MIN,
        g.saturation > i64::MIN,
        g.temperature > i64::MIN,
        g.tint > i64::MIN,
    ensures
        s@ == crate::text::left_in(name@, 12) + " exposure "@ + signed_hundredths(g.exposure as int)
            + "  contrast "@ + crate::text::fixed_to(g.contrast as int, 2) + "  saturation "@
            + crate::text::fixed_to(g.saturation as int, 2) + "  temperature "@ + signed_hundredths(
            g.temperature as int,
        ) + "  tint "@ + signed_hundredths(g.tint as int),
{
    let head: String = left_text(name, 12);
    let exposure: String = signed_fixed(g.exposure);
    let contrast: String = fixed_text(g.contrast, 2);
    let saturation: String = fixed_text(g.saturation, 2);
    let temperature: String = signed_fixed(g.temperature);
    let tint: String = signed_fixed(g.tint);
    let a: String = join4(head.as_str(), " exposure ", exposure.as_str(), "  contrast ");
    let b: String = join4(a.as_str(), contrast.as_str(), "  saturation ", saturation.as_str());
    let c: String = join4(b.as_str(), "  temperature ", temperature.as_str(), "  tint ");
    join2(c.as_str(), tint.as_str())
}

/// Gives the cameras their grades, as far as there are grades.
pub fn grade_cameras(project: &mut Project, grades: &Vec<Grade>)
    ensures
        crate::app::only_cameras(*final(project), *old(project)),
        forall|c: int|
            0 <= c < old(project).cameras@.len() ==> #[trigger] final(project).cameras@[c] == if c
                < grades@.len() {
                crate::model::Camera { grade: grades@[c], ..old(project).cameras@[c] }
            } else {
                old(project).cameras@[c]
            },
{
    let ghost was = *project;
    let mut c: usize = 0;
    while c < project.cameras.len() && c < grades.len()
        invariant
            crate::app::only_cameras(*project, was),
            c <= project.cameras@.len(),
            c <= grades@.len(),
            forall|j: int| c <= j < was.cameras@.len() ==> #[trigger] project.cameras@[j] == was.cameras@[j],
            forall|j: int|
                0 <= j < c ==> #[trigger] project.cameras@[j] == (crate::model::Camera {
                    grade: grades@[j],
                    ..was.cameras@[j]
                }),
        decreases project.cameras@.len() - c,
    {
        project.cameras[c].grade = grades[c];
        c = c + 1;
    }
}

/// The words of a plan are all there is to it: as many parts as pairs of words.
pub proof fn lemma_complete_plan(args: Seq<Seq<char>>, i: int)
    requires
        0 <= i <= args.len(),
        items_from(args, i).1,
    ensures
        2 * items_from(args, i).0.len() == args.len() - i,
    decreases args.len() - i,
{
    if i < args.len() {
        lemma_complete_plan(args, i + 2);
    }
}

} // verus!
