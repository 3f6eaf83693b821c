//! Finds the cameras and the master recording of a shoot, and orders the clips
//! of one camera folder.

use crate::arrange::{arrange, can_arrange, Arranged, ClipInfo, SyncResult};
use crate::calendar::parse_iso_seconds;
use crate::model::{last_part_range, Clip, CAMERA_COUNT};
use crate::order::{reorder, stable_order};
use crate::sync::start_times;
use crate::text::{chars_of, part, spells};
use vstd::prelude::*;

verus! {

// ---------------------------------------------------------------- file kinds

/// Place of the last dot, or -1.
pub open spec fn last_dot(s: Seq<char>, n: int) -> int
    decreases n,
{
    if n <= 0 || s[n - 1] == '.' {
        n - 1
    } else {
        last_dot(s, n - 1)
    }
}

/// What stands behind the last dot of a file name. A name that only starts with
/// a dot has no extension.
pub open spec fn extension_of(name: Seq<char>) -> Option<Seq<char>> {
    let p = last_dot(name, name.len() as int);
    if p > 0 {
        Some(name.skip(p + 1))
    } else {
        None
    }
}

/// A letter of the English alphabet in lower case; any other character as it is.
pub open spec fn lower(c: char) -> char {
    if 'A' <= c && c <= 'Z' {
        (c as int + 32) as char
    } else {
        c
    }
}

/// A text in lower case.
pub open spec fn lowered(s: Seq<char>) -> Seq<char> {
    Seq::new(s.len(), |i: int| lower(s[i]))
}

/// The path's extension.
pub open spec fn path_extension(path: Seq<char>) -> Option<Seq<char>> {
    match crate::model::last_part(path) {
        Some(name) => extension_of(name),
        None => None,
    }
}

/// The path's extension in lower case.
pub open spec fn kind_of(path: Seq<char>) -> Option<Seq<char>> {
    match path_extension(path) {
        Some(e) => Some(lowered(e)),
        None => None,
    }
}

/// Extensions of video files.
pub open spec fn is_video_kind(e: Seq<char>) -> bool {
    e == "mp4"@ || e == "mov"@ || e == "m4v"@ || e == "mkv"@ || e == "3gp"@ || e == "webm"@
}

/// Extensions of audio files.
pub open spec fn is_audio_kind(e: Seq<char>) -> bool {
    e == "wav"@ || e == "flac"@ || e == "aif"@ || e == "aiff"@ || e == "mp3"@ || e == "m4a"@
}

/// The path names a video file.
pub open spec fn names_video(path: Seq<char>) -> bool {
    kind_of(path) matches Some(e) && is_video_kind(e)
}

/// The path names an audio file.
pub open spec fn names_audio(path: Seq<char>) -> bool {
    kind_of(path) matches Some(e) && is_audio_kind(e)
}

/// The path names a wave file.
pub open spec fn names_wav(path: Seq<char>) -> bool {
    kind_of(path) matches Some(e) && e == "wav"@
}

/// A letter of the English alphabet in lower case.
fn lower_char(c: char) -> (r: char)
    ensures
        r == lower(c),
{
    if 'A' <= c && c <= 'Z' {
        ((c as u8) + 32) as char
    } else {
        c
    }
}

/// Characters in lower case.
fn lower_chars(v: &Vec<char>) -> (r: Vec<char>)
    ensures
        r@ == lowered(v@),
{
    let mut r: Vec<char> = Vec::new();
    let mut i: usize = 0;
    while i < v.len()
        invariant
            i <= v@.len(),
            r@.len() == i,
            forall|k: int| 0 <= k < i ==> #[trigger] r@[k] == lower(v@[k]),
        decreases v@.len() - i,
    {
        r.push(lower_char(v[i]));
        i = i + 1;
    }
    assert(r@ =~= lowered(v@));
    r
}

/// The path's extension.
pub fn extension(path: &str) -> (r: Option<Vec<char>>)
    ensures
        match r {
            Some(e) => path_extension(path@) == Some(e@),
            None => path_extension(path@) is None,
        },
{
    let v: Vec<char> = chars_of(path);
    let (a, b): (usize, usize) = match last_part_range(&v) {
        Some(range) => range,
        None => {
            return None;
        },
    };
    let name: Vec<char> = part(&v, a, b);
    let mut n: usize = name.len();
    while n > 0 && name[n - 1] != '.'
        invariant
            n <= name@.len(),
            last_dot(name@, name@.len() as int) == last_dot(name@, n as int),
        decreases n,
    {
        n = n - 1;
    }
    if n < 2 {
        return None;
    }
    let e: Vec<char> = part(&name, n, name.len());
    assert(e@ =~= name@.skip(n as int));
    Some(e)
}

/// The path's extension in lower case.
fn kind(path: &str) -> (r: Option<Vec<char>>)
    ensures
        match r {
            Some(e) => kind_of(path@) == Some(e@),
            None => kind_of(path@) is None,
        },
{
    match extension(path) {
        Some(e) => Some(lower_chars(&e)),
        None => None,
    }
}

/// Whether the path names a video file.
pub fn is_video_file(path: &str) -> (b: bool)
    ensures
        b == names_video(path@),
{
    match kind(path) {
        Some(e) => spells(&e, "mp4") || spells(&e, "mov") || spells(&e, "m4v") || spells(&e, "mkv") || spells(
            &e,
            "3gp",
        ) || spells(&e, "webm"),
        None => false,
    }
}

/// Whether the path names an audio file.
pub fn is_audio_file(path: &str) -> (b: bool)
    ensures
        b == names_audio(path@),
{
    match kind(path) {
        Some(e) => spells(&e, "wav") || spells(&e, "flac") || spells(&e, "aif") || spells(&e, "aiff")
            || spells(&e, "mp3") || spells(&e, "m4a"),
        None => false,
    }
}

/// Whether the path names a wave file.
fn is_wav_file(path: &str) -> (b: bool)
    ensures
        b == names_wav(path@),
{
    match kind(path) {
        Some(e) => spells(&e, "wav"),
        None => false,
    }
}

// ---------------------------------------------------------------- shoots

/// One entry of a shoot folder.
#[derive(Debug)]
pub struct Entry {
    pub name: String,
    pub is_dir: bool,
    pub is_file: bool,
    /// Size of a file in bytes.
    pub size: u64,
    /// Names of the files directly in a folder.
    pub files: Vec<String>,
}

/// What a shoot folder contains: up to three camera folders and the master
/// recording that lies directly in the folder.
#[derive(Debug, Clone, PartialEq)]
pub struct Shoot {
    pub root: String,
    /// Camera folders in name order, at most [`CAMERA_COUNT`].
    pub cameras: Vec<String>,
    pub wav: Option<String>,
    /// Extra folders with video files that did not fit.
    pub skipped_cameras: Vec<String>,
    /// Other audio files in the root that were not chosen.
    pub other_audio: Vec<String>,
}

/// Path of an entry of a folder.
pub open spec fn path_in(root: Seq<char>, name: Seq<char>) -> Seq<char> {
    if root.len() == 0 || root.last() == '/' {
        root + name
    } else {
        root + "/"@ + name
    }
}

/// The name starts with a dot.
pub open spec fn is_hidden(name: Seq<char>) -> bool {
    name.len() == 0 || name[0] == '.'
}

/// The name holds the letters "cam", in either case.
pub open spec fn looks_like_cam(name: Seq<char>) -> bool {
    exists|i: int|
        0 <= i && i + 3 <= name.len() && #[trigger] lower(name[i]) == 'c' && lower(name[i + 1]) == 'a' && lower(
            name[i + 2],
        ) == 'm'
}

/// The entry is a folder with a video file in it.
pub open spec fn is_camera(e: Entry) -> bool {
    !is_hidden(e.name@) && e.is_dir && exists|k: int|
        0 <= k < e.files@.len() && names_video((#[trigger] e.files@[k])@)
}

/// The entry is an audio file.
pub open spec fn is_sound(e: Entry) -> bool {
    !is_hidden(e.name@) && !e.is_dir && e.is_file && names_audio(e.name@)
}

/// Positions of the camera folders among the first `n` entries.
pub open spec fn camera_entries(entries: Seq<Entry>, n: int) -> Seq<usize>
    decreases n,
{
    if n <= 0 {
        Seq::empty()
    } else if is_camera(entries[n - 1]) {
        camera_entries(entries, n - 1).push((n - 1) as usize)
    } else {
        camera_entries(entries, n - 1)
    }
}

/// Positions of the audio files among the first `n` entries.
pub open spec fn sound_entries(entries: Seq<Entry>, n: int) -> Seq<usize>
    decreases n,
{
    if n <= 0 {
        Seq::empty()
    } else if is_sound(entries[n - 1]) {
        sound_entries(entries, n - 1).push((n - 1) as usize)
    } else {
        sound_entries(entries, n - 1)
    }
}

/// A text as a sort key.
pub open spec fn text_key(s: Seq<char>) -> Seq<i64> {
    Seq::new(s.len(), |i: int| (s[i] as u32) as i64)
}

/// Sort key of a camera folder. With `by_name`, folders that look like cameras
/// come first.
pub open spec fn camera_key(e: Entry, by_name: bool) -> Seq<i64> {
    seq![
        if by_name && !looks_like_cam(e.name@) {
            1i64
        } else {
            0i64
        },
    ] + text_key(e.name@)
}

/// Sort key of an audio file: a wave file first, then the largest, then by name.
pub open spec fn sound_key(e: Entry) -> Seq<i64> {
    seq![
        if names_wav(e.name@) {
            0i64
        } else {
            1i64
        },
        (i64::MAX - e.size) as i64,
    ] + text_key(e.name@)
}

/// There are more folders than cameras, so that those named like cameras win.
pub open spec fn crowded(entries: Seq<Entry>) -> bool {
    camera_entries(entries, entries.len() as int).len() > CAMERA_COUNT
}

/// The camera folders in the order in which they win a place.
pub open spec fn cameras_in_order(entries: Seq<Entry>) -> Seq<usize> {
    let found = camera_entries(entries, entries.len() as int);
    let keys = Seq::new(
        found.len(),
        |i: int| camera_key(entries[found[i] as int], crowded(entries)),
    );
    let order = crate::order::order_of(keys);
    Seq::new(found.len(), |i: int| found[order[i] as int])
}

/// The listed entries by name.
pub open spec fn by_name(entries: Seq<Entry>, list: Seq<usize>) -> Seq<usize> {
    let keys = Seq::new(list.len(), |i: int| text_key(entries[list[i] as int].name@));
    let order = crate::order::order_of(keys);
    Seq::new(list.len(), |i: int| list[order[i] as int])
}

/// The camera folders that win a place, by name.
pub open spec fn chosen_cameras(entries: Seq<Entry>) -> Seq<usize> {
    let list = cameras_in_order(entries);
    by_name(entries, list.take(taken_cameras(list.len() as int)))
}

/// The audio files in the order in which they are taken.
pub open spec fn sounds_in_order(entries: Seq<Entry>) -> Seq<usize> {
    let found = sound_entries(entries, entries.len() as int);
    let keys = Seq::new(found.len(), |i: int| sound_key(entries[found[i] as int]));
    let order = crate::order::order_of(keys);
    Seq::new(found.len(), |i: int| found[order[i] as int])
}

/// The paths of the entries listed from place `from` up to place `to`.
pub open spec fn paths_of(root: Seq<char>, entries: Seq<Entry>, list: Seq<usize>, from: int, to: int) -> Seq<
    Seq<char>,
> {
    Seq::new(
        if from < to {
            (to - from) as nat
        } else {
            0
        },
        |i: int| path_in(root, entries[list[from + i] as int].name@),
    )
}

proof fn lemma_camera_entries(entries: Seq<Entry>, n: int)
    requires
        0 <= n <= entries.len() <= usize::MAX,
    ensures
        camera_entries(entries, n).len() <= n,
        forall|p: int|
            0 <= p < camera_entries(entries, n).len() ==> {
                &&& (#[trigger] camera_entries(entries, n)[p]) < n
                &&& is_camera(entries[camera_entries(entries, n)[p] as int])
            },
        forall|p: int, q: int|
            0 <= p < q < camera_entries(entries, n).len() ==> (#[trigger] camera_entries(entries, n)[p])
                < #[trigger] camera_entries(entries, n)[q],
        forall|i: int|
            0 <= i < n && is_camera(#[trigger] entries[i]) ==> camera_entries(entries, n).contains(i as usize),
    decreases n,
{
    if n > 0 {
        lemma_camera_entries(entries, n - 1);
        let was = camera_entries(entries, n - 1);
        let list = camera_entries(entries, n);
        assert forall|i: int| 0 <= i < n && is_camera(#[trigger] entries[i]) implies list.contains(i as usize) by {
            if i < n - 1 {
                assert(was.contains(i as usize));
                let p = choose|p: int| 0 <= p < was.len() && was[p] == i as usize;
                assert(list[p] == i as usize);
            } else {
                assert(list[list.len() - 1] == i as usize);
            }
        }
    }
}

/// Every camera folder is listed once, and nothing else is: none is lost between
/// those that are taken and those that do not fit.
pub proof fn lemma_every_camera_is_listed(entries: Seq<Entry>)
    requires
        entries.len() <= usize::MAX,
    ensures
        forall|i: int|
            0 <= i < entries.len() ==> (is_camera(#[trigger] entries[i]) <==> cameras_in_order(entries).contains(
                i as usize,
            )),
        forall|p: int, q: int|
            0 <= p < q < cameras_in_order(entries).len() ==> (#[trigger] cameras_in_order(entries)[p])
                != #[trigger] cameras_in_order(entries)[q],
{
    let found = camera_entries(entries, entries.len() as int);
    let keys = Seq::new(
        found.len(),
        |i: int| camera_key(entries[found[i] as int], crowded(entries)),
    );
    let order = crate::order::order_of(keys);
    let list = cameras_in_order(entries);
    lemma_camera_entries(entries, entries.len() as int);
    crate::order::lemma_order_exists(keys);
    assert forall|i: int| 0 <= i < entries.len() implies (is_camera(#[trigger] entries[i]) <==> list.contains(
        i as usize,
    )) by {
        if is_camera(entries[i]) {
            let k = choose|k: int| 0 <= k < found.len() && found[k] == i as usize;
            assert(crate::order::listed(order, k));
            let p = choose|p: int| 0 <= p < order.len() && order[p] == k;
            assert(list[p] == i as usize);
        }
        if list.contains(i as usize) {
            let p = choose|p: int| 0 <= p < list.len() && list[p] == i as usize;
            assert(order[p] < keys.len());
            assert(found[order[p] as int] == i as usize);
        }
    }
    assert forall|p: int, q: int| 0 <= p < q < list.len() implies (#[trigger] list[p]) != #[trigger] list[q] by {
        let a = order[p] as int;
        let b = order[q] as int;
        if a == b {
            crate::order::lemma_order_distinct(keys, order, p, q);
        }
        if a < b {
            assert(found[a] < found[b]);
        } else if b < a {
            assert(found[b] < found[a]);
        }
    }
}

/// With more folders than cameras, one that is named like a camera wins a place
/// before one that is not; otherwise, and among equals, folders win by name.
pub proof fn lemma_camera_names_win(entries: Seq<Entry>, p: int, q: int)
    requires
        entries.len() <= usize::MAX,
        0 <= p < q < cameras_in_order(entries).len(),
    ensures
        ({
            let a = entries[cameras_in_order(entries)[p] as int];
            let b = entries[cameras_in_order(entries)[q] as int];
            &&& crowded(entries) && looks_like_cam(b.name@) ==> looks_like_cam(a.name@)
            &&& !crowded(entries) || looks_like_cam(a.name@) == looks_like_cam(b.name@)
                ==> !crate::order::key_less(text_key(b.name@), text_key(a.name@))
        }),
{
    let found = camera_entries(entries, entries.len() as int);
    let keys = Seq::new(
        found.len(),
        |i: int| camera_key(entries[found[i] as int], crowded(entries)),
    );
    let order = crate::order::order_of(keys);
    lemma_camera_entries(entries, entries.len() as int);
    crate::order::lemma_order_exists(keys);
    let i = order[p] as int;
    let j = order[q] as int;
    assert(crate::order::before(keys, i, j));
    let a = entries[found[i] as int];
    let b = entries[found[j] as int];
    assert(cameras_in_order(entries)[p] == found[i]);
    assert(cameras_in_order(entries)[q] == found[j]);
    let x = keys[i];
    let y = keys[j];
    assert(x == camera_key(a, crowded(entries)));
    assert(y == camera_key(b, crowded(entries)));
    assert(x.drop_first() =~= text_key(a.name@));
    assert(y.drop_first() =~= text_key(b.name@));
    crate::order::lemma_not_both(x.drop_first(), y.drop_first());
    crate::order::lemma_key_irreflexive(x.drop_first());
    assert(x[0] <= y[0]);
}

/// The cameras of a shoot are the folders that win a place, each once and in the
/// order of their names.
pub proof fn lemma_cameras_come_by_name(entries: Seq<Entry>)
    requires
        entries.len() <= usize::MAX,
    ensures
        chosen_cameras(entries).len() == taken_cameras(cameras_in_order(entries).len() as int),
        forall|i: usize|
            chosen_cameras(entries).contains(i) <==> cameras_in_order(entries).take(
                taken_cameras(cameras_in_order(entries).len() as int),
            ).contains(i),
        forall|p: int, q: int|
            0 <= p < q < chosen_cameras(entries).len() ==> !crate::order::key_less(
                text_key(entries[(#[trigger] chosen_cameras(entries)[q]) as int].name@),
                text_key(entries[(#[trigger] chosen_cameras(entries)[p]) as int].name@),
            ),
{
    let all = cameras_in_order(entries);
    let list = all.take(taken_cameras(all.len() as int));
    let keys = Seq::new(list.len(), |i: int| text_key(entries[list[i] as int].name@));
    let order = crate::order::order_of(keys);
    let chosen = chosen_cameras(entries);
    lemma_camera_entries(entries, entries.len() as int);
    crate::order::lemma_order_exists(keys);
    assert forall|i: usize| chosen.contains(i) <==> list.contains(i) by {
        if chosen.contains(i) {
            let p = choose|p: int| 0 <= p < chosen.len() && chosen[p] == i;
            assert(order[p] < keys.len());
            assert(list[order[p] as int] == i);
        }
        if list.contains(i) {
            let k = choose|k: int| 0 <= k < list.len() && list[k] == i;
            assert(crate::order::listed(order, k));
            let p = choose|p: int| 0 <= p < order.len() && order[p] == k;
            assert(chosen[p] == i);
        }
    }
    assert forall|p: int, q: int| 0 <= p < q < chosen.len() implies !crate::order::key_less(
        text_key(entries[(#[trigger] chosen[q]) as int].name@),
        text_key(entries[(#[trigger] chosen[p]) as int].name@),
    ) by {
        let i = order[p] as int;
        let j = order[q] as int;
        assert(crate::order::before(keys, i, j));
        crate::order::lemma_not_both(keys[i], keys[j]);
        crate::order::lemma_key_irreflexive(keys[i]);
    }
}

pub(crate) proof fn lemma_sound_entries(entries: Seq<Entry>, n: int)
    requires
        0 <= n <= entries.len() <= usize::MAX,
    ensures
        sound_entries(entries, n).len() <= n,
        forall|p: int|
            0 <= p < sound_entries(entries, n).len() ==> (#[trigger] sound_entries(entries, n)[p]) < n,
        forall|i: int|
            0 <= i < n && is_sound(#[trigger] entries[i]) ==> sound_entries(entries, n).contains(i as usize),
    decreases n,
{
    if n > 0 {
        lemma_sound_entries(entries, n - 1);
        let was = sound_entries(entries, n - 1);
        let list = sound_entries(entries, n);
        assert forall|i: int| 0 <= i < n && is_sound(#[trigger] entries[i]) implies list.contains(i as usize) by {
            if i < n - 1 {
                assert(was.contains(i as usize));
                let p = choose|p: int| 0 <= p < was.len() && was[p] == i as usize;
                assert(list[p] == i as usize);
            } else {
                assert(list[list.len() - 1] == i as usize);
            }
        }
    }
}

/// The master is a wave file where there is one, and no file of its kind is larger.
pub proof fn lemma_master_is_best(entries: Seq<Entry>, i: int)
    requires
        entries.len() <= usize::MAX,
        0 <= i < entries.len(),
        is_sound(entries[i]),
    ensures
        sounds_in_order(entries).len() > 0,
        ({
            let master = entries[sounds_in_order(entries)[0] as int];
            &&& names_wav(entries[i].name@) ==> names_wav(master.name@)
            &&& names_wav(entries[i].name@) == names_wav(master.name@) ==> entries[i].size <= master.size
        }),
{
    let found = sound_entries(entries, entries.len() as int);
    let keys = Seq::new(found.len(), |k: int| sound_key(entries[found[k] as int]));
    let order = crate::order::order_of(keys);
    lemma_sound_entries(entries, entries.len() as int);
    crate::order::lemma_order_exists(keys);
    let k = choose|k: int| 0 <= k < found.len() && found[k] == i as usize;
    assert(crate::order::listed(order, k));
    let p = choose|p: int| 0 <= p < order.len() && order[p] == k;
    let first = order[0] as int;
    assert(sounds_in_order(entries)[0] == found[first]);
    if p > 0 {
        assert(crate::order::before(keys, order[0] as int, order[p] as int));
        let a = keys[first];
        let b = keys[k];
        assert(a[0] <= b[0]);
        if a[0] == b[0] {
            let rest_a = a.drop_first();
            let rest_b = b.drop_first();
            assert(rest_a[0] == a[1]);
            assert(rest_b[0] == b[1]);
            assert(a == b || crate::order::key_less(rest_a, rest_b));
            assert(a[1] <= b[1]);
        }
    }
}

/// How many of `n` folders are taken as cameras.
pub open spec fn taken_cameras(n: int) -> int {
    if n < CAMERA_COUNT {
        n
    } else {
        CAMERA_COUNT as int
    }
}

/// Path of an entry of a folder.
pub fn join_path(root: &str, name: &str) -> (s: String)
    ensures
        s@ == path_in(root@, name@),
{
    let n: usize = root.unicode_len();
    if n == 0 || root.get_char(n - 1) == '/' {
        crate::text::join2(root, name)
    } else {
        crate::text::join3(root, "/", name)
    }
}

/// Whether the name starts with a dot.
fn hidden(name: &str) -> (b: bool)
    ensures
        b == is_hidden(name@),
{
    let n: usize = name.unicode_len();
    n == 0 || name.get_char(0) == '.'
}

/// Whether the name holds the letters "cam".
fn camera_like(name: &str) -> (b: bool)
    ensures
        b == looks_like_cam(name@),
{
    let v: Vec<char> = chars_of(name);
    let n: usize = v.len();
    let mut i: usize = 0;
    while i < n && n - i >= 3
        invariant
            n == v@.len(),
            v@ == name@,
            i <= n,
            forall|k: int|
                0 <= k < i && k + 3 <= n ==> !(#[trigger] lower(v@[k]) == 'c' && lower(v@[k + 1]) == 'a'
                    && lower(v@[k + 2]) == 'm'),
        decreases n - i,
    {
        if lower_char(v[i]) == 'c' && lower_char(v[i + 1]) == 'a' && lower_char(v[i + 2]) == 'm' {
            assert(lower(name@[i as int]) == 'c');
            return true;
        }
        i = i + 1;
    }
    false
}

/// Whether the entry is a folder with a video file in it.
fn camera_entry(e: &Entry) -> (b: bool)
    ensures
        b == is_camera(*e),
{
    if hidden(e.name.as_str()) || !e.is_dir {
        return false;
    }
    let mut k: usize = 0;
    while k < e.files.len()
        invariant
            k <= e.files@.len(),
            !is_hidden(e.name@),
            e.is_dir,
            forall|m: int| 0 <= m < k ==> !names_video((#[trigger] e.files@[m])@),
        decreases e.files@.len() - k,
    {
        if is_video_file(e.files[k].as_str()) {
            assert(names_video(e.files@[k as int]@));
            return true;
        }
        k = k + 1;
    }
    false
}

/// Appends a text to a sort key.
fn push_text(key: &mut Vec<i64>, s: &str)
    ensures
        final(key)@ == old(key)@ + text_key(s@),
{
    let v: Vec<char> = chars_of(s);
    let ghost head = key@;
    let mut i: usize = 0;
    assert(key@ =~= head + text_key(v@).take(0));
    while i < v.len()
        invariant
            i <= v@.len(),
            key@ == head + text_key(v@).take(i as int),
        decreases v@.len() - i,
    {
        key.push((v[i] as u32) as i64);
        assert(text_key(v@).take(i + 1) =~= text_key(v@).take(i as int).push((v@[i as int] as u32) as i64));
        assert(key@ =~= head + text_key(v@).take(i + 1));
        i = i + 1;
    }
    assert(text_key(v@).take(i as int) =~= text_key(v@));
}

/// Looks at a folder's entries: every direct subfolder holding at least one video
/// file is a camera, and the audio file in the folder is the master. Camera
/// folders are sorted by name so `Cam1`, `Cam2`, `Cam3` land in order; with more
/// than three, folders whose name contains "cam" win a place. Among several audio
/// files a wave file is preferred, then the largest.
pub fn discover_shoot(root: &str, entries: &Vec<Entry>) -> (shoot: Shoot)
    ensures
        shoot.root@ == root@,
        ({
            let list = cameras_in_order(entries@);
            let k = taken_cameras(list.len() as int);
            &&& crate::text::text_views(shoot.cameras@) == paths_of(
                root@,
                entries@,
                chosen_cameras(entries@),
                0,
                k,
            )
            &&& crate::text::text_views(shoot.skipped_cameras@) == paths_of(
                root@,
                entries@,
                list,
                k,
                list.len() as int,
            )
        }),
        ({
            let list = sounds_in_order(entries@);
            &&& match shoot.wav {
                Some(w) => list.len() > 0 && w@ == path_in(root@, entries@[list[0] as int].name@),
                None => list.len() == 0,
            }
            &&& crate::text::text_views(shoot.other_audio@) == paths_of(root@, entries@, list, 1, list.len() as int)
        }),
{
    let mut found: Vec<usize> = Vec::new();
    let mut sounds: Vec<usize> = Vec::new();
    let mut i: usize = 0;
    while i < entries.len()
        invariant
            i <= entries@.len(),
            found@ == camera_entries(entries@, i as int),
            sounds@ == sound_entries(entries@, i as int),
            forall|k: int| 0 <= k < found@.len() ==> (#[trigger] found@[k]) < entries@.len(),
            forall|k: int| 0 <= k < sounds@.len() ==> (#[trigger] sounds@[k]) < entries@.len(),
        decreases entries@.len() - i,
    {
        let e: &Entry = &entries[i];
        if camera_entry(e) {
            found.push(i);
        }
        if !hidden(e.name.as_str()) && !e.is_dir && e.is_file && is_audio_file(e.name.as_str()) {
            sounds.push(i);
        }
        i = i + 1;
    }
    let list: Vec<usize> = ordered_cameras(entries, &found);
    let tracks: Vec<usize> = ordered_sounds(entries, &sounds);
    let n: usize = list.len();
    let k: usize = if n < CAMERA_COUNT {
        n
    } else {
        CAMERA_COUNT
    };
    let chosen: Vec<usize> = sorted_by_name(entries, &list, k);
    let cameras: Vec<String> = entry_paths(root, entries, &chosen, 0, k);
    let skipped_cameras: Vec<String> = entry_paths(root, entries, &list, k, n);
    let m: usize = tracks.len();
    let wav: Option<String> = if m > 0 {
        assert(tracks@[0] < entries@.len());
        Some(join_path(root, entries[tracks[0]].name.as_str()))
    } else {
        None
    };
    let other_audio: Vec<String> = if m > 1 {
        entry_paths(root, entries, &tracks, 1, m)
    } else {
        let none: Vec<String> = Vec::new();
        assert(crate::text::text_views(none@) =~= paths_of(root@, entries@, tracks@, 1, m as int));
        none
    };
    Shoot { root: root.to_owned(), cameras, wav, skipped_cameras, other_audio }
}

/// The listed entries' paths, from place `from` up to place `to`.
fn entry_paths(root: &str, entries: &Vec<Entry>, list: &Vec<usize>, from: usize, to: usize) -> (out: Vec<
    String,
>)
    requires
        from <= to <= list@.len(),
        forall|k: int| 0 <= k < list@.len() ==> (#[trigger] list@[k]) < entries@.len(),
    ensures
        crate::text::text_views(out@) == paths_of(root@, entries@, list@, from as int, to as int),
{
    let mut out: Vec<String> = Vec::new();
    let mut i: usize = from;
    while i < to
        invariant
            from <= i <= to <= list@.len(),
            forall|k: int| 0 <= k < list@.len() ==> (#[trigger] list@[k]) < entries@.len(),
            out@.len() == i - from,
            forall|k: int|
                0 <= k < i - from ==> (#[trigger] out@[k])@ == path_in(
                    root@,
                    entries@[list@[from + k] as int].name@,
                ),
        decreases to - i,
    {
        assert(list@[i as int] < entries@.len());
        out.push(join_path(root, entries[list[i]].name.as_str()));
        i = i + 1;
    }
    assert(crate::text::text_views(out@) =~= paths_of(root@, entries@, list@, from as int, to as int));
    out
}

/// The camera folders in the order in which they win a place.
fn ordered_cameras(entries: &Vec<Entry>, found: &Vec<usize>) -> (list: Vec<usize>)
    requires
        found@ == camera_entries(entries@, entries@.len() as int),
        forall|k: int| 0 <= k < found@.len() ==> (#[trigger] found@[k]) < entries@.len(),
    ensures
        list@ == cameras_in_order(entries@),
        forall|k: int| 0 <= k < list@.len() ==> (#[trigger] list@[k]) < entries@.len(),
{
    let by_name: bool = found.len() > CAMERA_COUNT;
    let mut keys: Vec<Vec<i64>> = Vec::new();
    let mut i: usize = 0;
    while i < found.len()
        invariant
            i <= found@.len(),
            forall|k: int| 0 <= k < found@.len() ==> (#[trigger] found@[k]) < entries@.len(),
            keys@.len() == i,
            forall|k: int|
                0 <= k < i ==> (#[trigger] keys@[k])@ == camera_key(entries@[found@[k] as int], by_name),
        decreases found@.len() - i,
    {
        let e: &Entry = &entries[found[i]];
        let mut key: Vec<i64> = Vec::new();
        if by_name && !camera_like(e.name.as_str()) {
            key.push(1);
        } else {
            key.push(0);
        }
        push_text(&mut key, e.name.as_str());
        assert(key@ =~= camera_key(*e, by_name));
        keys.push(key);
        i = i + 1;
    }
    let order: Vec<usize> = stable_order(&keys);
    proof {
        let want = Seq::new(
            found@.len(),
            |i: int| camera_key(entries@[found@[i] as int], crowded(entries@)),
        );
        assert(crate::order::key_views(keys@) =~= want);
    }
    let list: Vec<usize> = listed_items(found, &order);
    assert(list@ =~= cameras_in_order(entries@));
    list
}

/// The first `k` listed entries by name.
fn sorted_by_name(entries: &Vec<Entry>, list: &Vec<usize>, k: usize) -> (out: Vec<usize>)
    requires
        k <= list@.len(),
        forall|j: int| 0 <= j < list@.len() ==> (#[trigger] list@[j]) < entries@.len(),
    ensures
        out@ == by_name(entries@, list@.take(k as int)),
        out@.len() == k,
        forall|j: int| 0 <= j < out@.len() ==> (#[trigger] out@[j]) < entries@.len(),
{
    let mut first: Vec<usize> = Vec::new();
    let mut keys: Vec<Vec<i64>> = Vec::new();
    let mut i: usize = 0;
    while i < k
        invariant
            i <= k <= list@.len(),
            forall|j: int| 0 <= j < list@.len() ==> (#[trigger] list@[j]) < entries@.len(),
            first@.len() == i,
            forall|j: int| 0 <= j < i ==> #[trigger] first@[j] == list@[j],
            keys@.len() == i,
            forall|j: int| 0 <= j < i ==> (#[trigger] keys@[j])@ == text_key(entries@[list@[j] as int].name@),
        decreases k - i,
    {
        let at: usize = list[i];
        let mut key: Vec<i64> = Vec::new();
        push_text(&mut key, entries[at].name.as_str());
        assert(key@ =~= text_key(entries@[at as int].name@));
        first.push(at);
        keys.push(key);
        i = i + 1;
    }
    let order: Vec<usize> = stable_order(&keys);
    proof {
        let part = list@.take(k as int);
        let want = Seq::new(part.len(), |i: int| text_key(entries@[part[i] as int].name@));
        assert(crate::order::key_views(keys@) =~= want);
        assert(first@ =~= part);
    }
    let out: Vec<usize> = listed_items(&first, &order);
    assert(out@ =~= by_name(entries@, list@.take(k as int)));
    out
}

/// The audio files in the order in which they are taken.
fn ordered_sounds(entries: &Vec<Entry>, found: &Vec<usize>) -> (list: Vec<usize>)
    requires
        found@ == sound_entries(entries@, entries@.len() as int),
        forall|k: int| 0 <= k < found@.len() ==> (#[trigger] found@[k]) < entries@.len(),
    ensures
        list@ == sounds_in_order(entries@),
        forall|k: int| 0 <= k < list@.len() ==> (#[trigger] list@[k]) < entries@.len(),
{
    let mut keys: Vec<Vec<i64>> = Vec::new();
    let mut i: usize = 0;
    while i < found.len()
        invariant
            i <= found@.len(),
            forall|k: int| 0 <= k < found@.len() ==> (#[trigger] found@[k]) < entries@.len(),
            keys@.len() == i,
            forall|k: int| 0 <= k < i ==> (#[trigger] keys@[k])@ == sound_key(entries@[found@[k] as int]),
        decreases found@.len() - i,
    {
        let e: &Entry = &entries[found[i]];
        let mut key: Vec<i64> = Vec::new();
        if is_wav_file(e.name.as_str()) {
            key.push(0);
        } else {
            key.push(1);
        }
        key.push((i64::MAX as i128 - e.size as i128) as i64);
        push_text(&mut key, e.name.as_str());
        assert(key@ =~= sound_key(*e));
        keys.push(key);
        i = i + 1;
    }
    let order: Vec<usize> = stable_order(&keys);
    proof {
        let want = Seq::new(found@.len(), |i: int| sound_key(entries@[found@[i] as int]));
        assert(crate::order::key_views(keys@) =~= want);
    }
    let list: Vec<usize> = listed_items(found, &order);
    assert(list@ =~= sounds_in_order(entries@));
    list
}

/// The items at the listed places.
fn listed_items(items: &Vec<usize>, order: &Vec<usize>) -> (out: Vec<usize>)
    requires
        order@.len() == items@.len(),
        forall|k: int| 0 <= k < order@.len() ==> (#[trigger] order@[k]) < items@.len(),
    ensures
        out@.len() == items@.len(),
        forall|k: int| 0 <= k < out@.len() ==> #[trigger] out@[k] == items@[order@[k] as int],
{
    let mut out: Vec<usize> = Vec::new();
    let mut i: usize = 0;
    while i < order.len()
        invariant
            i <= order@.len(),
            order@.len() == items@.len(),
            forall|k: int| 0 <= k < order@.len() ==> (#[trigger] order@[k]) < items@.len(),
            out@.len() == i,
            forall|k: int| 0 <= k < i ==> #[trigger] out@[k] == items@[order@[k] as int],
        decreases order@.len() - i,
    {
        out.push(items[order[i]]);
        i = i + 1;
    }
    out
}

// ---------------------------------------------------------------- clips of a camera

/// A path as a sort key: part by part, so that a slash sorts before any character.
pub open spec fn path_key(s: Seq<char>) -> Seq<i64> {
    Seq::new(
        s.len(),
        |i: int|
            if s[i] == '/' {
                -1i64
            } else {
                (s[i] as u32) as i64
            },
    )
}

/// Sort key of a clip: creation time, none first, then path. The mark between
/// the two sorts before any character.
pub open spec fn clip_key(c: Clip) -> Seq<i64> {
    match c.creation_time {
        Some(t) => seq![1i64] + text_key(t@) + seq![-2i64] + path_key(c.path@),
        None => seq![0i64] + path_key(c.path@),
    }
}

/// The clips' sort keys.
pub open spec fn clip_keys(clips: Seq<Clip>) -> Seq<Seq<i64>> {
    Seq::new(clips.len(), |i: int| clip_key(clips[i]))
}

/// The clips by creation time, then file name.
pub open spec fn clips_in_order(clips: Seq<Clip>) -> Seq<Clip> {
    let order = crate::order::order_of(clip_keys(clips));
    Seq::new(clips.len(), |i: int| clips[order[i] as int])
}

/// Appends a path to a sort key.
fn push_path(key: &mut Vec<i64>, s: &str)
    ensures
        final(key)@ == old(key)@ + path_key(s@),
{
    let v: Vec<char> = chars_of(s);
    let ghost head = key@;
    let mut i: usize = 0;
    assert(key@ =~= head + path_key(v@).take(0));
    while i < v.len()
        invariant
            i <= v@.len(),
            key@ == head + path_key(v@).take(i as int),
        decreases v@.len() - i,
    {
        if v[i] == '/' {
            key.push(-1);
        } else {
            key.push((v[i] as u32) as i64);
        }
        assert(path_key(v@).take(i + 1) =~= path_key(v@).take(i as int).push(path_key(v@)[i as int]));
        assert(key@ =~= head + path_key(v@).take(i + 1));
        i = i + 1;
    }
    assert(path_key(v@).take(i as int) =~= path_key(v@));
}

/// Orders the clips of a folder by creation time, then file name.
pub fn order_clips(clips: Vec<Clip>) -> (out: Vec<Clip>)
    ensures
        out@ == clips_in_order(clips@),
{
    let mut keys: Vec<Vec<i64>> = Vec::new();
    let mut i: usize = 0;
    while i < clips.len()
        invariant
            i <= clips@.len(),
            keys@.len() == i,
            forall|k: int| 0 <= k < i ==> (#[trigger] keys@[k])@ == clip_key(clips@[k]),
        decreases clips@.len() - i,
    {
        let c: &Clip = &clips[i];
        let mut key: Vec<i64> = Vec::new();
        match &c.creation_time {
            Some(t) => {
                key.push(1);
                push_text(&mut key, t.as_str());
                key.push(-2);
                push_path(&mut key, c.path.as_str());
            },
            None => {
                key.push(0);
                push_path(&mut key, c.path.as_str());
            },
        }
        assert(key@ =~= clip_key(*c));
        keys.push(key);
        i = i + 1;
    }
    let order: Vec<usize> = stable_order(&keys);
    proof {
        assert(crate::order::key_views(keys@) =~= clip_keys(clips@));
        assert forall|p: int, q: int| 0 <= p < q < order@.len() implies (#[trigger] order@[p]) != (
        #[trigger] order@[q]) by {
            if order@[p] == order@[q] {
                crate::order::lemma_order_distinct(clip_keys(clips@), order@, p, q);
            }
        }
    }
    let ghost all = clips@;
    let out: Vec<Clip> = reorder(clips, &order);
    assert(out@ =~= clips_in_order(all));
    out
}

/// The moment that a clip's creation stamp names.
pub open spec fn stamp_of(c: Clip) -> Option<i64> {
    match c.creation_time {
        Some(t) => match crate::calendar::iso_moment(t@) {
            Some(m) => if crate::arrange::in_limit(m) {
                Some(m as i64)
            } else {
                None
            },
            None => None,
        },
        None => None,
    }
}

/// The clips' creation stamps.
pub open spec fn stamps_of(clips: Seq<Clip>) -> Seq<Option<i64>> {
    Seq::new(clips.len(), |i: int| stamp_of(clips[i]))
}

/// The clips' durations.
pub open spec fn durations_of(clips: Seq<Clip>) -> Seq<i64> {
    Seq::new(clips.len(), |i: int| clips[i].duration)
}

/// The clips' recording start times.
pub open spec fn starts_of(clips: Seq<Clip>) -> Seq<Option<i64>> {
    let ends = crate::sync::ends_stamped(stamps_of(clips), durations_of(clips));
    Seq::new(
        clips.len(),
        |i: int| crate::sync::start_of(stamp_of(clips[i]), clips[i].duration, ends),
    )
}

/// Recording start times of a camera's clips from their creation stamps.
pub fn clip_start_times(clips: &Vec<Clip>) -> (out: Vec<Option<i64>>)
    requires
        crate::model::clip_times_ok(clips@),
    ensures
        out@ == starts_of(clips@),
{
    let mut creation: Vec<Option<i64>> = Vec::new();
    let mut durations: Vec<i64> = Vec::new();
    let mut i: usize = 0;
    while i < clips.len()
        invariant
            i <= clips@.len(),
            crate::model::clip_times_ok(clips@),
            creation@.len() == i,
            durations@.len() == i,
            forall|k: int| 0 <= k < i ==> #[trigger] creation@[k] == stamp_of(clips@[k]),
            forall|k: int| 0 <= k < i ==> #[trigger] durations@[k] == clips@[k].duration,
            forall|k: int|
                0 <= k < i ==> crate::arrange::in_limit((#[trigger] durations@[k]) as int),
        decreases clips@.len() - i,
    {
        assert(clips@[i as int].times_ok());
        let stamp: Option<i64> = match &clips[i].creation_time {
            Some(t) => parse_iso_seconds(t.as_str()),
            None => None,
        };
        creation.push(stamp);
        durations.push(clips[i].duration);
        i = i + 1;
    }
    assert(creation@ =~= stamps_of(clips@));
    assert(durations@ =~= durations_of(clips@));
    let out: Vec<Option<i64>> = start_times(&creation, &durations);
    assert(out@ =~= starts_of(clips@));
    out
}

/// Summed size of the first `n` durations.
pub open spec fn recorded(clips: Seq<Clip>, n: int) -> int
    decreases n,
{
    if n <= 0 {
        0
    } else {
        recorded(clips, n - 1) + crate::units::size(clips[n - 1].duration as int)
    }
}

/// Start of clip `k` after the first clip's start.
pub open spec fn relative_start(starts: Seq<Option<i64>>, k: int) -> Option<int> {
    match (starts[0], starts[k]) {
        (Some(f), Some(t)) => Some(t - f),
        _ => None,
    }
}

/// Offset of clip `k`: its start after the first clip's start, unless that is
/// unknown or goes back by more than a second behind the clip before it; then the
/// clip follows the one before it directly.
pub open spec fn laid_offset(clips: Seq<Clip>, starts: Seq<Option<i64>>, k: int) -> int
    decreases k, 1int,
{
    let cursor = laid_cursor(clips, starts, k);
    match relative_start(starts, k) {
        Some(r) => if r >= cursor - 1_000_000 {
            if r > 0 {
                r
            } else {
                0
            }
        } else {
            cursor
        },
        None => cursor,
    }
}

/// End of the clip before clip `k`.
pub open spec fn laid_cursor(clips: Seq<Clip>, starts: Seq<Option<i64>>, k: int) -> int
    decreases k, 0int,
{
    if k <= 0 {
        0
    } else {
        laid_offset(clips, starts, k - 1) + clips[k - 1].duration
    }
}

/// The clip with another offset.
pub open spec fn moved(c: Clip, offset: i64) -> Clip {
    Clip { offset, ..c }
}

proof fn lemma_recorded_grows(clips: Seq<Clip>, k: int, n: int)
    requires
        0 <= k <= n <= clips.len(),
    ensures
        0 <= recorded(clips, k) <= recorded(clips, n),
    decreases n,
{
    if n > 0 {
        if k < n {
            lemma_recorded_grows(clips, k, n - 1);
        } else {
            lemma_recorded_grows(clips, k - 1, n - 1);
        }
    }
}

/// Initial offsets: relative recording start times when available, else one clip
/// after the other.
pub fn layout_by_creation_time(clips: &mut Vec<Clip>)
    requires
        crate::model::clip_times_ok(old(clips)@),
        recorded(old(clips)@, old(clips)@.len() as int) <= crate::arrange::TIME_LIMIT,
    ensures
        final(clips)@.len() == old(clips)@.len(),
        forall|k: int|
            0 <= k < final(clips)@.len() ==> {
                let t = laid_offset(old(clips)@, starts_of(old(clips)@), k);
                i64::MIN <= t <= i64::MAX && #[trigger] final(clips)@[k] == moved(old(clips)@[k], t as i64)
            },
{
    let ghost was = clips@;
    let starts: Vec<Option<i64>> = clip_start_times(clips);
    let mut cursor: i64 = 0;
    let mut i: usize = 0;
    while i < clips.len()
        invariant
            crate::model::clip_times_ok(was),
            recorded(was, was.len() as int) <= crate::arrange::TIME_LIMIT,
            starts@ == starts_of(was),
            clips@.len() == was.len(),
            i <= was.len(),
            cursor == laid_cursor(was, starts@, i as int),
            -recorded(was, i as int) <= cursor <= 4_000_000_000_000_000_000 + recorded(was, i as int),
            forall|k: int|
                0 <= k < i ==> {
                    let t = laid_offset(was, starts@, k);
                    i64::MIN <= t <= i64::MAX && #[trigger] clips@[k] == moved(was[k], t as i64)
                },
            forall|k: int| i <= k < was.len() ==> #[trigger] clips@[k] == was[k],
        decreases was.len() - i,
    {
        proof {
            lemma_recorded_grows(was, i as int, was.len() as int);
            lemma_recorded_grows(was, i + 1, was.len() as int);
            assert(was[i as int].times_ok());
            assert(was[0].times_ok());
        }
        let offset: i64 = match (starts[0], starts[i]) {
            (Some(f), Some(t)) => {
                let r: i64 = t - f;
                if r >= cursor - 1_000_000 {
                    if r > 0 {
                        r
                    } else {
                        0
                    }
                } else {
                    cursor
                }
            },
            _ => cursor,
        };
        assert(offset == laid_offset(was, starts@, i as int));
        clips[i].offset = offset;
        cursor = offset + clips[i].duration;
        i = i + 1;
    }
}

/// The first clip starts the timeline.
pub proof fn lemma_first_clip_at_zero(clips: Seq<Clip>, starts: Seq<Option<i64>>)
    ensures
        laid_offset(clips, starts, 0) == 0,
{
    assert(laid_cursor(clips, starts, 0) == 0);
}

/// Laid out clips keep their order and overlap by a second at most; recordings
/// that are not shorter than nothing never start before the timeline.
pub proof fn lemma_laid_out_in_order(clips: Seq<Clip>, starts: Seq<Option<i64>>, k: int)
    requires
        0 < k < clips.len(),
        forall|i: int| 0 <= i < clips.len() ==> (#[trigger] clips[i]).duration >= 0,
    ensures
        laid_offset(clips, starts, k) >= laid_offset(clips, starts, k - 1) + clips[k - 1].duration
            - 1_000_000,
        laid_offset(clips, starts, k) >= 0,
    decreases k,
{
    if k > 1 {
        lemma_laid_out_in_order(clips, starts, k - 1);
    } else {
        lemma_first_clip_at_zero(clips, starts);
    }
    assert(clips[k - 1].duration >= 0);
}

// ---------------------------------------------------------------- sync of a camera

/// What the arrangement needs to know about the clips.
pub open spec fn infos_of(clips: Seq<Clip>) -> Seq<ClipInfo> {
    Seq::new(
        clips.len(),
        |i: int| ClipInfo { duration: clips[i].duration, start_time: starts_of(clips)[i] },
    )
}

/// The clips' offsets.
pub open spec fn offsets_of(clips: Seq<Clip>) -> Seq<i64> {
    Seq::new(clips.len(), |i: int| clips[i].offset)
}

/// `out` is a best arrangement of the clips.
pub open spec fn is_camera_sync(clips: Seq<Clip>, candidates: Seq<Vec<SyncResult>>, out: Seq<Arranged>) -> bool {
    let infos = infos_of(clips);
    let lists = crate::arrange::usable_lists(candidates, clips.len());
    let current = offsets_of(clips);
    exists|choice: Seq<Option<usize>>| #[trigger]
        crate::arrange::arrangement(infos, lists, current, choice, out)
}

/// Places one camera's clips from their candidates and their creation stamps.
/// `None` where a time is out of range or a clip has no list of candidates.
pub fn sync_camera(clips: &Vec<Clip>, candidates: &Vec<Vec<SyncResult>>) -> (r: Option<Vec<Arranged>>)
    requires
        crate::model::clip_times_ok(clips@),
    ensures
        r is Some <==> crate::arrange::arrangeable(infos_of(clips@), candidates@),
        r matches Some(out) ==> is_camera_sync(clips@, candidates@, out@),
{
    let starts: Vec<Option<i64>> = clip_start_times(clips);
    let mut infos: Vec<ClipInfo> = Vec::new();
    let mut current: Vec<i64> = Vec::new();
    let mut i: usize = 0;
    while i < clips.len()
        invariant
            i <= clips@.len(),
            starts@ == starts_of(clips@),
            infos@.len() == i,
            current@.len() == i,
            forall|k: int|
                0 <= k < i ==> #[trigger] infos@[k] == (ClipInfo {
                    duration: clips@[k].duration,
                    start_time: starts@[k],
                }),
            forall|k: int| 0 <= k < i ==> #[trigger] current@[k] == clips@[k].offset,
        decreases clips@.len() - i,
    {
        infos.push(ClipInfo { duration: clips[i].duration, start_time: starts[i] });
        current.push(clips[i].offset);
        i = i + 1;
    }
    assert(infos@ =~= infos_of(clips@));
    assert(current@ =~= offsets_of(clips@));
    if can_arrange(&infos, candidates) {
        let out: Vec<Arranged> = arrange(&infos, candidates, &current);
        assert(is_camera_sync(clips@, candidates@, out@));
        Some(out)
    } else {
        None
    }
}

} // verus!
