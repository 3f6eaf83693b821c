//! Recording times, the files of a shoot, and the clips of a camera.

use crate::calendar::{
    digits_at, find, iso_moment, moment, number_at, stamp_at, stamp_moment, stamp_text, without_zone,
};
use crate::discover::{
    cameras_in_order, chosen_cameras, clip_key, clip_keys, clips_in_order, extension_of, is_audio_kind,
    is_sound, is_video_kind, kind_of, laid_cursor, laid_offset, last_dot, looks_like_cam, lower, lowered,
    names_audio, names_video, names_wav, path_extension, path_in, path_key, sound_entries, sound_key,
    sounds_in_order, text_key, Entry,
};
use crate::model::{file_name_of, last_part, Clip};
use crate::order::{
    before, key_less, lemma_first_difference_decides, lemma_key_irreflexive, lemma_not_both,
    lemma_order_exists, lemma_order_is_stable, listed, order_of,
};
use crate::text::{lemma_padded, padded};
use vstd::prelude::*;

verus! {

// ---------------------------------------------------------------- recording times

/// Moments are counted from the start of 1970 in microseconds. A second, a minute and an
/// hour are as long as they are, and a day of twenty-four hours leads to the next.
pub proof fn lemma_moments_are_counted(y: int, m: int, d: int, hh: int, mm: int, ss: int)
    ensures
        moment(1970, 1, 1, 0, 0, 0) == 0,
        moment(y, m, d, hh, mm, ss + 1) - moment(y, m, d, hh, mm, ss) == 1,
        moment(y, m, d, hh, mm + 1, ss) == moment(y, m, d, hh, mm, ss + 60_000_000),
        moment(y, m, d, hh + 1, mm, ss) == moment(y, m, d, hh, mm + 60, ss),
        moment(y, m, d + 1, hh, mm, ss) == moment(y, m, d, hh + 24, mm, ss),
{
    crate::calendar::lemma_next_day(y, m, d, d + 1);
}

/// The day behind the last of a month is the first of the next one.
pub proof fn lemma_months_follow(y: int, m: int, hh: int, mm: int, ss: int)
    requires
        1 <= m <= 12,
    ensures
        m < 12 ==> moment(y, m + 1, 1, hh, mm, ss) == moment(
            y,
            m,
            crate::calendar::month_length(y, m) + 1,
            hh,
            mm,
            ss,
        ),
        m == 12 ==> moment(y + 1, 1, 1, hh, mm, ss) == moment(y, 12, 32, hh, mm, ss),
        crate::calendar::month_length(y, 2) == 29 <==> y % 400 == 0 || (y % 4 == 0 && y % 100 != 0),
        m != 2 ==> 30 <= crate::calendar::month_length(y, m) <= 31,
{
    crate::calendar::lemma_next_month(y, m);
    crate::calendar::lemma_next_day(y, m, 1, crate::calendar::month_length(y, m) + 1);
    crate::calendar::lemma_next_day(y, 12, 1, 32);
}

/// A date and a time in a file name.
pub open spec fn in_name(y: nat, m: nat, d: nat, hh: nat, mm: nat, ss: nat) -> Seq<char> {
    padded(y, 4) + padded(m, 2) + padded(d, 2) + seq!['_'] + padded(hh, 2) + padded(mm, 2) + padded(ss, 2)
}

/// A date and a time in metadata.
pub open spec fn in_metadata(y: nat, m: nat, d: nat, hh: nat, mm: nat, ss: nat) -> Seq<char> {
    padded(y, 4) + seq!['-'] + padded(m, 2) + seq!['-'] + padded(d, 2) + seq!['T'] + padded(hh, 2) + seq![':']
        + padded(mm, 2) + seq![':'] + padded(ss, 2) + seq!['Z']
}

proof fn lemma_name_fields(y: nat, m: nat, d: nat, hh: nat, mm: nat, ss: nat)
    requires
        y < 10_000,
        m < 100,
        d < 100,
        hh < 100,
        mm < 100,
        ss < 100,
    ensures
        ({
            let s = in_name(y, m, d, hh, mm, ss);
            &&& s.len() == 15
            &&& digits_at(s, 0, 8) && s[8] == '_' && digits_at(s, 9, 6)
            &&& number_at(s, 0, 4) == y && number_at(s, 4, 2) == m && number_at(s, 6, 2) == d
            &&& number_at(s, 9, 2) == hh && number_at(s, 11, 2) == mm && number_at(s, 13, 2) == ss
        }),
{
    let s = in_name(y, m, d, hh, mm, ss);
    lemma_padded(y, 4);
    lemma_padded(m, 2);
    lemma_padded(d, 2);
    lemma_padded(hh, 2);
    lemma_padded(mm, 2);
    lemma_padded(ss, 2);
    reveal_with_fuel(crate::text::pow10, 5);
    assert(crate::text::pow10(4) == 10_000 && crate::text::pow10(2) == 100);
    let (py, pm, pd) = (padded(y, 4), padded(m, 2), padded(d, 2));
    let (ph, pn, ps) = (padded(hh, 2), padded(mm, 2), padded(ss, 2));
    assert(s == py + pm + pd + seq!['_'] + ph + pn + ps);
    assert(s.subrange(0, 4) =~= py);
    assert(s.subrange(4, 6) =~= pm);
    assert(s.subrange(6, 8) =~= pd);
    assert(s.subrange(9, 11) =~= ph);
    assert(s.subrange(11, 13) =~= pn);
    assert(s.subrange(13, 15) =~= ps);
    assert(s.subrange(0, 8) =~= py + pm + pd);
    assert(s.subrange(9, 15) =~= ph + pn + ps);
}

proof fn lemma_stamp_is_written(
    y: Seq<char>,
    m: Seq<char>,
    d: Seq<char>,
    hh: Seq<char>,
    mm: Seq<char>,
    ss: Seq<char>,
)
    requires
        y.len() == 4,
        m.len() == 2,
        d.len() == 2,
        hh.len() == 2,
        mm.len() == 2,
        ss.len() == 2,
    ensures
        stamp_text(y + m + d + seq!['_'] + hh + mm + ss, 0) == y + seq!['-'] + m + seq!['-'] + d + seq!['T'] + hh
            + seq![':'] + mm + seq![':'] + ss + seq!['Z'],
{
    let a = stamp_text(y + m + d + seq!['_'] + hh + mm + ss, 0);
    let b = y + seq!['-'] + m + seq!['-'] + d + seq!['T'] + hh + seq![':'] + mm + seq![':'] + ss + seq!['Z'];
    assert(a.len() == 20 && b.len() == 20);
    assert(a =~= b);
}

/// Dates that are written down are read as what they are, in names and in metadata.
pub proof fn lemma_written_dates_are_read(y: nat, m: nat, d: nat, hh: nat, mm: nat, ss: nat)
    requires
        2000 <= y < 2100,
        1 <= m <= 12,
        1 <= d <= 31,
        hh < 24,
        mm < 60,
        ss < 60,
    ensures
        stamp_at(in_name(y, m, d, hh, mm, ss), 0),
        stamp_moment(in_name(y, m, d, hh, mm, ss), 0) == moment(
            y as int,
            m as int,
            d as int,
            hh as int,
            mm as int,
            ss as int * 1_000_000,
        ),
        iso_moment(in_metadata(y, m, d, hh, mm, ss)) == Some(
            moment(y as int, m as int, d as int, hh as int, mm as int, ss as int * 1_000_000),
        ),
{
    let s = in_name(y, m, d, hh, mm, ss);
    lemma_name_fields(y, m, d, hh, mm, ss);
    crate::calendar::lemma_one_scale(s, 0);
    lemma_padded(y, 4);
    lemma_padded(m, 2);
    lemma_padded(d, 2);
    lemma_padded(hh, 2);
    lemma_padded(mm, 2);
    lemma_padded(ss, 2);
    lemma_stamp_is_written(
        padded(y, 4),
        padded(m, 2),
        padded(d, 2),
        padded(hh, 2),
        padded(mm, 2),
        padded(ss, 2),
    );
}

/// The zone letter does not matter.
pub proof fn lemma_zone_letter_does_not_matter(s: Seq<char>)
    ensures
        iso_moment(s.push('Z')) == iso_moment(s),
{
    assert(s.push('Z').drop_last() =~= s);
    assert(s.push('Z').last() == 'Z');
    assert(without_zone(s.push('Z')) == without_zone(s));
}

/// A stamp in a name says the same wherever it stands.
pub proof fn lemma_stamps_can_stand_anywhere(head: Seq<char>, s: Seq<char>, i: int)
    requires
        stamp_at(s, i),
    ensures
        stamp_moment(head + s, head.len() + i) == stamp_moment(s, i),
        i > 0 ==> stamp_at(head + s, head.len() + i),
{
    let t = head + s;
    let n = head.len() as int;
    assert(t.subrange(n + i, n + i + 8) =~= s.subrange(i, i + 8));
    assert(t.subrange(n + i + 9, n + i + 15) =~= s.subrange(i + 9, i + 15));
    assert(t.subrange(n + i, n + i + 4) =~= s.subrange(i, i + 4));
    assert(t.subrange(n + i + 4, n + i + 6) =~= s.subrange(i + 4, i + 6));
    assert(t.subrange(n + i + 6, n + i + 8) =~= s.subrange(i + 6, i + 8));
    assert(t.subrange(n + i + 9, n + i + 11) =~= s.subrange(i + 9, i + 11));
    assert(t.subrange(n + i + 11, n + i + 13) =~= s.subrange(i + 11, i + 13));
    assert(t.subrange(n + i + 13, n + i + 15) =~= s.subrange(i + 13, i + 15));
    assert(t[n + i + 8] == s[i + 8]);
}

/// What is looked for is found at its first place.
pub proof fn lemma_first_place_is_found(s: Seq<char>, c: char, i: int, k: int)
    requires
        0 <= i <= s.len(),
    ensures
        i <= find(s, c, i) <= s.len(),
        find(s, c, i) < s.len() ==> s[find(s, c, i)] == c,
        i <= k < find(s, c, i) ==> s[k] != c,
    decreases s.len() - i,
{
    if i < s.len() && s[i] != c {
        lemma_first_place_is_found(s, c, i + 1, k);
    }
}

// ---------------------------------------------------------------- file kinds

proof fn lemma_dot_place(s: Seq<char>, p: int, n: int)
    requires
        -1 <= p < n <= s.len(),
        p == -1 || s[p] == '.',
        forall|i: int| p < i < n ==> #[trigger] s[i] != '.',
    ensures
        last_dot(s, n) == p,
    decreases n,
{
    if n > p + 1 {
        lemma_dot_place(s, p, n - 1);
    }
}

/// A file's extension is what stands behind its last dot, whatever folder it lies in.
pub proof fn lemma_extension_stands_behind_the_dot(dir: Seq<char>, stem: Seq<char>, e: Seq<char>)
    requires
        stem.len() > 0,
        forall|i: int| 0 <= i < stem.len() ==> #[trigger] stem[i] != '/',
        forall|i: int| 0 <= i < e.len() ==> #[trigger] e[i] != '/' && e[i] != '.',
        e.len() > 0,
    ensures
        path_extension(stem + seq!['.'] + e) == Some(e),
        path_extension(dir + seq!['/'] + (stem + seq!['.'] + e)) == Some(e),
{
    let name = stem + seq!['.'] + e;
    let p = stem.len() as int;
    assert forall|i: int| 0 <= i < name.len() implies #[trigger] name[i] != '/' by {
        if i < p {
            assert(name[i] == stem[i]);
        } else if i > p {
            assert(name[i] == e[i - p - 1]);
        }
    }
    assert forall|i: int| p < i < name.len() implies #[trigger] name[i] != '.' by {
        assert(name[i] == e[i - p - 1]);
    }
    assert(name[p] == '.');
    lemma_dot_place(name, p, name.len() as int);
    assert(name.skip(p + 1) =~= e);
    assert(name.last() == e.last());
    assert(e[e.len() - 1] != '.');
    if name == seq!['.'] {
        assert(name[0] == '.');
        assert(name.len() == 1);
    }
    if name == seq!['.', '.'] {
        assert(name[1] == '.');
        assert(name.len() == 2);
    }
    crate::laws::projects::lemma_last_part_is_the_name(dir, name);
    assert(extension_of(name) == Some(e));
    assert(last_part(name) == Some(name)) by {
        if last_part(name) is None {
            assert(file_name_of(name).len() == 0);
        }
    }
    assert(last_part(dir + seq!['/'] + name) == Some(name)) by {
        if last_part(dir + seq!['/'] + name) is None {
            assert(file_name_of(dir + seq!['/'] + name).len() == 0);
        }
    }
}

/// A file's kind is its extension, and does not depend on the case of the letters.
pub proof fn lemma_kind_stands_behind_the_dot(dir: Seq<char>, stem: Seq<char>, e: Seq<char>)
    requires
        stem.len() > 0,
        forall|i: int| 0 <= i < stem.len() ==> #[trigger] stem[i] != '/',
        forall|i: int| 0 <= i < e.len() ==> #[trigger] e[i] != '/' && e[i] != '.',
        e.len() > 0,
    ensures
        kind_of(stem + seq!['.'] + e) == Some(lowered(e)),
        kind_of(dir + seq!['/'] + (stem + seq!['.'] + e)) == Some(lowered(e)),
        names_video(dir + seq!['/'] + (stem + seq!['.'] + e)) <==> is_video_kind(lowered(e)),
        names_audio(dir + seq!['/'] + (stem + seq!['.'] + e)) <==> is_audio_kind(lowered(e)),
        names_wav(dir + seq!['/'] + (stem + seq!['.'] + e)) <==> lowered(e) == "wav"@,
{
    lemma_extension_stands_behind_the_dot(dir, stem, e);
}

/// A name without a dot, or with one only in front, has no kind.
pub proof fn lemma_no_dot_no_kind(name: Seq<char>)
    requires
        forall|i: int| 0 < i < name.len() ==> #[trigger] name[i] != '.',
    ensures
        extension_of(name) is None,
{
    let n = name.len() as int;
    if n > 0 && name[0] == '.' {
        lemma_dot_place(name, 0, n);
    } else if n > 0 {
        lemma_dot_place(name, -1, n);
    }
}

/// Capitals become small letters, and these stay: twenty-six of them, in order.
pub proof fn lemma_letters_become_small(c: char)
    ensures
        'A' <= c && c <= 'Z' ==> 'a' <= lower(c) && lower(c) <= 'z' && lower(c) as int - 'a' as int == c as int
            - 'A' as int,
        !('A' <= c && c <= 'Z') ==> lower(c) == c,
        lower(lower(c)) == lower(c),
{
}

/// The kinds of video and audio files; none is both, and a wave file is an audio file.
pub proof fn lemma_kinds_are_told_apart(path: Seq<char>)
    ensures
        !(names_video(path) && names_audio(path)),
        names_wav(path) ==> names_audio(path),
        is_video_kind("mp4"@) && is_video_kind("mov"@) && is_video_kind("mkv"@) && is_video_kind("m4v"@),
        is_video_kind("webm"@) && is_video_kind("3gp"@),
        is_audio_kind("wav"@) && is_audio_kind("flac"@) && is_audio_kind("mp3"@) && is_audio_kind("m4a"@),
        is_audio_kind("aif"@) && is_audio_kind("aiff"@),
{
    reveal_strlit("mp4");
    reveal_strlit("mov");
    reveal_strlit("m4v");
    reveal_strlit("mkv");
    reveal_strlit("3gp");
    reveal_strlit("webm");
    reveal_strlit("wav");
    reveal_strlit("flac");
    reveal_strlit("aif");
    reveal_strlit("aiff");
    reveal_strlit("mp3");
    reveal_strlit("m4a");
    if names_video(path) && names_audio(path) {
        let e = kind_of(path)->0;
        let n = e.len();
        let (a, b, c) = (e[0], e[1], e[2]);
        assert(n == 3 || n == 4);
    }
}

/// An entry's path leads into the folder: its last part is the entry's name.
pub proof fn lemma_entry_lies_in_its_folder(root: Seq<char>, name: Seq<char>)
    requires
        name.len() > 0,
        forall|i: int| 0 <= i < name.len() ==> #[trigger] name[i] != '/',
        name != seq!['.'],
        name != seq!['.', '.'],
    ensures
        file_name_of(path_in(root, name)) == name,
        root.is_prefix_of(path_in(root, name)),
        path_in(root.push('/'), name) == root.push('/') + name,
{
    reveal_strlit("/");
    let s = path_in(root, name);
    crate::laws::projects::lemma_last_part_is_the_name(root, name);
    if root.len() == 0 {
        assert(s =~= name);
    } else if root.last() == '/' {
        let dir = root.drop_last();
        crate::laws::projects::lemma_last_part_is_the_name(dir, name);
        assert(s =~= dir + seq!['/'] + name);
    } else {
        assert("/"@ =~= seq!['/']);
        assert(s =~= root + seq!['/'] + name);
    }
    assert(s.take(root.len() as int) =~= root);
    assert(root.push('/').last() == '/');
}

/// A folder looks like a camera's whatever stands before and behind the letters, in
/// either case.
pub proof fn lemma_camera_names(head: Seq<char>, tail: Seq<char>)
    ensures
        looks_like_cam(head + seq!['C', 'a', 'm'] + tail),
        looks_like_cam(head + seq!['c', 'a', 'm'] + tail),
        looks_like_cam(head + seq!['C', 'A', 'M'] + tail),
{
    let n = head.len() as int;
    let a = head + seq!['C', 'a', 'm'] + tail;
    let b = head + seq!['c', 'a', 'm'] + tail;
    let c = head + seq!['C', 'A', 'M'] + tail;
    assert(lower(a[n]) == 'c' && lower(a[n + 1]) == 'a' && lower(a[n + 2]) == 'm');
    assert(lower(b[n]) == 'c' && lower(b[n + 1]) == 'a' && lower(b[n + 2]) == 'm');
    assert(lower(c[n]) == 'c' && lower(c[n + 1]) == 'a' && lower(c[n + 2]) == 'm');
}

/// Three camera folders or fewer are all taken; of more, three are.
pub proof fn lemma_three_cameras_are_taken(entries: Seq<Entry>)
    requires
        entries.len() <= usize::MAX,
    ensures
        chosen_cameras(entries).len() <= 3,
        cameras_in_order(entries).len() <= 3 ==> forall|i: int|
            0 <= i < entries.len() && crate::discover::is_camera(#[trigger] entries[i]) ==> chosen_cameras(
                entries,
            ).contains(i as usize),
        cameras_in_order(entries).len() > 3 ==> chosen_cameras(entries).len() == 3,
{
    let all = cameras_in_order(entries);
    crate::discover::lemma_cameras_come_by_name(entries);
    crate::discover::lemma_every_camera_is_listed(entries);
    if all.len() <= 3 {
        assert(all.take(all.len() as int) =~= all);
        assert forall|i: int| 0 <= i < entries.len() && crate::discover::is_camera(#[trigger] entries[i]) implies
            chosen_cameras(entries).contains(i as usize) by {
            assert(all.contains(i as usize));
        }
    }
}

/// Audio files come wave files first, the larger before the smaller, and by name where
/// they are as large.
pub proof fn lemma_sounds_come_in_order(entries: Seq<Entry>, p: int, q: int)
    requires
        entries.len() <= usize::MAX,
        0 <= p < q < sounds_in_order(entries).len(),
    ensures
        ({
            let a = entries[sounds_in_order(entries)[p] as int];
            let b = entries[sounds_in_order(entries)[q] as int];
            &&& names_wav(b.name@) ==> names_wav(a.name@)
            &&& names_wav(b.name@) == names_wav(a.name@) ==> a.size >= b.size
            &&& names_wav(b.name@) == names_wav(a.name@) && a.size == b.size ==> !key_less(
                text_key(b.name@),
                text_key(a.name@),
            )
        }),
{
    let found = sound_entries(entries, entries.len() as int);
    let keys = Seq::new(found.len(), |k: int| sound_key(entries[found[k] as int]));
    let order = order_of(keys);
    crate::discover::lemma_sound_entries(entries, entries.len() as int);
    lemma_order_exists(keys);
    let i = order[p] as int;
    let j = order[q] as int;
    assert(before(keys, i, j));
    let a = entries[found[i] as int];
    let b = entries[found[j] as int];
    assert(sounds_in_order(entries)[p] == found[i]);
    assert(sounds_in_order(entries)[q] == found[j]);
    let x = keys[i];
    let y = keys[j];
    assert(x == sound_key(a) && y == sound_key(b));
    assert(x[0] <= y[0]);
    let xr = x.drop_first();
    let yr = y.drop_first();
    assert(xr[0] == x[1] && yr[0] == y[1]);
    assert(xr.drop_first() =~= text_key(a.name@));
    assert(yr.drop_first() =~= text_key(b.name@));
    lemma_not_both(text_key(a.name@), text_key(b.name@));
    lemma_key_irreflexive(text_key(a.name@));
    if x[0] == y[0] {
        assert(x == y || key_less(xr, yr));
    }
}

/// Every audio file of the folder is listed, and nothing else.
pub proof fn lemma_every_sound_is_listed(entries: Seq<Entry>, i: int)
    requires
        entries.len() <= usize::MAX,
        0 <= i < entries.len(),
    ensures
        is_sound(entries[i]) <==> sounds_in_order(entries).contains(i as usize),
{
    let found = sound_entries(entries, entries.len() as int);
    let keys = Seq::new(found.len(), |k: int| sound_key(entries[found[k] as int]));
    let order = order_of(keys);
    crate::discover::lemma_sound_entries(entries, entries.len() as int);
    lemma_order_exists(keys);
    let list = sounds_in_order(entries);
    if is_sound(entries[i]) {
        let k = choose|k: int| 0 <= k < found.len() && found[k] == i as usize;
        assert(listed(order, k));
        let p = choose|p: int| 0 <= p < order.len() && order[p] == k;
        assert(list[p] == i as usize);
    }
    if list.contains(i as usize) {
        let p = choose|p: int| 0 <= p < list.len() && list[p] == i as usize;
        assert(order[p] < keys.len());
        lemma_found_are_sounds(entries, entries.len() as int, order[p] as int);
    }
}

proof fn lemma_found_are_sounds(entries: Seq<Entry>, n: int, p: int)
    requires
        0 <= n <= entries.len() <= usize::MAX,
        0 <= p < sound_entries(entries, n).len(),
    ensures
        is_sound(entries[sound_entries(entries, n)[p] as int]),
    decreases n,
{
    if n > 0 {
        if p < sound_entries(entries, n - 1).len() {
            lemma_found_are_sounds(entries, n - 1, p);
        }
    }
}

// ---------------------------------------------------------------- clips of a camera

proof fn lemma_texts_before_mark(a: Seq<i64>, b: Seq<i64>, x: Seq<i64>, y: Seq<i64>)
    requires
        forall|i: int| 0 <= i < a.len() ==> #[trigger] a[i] >= 0,
        forall|i: int| 0 <= i < b.len() ==> #[trigger] b[i] >= 0,
        !key_less(b + seq![-2i64] + y, a + seq![-2i64] + x),
    ensures
        !key_less(b, a),
        a == b ==> !key_less(y, x),
    decreases a.len(),
{
    let p = a + seq![-2i64] + x;
    let q = b + seq![-2i64] + y;
    if a.len() == 0 {
        if b.len() == 0 {
            assert(p[0] == -2 && q[0] == -2);
            assert(p.drop_first() =~= x);
            assert(q.drop_first() =~= y);
        }
    } else if b.len() == 0 {
        assert(q[0] == -2);
        assert(p[0] == a[0]);
    } else {
        assert(p[0] == a[0] && q[0] == b[0]);
        if a[0] == b[0] {
            assert(p.drop_first() =~= a.drop_first() + seq![-2i64] + x);
            assert(q.drop_first() =~= b.drop_first() + seq![-2i64] + y);
            assert forall|i: int| 0 <= i < a.drop_first().len() implies #[trigger] a.drop_first()[i] >= 0 by {
                assert(a[i + 1] >= 0);
            }
            assert forall|i: int| 0 <= i < b.drop_first().len() implies #[trigger] b.drop_first()[i] >= 0 by {
                assert(b[i + 1] >= 0);
            }
            lemma_texts_before_mark(a.drop_first(), b.drop_first(), x, y);
            if a == b {
                assert(a.drop_first() == b.drop_first());
            }
        }
    }
}

/// A camera's clips come in the order of their creation stamps, those without one first,
/// and in the order of their paths where the stamps do not tell; none is lost.
pub proof fn lemma_clips_come_in_order(clips: Seq<Clip>, p: int, q: int, k: int)
    requires
        clips.len() <= usize::MAX,
        0 <= p < q < clips.len(),
        0 <= k < clips.len(),
    ensures
        ({
            let list = clips_in_order(clips);
            let a = list[p];
            let b = list[q];
            &&& list.len() == clips.len()
            &&& list.contains(clips[k])
            &&& a.creation_time is Some ==> b.creation_time is Some
            &&& a.creation_time is None && b.creation_time is None ==> !key_less(
                path_key(b.path@),
                path_key(a.path@),
            )
            &&& a.creation_time is Some && b.creation_time is Some ==> !key_less(
                text_key(b.creation_time->0@),
                text_key(a.creation_time->0@),
            )
            &&& a.creation_time is Some && b.creation_time is Some && a.creation_time->0@ == b.creation_time->0@
                ==> !key_less(path_key(b.path@), path_key(a.path@))
        }),
{
    let keys = clip_keys(clips);
    let order = order_of(keys);
    let list = clips_in_order(clips);
    lemma_order_exists(keys);
    lemma_order_is_stable(keys, p, q, k);
    let m = choose|m: int| 0 <= m < order.len() && #[trigger] order[m] == k;
    assert(list[m] == clips[k]);
    let a = list[p];
    let b = list[q];
    assert(order[q] < keys.len());
    let x = clip_key(a);
    let y = clip_key(b);
    assert(!key_less(y, x));
    if a.creation_time is Some {
        let at = a.creation_time->0@;
        assert(x[0] == 1);
        assert(x.drop_first() =~= text_key(at) + seq![-2i64] + path_key(a.path@));
        if b.creation_time is Some {
            let bt = b.creation_time->0@;
            assert(y[0] == 1);
            assert(y.drop_first() =~= text_key(bt) + seq![-2i64] + path_key(b.path@));
            lemma_texts_before_mark(text_key(at), text_key(bt), path_key(a.path@), path_key(b.path@));
        } else {
            assert(y[0] == 0);
        }
    } else if b.creation_time is None {
        assert(x[0] == 0 && y[0] == 0);
        assert(x.drop_first() =~= path_key(a.path@));
        assert(y.drop_first() =~= path_key(b.path@));
    }
}

/// Recordings with known starts that do not go back lie where they were recorded: as far
/// behind the first one as they started later.
pub proof fn lemma_recordings_lie_where_they_were_made(clips: Seq<Clip>, starts: Seq<Option<i64>>, k: int)
    requires
        0 <= k < clips.len(),
        clips.len() == starts.len(),
        forall|i: int| 0 <= i < starts.len() ==> (#[trigger] starts[i]) is Some,
        forall|i: int| 0 <= i < clips.len() ==> (#[trigger] clips[i]).duration >= 0,
        forall|i: int|
            0 < i < starts.len() ==> (#[trigger] starts[i])->0 >= starts[i - 1]->0 + clips[i - 1].duration - 1_000_000,
        forall|i: int| 0 < i < starts.len() ==> (#[trigger] starts[i])->0 >= starts[0]->0,
    ensures
        laid_offset(clips, starts, k) == starts[k]->0 - starts[0]->0,
    decreases k,
{
    assert(starts[0] is Some && starts[k] is Some);
    if k > 0 {
        lemma_recordings_lie_where_they_were_made(clips, starts, k - 1);
        assert(starts[k]->0 >= starts[0]->0);
        assert(laid_cursor(clips, starts, k) == laid_offset(clips, starts, k - 1) + clips[k - 1].duration);
    } else {
        assert(laid_cursor(clips, starts, 0) == 0);
    }
}

/// Recordings with unknown starts lie end to end.
pub proof fn lemma_unknown_recordings_lie_end_to_end(clips: Seq<Clip>, starts: Seq<Option<i64>>, k: int)
    requires
        0 < k < clips.len(),
        starts[k] is None,
    ensures
        laid_offset(clips, starts, k) == laid_offset(clips, starts, k - 1) + clips[k - 1].duration,
{
    assert(laid_cursor(clips, starts, k) == laid_offset(clips, starts, k - 1) + clips[k - 1].duration);
}

// ---------------------------------------------------------------- sorting and telling apart

/// Names are sorted by their characters: the first that differs decides, and a name that is
/// the beginning of another comes first.
pub proof fn lemma_names_are_sorted_by_characters(p: Seq<char>, c: char, d: char, s: Seq<char>, t: Seq<char>)
    requires
        c < d,
    ensures
        key_less(text_key(p.push(c) + s), text_key(p.push(d) + t)),
        !key_less(text_key(p.push(d) + t), text_key(p.push(c) + s)),
        key_less(text_key(p), text_key(p.push(c) + s)),
{
    let a = text_key(p.push(c) + s);
    let b = text_key(p.push(d) + t);
    let n = p.len() as int;
    assert forall|k: int| 0 <= k < n implies #[trigger] a[k] == b[k] by {}
    assert(a[n] == (c as u32) as i64 && b[n] == (d as u32) as i64);
    lemma_first_difference_decides(a, b, n);
    lemma_first_difference_decides(b, a, n);
    let e = text_key(p);
    assert forall|k: int| 0 <= k < n implies #[trigger] e[k] == a[k] by {}
    lemma_first_difference_decides(e, a, n);
}

/// Paths are sorted folder by folder: what lies in a folder comes before what lies beside
/// it under a longer name.
pub proof fn lemma_paths_are_sorted_by_folders(p: Seq<char>, c: char, s: Seq<char>, t: Seq<char>)
    requires
        c != '/',
    ensures
        key_less(path_key(p.push('/') + s), path_key(p.push(c) + t)),
        !key_less(path_key(p.push(c) + t), path_key(p.push('/') + s)),
{
    let a = path_key(p.push('/') + s);
    let b = path_key(p.push(c) + t);
    let n = p.len() as int;
    assert forall|k: int| 0 <= k < n implies #[trigger] a[k] == b[k] by {}
    assert(a[n] == -1 && b[n] == (c as u32) as i64);
    lemma_first_difference_decides(a, b, n);
    lemma_first_difference_decides(b, a, n);
}

/// Video files are those of six kinds, and audio files those of six others.
pub proof fn lemma_no_other_kinds(e: Seq<char>)
    ensures
        is_video_kind(e) ==> seq!["mp4"@, "mov"@, "m4v"@, "mkv"@, "3gp"@, "webm"@].contains(e),
        is_audio_kind(e) ==> seq!["wav"@, "flac"@, "aif"@, "aiff"@, "mp3"@, "m4a"@].contains(e),
{
    let v = seq!["mp4"@, "mov"@, "m4v"@, "mkv"@, "3gp"@, "webm"@];
    let a = seq!["wav"@, "flac"@, "aif"@, "aiff"@, "mp3"@, "m4a"@];
    if is_video_kind(e) {
        assert(e == v[0] || e == v[1] || e == v[2] || e == v[3] || e == v[4] || e == v[5]);
    }
    if is_audio_kind(e) {
        assert(e == a[0] || e == a[1] || e == a[2] || e == a[3] || e == a[4] || e == a[5]);
    }
}

/// A camera is a folder that can be seen and holds a video; a recording is a file that can
/// be seen and is of an audio kind.
pub proof fn lemma_what_is_taken_can_be_seen(e: Entry)
    ensures
        crate::discover::is_camera(e) ==> e.is_dir && e.name@.len() > 0 && e.name@[0] != '.' && e.files@.len() > 0,
        is_sound(e) ==> !e.is_dir && e.is_file && e.name@.len() > 0 && e.name@[0] != '.' && names_audio(e.name@),
        e.is_dir && e.name@.len() > 0 && e.name@[0] != '.' && e.files@.len() > 0 && names_video(e.files@[0]@)
            ==> crate::discover::is_camera(e),
{
}

/// A name without the letters does not look like a camera's.
pub proof fn lemma_other_names_do_not_look_like_cameras(name: Seq<char>)
    requires
        (forall|i: int| 0 <= i < name.len() ==> #[trigger] name[i] != 'c' && name[i] != 'C') || (forall|i: int|
            0 <= i < name.len() ==> #[trigger] name[i] != 'a' && name[i] != 'A') || (forall|i: int|
            0 <= i < name.len() ==> #[trigger] name[i] != 'm' && name[i] != 'M'),
    ensures
        !looks_like_cam(name),
{
    if looks_like_cam(name) {
        let i = choose|i: int|
            0 <= i && i + 3 <= name.len() && #[trigger] lower(name[i]) == 'c' && lower(name[i + 1]) == 'a' && lower(
                name[i + 2],
            ) == 'm';
        lemma_letters_become_small(name[i]);
        lemma_letters_become_small(name[i + 1]);
        lemma_letters_become_small(name[i + 2]);
        assert(name[i] == 'c' || name[i] == 'C');
        assert(name[i + 1] == 'a' || name[i + 1] == 'A');
        assert(name[i + 2] == 'm' || name[i + 2] == 'M');
    }
}

/// Digits are a stamp only where they can be a date and a time of this century, and do not
/// go on before.
pub proof fn lemma_only_dates_are_stamps(y: nat, m: nat, d: nat, hh: nat, mm: nat, ss: nat, c: char)
    requires
        y < 10_000,
        m < 100,
        d < 100,
        hh < 100,
        mm < 100,
        ss < 100,
    ensures
        stamp_at(in_name(y, m, d, hh, mm, ss), 0) <==> 2000 <= y < 2100 && 1 <= m <= 12 && 1 <= d <= 31 && hh < 24
            && mm < 60 && ss < 60,
        crate::text::is_digit(c) ==> !stamp_at(seq![c] + in_name(y, m, d, hh, mm, ss), 1),
{
    lemma_name_fields(y, m, d, hh, mm, ss);
    assert((seq![c] + in_name(y, m, d, hh, mm, ss))[0] == c);
}

/// A recording whose start goes back by more than a second behind the end of the one before
/// it follows that one directly.
pub proof fn lemma_recordings_that_go_back_follow(clips: Seq<Clip>, starts: Seq<Option<i64>>, k: int)
    requires
        0 < k < clips.len(),
        clips.len() == starts.len(),
        starts[0] is Some,
        starts[k] is Some,
    ensures
        ({
            let end = laid_offset(clips, starts, k - 1) + clips[k - 1].duration;
            let r = starts[k]->0 - starts[0]->0;
            &&& r < end - 1_000_000 ==> laid_offset(clips, starts, k) == end
            &&& r >= end - 1_000_000 && r >= 0 ==> laid_offset(clips, starts, k) == r
            &&& r >= end - 1_000_000 && r < 0 ==> laid_offset(clips, starts, k) == 0
        }),
{
    assert(laid_cursor(clips, starts, k) == laid_offset(clips, starts, k - 1) + clips[k - 1].duration);
}

} // verus!
