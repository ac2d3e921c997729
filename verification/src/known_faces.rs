//! Loading the known faces: where they and the classifier are looked for, which images are read, and
//! which samples are taken from the cache.
//!
//! The directory of known faces has a directory for each person, with images of that person.

use vstd::prelude::*;
use vstd::utf8::encode_utf8;

use crate::cache::{
    by_path, entries_of, entry_of, gives_back, last_of_path, law_saved_cache_is_read_back,
    lemma_by_path, path_bytes, sample_from_cache_entry, sample_of, usable_entries, CacheEntry,
    CacheEntryView, CacheError, CacheIndex, KnownFaceSample, KnownFaceSampleView, CACHE_VERSION,
};
use crate::decimal::{
    decimal, decimal_text, is_digit, law_decimal_read_back, wide_decimal_text,
};
use crate::ordering::{
    byte_order, byte_views, bytes_come_first, bytes_up_to, is_byte_order, rearranged,
};
use crate::text::{
    ends_with, finishes_with, is_blank, joined, law_only_parts_are_held, law_texts_hold_their_parts,
    law_trimming_takes_the_white_space_off, lowercased, same_text, text_views, trim, trimmed,
    white_space,
};

verus! {

/// The bytes of texts.
pub open spec fn text_bytes(s: Seq<Seq<char>>) -> Seq<Seq<u8>> {
    s.map_values(|t: Seq<char>| encode_utf8(t))
}

/// Puts the names of the persons in order.
pub fn sorted_persons(names: &Vec<String>) -> (res: Vec<String>)
    ensures
        exists|order: Seq<usize>| #[trigger]
            is_byte_order(text_bytes(text_views(names@)), order) && text_views(res@) == rearranged(
                text_views(names@),
                order,
            ),
{
    let ghost views = text_views(names@);
    let mut keys: Vec<Vec<u8>> = Vec::new();
    for i in 0..names.len()
        invariant
            views == text_views(names@),
            byte_views(keys@) =~= text_bytes(views).take(i as int),
    {
        let ghost before = keys@;
        keys.push(vstd::slice::slice_to_vec(names[i].as_str().as_bytes()));
        assert(byte_views(keys@) =~= byte_views(before).push(encode_utf8(views[i as int])));
    }
    assert(byte_views(keys@) =~= text_bytes(views));
    let order = byte_order(&keys);
    let mut sorted: Vec<String> = Vec::new();
    for i in 0..order.len()
        invariant
            views == text_views(names@),
            views.len() == names@.len(),
            is_byte_order(text_bytes(views), order@),
            text_views(sorted@) =~= rearranged(views, order@.take(i as int)),
    {
        assert(order@[i as int] < text_bytes(views).len());
        let ghost before = sorted@;
        sorted.push(names[order[i]].clone());
        assert(text_views(sorted@) =~= text_views(before).push(views[order@[i as int] as int]));
        assert(rearranged(views, order@.take(i + 1)) =~= rearranged(
            views,
            order@.take(i as int),
        ).push(views[order@[i as int] as int]));
    }
    assert(order@.take(order@.len() as int) =~= order@);
    sorted
}

/// A file is an image, by its name in lower case.
pub open spec fn image_name(lowered: Seq<char>) -> bool {
    ||| finishes_with(lowered, ".jpg"@)
    ||| finishes_with(lowered, ".jpeg"@)
    ||| finishes_with(lowered, ".png"@)
}

/// Whether a file is an image, by its name in lower case.
pub fn is_image_name(lowered: &str) -> (res: bool)
    ensures
        res == image_name(lowered@),
{
    ends_with(lowered, ".jpg") || ends_with(lowered, ".jpeg") || ends_with(lowered, ".png")
}

/// The raw names of files.
pub open spec fn raw_names(files: Seq<(Vec<u8>, String)>) -> Seq<Seq<u8>> {
    files.map_values(|f: (Vec<u8>, String)| f.0@)
}

/// The images among files, by their raw names and their names as text: their positions, in the order
/// of the raw names.
pub fn images_to_load(files: &Vec<(Vec<u8>, String)>) -> (res: Vec<usize>)
    ensures
        exists|order: Seq<usize>| #[trigger]
            is_byte_order(raw_names(files@), order) && res@ == order.filter(
                |p: usize| image_name(lowercased(files@[p as int].1@)),
            ),
{
    let mut keys: Vec<Vec<u8>> = Vec::new();
    for i in 0..files.len()
        invariant
            byte_views(keys@) =~= raw_names(files@).take(i as int),
    {
        let ghost before = keys@;
        keys.push(vstd::slice::slice_to_vec(files[i].0.as_slice()));
        assert(byte_views(keys@) =~= byte_views(before).push(files@[i as int].0@));
    }
    assert(byte_views(keys@) =~= raw_names(files@));
    let order = byte_order(&keys);
    let ghost image = |p: usize| image_name(lowercased(files@[p as int].1@));
    let mut images: Vec<usize> = Vec::new();
    assert(order@.take(0).filter(image) =~= Seq::<usize>::empty());
    for i in 0..order.len()
        invariant
            image == (|p: usize| image_name(lowercased(files@[p as int].1@))),
            is_byte_order(raw_names(files@), order@),
            images@ == order@.take(i as int).filter(image),
    {
        let p: usize = order[i];
        assert(order@[i as int] < raw_names(files@).len());
        proof {
            assert(order@.take(i + 1) =~= order@.take(i as int).push(p));
            order@.take(i as int).lemma_filter_push(p, image);
        }
        if is_image_name(files[p].1.as_str().to_lowercase().as_str()) {
            images.push(p);
        }
    }
    assert(order@.take(order@.len() as int) =~= order@);
    images
}

/// The directory of a person: the name of the person, and of each file the raw name and the name as
/// text.
#[derive(Debug)]
pub struct PersonDir {
    pub name: String,
    pub files: Vec<(Vec<u8>, String)>,
}

/// What a [`PersonDir`] holds.
#[verifier::ext_equal]
pub struct PersonDirView {
    pub name: Seq<char>,
    pub files: Seq<(Seq<u8>, Seq<char>)>,
}

impl View for PersonDir {
    type V = PersonDirView;

    open spec fn view(&self) -> PersonDirView {
        PersonDirView {
            name: self.name@,
            files: self.files@.map_values(|f: (Vec<u8>, String)| (f.0@, f.1@)),
        }
    }
}

/// The views of directories.
pub open spec fn dir_views(s: Seq<PersonDir>) -> Seq<PersonDirView> {
    s.map_values(|d: PersonDir| d@)
}

/// The bytes of the names of persons.
pub open spec fn person_keys(dirs: Seq<PersonDirView>) -> Seq<Seq<u8>> {
    dirs.map_values(|d: PersonDirView| encode_utf8(d.name))
}

/// The raw names of the files of a person.
pub open spec fn file_keys(dir: PersonDirView) -> Seq<Seq<u8>> {
    dir.files.map_values(|f: (Seq<u8>, Seq<char>)| f.0)
}

/// The file `f` of the person `p` is an image.
pub open spec fn is_image_at(dirs: Seq<PersonDirView>, p: int, f: int) -> bool {
    &&& 0 <= p < dirs.len()
    &&& 0 <= f < dirs[p].files.len()
    &&& image_name(lowercased(dirs[p].files[f].1))
}

/// An image is read before another one: that of a person who comes first, and of one person the one
/// whose raw name comes first, both in the order of the bytes.
pub open spec fn read_before(
    dirs: Seq<PersonDirView>,
    a: (usize, usize),
    b: (usize, usize),
) -> bool {
    if a.0 == b.0 {
        bytes_come_first(file_keys(dirs[a.0 as int]), a.1 as int, b.1 as int)
    } else {
        bytes_come_first(person_keys(dirs), a.0 as int, b.0 as int)
    }
}

/// `list` holds the images of all persons, and nothing else, in the order in which they are read. An
/// image is given by the positions of the person and of the file.
pub open spec fn is_image_list(dirs: Seq<PersonDirView>, list: Seq<(usize, usize)>) -> bool {
    &&& forall|i: int|
        0 <= i < list.len() ==> is_image_at(dirs, (#[trigger] list[i]).0 as int, list[i].1 as int)
    &&& forall|p: int, f: int| #[trigger]
        is_image_at(dirs, p, f) ==> list.contains((p as usize, f as usize))
    &&& forall|i: int, j: int|
        0 <= i < j < list.len() ==> read_before(dirs, #[trigger] list[i], #[trigger] list[j])
}

/// A filtered sequence holds items of the sequence, in the same order.
proof fn lemma_filter_places(s: Seq<usize>, p: spec_fn(usize) -> bool) -> (at: Seq<int>)
    ensures
        at.len() == s.filter(p).len(),
        forall|i: int|
            0 <= i < at.len() ==> 0 <= (#[trigger] at[i]) < s.len() && s[at[i]] == s.filter(p)[i],
        forall|i: int, j: int| 0 <= i < j < at.len() ==> (#[trigger] at[i]) < (#[trigger] at[j]),
    decreases s.len(),
{
    if s.len() == 0 {
        s.lemma_filter_len(p);
        Seq::empty()
    } else {
        let front = s.drop_last();
        let at = lemma_filter_places(front, p);
        assert(front.push(s.last()) =~= s);
        front.lemma_filter_push(s.last(), p);
        assert forall|i: int| 0 <= i < at.len() implies s[#[trigger] at[i]] == front[at[i]] by {}
        if p(s.last()) {
            at.push(s.len() - 1)
        } else {
            at
        }
    }
}

/// `images` holds the images of the person `p`, and nothing else, in the order of their raw names.
spec fn are_images_of(dirs: Seq<PersonDirView>, p: int, images: Seq<usize>) -> bool {
    &&& forall|k: int| 0 <= k < images.len() ==> is_image_at(dirs, p, (#[trigger] images[k]) as int)
    &&& forall|f: int| #[trigger] is_image_at(dirs, p, f) ==> images.contains(f as usize)
    &&& forall|k: int, l: int|
        0 <= k < l < images.len() ==> bytes_come_first(
            file_keys(dirs[p]),
            (#[trigger] images[k]) as int,
            (#[trigger] images[l]) as int,
        )
}

/// The images among the files of a person.
fn images_of_person(dirs: &Vec<PersonDir>, p: usize) -> (res: Vec<usize>)
    requires
        p < dirs@.len(),
    ensures
        are_images_of(dir_views(dirs@), p as int, res@),
{
    let images = images_to_load(&dirs[p].files);
    proof {
        let views = dir_views(dirs@);
        let files = dirs@[p as int].files@;
        let dir = views[p as int];
        assert(file_keys(dir) =~= raw_names(files));
        assert(files.len() == dirs@[p as int].files.len());
        let image = |q: usize| image_name(lowercased(files[q as int].1@));
        let order = choose|order: Seq<usize>| #[trigger]
            is_byte_order(raw_names(files), order) && images@ == order.filter(image);
        let at = lemma_filter_places(order, image);
        assert forall|k: int| 0 <= k < images@.len() implies is_image_at(
            views,
            p as int,
            (#[trigger] images@[k]) as int,
        ) by {
            order.lemma_filter_pred(image, k);
            assert(order[at[k]] == images@[k]);
            assert(dir.files[images@[k] as int].1 == files[images@[k] as int].1@);
        }
        assert forall|f: int| #[trigger] is_image_at(views, p as int, f) implies images@.contains(
            f as usize,
        ) by {
            assert(dir.files[f].1 == files[f].1@);
            assert(order.contains(f as usize));
            let i = choose|i: int| 0 <= i < order.len() && order[i] == f as usize;
            order.lemma_filter_contains(image, i);
        }
        assert forall|k: int, l: int| 0 <= k < l < images@.len() implies bytes_come_first(
            file_keys(dir),
            (#[trigger] images@[k]) as int,
            (#[trigger] images@[l]) as int,
        ) by {
            assert(at[k] < at[l]);
            assert(order[at[k]] == images@[k] && order[at[l]] == images@[l]);
        }
    }
    images
}

/// `list` holds the images of the first `n` persons of `order`, and nothing else, in the order in which
/// they are read.
spec fn images_so_far(
    dirs: Seq<PersonDirView>,
    order: Seq<usize>,
    n: int,
    list: Seq<(usize, usize)>,
) -> bool {
    &&& forall|i: int|
        0 <= i < list.len() ==> is_image_at(dirs, (#[trigger] list[i]).0 as int, list[i].1 as int)
            && order.take(n).contains(list[i].0)
    &&& forall|p: int, f: int| #[trigger]
        is_image_at(dirs, p, f) && order.take(n).contains(p as usize) ==> list.contains(
            (p as usize, f as usize),
        )
    &&& forall|i: int, j: int|
        0 <= i < j < list.len() ==> read_before(dirs, #[trigger] list[i], #[trigger] list[j])
}

/// The images of the next person follow those of the persons before.
proof fn lemma_next_person(
    dirs: Seq<PersonDirView>,
    order: Seq<usize>,
    n: int,
    before: Seq<(usize, usize)>,
    images: Seq<usize>,
    list: Seq<(usize, usize)>,
)
    requires
        is_byte_order(person_keys(dirs), order),
        dirs.len() <= usize::MAX,
        0 <= n < order.len(),
        images_so_far(dirs, order, n, before),
        are_images_of(dirs, order[n] as int, images),
        list == before + images.map_values(|f: usize| (order[n], f)),
    ensures
        images_so_far(dirs, order, n + 1, list),
{
    let p = order[n];
    let more = order.take(n + 1);
    assert(more =~= order.take(n).push(p));
    assert(more[n] == p);
    assert forall|i: int| 0 <= i < list.len() implies is_image_at(
        dirs,
        (#[trigger] list[i]).0 as int,
        list[i].1 as int,
    ) && more.contains(list[i].0) by {
        if i < before.len() {
            assert(list[i] == before[i]);
            let k = choose|k: int| 0 <= k < n && order.take(n)[k] == before[i].0;
            assert(more[k] == before[i].0);
        } else {
            assert(is_image_at(dirs, p as int, images[i - before.len()] as int));
        }
    }
    assert forall|q: int, f: int| #[trigger]
        is_image_at(dirs, q, f) && more.contains(q as usize) implies list.contains(
        (q as usize, f as usize),
    ) by {
        if q == p {
            assert(images.contains(f as usize));
            let k = choose|k: int| 0 <= k < images.len() && images[k] == f as usize;
            assert(list[before.len() + k] == (q as usize, f as usize));
        } else {
            let k = choose|k: int| 0 <= k < more.len() && more[k] == q as usize;
            assert(order.take(n)[k] == q as usize);
            let i = choose|i: int|
                0 <= i < before.len() && before[i] == (q as usize, f as usize);
            assert(list[i] == (q as usize, f as usize));
        }
    }
    assert forall|i: int, j: int| 0 <= i < j < list.len() implies read_before(
        dirs,
        #[trigger] list[i],
        #[trigger] list[j],
    ) by {
        if j < before.len() {
            assert(list[i] == before[i] && list[j] == before[j]);
        } else if i >= before.len() {
            let k = i - before.len();
            let l = j - before.len();
            assert(list[i] == (p, images[k]) && list[j] == (p, images[l]));
        } else {
            assert(list[i] == before[i]);
            let k = choose|k: int| 0 <= k < n && order.take(n)[k] == before[i].0;
            assert(bytes_come_first(person_keys(dirs), order[k] as int, order[n] as int));
        }
    }
}

/// The images of all persons, in the order in which they are read: person by person, and for each
/// person by the raw names of the files.
pub fn known_images(dirs: &Vec<PersonDir>) -> (res: Vec<(usize, usize)>)
    ensures
        is_image_list(dir_views(dirs@), res@),
{
    let ghost views = dir_views(dirs@);
    let mut keys: Vec<Vec<u8>> = Vec::new();
    for i in 0..dirs.len()
        invariant
            views == dir_views(dirs@),
            byte_views(keys@) =~= person_keys(views).take(i as int),
    {
        let ghost before = keys@;
        keys.push(vstd::slice::slice_to_vec(dirs[i].name.as_str().as_bytes()));
        assert(byte_views(keys@) =~= byte_views(before).push(encode_utf8(views[i as int].name)));
    }
    assert(byte_views(keys@) =~= person_keys(views));
    let order = byte_order(&keys);
    let mut list: Vec<(usize, usize)> = Vec::new();
    for n in 0..order.len()
        invariant
            views == dir_views(dirs@),
            is_byte_order(person_keys(views), order@),
            images_so_far(views, order@, n as int, list@),
    {
        let p: usize = order[n];
        assert(order@[n as int] < person_keys(views).len());
        let images = images_of_person(dirs, p);
        let ghost before = list@;
        let ghost placed = images@.map_values(|f: usize| (p, f));
        for k in 0..images.len()
            invariant
                placed == images@.map_values(|f: usize| (p, f)),
                list@ =~= before + placed.take(k as int),
        {
            list.push((p, images[k]));
        }
        proof {
            assert(list@ =~= before + images@.map_values(|f: usize| (order@[n as int], f)));
            lemma_next_person(views, order@, n as int, before, images@, list@);
        }
    }
    proof {
        assert(order@.take(order@.len() as int) =~= order@);
        assert forall|p: int, f: int| #[trigger] is_image_at(views, p, f) implies list@.contains(
            (p as usize, f as usize),
        ) by {
            assert(order@.contains(p as usize));
        }
    }
    list
}

/// There is only one list of the images.
pub proof fn law_image_list_is_unique(
    dirs: Seq<PersonDirView>,
    a: Seq<(usize, usize)>,
    b: Seq<(usize, usize)>,
)
    requires
        is_image_list(dirs, a),
        is_image_list(dirs, b),
    ensures
        a == b,
{
    if a.len() < b.len() {
        lemma_same_image(dirs, b, a, a.len() as int);
    }
    if b.len() < a.len() {
        lemma_same_image(dirs, a, b, b.len() as int);
    }
    assert forall|i: int| 0 <= i < a.len() implies a[i] == b[i] by {
        lemma_same_image(dirs, a, b, i);
    }
    assert(a =~= b);
}

proof fn lemma_same_image(
    dirs: Seq<PersonDirView>,
    a: Seq<(usize, usize)>,
    b: Seq<(usize, usize)>,
    i: int,
)
    requires
        is_image_list(dirs, a),
        is_image_list(dirs, b),
        0 <= i < a.len(),
    ensures
        i < b.len(),
        a[i] == b[i],
    decreases i,
{
    assert forall|k: int| 0 <= k < i implies k < b.len() && a[k] == b[k] by {
        lemma_same_image(dirs, a, b, k);
    }
    let x = a[i];
    assert(is_image_at(dirs, x.0 as int, x.1 as int));
    assert(b.contains((x.0 as int as usize, x.1 as int as usize)));
    let j = choose|j: int| 0 <= j < b.len() && b[j] == x;
    if j < i {
        assert(read_before(dirs, a[j], a[i]));
    } else if j > i {
        let y = b[i];
        assert(is_image_at(dirs, y.0 as int, y.1 as int));
        assert(a.contains((y.0 as int as usize, y.1 as int as usize)));
        let k = choose|k: int| 0 <= k < a.len() && a[k] == y;
        assert(read_before(dirs, b[i], b[j]));
        if k < i {
            assert(read_before(dirs, b[k], b[i]));
        } else if k > i {
            assert(read_before(dirs, a[i], a[k]));
        }
    }
}

/// The path of an image below the directory of known faces.
pub open spec fn image_path(person: Seq<char>, file: Seq<char>) -> Seq<char> {
    person + "/"@ + file
}

/// The path of an image below the directory of known faces.
pub fn sample_path(person: &str, file: &str) -> (res: String)
    ensures
        res@ == image_path(person@, file@),
{
    joined(joined(person, "/").as_str(), file)
}

/// Two images have one path only where they are of one person and have one name. The name of a person
/// is that of a directory and holds no slash.
pub proof fn law_paths_tell_images_apart(
    person1: Seq<char>,
    file1: Seq<char>,
    person2: Seq<char>,
    file2: Seq<char>,
)
    requires
        !person1.contains('/'),
        !person2.contains('/'),
        image_path(person1, file1) == image_path(person2, file2),
    ensures
        person1 == person2,
        file1 == file2,
{
    reveal_strlit("/");
    let s = image_path(person1, file1);
    let n1 = person1.len() as int;
    let n2 = person2.len() as int;
    assert(s[n1] == '/' && s[n2] == '/');
    if n1 < n2 {
        assert(s[n1] == person2[n1]);
        assert(person2.contains(person2[n1]));
    } else if n2 < n1 {
        assert(s[n2] == person1[n2]);
        assert(person1.contains(person1[n2]));
    }
    assert(person1 =~= s.take(n1));
    assert(person2 =~= s.take(n2));
    assert(file1 =~= s.skip(n1 + 1));
    assert(file2 =~= s.skip(n2 + 1));
}

/// The names of persons, and those of the files of each person, differ; no person has a slash in the
/// name.
pub open spec fn names_differ(dirs: Seq<PersonDirView>) -> bool {
    &&& forall|p: int, q: int|
        0 <= p < q < dirs.len() ==> (#[trigger] dirs[p]).name != (#[trigger] dirs[q]).name
    &&& forall|p: int, f: int, g: int|
        0 <= p < dirs.len() && 0 <= f < g < dirs[p].files.len() ==> (
        #[trigger] dirs[p].files[f]).1 != (#[trigger] dirs[p].files[g]).1
    &&& forall|p: int| 0 <= p < dirs.len() ==> !(#[trigger] dirs[p]).name.contains('/')
}

/// The path of the image at the positions `at`.
pub open spec fn path_at(dirs: Seq<PersonDirView>, at: (usize, usize)) -> Seq<char> {
    image_path(dirs[at.0 as int].name, dirs[at.0 as int].files[at.1 as int].1)
}

/// Where the names differ, all images of the list have different paths.
pub proof fn law_listed_paths_differ(
    dirs: Seq<PersonDirView>,
    list: Seq<(usize, usize)>,
    i: int,
    j: int,
)
    requires
        is_image_list(dirs, list),
        names_differ(dirs),
        0 <= i < j < list.len(),
    ensures
        path_at(dirs, list[i]) != path_at(dirs, list[j]),
{
    let a = list[i];
    let b = list[j];
    assert(read_before(dirs, a, b));
    assert(is_image_at(dirs, a.0 as int, a.1 as int));
    assert(is_image_at(dirs, b.0 as int, b.1 as int));
    if path_at(dirs, a) == path_at(dirs, b) {
        let d = dirs[a.0 as int];
        let e = dirs[b.0 as int];
        law_paths_tell_images_apart(
            d.name,
            d.files[a.1 as int].1,
            e.name,
            e.files[b.1 as int].1,
        );
        assert(a.0 == b.0);
        assert(a.1 != b.1);
        if a.1 < b.1 {
            assert(dirs[a.0 as int].files[a.1 as int].1 != dirs[a.0 as int].files[b.1 as int].1);
        } else {
            assert(dirs[a.0 as int].files[b.1 as int].1 != dirs[a.0 as int].files[a.1 as int].1);
        }
    }
}

/// The signature of a file: its size in bytes and when it was changed, in nanoseconds since the
/// epoch.
pub open spec fn signature_of(size: u64, modified: u128) -> Seq<char> {
    decimal(size as nat) + ":"@ + decimal(modified as nat)
}

/// The signature of a file.
pub fn file_signature(size: u64, modified: u128) -> (res: String)
    ensures
        res@ == signature_of(size, modified),
{
    joined(
        joined(decimal_text(size).as_str(), ":").as_str(),
        wide_decimal_text(modified).as_str(),
    )
}

/// Two files have one signature only where they have one size and were changed at one time.
pub proof fn law_signatures_tell_files_apart(size1: u64, modified1: u128, size2: u64, modified2: u128)
    requires
        signature_of(size1, modified1) == signature_of(size2, modified2),
    ensures
        size1 == size2,
        modified1 == modified2,
{
    reveal_strlit(":");
    let a1 = decimal(size1 as nat);
    let a2 = decimal(size2 as nat);
    let b1 = decimal(modified1 as nat);
    let b2 = decimal(modified2 as nat);
    law_decimal_read_back(size1 as nat);
    law_decimal_read_back(size2 as nat);
    law_decimal_read_back(modified1 as nat);
    law_decimal_read_back(modified2 as nat);
    let s = signature_of(size1, modified1);
    assert(s[a1.len() as int] == ':');
    assert(s[a2.len() as int] == ':');
    if a1.len() < a2.len() {
        assert(s[a1.len() as int] == a2[a1.len() as int]);
        assert(is_digit(a2[a1.len() as int]));
    } else if a2.len() < a1.len() {
        assert(s[a2.len() as int] == a1[a2.len() as int]);
        assert(is_digit(a1[a2.len() as int]));
    }
    assert(a1 =~= s.take(a1.len() as int));
    assert(a2 =~= s.take(a2.len() as int));
    assert(b1 =~= s.skip(a1.len() as int + 1));
    assert(b2 =~= s.skip(a2.len() as int + 1));
}

/// What to do with an image.
#[derive(Debug)]
pub enum ImagePlan {
    /// It is known to show no face.
    Skip,
    /// Its sample is in the cache. Where the entry gives none, read the image.
    UseCached(CacheEntry),
    /// Read it.
    Read,
}

/// The entry of the cache for an image that has not changed since.
pub open spec fn current_entry(
    cache: Map<Seq<char>, CacheEntryView>,
    path: Seq<char>,
    signature: Seq<char>,
) -> Option<CacheEntryView> {
    if cache.contains_key(path) && cache[path].signature == signature {
        Some(cache[path])
    } else {
        None
    }
}

/// Decides what to do with an image.
pub fn plan_image(cache: &CacheIndex, path: &str, signature: &str) -> (res: ImagePlan)
    requires
        cache.wf(),
    ensures
        match current_entry(cache@, path@, signature@) {
            None => res is Read,
            Some(e) => if e.no_face {
                res is Skip
            } else {
                res matches ImagePlan::UseCached(entry) && entry@ == e
            },
        },
{
    match cache.get(path) {
        None => ImagePlan::Read,
        Some(entry) => {
            if !same_text(entry.signature.as_str(), signature) {
                ImagePlan::Read
            } else if entry.no_face {
                ImagePlan::Skip
            } else {
                ImagePlan::UseCached(entry.clone())
            }
        },
    }
}

/// The sample that an entry of the cache gives for an image of a person.
pub open spec fn cached_sample(
    person: Seq<char>,
    entry: CacheEntryView,
    byte_count: Option<usize>,
) -> Option<KnownFaceSampleView> {
    match sample_of(entry, byte_count) {
        Ok(data) => Some(
            KnownFaceSampleView {
                name: person,
                path: entry.path,
                signature: entry.signature,
                rows: entry.rows,
                cols: entry.cols,
                mat_type: entry.mat_type,
                data,
            },
        ),
        Err(_) => None,
    }
}

/// Takes the sample of an image of a person from the cache. `byte_count` is how many bytes a matrix
/// of the entry's size and type has, where there is one.
pub fn take_cached_sample(person: &str, entry: CacheEntry, byte_count: Option<usize>) -> (res: Option<
    KnownFaceSample,
>)
    ensures
        match res {
            Some(sample) => cached_sample(person@, entry@, byte_count) == Some(sample@),
            None => cached_sample(person@, entry@, byte_count) is None,
        },
{
    match sample_from_cache_entry(&entry, byte_count) {
        Ok(data) => Some(
            KnownFaceSample {
                name: person.to_owned(),
                path: entry.path,
                signature: entry.signature,
                rows: entry.rows,
                cols: entry.cols,
                mat_type: entry.mat_type,
                data,
            },
        ),
        Err(_) => None,
    }
}

/// What came of looking for the sample of an image in the cache.
#[derive(Debug)]
pub enum ImageStep {
    /// The image is done with: its sample, where it shows a face.
    Done(Option<KnownFaceSample>),
    /// The image has to be read.
    Read,
}

/// Settles an image of a person by what is planned for it. `byte_count` is how many bytes a matrix of
/// the size and type of the planned entry has, where there is one.
pub fn settle_image(person: &str, plan: ImagePlan, byte_count: Option<usize>) -> (res: ImageStep)
    ensures
        match plan {
            ImagePlan::Skip => res == ImageStep::Done(None),
            ImagePlan::Read => res is Read,
            ImagePlan::UseCached(entry) => match cached_sample(person@, entry@, byte_count) {
                Some(sample) => res matches ImageStep::Done(Some(s)) && s@ == sample,
                None => res is Read,
            },
        },
{
    match plan {
        ImagePlan::Skip => ImageStep::Done(None),
        ImagePlan::Read => ImageStep::Read,
        ImagePlan::UseCached(entry) => match take_cached_sample(person, entry, byte_count) {
            Some(sample) => ImageStep::Done(Some(sample)),
            None => ImageStep::Read,
        },
    }
}

/// When samples have been written to the cache and read again, the entry of a sample is used for its
/// image as long as that does not change; and where the entry gives the data of the sample back, the
/// sample is the same one.
pub proof fn law_written_samples_are_used_again(
    samples: Seq<KnownFaceSampleView>,
    order: Seq<usize>,
    i: int,
)
    requires
        0 <= i < samples.len() <= usize::MAX,
        forall|j: int| 0 <= j < samples.len() && j != i ==> (#[trigger] samples[j]).path
            != samples[i].path,
        is_byte_order(path_bytes(entries_of(samples)), order),
    ensures
        current_entry(
            usable_entries(CACHE_VERSION, rearranged(entries_of(samples), order)),
            samples[i].path,
            samples[i].signature,
        ) == Some(entry_of(samples[i])),
        gives_back(entry_of(samples[i]), samples[i]) ==> cached_sample(
            samples[i].name,
            entry_of(samples[i]),
            Some(samples[i].data.len() as usize),
        ) == Some(samples[i]),
{
    let entries = entries_of(samples);
    let path = samples[i].path;
    law_saved_cache_is_read_back(entries, order);
    lemma_by_path(entries, path);
    assert(entries[i].path == path);
    let k = choose|k: int| #[trigger]
        last_of_path(entries, path, k) && by_path(entries)[path] == entries[k];
    assert(entries[k].path == samples[k].path);
}

/// Where the classifier is looked for: at the path that is asked for, where one is, then where
/// OpenCV is installed.
pub open spec fn cascade_places(asked_for: Seq<char>) -> Seq<Seq<char>> {
    (if trimmed(asked_for).len() == 0 {
        Seq::empty()
    } else {
        seq![trimmed(asked_for)]
    }) + seq![
        "/usr/share/opencv4/haarcascades/haarcascade_frontalface_default.xml"@,
        "/usr/share/opencv/haarcascades/haarcascade_frontalface_default.xml"@,
        "/usr/local/share/opencv4/haarcascades/haarcascade_frontalface_default.xml"@,
        "/usr/local/share/opencv/haarcascades/haarcascade_frontalface_default.xml"@,
    ]
}

/// Lists the places where the classifier is looked for.
pub fn cascade_candidates(override_path: &str) -> (res: Vec<String>)
    ensures
        text_views(res@) == cascade_places(override_path@),
{
    let mut places: Vec<String> = Vec::new();
    if !is_blank(override_path) {
        places.push(trim(override_path));
    }
    places.push("/usr/share/opencv4/haarcascades/haarcascade_frontalface_default.xml".to_owned());
    places.push("/usr/share/opencv/haarcascades/haarcascade_frontalface_default.xml".to_owned());
    places.push(
        "/usr/local/share/opencv4/haarcascades/haarcascade_frontalface_default.xml".to_owned(),
    );
    places.push(
        "/usr/local/share/opencv/haarcascades/haarcascade_frontalface_default.xml".to_owned(),
    );
    assert(text_views(places@) =~= cascade_places(override_path@));
    places
}

/// The place `i` is the first one where there is a file.
pub open spec fn is_first_present(places: Seq<(String, bool)>, i: int) -> bool {
    &&& 0 <= i < places.len()
    &&& places[i].1
    &&& forall|j: int| 0 <= j < i ==> !(#[trigger] places[j]).1
}

/// The first of some places where there is a file.
pub fn resolve_cascade_path(places: &Vec<(String, bool)>) -> (res: Option<String>)
    ensures
        match res {
            Some(path) => exists|i: int| #[trigger]
                is_first_present(places@, i) && places@[i].0@ == path@,
            None => forall|i: int| 0 <= i < places@.len() ==> !(#[trigger] places@[i]).1,
        },
{
    for i in 0..places.len()
        invariant
            forall|j: int| 0 <= j < i ==> !(#[trigger] places@[j]).1,
    {
        if places[i].1 {
            assert(is_first_present(places@, i as int));
            return Some(places[i].0.clone());
        }
    }
    None
}

/// Why the models could not be loaded.
#[derive(Debug)]
pub enum LoadError {
    /// There is no classifier.
    NoClassifier,
    /// The classifier cannot be read.
    Classifier(String),
    /// The known faces cannot be read.
    Samples(String),
}

/// What is said of an error.
pub open spec fn load_error_text(e: LoadError) -> Seq<char> {
    match e {
        LoadError::NoClassifier => "could not find haarcascade_frontalface_default.xml"@,
        LoadError::Classifier(reason) => "CascadeClassifier::new failed: "@ + reason@,
        LoadError::Samples(reason) => reason@,
    }
}

/// Says what went wrong.
pub fn describe_load_error(e: &LoadError) -> (res: String)
    ensures
        res@ == load_error_text(*e),
{
    match e {
        LoadError::NoClassifier => "could not find haarcascade_frontalface_default.xml".to_owned(),
        LoadError::Classifier(reason) => joined("CascadeClassifier::new failed: ", reason.as_str()),
        LoadError::Samples(reason) => reason.clone(),
    }
}

/// A file is an image exactly where its name, in lower case, ends with `.jpg`, `.jpeg` or `.png`.
pub proof fn law_names_of_images(lowered: Seq<char>, start: Seq<char>)
    ensures
        image_name(start + ".jpg"@),
        image_name(start + ".jpeg"@),
        image_name(start + ".png"@),
        image_name(lowered) ==> (exists|a: Seq<char>| lowered == #[trigger] (a + ".jpg"@)) || (exists|
            a: Seq<char>,
        | lowered == #[trigger] (a + ".jpeg"@)) || (exists|a: Seq<char>|
            lowered == #[trigger] (a + ".png"@)),
{
    law_texts_hold_their_parts(start, ".jpg"@, Seq::empty());
    law_texts_hold_their_parts(start, ".jpeg"@, Seq::empty());
    law_texts_hold_their_parts(start, ".png"@, Seq::empty());
    law_only_parts_are_held(lowered, ".jpg"@);
    law_only_parts_are_held(lowered, ".jpeg"@);
    law_only_parts_are_held(lowered, ".png"@);
}

/// The list of images holds every image of every person and nothing else; persons come in the order of
/// the bytes of their names, and the images of one person in the order of their raw names.
pub proof fn law_images_are_read_in_order(
    dirs: Seq<PersonDirView>,
    list: Seq<(usize, usize)>,
    i: int,
    j: int,
    p: usize,
    f: usize,
)
    requires
        is_image_list(dirs, list),
        0 <= i < j < list.len(),
    ensures
        list[i] != list[j],
        list[i].0 != list[j].0 ==> bytes_up_to(
            encode_utf8(dirs[list[i].0 as int].name),
            encode_utf8(dirs[list[j].0 as int].name),
        ),
        list[i].0 == list[j].0 ==> bytes_up_to(
            dirs[list[i].0 as int].files[list[i].1 as int].0,
            dirs[list[i].0 as int].files[list[j].1 as int].0,
        ),
        list.contains((p, f)) <==> p < dirs.len() && f < dirs[p as int].files.len() && image_name(
            lowercased(dirs[p as int].files[f as int].1),
        ),
{
    assert(read_before(dirs, list[i], list[j]));
    assert(is_image_at(dirs, list[i].0 as int, list[i].1 as int));
    assert(is_image_at(dirs, list[j].0 as int, list[j].1 as int));
    if list.contains((p, f)) {
        let k = choose|k: int| 0 <= k < list.len() && list[k] == (p, f);
        assert(is_image_at(dirs, list[k].0 as int, list[k].1 as int));
    }
    if p < dirs.len() && f < dirs[p as int].files.len() && image_name(
        lowercased(dirs[p as int].files[f as int].1),
    ) {
        assert(is_image_at(dirs, p as int, f as int));
        assert(list.contains((p as int as usize, f as int as usize)));
    }
}

/// The path of an image is the name of the person, a slash and the name of the file; the signature of a
/// file is its size, a colon and the time of its last change.
pub proof fn law_paths_and_signatures(
    person: Seq<char>,
    file: Seq<char>,
    size: u64,
    modified: u128,
)
    ensures
        image_path(person, file) == person + "/"@ + file,
        signature_of(size, modified) == decimal(size as nat) + ":"@ + decimal(modified as nat),
{
}

/// An entry of the cache is used for an image exactly where it stands at the path of the image and has
/// its signature.
pub proof fn law_entries_of_unchanged_images(
    cache: Map<Seq<char>, CacheEntryView>,
    path: Seq<char>,
    signature: Seq<char>,
)
    ensures
        cache.contains_key(path) && cache[path].signature == signature <==> current_entry(
            cache,
            path,
            signature,
        ) is Some,
        current_entry(cache, path, signature) matches Some(e) ==> e == cache[path],
{
}

/// The sample that an entry gives is one of the person, with the path, the signature, the size and the
/// type of the entry and the bytes that it gives; an entry that gives an error gives no sample.
pub proof fn law_sample_of_an_entry(
    person: Seq<char>,
    entry: CacheEntryView,
    byte_count: Option<usize>,
)
    ensures
        cached_sample(person, entry, byte_count) is Some <==> sample_of(entry, byte_count) is Ok,
        cached_sample(person, entry, byte_count) matches Some(sample) ==> {
            &&& sample.name == person
            &&& sample.path == entry.path
            &&& sample.signature == entry.signature
            &&& sample.rows == entry.rows
            &&& sample.cols == entry.cols
            &&& sample.mat_type == entry.mat_type
            &&& sample_of(entry, byte_count) == Ok::<Seq<u8>, CacheError>(sample.data)
        },
{
}

/// The classifier is looked for at the path that is asked for, without the white space around it, unless
/// it is blank; and then where OpenCV is installed, version 4 before the older one and below `/usr`
/// before below `/usr/local`.
pub proof fn law_places_of_the_classifier(asked_for: Seq<char>)
    ensures
        (exists|i: int| 0 <= i < asked_for.len() && !white_space(#[trigger] asked_for[i]))
            ==> cascade_places(asked_for) == seq![trimmed(asked_for)] + cascade_places(Seq::empty()),
        (forall|i: int| 0 <= i < asked_for.len() ==> white_space(#[trigger] asked_for[i]))
            ==> cascade_places(asked_for) == cascade_places(Seq::empty()),
        cascade_places(Seq::empty()).len() == 4,
        cascade_places(Seq::empty())[0]
            == "/usr/share/opencv4/haarcascades/haarcascade_frontalface_default.xml"@,
        cascade_places(Seq::empty())[1]
            == "/usr/share/opencv/haarcascades/haarcascade_frontalface_default.xml"@,
        cascade_places(Seq::empty())[2]
            == "/usr/local/share/opencv4/haarcascades/haarcascade_frontalface_default.xml"@,
        cascade_places(Seq::empty())[3]
            == "/usr/local/share/opencv/haarcascades/haarcascade_frontalface_default.xml"@,
{
    law_trimming_takes_the_white_space_off(asked_for);
    law_trimming_takes_the_white_space_off(Seq::empty());
    assert(cascade_places(asked_for) =~= (if trimmed(asked_for).len() == 0 {
        Seq::empty()
    } else {
        seq![trimmed(asked_for)]
    }) + cascade_places(Seq::empty()));
}

/// The place of the classifier is the first one where there is a file.
pub proof fn law_first_place_with_a_file(places: Seq<(String, bool)>, i: int, j: int)
    requires
        is_first_present(places, i),
        0 <= j < places.len(),
        places[j].1,
    ensures
        0 <= i <= j,
        places[i].1,
{
}

/// What is said of an error names the classifier or gives the reason.
pub proof fn law_errors_are_told(e: LoadError)
    ensures
        e is NoClassifier ==> load_error_text(e)
            == "could not find haarcascade_frontalface_default.xml"@,
        e matches LoadError::Classifier(reason) ==> load_error_text(e)
            == "CascadeClassifier::new failed: "@ + reason@,
        e matches LoadError::Samples(reason) ==> load_error_text(e) == reason@,
{
}

/// What is said of the directory of a person is what it holds, file by file.
pub proof fn law_view_of_a_directory(d: PersonDir, i: int)
    ensures
        d@.name == d.name@,
        d@.files.len() == d.files@.len(),
        0 <= i < d.files@.len() ==> d@.files[i].0 == d.files@[i].0@ && d@.files[i].1 == d.files@[i].1@,
{
}

} // verus!
