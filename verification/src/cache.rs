//! The cache of known face samples: what is written to a file so that a sample need not be computed
//! from its image again.

use base64::engine::general_purpose::STANDARD as BASE64;
use base64::{DecodeError, Engine as _};
use vstd::prelude::*;
use vstd::utf8::encode_utf8;

use crate::ordering::{
    byte_order, byte_views, bytes_come_first, bytes_up_to, is_byte_order, rearranged,
};
use crate::text::same_text;

verus! {

/// The version of the cache. One of another version is not used.
pub const CACHE_VERSION: u32 = 1;

/// An error of [`base64`] in decoding.
#[verifier::external_type_specification]
#[verifier::external_body]
pub struct ExDecodeError(DecodeError);

/// Bytes in base64, as `base64::engine::general_purpose::STANDARD` encodes them.
pub uninterp spec fn base64_text(data: Seq<u8>) -> Seq<char>;

/// The bytes of a text in base64, as `base64::engine::general_purpose::STANDARD` decodes it; none
/// where it refuses the text.
pub uninterp spec fn base64_bytes(text: Seq<char>) -> Option<Seq<u8>>;

/// The length of bytes in base64: four characters for every three bytes, the last ones filled up.
pub open spec fn base64_len(bytes: int) -> int {
    4 * ((bytes + 2) / 3)
}

/// `Engine::encode` of the engine `STANDARD` of base64: its result is a function of the bytes, has
/// four characters for every three bytes, and decodes to the bytes. It panics where the result does
/// not fit into memory.
#[verifier::external_body]
fn base64_encode(data: &Vec<u8>) -> (res: String)
    requires
        base64_len(data@.len() as int) <= isize::MAX,
    ensures
        res@ == base64_text(data@),
        res@.len() == base64_len(data@.len() as int),
        base64_bytes(res@) == Some(data@),
{
    BASE64.encode(data)
}

/// `Engine::decode` of the engine `STANDARD` of base64: whether it decodes a text, and to which
/// bytes, is a function of the text.
#[verifier::external_body]
fn base64_decode(text: &str) -> (res: Result<Vec<u8>, DecodeError>)
    ensures
        match res {
            Ok(data) => base64_bytes(text@) == Some(data@),
            Err(_) => base64_bytes(text@) is None,
        },
{
    BASE64.decode(text)
}

/// A sample in the cache.
#[derive(Debug)]
pub struct CacheEntry {
    pub path: String,
    pub signature: String,
    pub no_face: bool,
    pub rows: i32,
    pub cols: i32,
    pub mat_type: i32,
    pub data: String,
}

/// What a [`CacheEntry`] says.
#[verifier::ext_equal]
pub struct CacheEntryView {
    pub path: Seq<char>,
    pub signature: Seq<char>,
    pub no_face: bool,
    pub rows: i32,
    pub cols: i32,
    pub mat_type: i32,
    pub data: Seq<char>,
}

impl View for CacheEntry {
    type V = CacheEntryView;

    open spec fn view(&self) -> CacheEntryView {
        CacheEntryView {
            path: self.path@,
            signature: self.signature@,
            no_face: self.no_face,
            rows: self.rows,
            cols: self.cols,
            mat_type: self.mat_type,
            data: self.data@,
        }
    }
}

impl Clone for CacheEntry {
    fn clone(&self) -> (res: CacheEntry)
        ensures
            res@ == self@,
    {
        CacheEntry {
            path: self.path.clone(),
            signature: self.signature.clone(),
            no_face: self.no_face,
            rows: self.rows,
            cols: self.cols,
            mat_type: self.mat_type,
            data: self.data.clone(),
        }
    }
}

/// The views of entries.
pub open spec fn entry_views(s: Seq<CacheEntry>) -> Seq<CacheEntryView> {
    s.map_values(|e: CacheEntry| e@)
}

/// A cache as it stands in its file.
#[derive(Debug)]
pub struct FaceCache {
    pub version: u32,
    pub entries: Vec<CacheEntry>,
}

/// A known face: who it is, from which image it comes, and the bytes of its normalized matrix.
#[derive(Debug)]
pub struct KnownFaceSample {
    pub name: String,
    /// The path of the image below the directory of known faces.
    pub path: String,
    /// What tells whether the image has changed.
    pub signature: String,
    pub rows: i32,
    pub cols: i32,
    pub mat_type: i32,
    pub data: Vec<u8>,
}

/// What a [`KnownFaceSample`] says.
#[verifier::ext_equal]
pub struct KnownFaceSampleView {
    pub name: Seq<char>,
    pub path: Seq<char>,
    pub signature: Seq<char>,
    pub rows: i32,
    pub cols: i32,
    pub mat_type: i32,
    pub data: Seq<u8>,
}

impl View for KnownFaceSample {
    type V = KnownFaceSampleView;

    open spec fn view(&self) -> KnownFaceSampleView {
        KnownFaceSampleView {
            name: self.name@,
            path: self.path@,
            signature: self.signature@,
            rows: self.rows,
            cols: self.cols,
            mat_type: self.mat_type,
            data: self.data@,
        }
    }
}

/// The views of samples.
pub open spec fn sample_views(s: Seq<KnownFaceSample>) -> Seq<KnownFaceSampleView> {
    s.map_values(|k: KnownFaceSample| k@)
}

/// The entry of a sample.
pub open spec fn entry_of(sample: KnownFaceSampleView) -> CacheEntryView {
    CacheEntryView {
        path: sample.path,
        signature: sample.signature,
        no_face: false,
        rows: sample.rows,
        cols: sample.cols,
        mat_type: sample.mat_type,
        data: base64_text(sample.data),
    }
}

/// The entry gives the matrix of the sample back: its size, its type and its bytes.
pub open spec fn gives_back(entry: CacheEntryView, sample: KnownFaceSampleView) -> bool {
    &&& entry.rows == sample.rows
    &&& entry.cols == sample.cols
    &&& entry.mat_type == sample.mat_type
    &&& sample_of(entry, Some(sample.data.len() as usize)) == Ok::<Seq<u8>, CacheError>(sample.data)
}

/// The matrix of the sample has a size and data.
pub open spec fn has_matrix(sample: KnownFaceSampleView) -> bool {
    sample.rows > 0 && sample.cols > 0 && sample.data.len() > 0
}

/// Makes the entry of a sample. Where its matrix has a size and data, the entry gives the same matrix
/// back.
pub fn sample_to_cache_entry(sample: &KnownFaceSample) -> (res: CacheEntry)
    requires
        base64_len(sample.data@.len() as int) <= isize::MAX,
    ensures
        res@ == entry_of(sample@),
        has_matrix(sample@) ==> gives_back(res@, sample@),
{
    CacheEntry {
        path: sample.path.clone(),
        signature: sample.signature.clone(),
        no_face: false,
        rows: sample.rows,
        cols: sample.cols,
        mat_type: sample.mat_type,
        data: base64_encode(&sample.data),
    }
}

/// Why an entry gives no sample.
#[derive(Clone, Copy, Debug, PartialEq, Eq, Structural)]
pub enum CacheError {
    /// It has no size or no data.
    InvalidEntry,
    /// Its data is not base64.
    InvalidData,
    /// There is no matrix of its size and type.
    NoMatrix,
    /// Its data has another number of bytes than the matrix.
    ByteCount { found: usize, expected: usize },
}

/// The bytes of a matrix that has `byte_count` bytes, where there is one, by what was decoded.
pub open spec fn matrix_bytes(decoded: Option<Seq<u8>>, byte_count: Option<usize>) -> Result<
    Seq<u8>,
    CacheError,
> {
    match decoded {
        None => Err(CacheError::InvalidData),
        Some(bytes) => match byte_count {
            None => Err(CacheError::NoMatrix),
            Some(n) => if n == bytes.len() {
                Ok(bytes)
            } else {
                Err(CacheError::ByteCount { found: bytes.len() as usize, expected: n })
            },
        },
    }
}

/// Checks the bytes that were decoded for a matrix of `byte_count` bytes.
pub fn check_matrix_bytes(decoded: Option<Vec<u8>>, byte_count: Option<usize>) -> (res: Result<
    Vec<u8>,
    CacheError,
>)
    ensures
        match res {
            Ok(bytes) => decoded is Some && matrix_bytes(Some(decoded->0@), byte_count) == Ok::<
                Seq<u8>,
                CacheError,
            >(bytes@),
            Err(e) => matrix_bytes(
                match decoded {
                    Some(d) => Some(d@),
                    None => None,
                },
                byte_count,
            ) == Err::<Seq<u8>, CacheError>(e),
        },
{
    match decoded {
        None => Err(CacheError::InvalidData),
        Some(bytes) => match byte_count {
            None => Err(CacheError::NoMatrix),
            Some(n) => {
                if n == bytes.len() {
                    Ok(bytes)
                } else {
                    Err(CacheError::ByteCount { found: bytes.len(), expected: n })
                }
            },
        },
    }
}

/// The bytes of the matrix of an entry. `byte_count` is how many bytes a matrix of the entry's size
/// and type has, where there is one.
pub open spec fn sample_of(entry: CacheEntryView, byte_count: Option<usize>) -> Result<
    Seq<u8>,
    CacheError,
> {
    if entry.rows <= 0 || entry.cols <= 0 || entry.data.len() == 0 {
        Err(CacheError::InvalidEntry)
    } else {
        matrix_bytes(base64_bytes(entry.data), byte_count)
    }
}

/// Reads the bytes of the matrix of an entry.
pub fn sample_from_cache_entry(entry: &CacheEntry, byte_count: Option<usize>) -> (res: Result<
    Vec<u8>,
    CacheError,
>)
    ensures
        match res {
            Ok(bytes) => sample_of(entry@, byte_count) == Ok::<Seq<u8>, CacheError>(bytes@),
            Err(e) => sample_of(entry@, byte_count) == Err::<Seq<u8>, CacheError>(e),
        },
{
    if entry.rows <= 0 || entry.cols <= 0 || entry.data.as_str().is_empty() {
        return Err(CacheError::InvalidEntry);
    }
    let decoded = match base64_decode(entry.data.as_str()) {
        Ok(bytes) => Some(bytes),
        Err(_) => None,
    };
    check_matrix_bytes(decoded, byte_count)
}

/// An entry gives a matrix only where it has a size, and data that is base64 of as many bytes as the
/// matrix has. An entry in which any of this was spoilt gives an error.
pub proof fn law_only_whole_entries_give_a_matrix(entry: CacheEntryView, byte_count: Option<usize>)
    ensures
        entry.rows <= 0 || entry.cols <= 0 || entry.data.len() == 0 ==> sample_of(entry, byte_count)
            == Err::<Seq<u8>, CacheError>(CacheError::InvalidEntry),
        base64_bytes(entry.data) is None ==> sample_of(entry, byte_count) is Err,
        base64_bytes(entry.data) matches Some(bytes) && (byte_count is None || byte_count->0
            != bytes.len()) ==> sample_of(entry, byte_count) is Err,
        sample_of(entry, byte_count) matches Ok(bytes) ==> entry.rows > 0 && entry.cols > 0
            && base64_bytes(entry.data) == Some(bytes) && byte_count is Some && byte_count->0
            == bytes.len(),
{
}

/// The entries of samples, one after the other.
pub open spec fn entries_of(samples: Seq<KnownFaceSampleView>) -> Seq<CacheEntryView> {
    samples.map_values(|k: KnownFaceSampleView| entry_of(k))
}

/// Makes the entries of samples. Each gives the matrix of its sample back, as above.
pub fn cache_entries(samples: &Vec<KnownFaceSample>) -> (res: Vec<CacheEntry>)
    requires
        forall|i: int|
            0 <= i < samples@.len() ==> base64_len((#[trigger] samples@[i]).data@.len() as int)
                <= isize::MAX,
    ensures
        entry_views(res@) == entries_of(sample_views(samples@)),
        forall|i: int|
            0 <= i < samples@.len() && has_matrix((#[trigger] samples@[i])@) ==> gives_back(
                entry_of(samples@[i]@),
                samples@[i]@,
            ),
{
    let ghost views = sample_views(samples@);
    let mut entries: Vec<CacheEntry> = Vec::new();
    for i in 0..samples.len()
        invariant
            views == sample_views(samples@),
            forall|i: int|
                0 <= i < samples@.len() ==> base64_len((#[trigger] samples@[i]).data@.len() as int)
                    <= isize::MAX,
            entry_views(entries@) =~= entries_of(views.take(i as int)),
            forall|j: int|
                0 <= j < i && has_matrix((#[trigger] samples@[j])@) ==> gives_back(
                    entry_of(samples@[j]@),
                    samples@[j]@,
                ),
    {
        let ghost before = entries@;
        assert(base64_len(samples@[i as int].data@.len() as int) <= isize::MAX);
        entries.push(sample_to_cache_entry(&samples[i]));
        assert(entry_views(entries@) =~= entry_views(before).push(entry_of(views[i as int])));
        assert(entries_of(views.take(i + 1)) =~= entries_of(views.take(i as int)).push(
            entry_of(views[i as int]),
        ));
    }
    assert(views.take(samples@.len() as int) =~= views);
    entries
}

/// The bytes of the paths of entries.
pub open spec fn path_bytes(entries: Seq<CacheEntryView>) -> Seq<Seq<u8>> {
    entries.map_values(|e: CacheEntryView| encode_utf8(e.path))
}

/// Makes the cache to write: the entries in the order of their paths.
pub fn save_face_cache(entries: &Vec<CacheEntry>) -> (res: FaceCache)
    ensures
        res.version == CACHE_VERSION,
        exists|order: Seq<usize>| #[trigger]
            is_byte_order(path_bytes(entry_views(entries@)), order) && entry_views(res.entries@)
                == rearranged(entry_views(entries@), order),
{
    let ghost views = entry_views(entries@);
    let mut keys: Vec<Vec<u8>> = Vec::new();
    for i in 0..entries.len()
        invariant
            views == entry_views(entries@),
            byte_views(keys@) =~= path_bytes(views).take(i as int),
    {
        let ghost before = keys@;
        keys.push(vstd::slice::slice_to_vec(entries[i].path.as_str().as_bytes()));
        assert(byte_views(keys@) =~= byte_views(before).push(encode_utf8(views[i as int].path)));
    }
    assert(byte_views(keys@) =~= path_bytes(views));
    let order = byte_order(&keys);
    let mut sorted: Vec<CacheEntry> = Vec::new();
    for i in 0..order.len()
        invariant
            views == entry_views(entries@),
            views.len() == entries@.len(),
            is_byte_order(path_bytes(views), order@),
            entry_views(sorted@) =~= rearranged(views, order@.take(i as int)),
    {
        assert(order@[i as int] < path_bytes(views).len());
        let ghost before = sorted@;
        sorted.push(entries[order[i]].clone());
        assert(entry_views(sorted@) =~= entry_views(before).push(views[order@[i as int] as int]));
        assert(rearranged(views, order@.take(i + 1)) =~= rearranged(
            views,
            order@.take(i as int),
        ).push(views[order@[i as int] as int]));
    }
    assert(order@.take(order@.len() as int) =~= order@);
    FaceCache { version: CACHE_VERSION, entries: sorted }
}

/// The entries by their paths; of several entries of one path the last one.
pub open spec fn by_path(entries: Seq<CacheEntryView>) -> Map<Seq<char>, CacheEntryView>
    decreases entries.len(),
{
    if entries.len() == 0 {
        Map::empty()
    } else {
        by_path(entries.drop_last()).insert(entries.last().path, entries.last())
    }
}

/// Entries to look up by their paths.
#[derive(Debug)]
pub struct CacheIndex {
    /// No two of them have one path.
    pub entries: Vec<CacheEntry>,
}

/// No two entries have one path.
pub open spec fn paths_differ(entries: Seq<CacheEntryView>) -> bool {
    forall|i: int, j: int|
        0 <= i < j < entries.len() ==> (#[trigger] entries[i]).path != (#[trigger] entries[j]).path
}

impl View for CacheIndex {
    type V = Map<Seq<char>, CacheEntryView>;

    open spec fn view(&self) -> Map<Seq<char>, CacheEntryView> {
        by_path(entry_views(self.entries@))
    }
}

/// What stands at a path: the last entry of the path.
pub proof fn lemma_by_path(entries: Seq<CacheEntryView>, path: Seq<char>)
    ensures
        by_path(entries).contains_key(path) <==> exists|i: int|
            0 <= i < entries.len() && (#[trigger] entries[i]).path == path,
        by_path(entries).contains_key(path) ==> exists|i: int|
            #[trigger] last_of_path(entries, path, i) && by_path(entries)[path] == entries[i],
    decreases entries.len(),
{
    if entries.len() > 0 {
        let front = entries.drop_last();
        lemma_by_path(front, path);
        if entries.last().path == path {
            assert(entries[entries.len() - 1].path == path);
            assert(last_of_path(entries, path, entries.len() - 1));
        } else if by_path(front).contains_key(path) {
            let i = choose|i: int| #[trigger]
                last_of_path(front, path, i) && by_path(front)[path] == front[i];
            assert(entries[i] == front[i]);
            assert(last_of_path(entries, path, i)) by {
                assert forall|j: int| i < j < entries.len() implies (#[trigger] entries[j]).path
                    != path by {
                    if j < front.len() {
                        assert(front[j].path != path);
                    }
                }
            }
        } else if exists|i: int| 0 <= i < entries.len() && (#[trigger] entries[i]).path == path {
            let i = choose|i: int| 0 <= i < entries.len() && (#[trigger] entries[i]).path == path;
            assert(front[i].path == path);
        }
    }
}

/// The entry `i` is the last one of the path.
pub open spec fn last_of_path(entries: Seq<CacheEntryView>, path: Seq<char>, i: int) -> bool {
    &&& 0 <= i < entries.len()
    &&& entries[i].path == path
    &&& forall|j: int| i < j < entries.len() ==> (#[trigger] entries[j]).path != path
}

impl CacheIndex {
    /// No two entries have one path.
    pub open spec fn wf(&self) -> bool {
        paths_differ(entry_views(self.entries@))
    }

    /// An index without entries.
    pub fn new() -> (res: CacheIndex)
        ensures
            res.wf(),
            res@ == Map::<Seq<char>, CacheEntryView>::empty(),
    {
        CacheIndex { entries: Vec::new() }
    }

    /// Puts an entry in, in place of the one of the same path.
    pub fn insert(&mut self, entry: CacheEntry)
        requires
            old(self).wf(),
        ensures
            final(self).wf(),
            final(self)@ == old(self)@.insert(entry@.path, entry@),
    {
        let ghost views = entry_views(self.entries@);
        let mut i: usize = 0;
        while i < self.entries.len() && !same_text(
            self.entries[i].path.as_str(),
            entry.path.as_str(),
        )
            invariant
                views == entry_views(self.entries@),
                self.entries@ == old(self).entries@,
                i <= self.entries@.len(),
                forall|j: int| 0 <= j < i ==> (#[trigger] views[j]).path != entry@.path,
            decreases self.entries@.len() - i,
        {
            assert(views[i as int].path == self.entries@[i as int].path@);
            i = i + 1;
        }
        let ghost e = entry@;
        if i < self.entries.len() {
            assert(views[i as int].path == e.path);
            self.entries.set(i, entry);
            let ghost after = entry_views(self.entries@);
            proof {
                assert(after =~= views.update(i as int, e));
                lemma_replaced(views, i as int, e);
            }
        } else {
            self.entries.push(entry);
            let ghost after = entry_views(self.entries@);
            proof {
                assert(after =~= views.push(e));
                assert(after.drop_last() =~= views);
            }
        }
    }

    /// Looks an entry up.
    pub fn get(&self, path: &str) -> (res: Option<&CacheEntry>)
        requires
            self.wf(),
        ensures
            match res {
                Some(e) => self@.contains_key(path@) && self@[path@] == e@,
                None => !self@.contains_key(path@),
            },
    {
        let ghost views = entry_views(self.entries@);
        for i in 0..self.entries.len()
            invariant
                views == entry_views(self.entries@),
                paths_differ(views),
                self@ == by_path(views),
                forall|j: int| 0 <= j < i ==> (#[trigger] views[j]).path != path@,
        {
            assert(views[i as int] == self.entries@[i as int]@);
            if same_text(self.entries[i].path.as_str(), path) {
                proof {
                    lemma_by_path(views, path@);
                    let k = choose|k: int| #[trigger]
                        last_of_path(views, path@, k) && by_path(views)[path@] == views[k];
                    assert(views[k].path == views[i as int].path);
                }
                return Some(&self.entries[i]);
            }
        }
        proof {
            lemma_by_path(views, path@);
        }
        None
    }
}

/// Replacing the only entry of a path is putting the new one in.
proof fn lemma_replaced(entries: Seq<CacheEntryView>, i: int, e: CacheEntryView)
    requires
        paths_differ(entries),
        0 <= i < entries.len(),
        entries[i].path == e.path,
    ensures
        paths_differ(entries.update(i, e)),
        by_path(entries.update(i, e)) == by_path(entries).insert(e.path, e),
{
    let after = entries.update(i, e);
    assert forall|a: int, b: int| 0 <= a < b < after.len() implies (#[trigger] after[a]).path != (
    #[trigger] after[b]).path by {
        assert(entries[a].path != entries[b].path);
    }
    let m = by_path(after);
    let n = by_path(entries).insert(e.path, e);
    assert forall|p: Seq<char>| #[trigger]
        m.dom().contains(p) == n.dom().contains(p) && (m.dom().contains(p) ==> m[p] == n[p]) by {
        lemma_by_path(after, p);
        lemma_by_path(entries, p);
        assert(after[i].path == e.path);
        if m.contains_key(p) {
            let k = choose|k: int| #[trigger] last_of_path(after, p, k) && m[p] == after[k];
            if k != i {
                assert(entries[k].path == p);
            }
            if p == e.path {
                if k != i {
                    assert(after[k].path != after[i].path);
                }
            } else {
                assert(by_path(entries).contains_key(p));
                let l = choose|l: int| #[trigger]
                    last_of_path(entries, p, l) && by_path(entries)[p] == entries[l];
                if l != k {
                    assert(entries[l].path != entries[k].path);
                }
            }
        }
        if n.contains_key(p) && p != e.path {
            let l = choose|l: int| 0 <= l < entries.len() && (#[trigger] entries[l]).path == p;
            assert(after[l].path == p);
        }
    }
    assert(m =~= n);
}

/// The entries of a cache that was read from its file; none where it is of another version.
pub open spec fn usable_entries(version: u32, entries: Seq<CacheEntryView>) -> Map<
    Seq<char>,
    CacheEntryView,
> {
    if version == CACHE_VERSION {
        by_path(entries)
    } else {
        Map::empty()
    }
}

/// Takes over a cache that was read from its file.
pub fn load_face_cache(cache: FaceCache) -> (res: CacheIndex)
    ensures
        res.wf(),
        res@ == usable_entries(cache.version, entry_views(cache.entries@)),
{
    let mut index = CacheIndex::new();
    if cache.version != CACHE_VERSION {
        return index;
    }
    let ghost all = cache.entries@;
    let ghost views = entry_views(all);
    for e in it: cache.entries
        invariant
            it.seq() == all,
            views == entry_views(all),
            index.wf(),
            index@ == by_path(views.take(it.index())),
    {
        proof {
            let k = it.index();
            assert(views[k] == e@);
            assert(views.take(k + 1).drop_last() =~= views.take(k));
        }
        index.insert(e);
    }
    assert(views.take(views.len() as int) =~= views);
    index
}

/// A cache that was written is read back: the entries have the same paths, in whatever order they
/// were written.
pub proof fn law_saved_cache_is_read_back(entries: Seq<CacheEntryView>, order: Seq<usize>)
    requires
        is_byte_order(path_bytes(entries), order),
        entries.len() <= usize::MAX,
    ensures
        usable_entries(CACHE_VERSION, rearranged(entries, order)) == usable_entries(
            CACHE_VERSION,
            entries,
        ),
{
    let keys = path_bytes(entries);
    let sorted = rearranged(entries, order);
    let m = by_path(sorted);
    let n = by_path(entries);
    assert forall|p: Seq<char>| #[trigger]
        m.dom().contains(p) == n.dom().contains(p) && (m.dom().contains(p) ==> m[p] == n[p]) by {
        lemma_by_path(sorted, p);
        lemma_by_path(entries, p);
        if n.contains_key(p) {
            let l = choose|l: int| #[trigger] last_of_path(entries, p, l) && n[p] == entries[l];
            assert(order.contains(l as usize));
            let k = choose|k: int| 0 <= k < order.len() && order[k] == l;
            assert(sorted[k] == entries[l]);
            assert(last_of_path(sorted, p, k)) by {
                assert forall|j: int| k < j < sorted.len() implies (#[trigger] sorted[j]).path
                    != p by {
                    let o = order[j] as int;
                    assert(sorted[j] == entries[o]);
                    if entries[o].path == p {
                        assert(keys[o] == keys[l]);
                        assert(bytes_come_first(keys, order[k] as int, order[j] as int));
                        lemma_bytes_reflexive(keys[l]);
                        assert(o > l);
                    }
                }
            }
            assert(m.contains_key(p));
            let i = choose|i: int| #[trigger] last_of_path(sorted, p, i) && m[p] == sorted[i];
            if i < k {
                assert(sorted[k].path != p);
            } else if i > k {
                assert(sorted[i].path != p);
            }
        }
        if m.contains_key(p) {
            let i = choose|i: int| 0 <= i < sorted.len() && (#[trigger] sorted[i]).path == p;
            assert(order[i] < keys.len());
            assert(sorted[i] == entries[order[i] as int]);
        }
    }
    assert(m =~= n);
}

/// A byte string sorts equal to itself.
proof fn lemma_bytes_reflexive(a: Seq<u8>)
    ensures
        bytes_up_to(a, a),
    decreases a.len(),
{
    if a.len() > 0 {
        lemma_bytes_reflexive(a.drop_first());
    }
}

/// The entry of a sample tells its path, its signature, the size and the type of its matrix and, in
/// base64, the bytes; it is one of a face.
pub proof fn law_entry_of_a_sample(sample: KnownFaceSampleView)
    ensures
        entry_of(sample).path == sample.path,
        entry_of(sample).signature == sample.signature,
        !entry_of(sample).no_face,
        entry_of(sample).rows == sample.rows,
        entry_of(sample).cols == sample.cols,
        entry_of(sample).mat_type == sample.mat_type,
        entry_of(sample).data == base64_text(sample.data),
        has_matrix(sample) <==> sample.rows > 0 && sample.cols > 0 && sample.data.len() > 0,
{
}

/// Every sample has its entry, in the order of the samples.
pub proof fn law_every_sample_has_an_entry(samples: Seq<KnownFaceSampleView>, i: int)
    requires
        0 <= i < samples.len(),
    ensures
        entries_of(samples).len() == samples.len(),
        entries_of(samples)[i].path == samples[i].path,
        entries_of(samples)[i].signature == samples[i].signature,
        entries_of(samples)[i].data == base64_text(samples[i].data),
        path_bytes(entries_of(samples)).len() == samples.len(),
        path_bytes(entries_of(samples))[i] == encode_utf8(samples[i].path),
{
}

/// The bytes of an entry are those that its data decodes to, as they are; an entry without a size or
/// without data, with data that is not base64, without a matrix, or with another number of bytes than
/// the matrix, gives the error that tells so.
pub proof fn law_what_an_entry_gives(entry: CacheEntryView, bytes: Seq<u8>, byte_count: usize)
    requires
        entry.rows > 0,
        entry.cols > 0,
        entry.data.len() > 0,
        bytes.len() <= usize::MAX,
    ensures
        base64_bytes(entry.data) == Some(bytes) && byte_count == bytes.len() ==> sample_of(
            entry,
            Some(byte_count),
        ) == Ok::<Seq<u8>, CacheError>(bytes),
        base64_bytes(entry.data) == Some(bytes) && byte_count != bytes.len() ==> sample_of(
            entry,
            Some(byte_count),
        ) == Err::<Seq<u8>, CacheError>(
            CacheError::ByteCount { found: bytes.len() as usize, expected: byte_count },
        ),
        base64_bytes(entry.data) == Some(bytes) ==> sample_of(entry, None) == Err::<
            Seq<u8>,
            CacheError,
        >(CacheError::NoMatrix),
        base64_bytes(entry.data) is None ==> sample_of(entry, Some(byte_count)) == Err::<
            Seq<u8>,
            CacheError,
        >(CacheError::InvalidData),
{
}

/// A cache of the version 1 is used: at the path of an entry stands the last entry of that path, and
/// nothing stands elsewhere. A cache of another version is not used.
pub proof fn law_last_entry_of_a_path_is_used(
    version: u32,
    entries: Seq<CacheEntryView>,
    i: int,
    path: Seq<char>,
)
    ensures
        version == 1 && 0 <= i < entries.len() && entries[i].path == path && (forall|j: int|
            i < j < entries.len() ==> (#[trigger] entries[j]).path != path) ==> usable_entries(
            version,
            entries,
        ).contains_key(path) && usable_entries(version, entries)[path] == entries[i],
        (forall|j: int| 0 <= j < entries.len() ==> (#[trigger] entries[j]).path != path)
            ==> !usable_entries(version, entries).contains_key(path),
        version != 1 ==> !usable_entries(version, entries).contains_key(path),
{
    lemma_by_path(entries, path);
    if 0 <= i < entries.len() && entries[i].path == path && (forall|j: int|
        i < j < entries.len() ==> (#[trigger] entries[j]).path != path) {
        assert(by_path(entries).contains_key(path));
        let k = choose|k: int| #[trigger]
            last_of_path(entries, path, k) && by_path(entries)[path] == entries[k];
        if k < i {
            assert(entries[i].path != path);
        }
        if i < k {
            assert(entries[k].path != path);
        }
    }
}

/// What is said of entries and samples is what they hold.
pub proof fn law_views_of_entries_and_samples(e: CacheEntry, k: KnownFaceSample)
    ensures
        e@.path == e.path@,
        e@.signature == e.signature@,
        e@.no_face == e.no_face,
        e@.rows == e.rows,
        e@.cols == e.cols,
        e@.mat_type == e.mat_type,
        e@.data == e.data@,
        k@.name == k.name@,
        k@.path == k.path@,
        k@.signature == k.signature@,
        k@.rows == k.rows,
        k@.cols == k.cols,
        k@.mat_type == k.mat_type,
        k@.data == k.data@,
{
}

} // verus!
