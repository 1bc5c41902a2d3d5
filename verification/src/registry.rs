use vstd::prelude::*;

use crate::errors::IdFault;
use crate::errors::NoteError;
use crate::store::NoteMetadata;
use crate::strings::chars_eq;
use crate::strings::from_char_vec;
use crate::strings::hex_str;
use crate::strings::push_hex;
use crate::strings::starts_with_spec;
use crate::strings::starts_with_vec;
use crate::strings::to_char_vec;
use crate::strings::trim_chars;
use crate::strings::trim_spec;
use crate::watcher::DebounceTable;
use vstd::string::StringSliceAdditionalSpecFns;

verus! {

// ---------------------------------------------------------------------------
// Per-folder state and the registry of open folders.
//
// Each open root directory owns one `FolderState`: its metadata cache, the
// availability of its search index, its watcher bookkeeping.  The registry
// maps canonical folder keys to their states; folders are fully isolated
// from one another.
// ---------------------------------------------------------------------------

/// The search index's lifecycle for one folder.  `Absent` is the initial
/// and fallback state, which every command tolerates; `Building` is the
/// transient state of a full rebuild; `Ready` serves queries and
/// incremental updates.
#[derive(Clone, Copy, Debug, PartialEq, Eq, Structural)]
pub enum IndexState {
    Absent,
    Building,
    Ready,
}

/// No two cached notes share an identifier.
pub open spec fn cache_ids_unique(c: Seq<NoteMetadata>) -> bool {
    forall|i: int, j: int| 0 <= i < j < c.len() ==> c[i].id@ != c[j].id@
}

/// The cache without the given identifier.
pub open spec fn remove_id(c: Seq<NoteMetadata>, id: Seq<char>) -> Seq<NoteMetadata>
    decreases c.len(),
{
    if c.len() == 0 {
        c
    } else {
        let pre = remove_id(c.drop_last(), id);
        if c.last().id@ == id {
            pre
        } else {
            pre.push(c.last())
        }
    }
}

/// The cached entry of an identifier, if any.
pub open spec fn cache_get(c: Seq<NoteMetadata>, id: Seq<char>) -> Option<NoteMetadata>
    decreases c.len(),
{
    if c.len() == 0 {
        None
    } else if c.last().id@ == id {
        Some(c.last())
    } else {
        cache_get(c.drop_last(), id)
    }
}

/// The cache with one entry put in, displacing any entry of the same
/// identifier.
pub open spec fn cache_put(c: Seq<NoteMetadata>, m: NoteMetadata) -> Seq<NoteMetadata> {
    remove_id(c, m.id@).push(m)
}

/// The cache one consistent scan leaves: every scanned note put in, in
/// order.
pub open spec fn cache_rebuild(notes: Seq<NoteMetadata>) -> Seq<NoteMetadata>
    decreases notes.len(),
{
    if notes.len() == 0 {
        Seq::empty()
    } else {
        cache_put(cache_rebuild(notes.drop_last()), notes.last())
    }
}

/// Removal drops exactly the given identifier and keeps the cache's
/// entries and uniqueness.
pub proof fn lemma_remove_id(c: Seq<NoteMetadata>, id: Seq<char>)
    requires
        cache_ids_unique(c),
    ensures
        cache_ids_unique(remove_id(c, id)),
        forall|k: int|
            0 <= k < remove_id(c, id).len() ==> (#[trigger] remove_id(c, id)[k]).id@ != id,
        forall|k: int|
            0 <= k < remove_id(c, id).len() ==> exists|j: int|
                0 <= j < c.len() && c[j] == #[trigger] remove_id(c, id)[k],
    decreases c.len(),
{
    if c.len() > 0 {
        assert(cache_ids_unique(c.drop_last())) by {
            assert(forall|i: int|
                0 <= i < c.len() - 1 ==> #[trigger] c.drop_last()[i] == c[i]);
        }
        lemma_remove_id(c.drop_last(), id);
        let rm = remove_id(c, id);
        let pre = remove_id(c.drop_last(), id);
        assert(forall|i: int| 0 <= i < c.len() - 1 ==> #[trigger] c.drop_last()[i] == c[i]);
        assert forall|k: int|
            0 <= k < rm.len() implies (#[trigger] rm[k]).id@ != id && (exists|j: int|
            0 <= j < c.len() && c[j] == rm[k]) by {
            if c.last().id@ == id {
                assert(rm[k] == pre[k]);
                let j = choose|j: int| 0 <= j < c.len() - 1 && c.drop_last()[j] == pre[k];
                assert(c[j] == rm[k]);
            } else {
                if k < pre.len() {
                    assert(rm[k] == pre[k]);
                    let j = choose|j: int| 0 <= j < c.len() - 1 && c.drop_last()[j] == pre[k];
                    assert(c[j] == rm[k]);
                } else {
                    assert(rm[k] == c.last());
                    assert(c[c.len() - 1] == rm[k]);
                }
            }
        }
        assert(cache_ids_unique(rm)) by {
            if c.last().id@ != id {
                assert forall|i: int, j: int| 0 <= i < j < rm.len() implies rm[i].id@
                    != rm[j].id@ by {
                    if j < pre.len() {
                    } else {
                        assert(rm[j] == c.last());
                        assert(rm[i] == pre[i]);
                        let j0 = choose|j0: int|
                            0 <= j0 < c.len() - 1 && c.drop_last()[j0] == pre[i];
                        assert(c[j0].id@ != c[c.len() - 1].id@);
                    }
                }
            }
        }
    }
}

/// Putting an entry keeps uniqueness and makes it the one the cache shows.
pub proof fn lemma_cache_put(c: Seq<NoteMetadata>, m: NoteMetadata)
    requires
        cache_ids_unique(c),
    ensures
        cache_ids_unique(cache_put(c, m)),
        cache_get(cache_put(c, m), m.id@) == Some(m),
{
    lemma_remove_id(c, m.id@);
    let p = cache_put(c, m);
    let rm = remove_id(c, m.id@);
    assert(p.last() == m);
    assert forall|i: int, j: int| 0 <= i < j < p.len() implies p[i].id@ != p[j].id@ by {
        if j < rm.len() {
            assert(p[i] == rm[i]);
            assert(p[j] == rm[j]);
        } else {
            assert(p[j] == m);
            assert(p[i] == rm[i]);
        }
    }
}

/// A rebuilt cache has unique identifiers whatever the scan held.
pub proof fn lemma_cache_rebuild_unique(notes: Seq<NoteMetadata>)
    ensures
        cache_ids_unique(cache_rebuild(notes)),
    decreases notes.len(),
{
    if notes.len() == 0 {
        assert(cache_ids_unique(Seq::<NoteMetadata>::empty()));
    } else {
        lemma_cache_rebuild_unique(notes.drop_last());
        lemma_cache_put(cache_rebuild(notes.drop_last()), notes.last());
    }
}

/// Removing an identifier that is already gone changes nothing, so delete
/// is idempotent on the cache.
pub proof fn lemma_remove_id_idempotent(c: Seq<NoteMetadata>, id: Seq<char>)
    requires
        cache_ids_unique(c),
    ensures
        remove_id(remove_id(c, id), id) == remove_id(c, id),
{
    lemma_remove_id(c, id);
    lemma_remove_absent(remove_id(c, id), id);
}

/// Removing an identifier no entry carries returns the cache unchanged.
pub proof fn lemma_remove_absent(c: Seq<NoteMetadata>, id: Seq<char>)
    requires
        forall|k: int| 0 <= k < c.len() ==> (#[trigger] c[k]).id@ != id,
    ensures
        remove_id(c, id) == c,
    decreases c.len(),
{
    if c.len() > 0 {
        assert(forall|i: int| 0 <= i < c.len() - 1 ==> #[trigger] c.drop_last()[i] == c[i]);
        lemma_remove_absent(c.drop_last(), id);
        assert(remove_id(c, id) =~= c);
    }
}

/// The state of one open folder.
pub struct FolderState {
    /// The canonical folder key.
    pub folder: String,
    /// The metadata cache, one entry per note, replaced wholesale by scans.
    pub cache: Vec<NoteMetadata>,
    /// Whether a search index serves this folder.
    pub index_state: IndexState,
    /// The watcher's per-path debounce table.
    pub debounce: DebounceTable,
    /// Whether a watcher is running.
    pub watching: bool,
}

impl FolderState {
    /// The cache never holds two entries for one identifier.
    pub open spec fn wf(&self) -> bool {
        cache_ids_unique(self.cache@)
    }

    /// A freshly opened folder: empty cache, no index, no watcher.
    pub fn new(folder: String) -> (r: FolderState)
        ensures
            r.folder == folder,
            r.cache@ == Seq::<NoteMetadata>::empty(),
            r.index_state == IndexState::Absent,
            r.debounce.model() == Seq::<(Seq<char>, u64)>::empty(),
            !r.watching,
            r.wf(),
    {
        FolderState {
            folder,
            cache: Vec::new(),
            index_state: IndexState::Absent,
            debounce: DebounceTable::new(),
            watching: false,
        }
    }

    /// Put one note's metadata into the cache, displacing a previous entry
    /// of the same identifier.
    pub fn cache_insert(&mut self, m: NoteMetadata)
        requires
            old(self).wf(),
        ensures
            final(self).cache@ == cache_put(old(self).cache@, m),
            final(self).wf(),
            final(self).folder == old(self).folder,
            final(self).index_state == old(self).index_state,
            final(self).debounce == old(self).debounce,
            final(self).watching == old(self).watching,
    {
        proof {
            lemma_cache_put(self.cache@, m);
        }
        self.cache_remove(m.id.as_str());
        self.cache.push(m);
    }

    /// Drop an identifier from the cache; dropping an absent one is a
    /// no-op, so delete is idempotent.
    pub fn cache_remove(&mut self, id: &str)
        requires
            old(self).wf(),
        ensures
            final(self).cache@ == remove_id(old(self).cache@, id@),
            final(self).wf(),
            final(self).folder == old(self).folder,
            final(self).index_state == old(self).index_state,
            final(self).debounce == old(self).debounce,
            final(self).watching == old(self).watching,
    {
        let ghost orig = self.cache@;
        let idv = to_char_vec(id);
        let mut kept: Vec<NoteMetadata> = Vec::new();
        let mut i: usize = 0;
        while i < self.cache.len()
            invariant
                0 <= i <= orig.len(),
                idv@ == id@,
                orig == self.cache@,
                kept@ == remove_id(orig.take(i as int), id@),
            decreases orig.len() - i,
        {
            proof {
                assert(orig.take(i + 1).drop_last() =~= orig.take(i as int));
                assert(orig.take(i + 1).last() == orig[i as int]);
            }
            let mv = to_char_vec(self.cache[i].id.as_str());
            if !chars_eq(&mv, &idv) {
                let m = clone_meta(&self.cache[i]);
                kept.push(m);
            }
            i = i + 1;
        }
        proof {
            assert(orig.take(orig.len() as int) =~= orig);
            lemma_remove_id(orig, id@);
        }
        self.cache = kept;
    }

    /// Replace the cache wholesale with one consistent scan.
    pub fn replace_cache(&mut self, notes: Vec<NoteMetadata>)
        ensures
            final(self).cache@ == cache_rebuild(notes@),
            final(self).wf(),
            final(self).folder == old(self).folder,
            final(self).index_state == old(self).index_state,
            final(self).debounce == old(self).debounce,
            final(self).watching == old(self).watching,
    {
        let ghost target = notes@;
        self.cache = Vec::new();
        proof {
            assert(self.cache@ =~= cache_rebuild(target.take(0)));
            assert(target.take(0) =~= Seq::<NoteMetadata>::empty());
            assert(cache_ids_unique(self.cache@));
        }
        let mut rest = notes;
        let ghost mut i: int = 0;
        while rest.len() > 0
            invariant
                0 <= i <= target.len(),
                rest@ =~= target.skip(i),
                self.cache@ == cache_rebuild(target.take(i)),
                self.wf(),
                self.folder == old(self).folder,
                self.index_state == old(self).index_state,
                self.debounce == old(self).debounce,
                self.watching == old(self).watching,
            decreases rest@.len(),
        {
            let m = rest.remove(0);
            proof {
                assert(m == target[i]);
                assert(rest@ =~= target.skip(i + 1));
                assert(target.take(i + 1).drop_last() =~= target.take(i));
                assert(target.take(i + 1).last() == target[i]);
            }
            self.cache_insert(m);
            proof {
                i = i + 1;
            }
        }
        proof {
            assert(target.take(target.len() as int) =~= target);
        }
    }

    /// Look an identifier up in the cache.
    pub fn cached(&self, id: &str) -> (r: Option<&NoteMetadata>)
        ensures
            match r {
                Some(m) => cache_get(self.cache@, id@) == Some(*m),
                None => cache_get(self.cache@, id@) is None,
            },
    {
        let idv = to_char_vec(id);
        let ghost c = self.cache@;
        proof {
            assert(c.take(c.len() as int) =~= c);
        }
        let mut i: usize = self.cache.len();
        while i > 0
            invariant
                0 <= i <= c.len(),
                c == self.cache@,
                idv@ == id@,
                cache_get(c, id@) == cache_get(c.take(i as int), id@),
            decreases i,
        {
            proof {
                assert(c.take(i as int).drop_last() =~= c.take(i - 1));
                assert(c.take(i as int).last() == c[i - 1]);
            }
            let mv = to_char_vec(self.cache[i - 1].id.as_str());
            if chars_eq(&mv, &idv) {
                return Some(&self.cache[i - 1]);
            }
            i = i - 1;
        }
        proof {
            assert(c.take(0) =~= Seq::<NoteMetadata>::empty());
        }
        None
    }
}

fn clone_meta(m: &NoteMetadata) -> (r: NoteMetadata)
    ensures
        r == *m,
{
    NoteMetadata {
        id: m.id.clone(),
        title: m.title.clone(),
        preview: m.preview.clone(),
        modified: m.modified,
    }
}


// ---------------------------------------------------------------------------
// The registry of open folders.
// ---------------------------------------------------------------------------

/// A folder with this key is open.
pub open spec fn has_folder(s: Seq<FolderState>, key: Seq<char>) -> bool {
    exists|i: int| 0 <= i < s.len() && s[i].folder@ == key
}

/// The process-wide registry: one state per open folder, plus the last
/// folder used.
pub struct FolderRegistry {
    pub folders: Vec<FolderState>,
    pub last_folder: Option<String>,
}

impl FolderRegistry {
    /// Folder keys are unique and every state is well-formed.
    pub open spec fn wf(&self) -> bool {
        &&& forall|i: int, j: int|
            0 <= i < j < self.folders@.len() ==> self.folders@[i].folder@
                != self.folders@[j].folder@
        &&& forall|i: int| 0 <= i < self.folders@.len() ==> (#[trigger] self.folders@[i]).wf()
    }

    /// An empty registry.
    pub fn new() -> (r: FolderRegistry)
        ensures
            r.folders@ == Seq::<FolderState>::empty(),
            r.last_folder is None,
            r.wf(),
    {
        let r = FolderRegistry { folders: Vec::new(), last_folder: None };
        proof {
            assert(r.folders@ =~= Seq::<FolderState>::empty());
        }
        r
    }

    /// The position of an open folder, or `NotInitialized`.
    pub fn folder_index(&self, key: &str) -> (r: Result<usize, NoteError>)
        ensures
            match r {
                Ok(i) => i < self.folders@.len() && self.folders@[i as int].folder@ == key@,
                Err(e) => !has_folder(self.folders@, key@) && e == NoteError::NotInitialized,
            },
    {
        let kv = to_char_vec(key);
        let mut i: usize = 0;
        while i < self.folders.len()
            invariant
                0 <= i <= self.folders@.len(),
                kv@ == key@,
                forall|j: int| 0 <= j < i ==> (#[trigger] self.folders@[j]).folder@ != key@,
            decreases self.folders@.len() - i,
        {
            let fv = to_char_vec(self.folders[i].folder.as_str());
            if chars_eq(&fv, &kv) {
                return Ok(i);
            }
            i = i + 1;
        }
        proof {
            if has_folder(self.folders@, key@) {
                let w = choose|w: int|
                    0 <= w < self.folders@.len() && self.folders@[w].folder@ == key@;
            }
        }
        Err(NoteError::NotInitialized)
    }

    /// Open a folder: a first open registers a fresh state, reopening an
    /// already-open folder changes nothing; either way the folder becomes
    /// the last one used.  Returns whether the state is new.
    pub fn open_folder(&mut self, key: String) -> (created: bool)
        requires
            old(self).wf(),
        ensures
            final(self).wf(),
            created == !has_folder(old(self).folders@, key@),
            has_folder(final(self).folders@, key@),
            final(self).last_folder matches Some(k) && k@ == key@,
            !created ==> final(self).folders@ == old(self).folders@,
            created ==> final(self).folders@.len() == old(self).folders@.len() + 1
                && final(self).folders@.drop_last() == old(self).folders@
                && final(self).folders@.last().folder@ == key@
                && final(self).folders@.last().cache@ == Seq::<NoteMetadata>::empty()
                && final(self).folders@.last().index_state == IndexState::Absent
                && !final(self).folders@.last().watching,
    {
        let existing = self.folder_index(key.as_str());
        match existing {
            Ok(i) => {
                proof {
                    assert(has_folder(self.folders@, key@));
                }
                self.last_folder = Some(key);
                false
            },
            Err(_) => {
                let st = FolderState::new(key.clone());
                let ghost before = self.folders@;
                self.folders.push(st);
                self.last_folder = Some(key);
                proof {
                    assert(self.folders@.drop_last() =~= before);
                    assert(has_folder(self.folders@, key@)) by {
                        assert(self.folders@[before.len() as int].folder@ == key@);
                    }
                    assert(self.wf()) by {
                        assert(forall|i: int|
                            0 <= i < before.len() ==> #[trigger] self.folders@[i] == before[i]);
                    }
                }
                true
            },
        }
    }
}

// ---------------------------------------------------------------------------
// Folder keys.
// ---------------------------------------------------------------------------

/// Relies on `url::Url::parse` and `Url::to_file_path`: turns a `file://`
/// URL into a local filesystem path, if the URL is well-formed and local.
/// The mapping is platform-conditional (drive letters and UNC hosts on one
/// family, rooted paths on another), so nothing is promised of the outcome;
/// `folder_key_from_url` fixes what each outcome yields.
#[verifier::external_body]
fn file_url_to_path(s: &str) -> (r: Option<String>) {
    url::Url::parse(s).ok().and_then(|u| u.to_file_path().ok()).map(
        |p| p.to_string_lossy().into_owned(),
    )
}

/// The folder key a `file://` conversion outcome yields: the converted path
/// as the key, or the malformed-URL fault when the platform could not
/// convert the URL.
pub fn folder_key_from_url(converted: Option<String>) -> (r: Result<String, NoteError>)
    ensures
        match converted {
            Some(p) => r == Result::<String, NoteError>::Ok(p),
            None => r == Result::<String, NoteError>::Err(
                NoteError::InvalidIdentifier(IdFault::BadFolderUrl),
            ),
        },
{
    match converted {
        Some(p) => Ok(p),
        None => Err(NoteError::InvalidIdentifier(IdFault::BadFolderUrl)),
    }
}

/// Normalize a folder key from a plain path or a legacy `file://` URL: an
/// all-blank key is rejected, a `file://` key becomes the path the
/// platform's URL conversion gives (or the malformed-URL fault where it
/// gives none), anything else is taken trimmed.
pub fn normalize_folder_path(path: &str) -> (r: Result<String, NoteError>)
    ensures
        (r == Result::<String, NoteError>::Err(
            NoteError::InvalidIdentifier(IdFault::EmptyFolder),
        )) <==> trim_spec(path@).len() == 0,
        (trim_spec(path@).len() > 0 && !starts_with_spec(
            trim_spec(path@),
            seq!['f', 'i', 'l', 'e', ':', '/', '/'],
        )) ==> (r matches Ok(p) && p@ == trim_spec(path@)),
        (trim_spec(path@).len() > 0 && starts_with_spec(
            trim_spec(path@),
            seq!['f', 'i', 'l', 'e', ':', '/', '/'],
        )) ==> (r is Ok || r == Result::<String, NoteError>::Err(
            NoteError::InvalidIdentifier(IdFault::BadFolderUrl),
        )),
        r matches Err(e) ==> (e == NoteError::InvalidIdentifier(IdFault::EmptyFolder) || e
            == NoteError::InvalidIdentifier(IdFault::BadFolderUrl)),
{
    let pv = to_char_vec(path);
    let trimmed = trim_chars(&pv);
    if trimmed.len() == 0 {
        return Err(NoteError::InvalidIdentifier(IdFault::EmptyFolder));
    }
    let scheme: Vec<char> = vec!['f', 'i', 'l', 'e', ':', '/', '/'];
    proof {
        assert(scheme@ =~= seq!['f', 'i', 'l', 'e', ':', '/', '/']);
    }
    if starts_with_vec(&trimmed, &scheme) {
        let ts = from_char_vec(&trimmed);
        folder_key_from_url(file_url_to_path(ts.as_str()))
    } else {
        Ok(from_char_vec(&trimmed))
    }
}

// ---------------------------------------------------------------------------
// Where a folder's search index lives: a directory named by a stable hash
// of the folder key, kept outside the notes folder.
// ---------------------------------------------------------------------------

/// The 64-bit FNV-1a offset basis.
pub open spec fn fnv_offset() -> u64 {
    0xcbf29ce484222325u64
}

/// The 64-bit FNV-1a prime.
pub open spec fn fnv_prime() -> u64 {
    0x100000001b3u64
}

/// FNV-1a over a byte sequence, from the given state.
pub open spec fn fnv1a(bytes: Seq<u8>, h: u64) -> u64
    decreases bytes.len(),
{
    if bytes.len() == 0 {
        h
    } else {
        fnv1a(bytes.drop_first(), (h ^ (bytes.first() as u64)).wrapping_mul(fnv_prime()))
    }
}

/// The stable index-directory name of a folder key:
/// `search_indexes/<fnv1a of the key's bytes, in hex>`.
pub open spec fn index_dir_name_spec(folder_bytes: Seq<u8>) -> Seq<char> {
    seq!['s', 'e', 'a', 'r', 'c', 'h', '_', 'i', 'n', 'd', 'e', 'x', 'e', 's', '/'] + hex_str(
        fnv1a(folder_bytes, fnv_offset()) as nat,
    )
}

/// Name the index directory of a folder key.
pub fn index_dir_name(folder: &str) -> (r: String)
    ensures
        r@ == index_dir_name_spec(folder.spec_bytes()),
{
    let bytes = folder.as_bytes();
    let mut h: u64 = 0xcbf29ce484222325u64;
    let ghost all = folder.spec_bytes();
    proof {
        assert(all.skip(0) =~= all);
    }
    let mut i: usize = 0;
    while i < bytes.len()
        invariant
            0 <= i <= all.len(),
            bytes@ == all,
            fnv1a(all.skip(i as int), h) == fnv1a(all, fnv_offset()),
        decreases all.len() - i,
    {
        proof {
            assert(all.skip(i as int).first() == all[i as int]);
            assert(all.skip(i as int).drop_first() =~= all.skip(i + 1));
        }
        h = (h ^ (bytes[i] as u64)).wrapping_mul(0x100000001b3u64);
        i = i + 1;
    }
    proof {
        assert(all.skip(all.len() as int) =~= Seq::<u8>::empty());
    }
    let mut out: Vec<char> = Vec::new();
    out.push('s');
    out.push('e');
    out.push('a');
    out.push('r');
    out.push('c');
    out.push('h');
    out.push('_');
    out.push('i');
    out.push('n');
    out.push('d');
    out.push('e');
    out.push('x');
    out.push('e');
    out.push('s');
    out.push('/');
    proof {
        assert(out@ =~= seq![
            's', 'e', 'a', 'r', 'c', 'h', '_', 'i', 'n', 'd', 'e', 'x', 'e', 's', '/',
        ]);
    }
    push_hex(&mut out, h);
    from_char_vec(&out)
}

} // verus!
