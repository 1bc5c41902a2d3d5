use vstd::prelude::*;

use crate::codec::id_check;
use crate::codec::md_suffix;
use crate::codec::note_rel_path;
use crate::codec::valid_id;
use crate::errors::NoteError;
use crate::markdown::generate_preview_chars;
use crate::markdown::generate_preview_spec;
use crate::names::chosen_name;
use crate::names::first_free_name;
use crate::strings::chars_eq;
use crate::strings::from_char_vec;
use crate::strings::has_char;
use crate::strings::last_index_of;
use crate::strings::lemma_last_index_unique;
use crate::strings::push_all;
use crate::strings::rfind_char;
use crate::strings::subrange_vec;
use crate::strings::to_char_vec;
use crate::text::extract_title_chars;
use crate::text::extract_title_from_id;
use crate::text::extract_title_from_id_spec;
use crate::text::extract_title_spec;
use crate::text::sanitize_filename_chars;
use crate::text::sanitize_filename_spec;

verus! {

// ---------------------------------------------------------------------------
// Data carried between the store and its callers.
// ---------------------------------------------------------------------------

/// What a listing shows of one note.
#[derive(Clone, Debug)]
pub struct NoteMetadata {
    pub id: String,
    pub title: String,
    pub preview: String,
    pub modified: i64,
}

/// A note in full.
#[derive(Clone, Debug)]
pub struct Note {
    pub id: String,
    pub title: String,
    pub content: String,
    /// The folder-relative path of the note's file.
    pub path: String,
    pub modified: i64,
}

/// Derive the listing metadata of one note from its content.
pub fn note_metadata_from(id: String, content: &str, modified: i64) -> (m: NoteMetadata)
    ensures
        m.id == id,
        m.title@ == extract_title_spec(content@),
        m.preview@ == generate_preview_spec(content@),
        m.modified == modified,
{
    let cv = to_char_vec(content);
    let title = extract_title_chars(&cv);
    let preview = generate_preview_chars(&cv);
    NoteMetadata {
        id,
        title: from_char_vec(&title),
        preview: from_char_vec(&preview),
        modified,
    }
}

/// Assemble a read note; the title is derived from the content.
pub fn make_note(id: String, path: String, content: String, modified: i64) -> (n: Note)
    ensures
        n.id == id,
        n.path == path,
        n.content == content,
        n.title@ == extract_title_spec(content@),
        n.modified == modified,
{
    let cv = to_char_vec(content.as_str());
    let title = extract_title_chars(&cv);
    Note { id, title: from_char_vec(&title), content, path, modified }
}

// ---------------------------------------------------------------------------
// Saving.
// ---------------------------------------------------------------------------

/// The sanitized leaf name a content's title gives.
pub open spec fn save_leaf(content: Seq<char>) -> Seq<char> {
    sanitize_filename_spec(extract_title_spec(content))
}

/// The desired identifier: the leaf, under the existing identifier's
/// directory prefix.
pub open spec fn save_head(eid: Seq<char>, leaf: Seq<char>) -> Seq<char> {
    if has_char(eid, '/') {
        let k = choose|k: int| last_index_of(eid, '/', k);
        eid.take(k + 1) + leaf
    } else {
        leaf
    }
}

/// The ghost view of an optional identifier argument.
pub open spec fn spec_opt_id(id: Option<&String>) -> Option<Seq<char>> {
    match id {
        Some(s) => Some(s@),
        None => None,
    }
}

/// The identifier a save ends up under: the desired identifier when it is
/// unchanged, otherwise the first candidate that is free or reproduces the
/// original identifier.
pub open spec fn planned_save_id(
    eid: Option<Seq<char>>,
    content: Seq<char>,
    ex: Seq<Seq<char>>,
) -> Seq<char> {
    let leaf = save_leaf(content);
    match eid {
        Some(e) => {
            let head = save_head(e, leaf);
            if head == e {
                e
            } else {
                chosen_name(head, Seq::empty(), ex, Some(e))
            }
        },
        None => chosen_name(leaf, Seq::empty(), ex, None),
    }
}

/// Everything a save must do, computed up front: which file to write, and
/// which old identifier to retire afterwards.  The new file is written
/// before the old one is removed, so a failed write never loses the
/// previous version.
pub struct SavePlan {
    /// The identifier the note ends up under.
    pub final_id: String,
    /// The folder-relative path to write the content to.
    pub file_path: String,
    /// The title derived from the content.
    pub title: String,
    /// The identifier to drop from index and cache after a successful
    /// write; present exactly when the save renames.
    pub old_id: Option<String>,
    /// That identifier's file, removed after the write when it differs
    /// from `file_path`.
    pub old_path: Option<String>,
}

/// Plan a save: derive the title, sanitize it into a leaf name, keep the
/// directory prefix of an existing identifier, and avoid collisions with
/// `existing` (the identifiers currently on disk) by numeric suffixes,
/// stopping early at the note's own identifier.
pub fn plan_save(
    existing_id: Option<&String>,
    content: &str,
    existing: &Vec<String>,
) -> (r: Result<SavePlan, NoteError>)
    requires
        existing@.len() < 0xffff_ffff_ffff_0000u64,
    ensures
        (r is Ok <==> ((match existing_id {
            Some(e) => valid_id(e@),
            None => true,
        }) && valid_id(planned_save_id(spec_opt_id(existing_id), content@, existing.deep_view())))),
        match r {
            Ok(p) => {
                &&& p.final_id@ == planned_save_id(
                    spec_opt_id(existing_id),
                    content@,
                    existing.deep_view(),
                )
                &&& p.title@ == extract_title_spec(content@)
                &&& p.file_path@ == p.final_id@ + md_suffix()
                &&& match existing_id {
                    Some(e) => {
                        if save_head(e@, save_leaf(content@)) == e@ {
                            p.old_id is None && p.old_path is None
                        } else {
                            &&& p.old_id is Some
                            &&& p.old_id.unwrap()@ == e@
                            &&& p.old_path is Some
                            &&& p.old_path.unwrap()@ == e@ + md_suffix()
                        }
                    },
                    None => p.old_id is None && p.old_path is None,
                }
            },
            Err(e) => (match existing_id {
                Some(x) => !valid_id(x@) && id_check(x@) is Some && e
                    == NoteError::InvalidIdentifier(id_check(x@).unwrap()),
                None => false,
            }) || (!valid_id(
                planned_save_id(spec_opt_id(existing_id), content@, existing.deep_view()),
            ) && id_check(
                planned_save_id(spec_opt_id(existing_id), content@, existing.deep_view()),
            ) is Some && e == NoteError::InvalidIdentifier(
                id_check(
                    planned_save_id(spec_opt_id(existing_id), content@, existing.deep_view()),
                ).unwrap(),
            )),
        },
{
    let cv = to_char_vec(content);
    let title_v = extract_title_chars(&cv);
    let leaf = sanitize_filename_chars(&title_v);
    let empty_tail: Vec<char> = Vec::new();

    match existing_id {
        None => {
            let fidv = first_free_name(&leaf, &empty_tail, existing, None);
            let fid = from_char_vec(&fidv);
            match note_rel_path(fid.as_str()) {
                Ok(pth) => Ok(
                    SavePlan {
                        final_id: fid,
                        file_path: pth,
                        title: from_char_vec(&title_v),
                        old_id: None,
                        old_path: None,
                    },
                ),
                Err(e) => Err(e),
            }
        },
        Some(eid) => {
            let old_path = match note_rel_path(eid.as_str()) {
                Ok(p) => p,
                Err(e) => {
                    return Err(e);
                },
            };
            let eidv = to_char_vec(eid.as_str());
            let en = eidv.len();
            let head = match rfind_char(&eidv, '/') {
                Some(k) => {
                    proof {
                        assert(k < en);
                    }
                    proof {
                        let wit = choose|w: int| last_index_of(eidv@, '/', w);
                        lemma_last_index_unique(eidv@, '/', wit, k as int);
                    }
                    let mut h = subrange_vec(&eidv, 0, k + 1);
                    push_all(&mut h, &leaf);
                    proof {
                        assert(h@ =~= eid@.take(k + 1) + leaf@);
                    }
                    h
                },
                None => {
                    let h = subrange_vec(&leaf, 0, leaf.len());
                    proof {
                        assert(h@ =~= leaf@);
                    }
                    h
                },
            };
            proof {
                assert(head@ == save_head(eid@, save_leaf(content@)));
            }
            if chars_eq(&head, &eidv) {
                Ok(
                    SavePlan {
                        final_id: eid.clone(),
                        file_path: old_path,
                        title: from_char_vec(&title_v),
                        old_id: None,
                        old_path: None,
                    },
                )
            } else {
                let fidv = first_free_name(&head, &empty_tail, existing, Some(&eidv));
                let fid = from_char_vec(&fidv);
                match note_rel_path(fid.as_str()) {
                    Ok(pth) => Ok(
                        SavePlan {
                            final_id: fid,
                            file_path: pth,
                            title: from_char_vec(&title_v),
                            old_id: Some(eid.clone()),
                            old_path: Some(old_path),
                        },
                    ),
                    Err(e) => Err(e),
                }
            }
        },
    }
}


// ---------------------------------------------------------------------------
// Creating.
// ---------------------------------------------------------------------------

/// The stem fresh notes are named after.
pub open spec fn untitled_stem() -> Seq<char> {
    seq!['U', 'n', 't', 'i', 't', 'l', 'e', 'd']
}

/// The identifier a fresh note gets: the first free of `Untitled`,
/// `Untitled-1`, `Untitled-2`, …
pub open spec fn planned_create_id(ex: Seq<Seq<char>>) -> Seq<char> {
    chosen_name(untitled_stem(), Seq::empty(), ex, None)
}

/// Everything a create must do: write a stub file and index it.
pub struct CreatePlan {
    /// The fresh identifier.
    pub id: String,
    /// The folder-relative path of its file.
    pub file_path: String,
    /// The humanized display title of the identifier.
    pub title: String,
    /// The stub content: a heading with the display title.
    pub content: String,
}

/// Plan a fresh note: pick the first unused identifier and the stub content
/// that goes with it.
pub fn plan_create(existing: &Vec<String>) -> (r: Result<CreatePlan, NoteError>)
    requires
        existing@.len() < 0xffff_ffff_ffff_0000u64,
    ensures
        r is Ok <==> valid_id(planned_create_id(existing.deep_view())),
        match r {
            Ok(p) => {
                &&& p.id@ == planned_create_id(existing.deep_view())
                &&& p.file_path@ == p.id@ + md_suffix()
                &&& p.title@ == extract_title_from_id_spec(p.id@)
                &&& p.content@ == seq!['#', ' '] + p.title@ + seq!['\n', '\n']
            },
            Err(e) => e == NoteError::InvalidIdentifier(
                id_check(planned_create_id(existing.deep_view())).unwrap(),
            ),
        },
{
    let mut stem: Vec<char> = Vec::new();
    stem.push('U');
    stem.push('n');
    stem.push('t');
    stem.push('i');
    stem.push('t');
    stem.push('l');
    stem.push('e');
    stem.push('d');
    proof {
        assert(stem@ =~= untitled_stem());
    }
    let empty_tail: Vec<char> = Vec::new();
    let fidv = first_free_name(&stem, &empty_tail, existing, None);
    let fid = from_char_vec(&fidv);
    let path = match note_rel_path(fid.as_str()) {
        Ok(p) => p,
        Err(e) => {
            return Err(e);
        },
    };
    let title = extract_title_from_id(fid.as_str());
    let tv = to_char_vec(title.as_str());
    let mut content: Vec<char> = Vec::new();
    content.push('#');
    content.push(' ');
    push_all(&mut content, &tv);
    content.push('\n');
    content.push('\n');
    proof {
        assert(content@ =~= seq!['#', ' '] + title@ + seq!['\n', '\n']);
    }
    Ok(
        CreatePlan {
            id: fid,
            file_path: path,
            title,
            content: from_char_vec(&content),
        },
    )
}

// ---------------------------------------------------------------------------
// Rename and create safety.
// ---------------------------------------------------------------------------

/// A planned save lands on the note's own identifier or on an identifier no
/// note carries: whatever the content's title, a save never takes over
/// another note's file.
pub proof fn lemma_save_plan_safe(
    eid: Option<Seq<char>>,
    content: Seq<char>,
    ex: Seq<Seq<char>>,
)
    ensures
        (eid is Some && planned_save_id(eid, content, ex) == eid.unwrap()) || !crate::names::taken(
            ex,
            planned_save_id(eid, content, ex),
        ),
{
    let leaf = save_leaf(content);
    match eid {
        Some(e) => {
            let head = save_head(e, leaf);
            if head != e {
                crate::names::lemma_chosen_name_safe(head, Seq::empty(), ex, Some(e));
            }
        },
        None => {
            crate::names::lemma_chosen_name_safe(leaf, Seq::empty(), ex, None);
        },
    }
}

/// A fresh note's identifier is never one already in use.
pub proof fn lemma_create_id_fresh(ex: Seq<Seq<char>>)
    ensures
        !crate::names::taken(ex, planned_create_id(ex)),
{
    crate::names::lemma_chosen_name_safe(untitled_stem(), Seq::empty(), ex, None);
}

// ---------------------------------------------------------------------------
// Listing order: newest first, ties in arrival order.
// ---------------------------------------------------------------------------

/// Insert a note behind every note at least as recent.
pub open spec fn meta_insert(x: NoteMetadata, s: Seq<NoteMetadata>) -> Seq<NoteMetadata>
    decreases s.len(),
{
    if s.len() == 0 {
        seq![x]
    } else if s[0].modified >= x.modified {
        seq![s[0]] + meta_insert(x, s.drop_first())
    } else {
        seq![x] + s
    }
}

/// Stable sort by modification time, newest first.
pub open spec fn meta_sort(s: Seq<NoteMetadata>) -> Seq<NoteMetadata>
    decreases s.len(),
{
    if s.len() == 0 {
        s
    } else {
        meta_insert(s.last(), meta_sort(s.drop_last()))
    }
}

proof fn lemma_meta_insert_at(s: Seq<NoteMetadata>, x: NoteMetadata, idx: int)
    requires
        0 <= idx <= s.len(),
        forall|j: int| 0 <= j < idx ==> s[j].modified >= x.modified,
        idx < s.len() ==> s[idx].modified < x.modified,
    ensures
        meta_insert(x, s) == s.take(idx) + seq![x] + s.skip(idx),
    decreases idx,
{
    if idx == 0 {
        if s.len() == 0 {
            assert(meta_insert(x, s) =~= s.take(0) + seq![x] + s.skip(0));
        } else {
            assert(meta_insert(x, s) =~= s.take(0) + seq![x] + s.skip(0));
        }
    } else {
        let t = s.drop_first();
        assert(forall|j: int| 0 <= j < idx - 1 ==> #[trigger] t[j].modified >= x.modified);
        lemma_meta_insert_at(t, x, idx - 1);
        assert(seq![s[0]] + (t.take(idx - 1) + seq![x] + t.skip(idx - 1)) =~= s.take(idx)
            + seq![x] + s.skip(idx));
    }
}

/// The notes stand newest first.
pub open spec fn meta_sorted_desc(s: Seq<NoteMetadata>) -> bool {
    forall|i: int, j: int| 0 <= i <= j < s.len() ==> s[i].modified >= s[j].modified
}

proof fn lemma_meta_insert_sorted(x: NoteMetadata, s: Seq<NoteMetadata>)
    requires
        meta_sorted_desc(s),
    ensures
        meta_sorted_desc(meta_insert(x, s)),
        forall|k: int|
            0 <= k < meta_insert(x, s).len() ==> (#[trigger] meta_insert(x, s)[k]) == x || (
            exists|j: int| 0 <= j < s.len() && s[j] == meta_insert(x, s)[k]),
    decreases s.len(),
{
    let m = meta_insert(x, s);
    if s.len() == 0 {
        assert(m =~= seq![x]);
    } else if s[0].modified >= x.modified {
        let t = s.drop_first();
        assert(meta_sorted_desc(t)) by {
            assert(forall|i: int| 0 <= i < t.len() ==> #[trigger] t[i] == s[i + 1]);
        }
        lemma_meta_insert_sorted(x, t);
        let q = meta_insert(x, t);
        assert(m == seq![s[0]] + q);
        assert forall|k: int| 0 <= k < m.len() implies (#[trigger] m[k]) == x || (exists|j: int|
            0 <= j < s.len() && s[j] == m[k]) by {
            if k == 0 {
                assert(s[0] == m[0]);
            } else {
                assert(m[k] == q[k - 1]);
                if q[k - 1] == x {
                } else {
                    let j = choose|j: int| 0 <= j < t.len() && t[j] == q[k - 1];
                    assert(s[j + 1] == m[k]);
                }
            }
        }
        assert forall|i: int, j: int| 0 <= i <= j < m.len() implies m[i].modified
            >= m[j].modified by {
            if i == 0 {
                if j > 0 {
                    assert(m[j] == q[j - 1]);
                    if q[j - 1] == x {
                    } else {
                        let j2 = choose|j2: int| 0 <= j2 < t.len() && t[j2] == q[j - 1];
                        assert(s[0].modified >= s[j2 + 1].modified);
                    }
                }
            } else {
                assert(m[i] == q[i - 1]);
                assert(m[j] == q[j - 1]);
            }
        }
    } else {
        assert(m == seq![x] + s);
        assert forall|i: int, j: int| 0 <= i <= j < m.len() implies m[i].modified
            >= m[j].modified by {
            if i > 0 {
                assert(m[i] == s[i - 1]);
                assert(m[j] == s[j - 1]);
            } else if j > 0 {
                assert(m[j] == s[j - 1]);
                assert(s[0].modified >= s[j - 1].modified);
            }
        }
    }
}

/// The sorted listing really is sorted, newest first.
pub proof fn lemma_meta_sort_sorted(s: Seq<NoteMetadata>)
    ensures
        meta_sorted_desc(meta_sort(s)),
    decreases s.len(),
{
    if s.len() > 0 {
        lemma_meta_sort_sorted(s.drop_last());
        lemma_meta_insert_sorted(s.last(), meta_sort(s.drop_last()));
    }
}

/// Sort notes by modification time, newest first; equal stamps keep their
/// arrival order.
pub fn sort_notes_by_modified(notes: Vec<NoteMetadata>) -> (r: Vec<NoteMetadata>)
    ensures
        r@ == meta_sort(notes@),
{
    let ghost orig = notes@;
    let mut rest = notes;
    let mut out: Vec<NoteMetadata> = Vec::new();
    let ghost mut i: int = 0;
    while rest.len() > 0
        invariant
            0 <= i <= orig.len(),
            rest@ =~= orig.skip(i),
            out@ == meta_sort(orig.take(i)),
        decreases rest@.len(),
    {
        let x = rest.remove(0);
        proof {
            assert(x == orig[i]);
            assert(rest@ =~= orig.skip(i + 1));
        }
        let xm = x.modified;
        let mut idx: usize = 0;
        while idx < out.len() && out[idx].modified >= xm
            invariant
                0 <= idx <= out@.len(),
                forall|j: int| 0 <= j < idx ==> out@[j].modified >= xm,
            decreases out@.len() - idx,
        {
            idx = idx + 1;
        }
        proof {
            lemma_meta_insert_at(out@, x, idx as int);
        }
        let ghost before = out@;
        out.insert(idx, x);
        proof {
            assert(out@ =~= before.take(idx as int) + seq![x] + before.skip(idx as int));
            assert(orig.take(i + 1).drop_last() =~= orig.take(i));
            assert(orig.take(i + 1).last() == orig[i]);
            i = i + 1;
        }
    }
    proof {
        assert(orig.take(orig.len() as int) =~= orig);
    }
    out
}

} // verus!
