use vstd::prelude::*;

use crate::errors::IdFault;
use crate::errors::NoteError;
use crate::strings::chars_eq;
use crate::strings::find_seq;
use crate::strings::found_from;
use crate::strings::from_char_vec;
use crate::strings::lemma_found_from_unique;
use crate::strings::match_at;
use crate::strings::subrange_vec;
use crate::strings::to_char_vec;

verus! {

// ---------------------------------------------------------------------------
// Identifiers.
//
// A note identifier is the folder-relative path of its file, forward-slash
// separated, with the `.md` extension removed by suffix truncation (so stems
// that contain dots survive).  A valid identifier has no backslash and no
// empty, `.` or `..` component; resolving one can therefore never escape the
// folder root.
// ---------------------------------------------------------------------------

/// The components of a slash-separated path (an empty text has one empty
/// component, as `str::split` has it).
pub open spec fn split_slash(s: Seq<char>) -> Seq<Seq<char>>
    decreases s.len(),
{
    if exists|i: int| found_from(s, seq!['/'], 0, i) {
        let i = choose|i: int| found_from(s, seq!['/'], 0, i);
        seq![s.subrange(0, i)] + split_slash(s.subrange(i + 1, s.len() as int))
    } else {
        seq![s]
    }
}

/// A component a valid identifier may carry.
pub open spec fn valid_component(c: Seq<char>) -> bool {
    c.len() > 0 && c != seq!['.'] && c != seq!['.', '.']
}

/// An identifier the path resolver accepts.
pub open spec fn valid_id(id: Seq<char>) -> bool {
    &&& !id.contains('\\')
    &&& forall|k: int|
        0 <= k < split_slash(id).len() ==> valid_component(#[trigger] split_slash(id)[k])
}

/// The fault of one component; `first` marks the leading component, whose
/// emptiness means an absolute path.
pub open spec fn component_fault(c: Seq<char>, first: bool) -> Option<IdFault> {
    if c == seq!['.', '.'] {
        Some(IdFault::ParentComponent)
    } else if c == seq!['.'] {
        Some(IdFault::CurrentComponent)
    } else if c.len() == 0 {
        if first {
            Some(IdFault::AbsolutePath)
        } else {
            Some(IdFault::EmptyComponent)
        }
    } else {
        None
    }
}

/// The first fault among the components, scanned left to right.
pub open spec fn components_fault(cs: Seq<Seq<char>>, first: bool) -> Option<IdFault>
    decreases cs.len(),
{
    if cs.len() == 0 {
        None
    } else if component_fault(cs[0], first) is Some {
        component_fault(cs[0], first)
    } else {
        components_fault(cs.drop_first(), false)
    }
}

/// What the resolver rejects an identifier for, if anything: a backslash
/// first, then the first bad component.
pub open spec fn id_check(id: Seq<char>) -> Option<IdFault> {
    if id.contains('\\') {
        Some(IdFault::Backslash)
    } else {
        components_fault(split_slash(id), true)
    }
}

/// The scan finds no fault exactly on the valid identifiers.
pub proof fn lemma_id_check_valid(id: Seq<char>)
    ensures
        id_check(id) is None <==> valid_id(id),
{
    if id.contains('\\') {
        let k = choose|k: int| 0 <= k < id.len() && id[k] == '\\';
    } else {
        lemma_components_fault_none(split_slash(id), true);
    }
}

proof fn lemma_components_fault_none(cs: Seq<Seq<char>>, first: bool)
    ensures
        components_fault(cs, first) is None <==> (forall|k: int|
            0 <= k < cs.len() ==> valid_component(#[trigger] cs[k])),
    decreases cs.len(),
{
    if cs.len() > 0 {
        lemma_components_fault_none(cs.drop_first(), false);
        if component_fault(cs[0], first) is None && components_fault(cs.drop_first(), false)
            is None {
            assert forall|k: int| 0 <= k < cs.len() implies valid_component(cs[k]) by {
                if k == 0 {
                    assert(valid_component(cs[0]));
                } else {
                    assert(cs.drop_first()[k - 1] == cs[k]);
                    assert(valid_component(cs.drop_first()[k - 1]));
                }
            }
        } else if component_fault(cs[0], first) is Some {
            assert(!valid_component(cs[0]));
        } else {
            assert(components_fault(cs.drop_first(), false) is Some);
            assert(exists|k: int|
                0 <= k < cs.drop_first().len() && !valid_component(
                    #[trigger] cs.drop_first()[k],
                ));
            let k = choose|k: int|
                0 <= k < cs.drop_first().len() && !valid_component(
                    #[trigger] cs.drop_first()[k],
                );
            assert(cs.drop_first()[k] == cs[k + 1]);
            assert(!valid_component(cs[k + 1]));
        }
    }
}

/// The `.md` suffix.
pub open spec fn md_suffix() -> Seq<char> {
    seq!['.', 'm', 'd']
}

/// Scan the identifier, reporting the first fault.
fn check_id_chars(v: &Vec<char>) -> (r: Option<IdFault>)
    ensures
        r == id_check(v@),
{
    // backslash scan
    let mut i: usize = 0;
    while i < v.len()
        invariant
            0 <= i <= v@.len(),
            forall|j: int| 0 <= j < i ==> v@[j] != '\\',
        decreases v@.len() - i,
    {
        if v[i] == '\\' {
            assert(v@.contains('\\'));
            return Some(IdFault::Backslash);
        }
        i = i + 1;
    }
    assert(!v@.contains('\\'));

    // component scan
    let slash: Vec<char> = vec!['/'];
    proof {
        assert(slash@ =~= seq!['/']);
    }
    let mut rest: Vec<char> = subrange_vec(v, 0, v.len());
    proof {
        assert(rest@ =~= v@);
    }
    let mut first = true;
    loop
        invariant_except_break
            components_fault(split_slash(rest@), first) == components_fault(
                split_slash(v@),
                true,
            ),
            slash@ == seq!['/'],
            !v@.contains('\\'),
        ensures
            components_fault(split_slash(v@), true) is None,
            !v@.contains('\\'),
        decreases rest@.len(),
    {
        let rn = rest.len();
        let (comp, tail, had_slash) = match find_seq(&rest, &slash, 0) {
            Some(i) => {
                proof {
                    assert(found_from(rest@, seq!['/'], 0, i as int));
                    let wit = choose|x: int| found_from(rest@, seq!['/'], 0, x);
                    lemma_found_from_unique(rest@, seq!['/'], 0, wit, i as int);
                }
                let c = subrange_vec(&rest, 0, i);
                let t = subrange_vec(&rest, i + 1, rn);
                (c, t, true)
            },
            None => {
                proof {
                    assert(!(exists|i: int| found_from(rest@, seq!['/'], 0, i))) by {
                        if exists|i: int| found_from(rest@, seq!['/'], 0, i) {
                            let i = choose|i: int| found_from(rest@, seq!['/'], 0, i);
                            assert(!match_at(rest@, seq!['/'], i));
                        }
                    }
                }
                let c = subrange_vec(&rest, 0, rest.len());
                proof {
                    assert(c@ =~= rest@);
                }
                (c, Vec::new(), false)
            },
        };
        let fault = component_fault_exec(&comp, first);
        proof {
            if had_slash {
                assert(split_slash(rest@)[0] == comp@);
                assert(split_slash(rest@).drop_first() =~= split_slash(tail@));
            } else {
                assert(split_slash(rest@) =~= seq![comp@]);
                assert(split_slash(rest@).drop_first() =~= Seq::<Seq<char>>::empty());
                assert(components_fault(Seq::<Seq<char>>::empty(), false) is None);
            }
        }
        match fault {
            Some(f) => {
                return Some(f);
            },
            None => {
                if !had_slash {
                    proof {
                        assert(components_fault(split_slash(rest@), first) is None);
                    }
                    break;
                }
                rest = tail;
                first = false;
            },
        }
    }
    None
}

fn component_fault_exec(c: &Vec<char>, first: bool) -> (r: Option<IdFault>)
    ensures
        r == component_fault(c@, first),
{
    if c.len() == 2 && c[0] == '.' && c[1] == '.' {
        proof {
            assert(c@ =~= seq!['.', '.']);
        }
        Some(IdFault::ParentComponent)
    } else if c.len() == 1 && c[0] == '.' {
        proof {
            assert(c@ =~= seq!['.']);
        }
        Some(IdFault::CurrentComponent)
    } else if c.len() == 0 {
        if first {
            Some(IdFault::AbsolutePath)
        } else {
            Some(IdFault::EmptyComponent)
        }
    } else {
        proof {
            assert(c@ != seq!['.', '.']);
            assert(c@ != seq!['.']);
        }
        None
    }
}

/// Whether the resolver accepts this identifier.
pub fn is_valid_id(id: &str) -> (r: bool)
    ensures
        r == valid_id(id@),
{
    let v = to_char_vec(id);
    proof {
        lemma_id_check_valid(v@);
    }
    match check_id_chars(&v) {
        Some(_) => false,
        None => true,
    }
}

/// Resolve an identifier to its folder-relative file path: the identifier
/// with `.md` appended by raw suffix.  Rejects, with the fault, any
/// identifier with a backslash or an empty, `.` or `..` component; a valid
/// identifier resolves to a path that stays under the folder root.
pub fn note_rel_path(id: &str) -> (r: Result<String, NoteError>)
    ensures
        match r {
            Ok(p) => valid_id(id@) && p@ == id@ + md_suffix(),
            Err(e) => !valid_id(id@) && id_check(id@) is Some && e
                == NoteError::InvalidIdentifier(id_check(id@).unwrap()),
        },
{
    let v = to_char_vec(id);
    proof {
        lemma_id_check_valid(v@);
    }
    match check_id_chars(&v) {
        Some(f) => Err(NoteError::InvalidIdentifier(f)),
        None => {
            let mut out = subrange_vec(&v, 0, v.len());
            out.push('.');
            out.push('m');
            out.push('d');
            proof {
                assert(out@ =~= id@ + md_suffix());
            }
            Ok(from_char_vec(&out))
        },
    }
}

// ---------------------------------------------------------------------------
// From a relative path back to an identifier.
// ---------------------------------------------------------------------------

/// A component that directory scans and indexing keep: not dot-prefixed and
/// not the assets directory.
pub open spec fn visible_component(c: Seq<char>) -> bool {
    c.len() > 0 && c[0] != '.' && c != seq!['a', 's', 's', 'e', 't', 's']
}

/// A directory-entry name the walks descend into: not dot-prefixed and not
/// the assets directory.  An empty name (one that did not convert to text)
/// is kept; its entries carry no identifiers anyway.
pub open spec fn visible_entry_name(name: Seq<char>) -> bool {
    &&& !(name.len() > 0 && name[0] == '.')
    &&& name != seq!['a', 's', 's', 'e', 't', 's']
}

/// Whether a directory entry of this name takes part in listing and
/// indexing; files are always walked, directories only when visible.
pub fn is_visible_entry(name: &str, is_dir: bool) -> (r: bool)
    ensures
        r == (is_dir ==> visible_entry_name(name@)),
{
    if !is_dir {
        return true;
    }
    let v = to_char_vec(name);
    if v.len() == 0 {
        proof {
            assert(name@ != seq!['a', 's', 's', 'e', 't', 's']);
        }
        return true;
    }
    if v[0] == '.' {
        return false;
    }
    let assets: Vec<char> = vec!['a', 's', 's', 'e', 't', 's'];
    proof {
        assert(assets@ =~= seq!['a', 's', 's', 'e', 't', 's']);
    }
    !chars_eq(&v, &assets)
}

/// The identifier of a folder-relative file path: every component visible,
/// the extension exactly `.md`, the stem non-empty; the identifier is the
/// path with the suffix cut off.
pub open spec fn id_of_rel_path(rel: Seq<char>) -> Option<Seq<char>> {
    if (forall|k: int|
        0 <= k < split_slash(rel).len() ==> visible_component(#[trigger] split_slash(rel)[k]))
        && rel.len() > 3 && rel.skip(rel.len() - 3) == md_suffix() {
        Some(rel.take(rel.len() - 3))
    } else {
        None
    }
}

/// Derive the identifier of a folder-relative file path, if the file is a
/// visible markdown note.
pub fn id_from_rel_path(rel: &str) -> (r: Option<String>)
    ensures
        match r {
            Some(id) => id_of_rel_path(rel@) == Some(id@),
            None => id_of_rel_path(rel@) is None,
        },
{
    let v = to_char_vec(rel);
    let slash: Vec<char> = vec!['/'];
    proof {
        assert(slash@ =~= seq!['/']);
    }

    // check every component visible
    let mut rest: Vec<char> = subrange_vec(&v, 0, v.len());
    proof {
        assert(rest@ =~= v@);
    }
    let ghost whole = v@;
    loop
        invariant_except_break
            slash@ == seq!['/'],
            whole == rel@,
            (forall|k: int|
                0 <= k < split_slash(whole).len() ==> visible_component(
                    #[trigger] split_slash(whole)[k],
                )) <==> (forall|k: int|
                0 <= k < split_slash(rest@).len() ==> visible_component(
                    #[trigger] split_slash(rest@)[k],
                )),
        ensures
            forall|k: int|
                0 <= k < split_slash(whole).len() ==> visible_component(
                    #[trigger] split_slash(whole)[k],
                ),
        decreases rest@.len(),
    {
        let rn = rest.len();
        let (comp, tail, had_slash) = match find_seq(&rest, &slash, 0) {
            Some(i) => {
                proof {
                    assert(found_from(rest@, seq!['/'], 0, i as int));
                    let wit = choose|x: int| found_from(rest@, seq!['/'], 0, x);
                    lemma_found_from_unique(rest@, seq!['/'], 0, wit, i as int);
                }
                let c = subrange_vec(&rest, 0, i);
                let t = subrange_vec(&rest, i + 1, rn);
                (c, t, true)
            },
            None => {
                proof {
                    assert(!(exists|i: int| found_from(rest@, seq!['/'], 0, i))) by {
                        if exists|i: int| found_from(rest@, seq!['/'], 0, i) {
                            let i = choose|i: int| found_from(rest@, seq!['/'], 0, i);
                            assert(!match_at(rest@, seq!['/'], i));
                        }
                    }
                }
                let c = subrange_vec(&rest, 0, rest.len());
                proof {
                    assert(c@ =~= rest@);
                }
                (c, Vec::new(), false)
            },
        };
        proof {
            if had_slash {
                assert(split_slash(rest@)[0] == comp@);
                assert(split_slash(rest@).drop_first() =~= split_slash(tail@));
                assert(forall|k: int|
                    1 <= k < split_slash(rest@).len() ==> split_slash(rest@)[k]
                        == #[trigger] split_slash(tail@)[k - 1]);
            } else {
                assert(split_slash(rest@) =~= seq![comp@]);
            }
        }
        let visible = is_component_visible(&comp);
        if !visible {
            proof {
                assert(!visible_component(split_slash(rest@)[0]));
            }
            return None;
        }
        if !had_slash {
            proof {
                assert(forall|k: int|
                    0 <= k < split_slash(rest@).len() ==> visible_component(
                        #[trigger] split_slash(rest@)[k],
                    ));
            }
            break;
        }
        rest = tail;
    }

    // check the `.md` suffix and non-empty stem
    if v.len() <= 3 {
        proof {
            assert(id_of_rel_path(whole) is None);
        }
        return None;
    }
    let n = v.len();
    if v[n - 3] == '.' && v[n - 2] == 'm' && v[n - 1] == 'd' {
        proof {
            assert(v@.skip(n - 3) =~= md_suffix());
        }
        let id = subrange_vec(&v, 0, n - 3);
        proof {
            assert(id@ =~= v@.take(n - 3));
        }
        Some(from_char_vec(&id))
    } else {
        proof {
            assert(v@.skip(n - 3) != md_suffix()) by {
                if v@.skip(n - 3) == md_suffix() {
                    assert(v@.skip(n - 3)[0] == v@[n - 3]);
                    assert(v@.skip(n - 3)[1] == v@[n - 2]);
                    assert(v@.skip(n - 3)[2] == v@[n - 1]);
                }
            }
        }
        None
    }
}

fn is_component_visible(c: &Vec<char>) -> (r: bool)
    ensures
        r == visible_component(c@),
{
    if c.len() == 0 {
        return false;
    }
    if c[0] == '.' {
        return false;
    }
    let assets: Vec<char> = vec!['a', 's', 's', 'e', 't', 's'];
    proof {
        assert(assets@ =~= seq!['a', 's', 's', 'e', 't', 's']);
    }
    if c.len() != 6 {
        proof {
            assert(c@ != seq!['a', 's', 's', 'e', 't', 's']);
        }
        return true;
    }
    let mut k: usize = 0;
    while k < 6
        invariant
            0 <= k <= 6,
            c@.len() == 6,
            c@[0] != '.',
            assets@ == seq!['a', 's', 's', 'e', 't', 's'],
            forall|j: int| 0 <= j < k ==> c@[j] == assets@[j],
        decreases 6 - k,
    {
        if c[k] != assets[k] {
            proof {
                assert(c@ != seq!['a', 's', 's', 'e', 't', 's']);
            }
            return true;
        }
        k = k + 1;
    }
    proof {
        assert(c@ =~= assets@);
    }
    false
}

/// The identifier of an absolute path under `root`: the path must be a
/// strict descendant (`root` plus a separator), and its relative part a
/// visible markdown note.
pub fn id_from_abs_path(root: &str, path: &str) -> (r: Option<String>)
    ensures
        match r {
            Some(id) => path@.len() > root@.len() + 1 && path@.take(root@.len() as int) == root@
                && path@[root@.len() as int] == '/' && id_of_rel_path(
                path@.skip(root@.len() as int + 1),
            ) == Some(id@),
            None => !(path@.len() > root@.len() + 1 && path@.take(root@.len() as int) == root@
                && path@[root@.len() as int] == '/') || id_of_rel_path(
                path@.skip(root@.len() as int + 1),
            ) is None,
        },
{
    let rv = to_char_vec(root);
    let pv = to_char_vec(path);
    let rn = rv.len();
    if pv.len() == 0 || pv.len() - 1 <= rn {
        return None;
    }
    let mut k: usize = 0;
    while k < rn
        invariant
            0 <= k <= rn,
            rn == rv@.len(),
            rv@ == root@,
            pv@ == path@,
            pv@.len() > rn + 1,
            forall|j: int| 0 <= j < k ==> pv@[j] == rv@[j],
        decreases rn - k,
    {
        if pv[k] != rv[k] {
            proof {
                assert(pv@.take(rn as int)[k as int] != rv@[k as int]);
            }
            return None;
        }
        k = k + 1;
    }
    proof {
        assert(pv@.take(rn as int) =~= rv@);
    }
    if pv[rn] != '/' {
        return None;
    }
    let relv = subrange_vec(&pv, rn + 1, pv.len());
    proof {
        assert(relv@ =~= pv@.skip(rn + 1));
    }
    let rel = from_char_vec(&relv);
    id_from_rel_path(rel.as_str())
}

// ---------------------------------------------------------------------------
// Markdown file extensions, for paths arriving from outside (command-line
// arguments, drag and drop).
// ---------------------------------------------------------------------------

/// ASCII letters fold to lower case, everything else stays.
pub open spec fn ascii_lower(c: char) -> char {
    if c == 'A' {
        'a'
    } else if c == 'B' {
        'b'
    } else if c == 'C' {
        'c'
    } else if c == 'D' {
        'd'
    } else if c == 'E' {
        'e'
    } else if c == 'F' {
        'f'
    } else if c == 'G' {
        'g'
    } else if c == 'H' {
        'h'
    } else if c == 'I' {
        'i'
    } else if c == 'J' {
        'j'
    } else if c == 'K' {
        'k'
    } else if c == 'L' {
        'l'
    } else if c == 'M' {
        'm'
    } else if c == 'N' {
        'n'
    } else if c == 'O' {
        'o'
    } else if c == 'P' {
        'p'
    } else if c == 'Q' {
        'q'
    } else if c == 'R' {
        'r'
    } else if c == 'S' {
        's'
    } else if c == 'T' {
        't'
    } else if c == 'U' {
        'u'
    } else if c == 'V' {
        'v'
    } else if c == 'W' {
        'w'
    } else if c == 'X' {
        'x'
    } else if c == 'Y' {
        'y'
    } else if c == 'Z' {
        'z'
    } else {
        c
    }
}

fn ascii_lower_char(c: char) -> (r: char)
    ensures
        r == ascii_lower(c),
{
    if c == 'A' {
        'a'
    } else if c == 'B' {
        'b'
    } else if c == 'C' {
        'c'
    } else if c == 'D' {
        'd'
    } else if c == 'E' {
        'e'
    } else if c == 'F' {
        'f'
    } else if c == 'G' {
        'g'
    } else if c == 'H' {
        'h'
    } else if c == 'I' {
        'i'
    } else if c == 'J' {
        'j'
    } else if c == 'K' {
        'k'
    } else if c == 'L' {
        'l'
    } else if c == 'M' {
        'm'
    } else if c == 'N' {
        'n'
    } else if c == 'O' {
        'o'
    } else if c == 'P' {
        'p'
    } else if c == 'Q' {
        'q'
    } else if c == 'R' {
        'r'
    } else if c == 'S' {
        's'
    } else if c == 'T' {
        't'
    } else if c == 'U' {
        'u'
    } else if c == 'V' {
        'v'
    } else if c == 'W' {
        'w'
    } else if c == 'X' {
        'x'
    } else if c == 'Y' {
        'y'
    } else if c == 'Z' {
        'z'
    } else {
        c
    }
}

/// The extension of a path: what follows the last dot of the last
/// component, provided that dot is not the component's first character.
pub open spec fn extension_of(path: Seq<char>) -> Option<Seq<char>> {
    let f = if crate::strings::has_char(path, '/') {
        let k = choose|k: int| crate::strings::last_index_of(path, '/', k);
        path.skip(k + 1)
    } else {
        path
    };
    if crate::strings::has_char(f, '.') {
        let d = choose|d: int| crate::strings::last_index_of(f, '.', d);
        if d >= 1 {
            Some(f.skip(d + 1))
        } else {
            None
        }
    } else {
        None
    }
}

/// The path's extension, ASCII-folded, is `md` or `markdown`.
pub open spec fn is_md_extension(path: Seq<char>) -> bool {
    match extension_of(path) {
        Some(e) => {
            let l = e.map_values(|c: char| ascii_lower(c));
            l == seq!['m', 'd'] || l == seq!['m', 'a', 'r', 'k', 'd', 'o', 'w', 'n']
        },
        None => false,
    }
}

/// Whether a path names a markdown file, case-insensitively.
pub fn is_markdown_extension(path: &str) -> (r: bool)
    ensures
        r == is_md_extension(path@),
{
    let pv = to_char_vec(path);
    let f = match crate::strings::rfind_char(&pv, '/') {
        Some(k) => {
            proof {
                let wit = choose|w: int| crate::strings::last_index_of(pv@, '/', w);
                crate::strings::lemma_last_index_unique(pv@, '/', wit, k as int);
            }
            let n = pv.len();
            subrange_vec(&pv, k + 1, n)
        },
        None => subrange_vec(&pv, 0, pv.len()),
    };
    proof {
        assert(pv@.subrange(0, pv@.len() as int) =~= pv@);
    }
    let ghost fs = if crate::strings::has_char(path@, '/') {
        let k = choose|k: int| crate::strings::last_index_of(path@, '/', k);
        path@.skip(k + 1)
    } else {
        path@
    };
    proof {
        assert(f@ =~= fs);
    }
    match crate::strings::rfind_char(&f, '.') {
        None => false,
        Some(d) => {
            proof {
                let wit = choose|w: int| crate::strings::last_index_of(f@, '.', w);
                crate::strings::lemma_last_index_unique(f@, '.', wit, d as int);
            }
            if d == 0 {
                return false;
            }
            let fn_len = f.len();
            let ext = subrange_vec(&f, d + 1, fn_len);
            proof {
                assert(ext@ =~= fs.skip(d + 1));
            }
            let mut low: Vec<char> = Vec::new();
            let mut i: usize = 0;
            while i < ext.len()
                invariant
                    0 <= i <= ext@.len(),
                    low@ == ext@.take(i as int).map_values(|c: char| ascii_lower(c)),
                decreases ext@.len() - i,
            {
                low.push(ascii_lower_char(ext[i]));
                proof {
                    assert(low@ =~= ext@.take(i + 1).map_values(|c: char| ascii_lower(c)));
                }
                i = i + 1;
            }
            proof {
                assert(ext@.take(ext@.len() as int) =~= ext@);
            }
            let md: Vec<char> = vec!['m', 'd'];
            let markdown: Vec<char> = vec!['m', 'a', 'r', 'k', 'd', 'o', 'w', 'n'];
            proof {
                assert(md@ =~= seq!['m', 'd']);
                assert(markdown@ =~= seq!['m', 'a', 'r', 'k', 'd', 'o', 'w', 'n']);
            }
            chars_eq(&low, &md) || chars_eq(&low, &markdown)
        },
    }
}


// ---------------------------------------------------------------------------
// Round trip: a valid identifier made of visible components survives
// identifier -> path -> identifier unchanged.
// ---------------------------------------------------------------------------

/// Every component of the identifier takes part in listing and indexing.
pub open spec fn all_components_visible(id: Seq<char>) -> bool {
    forall|k: int|
        0 <= k < split_slash(id).len() ==> visible_component(#[trigger] split_slash(id)[k])
}

/// Appending text without a separator extends the last component and leaves
/// the others alone.
proof fn lemma_split_slash_append(s: Seq<char>, t: Seq<char>)
    requires
        !t.contains('/'),
    ensures
        split_slash(s + t).len() == split_slash(s).len(),
        forall|k: int|
            0 <= k < split_slash(s).len() - 1 ==> #[trigger] split_slash(s + t)[k] == split_slash(
                s,
            )[k],
        split_slash(s + t).last() == split_slash(s).last() + t,
    decreases s.len(),
{
    let st = s + t;
    if exists|i: int| found_from(s, seq!['/'], 0, i) {
        let i = choose|i: int| found_from(s, seq!['/'], 0, i);
        assert(match_at(st, seq!['/'], i)) by {
            assert(s.subrange(i, i + 1)[0] == s[i]);
            assert(s[i] == '/');
            assert(st.subrange(i, i + 1) =~= seq![s[i]]);
        }
        assert(forall|j: int| 0 <= j < i ==> !(#[trigger] match_at(st, seq!['/'], j))) by {
            if exists|j: int| 0 <= j < i && match_at(st, seq!['/'], j) {
                let j = choose|j: int| 0 <= j < i && match_at(st, seq!['/'], j);
                assert(st.subrange(j, j + 1) =~= seq![s[j]]);
                assert(match_at(s, seq!['/'], j)) by {
                    assert(s.subrange(j, j + 1) =~= seq![s[j]]);
                }
                assert(!match_at(s, seq!['/'], j));
            }
        }
        assert(found_from(st, seq!['/'], 0, i));
        crate::strings::lemma_first_match_is(st, seq!['/'], 0, i);
        crate::strings::lemma_first_match_is(s, seq!['/'], 0, i);
        assert(st.subrange(0, i) =~= s.subrange(0, i));
        assert(st.subrange(i + 1, st.len() as int) =~= s.subrange(i + 1, s.len() as int) + t);
        lemma_split_slash_append(s.subrange(i + 1, s.len() as int), t);
        let inner = split_slash(s.subrange(i + 1, s.len() as int) + t);
        assert(split_slash(st) =~= seq![s.subrange(0, i)] + inner);
        assert(split_slash(s) =~= seq![s.subrange(0, i)] + split_slash(
            s.subrange(i + 1, s.len() as int),
        ));
    } else {
        assert(forall|j: int| !(#[trigger] match_at(s, seq!['/'], j))) by {
            if exists|j: int| match_at(s, seq!['/'], j) {
                let j0 = choose|j: int| match_at(s, seq!['/'], j);
                crate::strings::lemma_has_first_match(s, seq!['/'], 0, j0);
                let w = choose|i: int| found_from(s, seq!['/'], 0, i);
            }
        }
        assert(!(exists|i: int| found_from(st, seq!['/'], 0, i))) by {
            if exists|i: int| found_from(st, seq!['/'], 0, i) {
                let i = choose|i: int| found_from(st, seq!['/'], 0, i);
                assert(st.subrange(i, i + 1)[0] == st[i]);
                assert(st[i] == '/');
                if i < s.len() {
                    assert(s.subrange(i, i + 1) =~= seq![st[i]]);
                    assert(match_at(s, seq!['/'], i));
                } else {
                    assert(t[i - s.len()] == '/');
                    assert(t.contains('/'));
                }
            }
        }
        assert(split_slash(st) =~= seq![st]);
        assert(split_slash(s) =~= seq![s]);
    }
}

/// Identifier -> relative path -> identifier is the identity on valid,
/// all-visible identifiers; dotted stems survive because the extension is
/// appended and cut as a raw suffix.
pub proof fn lemma_codec_round_trip(id: Seq<char>)
    requires
        valid_id(id),
        all_components_visible(id),
    ensures
        id_of_rel_path(id + md_suffix()) == Some(id),
{
    let rel = id + md_suffix();
    assert(!md_suffix().contains('/')) by {
        if md_suffix().contains('/') {
            let k = choose|k: int| 0 <= k < 3 && md_suffix()[k] == '/';
        }
    }
    lemma_split_slash_append(id, md_suffix());
    let cs = split_slash(id);
    let cs2 = split_slash(rel);
    assert(cs.len() > 0) by {
        if exists|i: int| found_from(id, seq!['/'], 0, i) {
        }
    }
    assert(forall|k: int| 0 <= k < cs2.len() ==> visible_component(#[trigger] cs2[k])) by {
        assert(forall|k: int| 0 <= k < cs.len() - 1 ==> #[trigger] cs2[k] == cs[k]);
        let lastc = cs.last();
        let last2 = cs2.last();
        assert(visible_component(lastc));
        assert(last2 == lastc + md_suffix());
        assert(last2.len() > 0 && last2[0] != '.') by {
            assert(last2[0] == lastc[0]);
        }
        assert(last2 != seq!['a', 's', 's', 'e', 't', 's']) by {
            if last2 == seq!['a', 's', 's', 'e', 't', 's'] {
                assert(last2.last() == 's');
                assert(last2.last() == 'd');
            }
        }
        assert(forall|k: int| 0 <= k < cs2.len() - 1 ==> visible_component(#[trigger] cs2[k]));
    }
    assert(rel.len() > 3);
    assert(rel.skip(rel.len() - 3) =~= md_suffix());
    assert(rel.take(rel.len() - 3) =~= id);
}

} // verus!
