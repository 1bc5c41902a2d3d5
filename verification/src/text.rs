use vstd::prelude::*;

use crate::strings::all_blank;
use crate::strings::find_seq;
use crate::strings::found_from;
use crate::strings::from_char_vec;
use crate::strings::is_all_blank;
use crate::strings::is_blank;
use crate::strings::is_blank_char;
use crate::strings::has_char;
use crate::strings::last_index_of;
use crate::strings::lemma_last_index_unique;
use crate::strings::lines_spec;
use crate::strings::lines_vec;
use crate::strings::lemma_found_from_unique;
use crate::strings::match_at;
use crate::strings::push_all;
use crate::strings::push_range;
use crate::strings::rfind_char;
use crate::strings::starts_with_spec;
use crate::strings::starts_with_vec;
use crate::strings::subrange_vec;
use crate::strings::to_char_vec;
use crate::strings::trim_chars;
use crate::strings::trim_spec;
use crate::strings::trim_start_spec;

verus! {

// ---------------------------------------------------------------------------
// Emptiness.
// ---------------------------------------------------------------------------

/// True when the text has no visible content (only whitespace, no-break
/// spaces and zero-width no-break spaces).
pub fn is_effectively_empty(s: &str) -> (r: bool)
    ensures
        r == all_blank(s@),
{
    let v = to_char_vec(s);
    is_all_blank(&v)
}

// ---------------------------------------------------------------------------
// Frontmatter.
//
// A leading block delimited by a line of three hyphens is preserved on disk
// but excluded from title and preview derivation.
// ---------------------------------------------------------------------------

/// The content with a leading frontmatter block removed; content without a
/// well-formed leading block is returned unchanged.
pub open spec fn strip_frontmatter_spec(s: Seq<char>) -> Seq<char> {
    let t = trim_start_spec(s);
    if starts_with_spec(t, seq!['-', '-', '-']) {
        let rest = t.skip(3);
        if exists|e: int| found_from(rest, seq!['\n', '-', '-', '-'], 0, e) {
            let e = choose|e: int| found_from(rest, seq!['\n', '-', '-', '-'], 0, e);
            let after = rest.skip(e + 4);
            if starts_with_spec(after, seq!['\r', '\n']) {
                after.skip(2)
            } else if starts_with_spec(after, seq!['\n']) {
                after.skip(1)
            } else {
                after
            }
        } else {
            s
        }
    } else {
        s
    }
}

/// Remove a leading frontmatter block from `v`.
pub fn strip_frontmatter_chars(v: &Vec<char>) -> (r: Vec<char>)
    ensures
        r@ == strip_frontmatter_spec(v@),
{
    let open_delim: Vec<char> = vec!['-', '-', '-'];
    let close_delim: Vec<char> = vec!['\n', '-', '-', '-'];
    let crlf: Vec<char> = vec!['\r', '\n'];
    let lf: Vec<char> = vec!['\n'];
    proof {
        assert(open_delim@ =~= seq!['-', '-', '-']);
        assert(close_delim@ =~= seq!['\n', '-', '-', '-']);
        assert(crlf@ =~= seq!['\r', '\n']);
        assert(lf@ =~= seq!['\n']);
    }

    // drop leading blanks
    let mut a: usize = 0;
    while a < v.len() && is_blank_char(v[a])
        invariant
            0 <= a <= v@.len(),
            forall|j: int| 0 <= j < a ==> is_blank(v@[j]),
        decreases v@.len() - a,
    {
        a = a + 1;
    }
    let t = subrange_vec(v, a, v.len());
    proof {
        crate::strings::lemma_trim_start_at(v@, a as int);
    }

    if !starts_with_vec(&t, &open_delim) {
        proof {
            assert(v@.subrange(0, v@.len() as int) =~= v@);
        }
        return subrange_vec(v, 0, v.len());
    }
    let rest = subrange_vec(&t, 3, t.len());
    proof {
        assert(rest@ =~= t@.skip(3));
    }
    match find_seq(&rest, &close_delim, 0) {
        None => {
            proof {
                assert(!(exists|e: int| found_from(rest@, seq!['\n', '-', '-', '-'], 0, e))) by {
                    if exists|e: int| found_from(rest@, seq!['\n', '-', '-', '-'], 0, e) {
                        let e = choose|e: int| found_from(rest@, seq!['\n', '-', '-', '-'], 0, e);
                        assert(!match_at(rest@, seq!['\n', '-', '-', '-'], e));
                    }
                }
                assert(v@.subrange(0, v@.len() as int) =~= v@);
            }
            subrange_vec(v, 0, v.len())
        },
        Some(e) => {
            proof {
                assert(found_from(rest@, seq!['\n', '-', '-', '-'], 0, e as int));
                let wit = choose|w: int| found_from(rest@, seq!['\n', '-', '-', '-'], 0, w);
                lemma_found_from_unique(rest@, seq!['\n', '-', '-', '-'], 0, wit, e as int);
            }
            let after = subrange_vec(&rest, e + 4, rest.len());
            proof {
                assert(after@ =~= rest@.skip(e + 4));
            }
            if starts_with_vec(&after, &crlf) {
                let r = subrange_vec(&after, 2, after.len());
                proof {
                    assert(r@ =~= after@.skip(2));
                }
                r
            } else if starts_with_vec(&after, &lf) {
                let r = subrange_vec(&after, 1, after.len());
                proof {
                    assert(r@ =~= after@.skip(1));
                }
                r
            } else {
                after
            }
        },
    }
}

// ---------------------------------------------------------------------------
// Title derivation.
// ---------------------------------------------------------------------------

/// The fallback title for content with no usable line.
pub open spec fn untitled() -> Seq<char> {
    seq!['U', 'n', 't', 'i', 't', 'l', 'e', 'd']
}

/// The title derived from the given lines: the first `# ` heading with a
/// non-blank remainder wins; otherwise the first non-blank line, cut to 50
/// characters; otherwise "Untitled".
pub open spec fn title_from_lines(ls: Seq<Seq<char>>) -> Seq<char>
    decreases ls.len(),
{
    if ls.len() == 0 {
        untitled()
    } else {
        let tr = trim_spec(ls[0]);
        if starts_with_spec(tr, seq!['#', ' ']) && !all_blank(trim_spec(tr.skip(2))) {
            trim_spec(tr.skip(2))
        } else if !all_blank(tr) {
            if tr.len() <= 50 {
                tr
            } else {
                tr.take(50)
            }
        } else {
            title_from_lines(ls.drop_first())
        }
    }
}

/// The title of a note's content: frontmatter is stripped first.
pub open spec fn extract_title_spec(s: Seq<char>) -> Seq<char> {
    title_from_lines(lines_spec(strip_frontmatter_spec(s)))
}

/// Derive the title from a note's content.
pub fn extract_title_chars(v: &Vec<char>) -> (r: Vec<char>)
    ensures
        r@ == extract_title_spec(v@),
{
    let body = strip_frontmatter_chars(v);
    let ls = lines_vec(&body);
    let heading: Vec<char> = vec!['#', ' '];
    proof {
        assert(ls.deep_view().skip(0) =~= ls.deep_view());
    }
    let mut i: usize = 0;
    while i < ls.len()
        invariant
            0 <= i <= ls@.len(),
            heading@ == seq!['#', ' '],
            title_from_lines(ls.deep_view().skip(i as int)) == title_from_lines(ls.deep_view()),
            title_from_lines(ls.deep_view()) == extract_title_spec(v@),
        decreases ls@.len() - i,
    {
        proof {
            assert(ls.deep_view().skip(i as int).drop_first() =~= ls.deep_view().skip(i + 1));
            assert(ls.deep_view().skip(i as int)[0] == ls@[i as int].deep_view());
            assert(ls@[i as int].deep_view() =~= ls@[i as int]@);
        }
        let tr = trim_chars(&ls[i]);
        if starts_with_vec(&tr, &heading) {
            let rest = subrange_vec(&tr, 2, tr.len());
            proof {
                assert(rest@ =~= tr@.skip(2));
            }
            let cand = trim_chars(&rest);
            if !is_all_blank(&cand) {
                return cand;
            }
        }
        if !is_all_blank(&tr) {
            if tr.len() <= 50 {
                return tr;
            }
            return subrange_vec(&tr, 0, 50);
        }
        i = i + 1;
    }
    proof {
        assert(ls.deep_view().skip(i as int) =~= Seq::<Seq<char>>::empty());
    }
    let mut out: Vec<char> = Vec::new();
    out.push('U');
    out.push('n');
    out.push('t');
    out.push('i');
    out.push('t');
    out.push('l');
    out.push('e');
    out.push('d');
    proof {
        assert(out@ =~= untitled());
    }
    out
}

/// Derive the title from a note's content.
pub fn extract_title(content: &str) -> (r: String)
    ensures
        r@ == extract_title_spec(content@),
{
    let v = to_char_vec(content);
    let t = extract_title_chars(&v);
    from_char_vec(&t)
}

// ---------------------------------------------------------------------------
// Filename sanitization.
// ---------------------------------------------------------------------------

/// Characters that survive sanitization (zero-width and no-break spaces are
/// dropped).
pub open spec fn keeps_in_filename(c: char) -> bool {
    c != '\u{00A0}' && c != '\u{FEFF}'
}

/// Characters a filesystem leaf name may not carry become hyphens.
pub open spec fn filename_map(c: char) -> char {
    if c == '/' || c == '\\' || c == ':' || c == '*' || c == '?' || c == '"' || c == '<' || c
        == '>' || c == '|' {
        '-'
    } else {
        c
    }
}

/// The filtered-and-mapped body of a leaf name: droppable characters are
/// removed, disallowed ones become hyphens.
pub open spec fn sanitize_core(s: Seq<char>) -> Seq<char>
    decreases s.len(),
{
    if s.len() == 0 {
        s
    } else {
        let rest = sanitize_core(s.drop_last());
        if keeps_in_filename(s.last()) {
            rest.push(filename_map(s.last()))
        } else {
            rest
        }
    }
}

/// A title turned into a filesystem-safe leaf name; a blank result falls
/// back to "Untitled".
pub open spec fn sanitize_filename_spec(s: Seq<char>) -> Seq<char> {
    let tr = trim_spec(sanitize_core(s));
    if tr.len() == 0 || all_blank(tr) {
        untitled()
    } else {
        tr
    }
}

fn filename_map_char(c: char) -> (r: char)
    ensures
        r == filename_map(c),
{
    if c == '/' || c == '\\' || c == ':' || c == '*' || c == '?' || c == '"' || c == '<' || c
        == '>' || c == '|' {
        '-'
    } else {
        c
    }
}

/// Sanitize a title into a leaf name.
pub fn sanitize_filename_chars(v: &Vec<char>) -> (r: Vec<char>)
    ensures
        r@ == sanitize_filename_spec(v@),
{
    let mut mapped: Vec<char> = Vec::new();
    let mut i: usize = 0;
    while i < v.len()
        invariant
            0 <= i <= v@.len(),
            mapped@ == sanitize_core(v@.take(i as int)),
        decreases v@.len() - i,
    {
        let c = v[i];
        proof {
            let nxt = v@.take(i + 1);
            assert(nxt.drop_last() =~= v@.take(i as int));
            assert(nxt.last() == v@[i as int]);
        }
        if !(c == '\u{00A0}' || c == '\u{FEFF}') {
            mapped.push(filename_map_char(c));
        }
        i = i + 1;
    }
    proof {
        assert(v@.take(v@.len() as int) =~= v@);
    }
    let tr = trim_chars(&mapped);
    if tr.len() == 0 || is_all_blank(&tr) {
        let mut out: Vec<char> = Vec::new();
        out.push('U');
        out.push('n');
        out.push('t');
        out.push('i');
        out.push('t');
        out.push('l');
        out.push('e');
        out.push('d');
        proof {
            assert(out@ =~= untitled());
        }
        out
    } else {
        tr
    }
}

/// Sanitize a title into a leaf name.
pub fn sanitize_filename(title: &str) -> (r: String)
    ensures
        r@ == sanitize_filename_spec(title@),
{
    let v = to_char_vec(title);
    let t = sanitize_filename_chars(&v);
    from_char_vec(&t)
}

// ---------------------------------------------------------------------------
// A display title humanized from an identifier: its last path component,
// with dashes and underscores as spaces, each word's first character in
// upper case.
// ---------------------------------------------------------------------------

/// What `char::to_uppercase` yields for a character.
pub uninterp spec fn upper_of(c: char) -> Seq<char>;

/// Relies on `char::to_uppercase`: the Unicode uppercase mapping of the
/// character, which depends on the character alone and yields at least one
/// character.
#[verifier::external_body]
pub fn char_uppercase(c: char) -> (r: String)
    ensures
        r@ == upper_of(c),
        r@.len() >= 1,
{
    c.to_uppercase().to_string()
}

/// Dashes and underscores become spaces.
pub open spec fn humanize_map(c: char) -> char {
    if c == '-' || c == '_' {
        ' '
    } else {
        c
    }
}

/// The longest blank-free prefix.
pub open spec fn take_word(s: Seq<char>) -> Seq<char>
    decreases s.len(),
{
    if s.len() == 0 || is_blank(s[0]) {
        Seq::empty()
    } else {
        seq![s[0]] + take_word(s.drop_first())
    }
}

/// A word is never longer than its text, and non-empty when the text starts
/// with a non-blank character.
pub proof fn lemma_take_word_len(s: Seq<char>)
    ensures
        take_word(s).len() <= s.len(),
        s.len() > 0 && !is_blank(s[0]) ==> take_word(s).len() >= 1,
    decreases s.len(),
{
    if s.len() > 0 && !is_blank(s[0]) {
        lemma_take_word_len(s.drop_first());
    }
}

/// The blank-separated words of the text.
pub open spec fn split_blank(s: Seq<char>) -> Seq<Seq<char>>
    decreases s.len(),
    via split_blank_decreases
{
    if s.len() == 0 {
        Seq::empty()
    } else if is_blank(s[0]) {
        split_blank(s.drop_first())
    } else {
        seq![take_word(s)] + split_blank(s.skip(take_word(s).len() as int))
    }
}

#[via_fn]
proof fn split_blank_decreases(s: Seq<char>) {
    if s.len() > 0 && !is_blank(s[0]) {
        lemma_take_word_len(s);
    }
}

/// A word with its first character in upper case.
pub open spec fn title_case_word(w: Seq<char>) -> Seq<char> {
    if w.len() == 0 {
        w
    } else {
        upper_of(w[0]) + w.drop_first()
    }
}

/// Words joined by single spaces.
pub open spec fn join_spaces(ws: Seq<Seq<char>>) -> Seq<char>
    decreases ws.len(),
{
    if ws.len() == 0 {
        Seq::empty()
    } else if ws.len() == 1 {
        ws[0]
    } else {
        ws[0] + seq![' '] + join_spaces(ws.drop_first())
    }
}

proof fn lemma_join_snoc(ws: Seq<Seq<char>>, w: Seq<char>)
    ensures
        join_spaces(ws.push(w)) == if ws.len() == 0 {
            w
        } else {
            join_spaces(ws) + seq![' '] + w
        },
    decreases ws.len(),
{
    let p = ws.push(w);
    if ws.len() == 0 {
        assert(p.len() == 1);
        assert(p[0] == w);
    } else {
        assert(p[0] == ws[0]);
        assert(p.drop_first() =~= ws.drop_first().push(w));
        lemma_join_snoc(ws.drop_first(), w);
        if ws.len() == 1 {
            assert(join_spaces(ws) == ws[0]);
        }
    }
}

proof fn lemma_take_word_at(s: Seq<char>, j: int)
    requires
        0 <= j <= s.len(),
        forall|i: int| 0 <= i < j ==> !is_blank(s[i]),
        j < s.len() ==> is_blank(s[j]),
    ensures
        take_word(s) == s.take(j),
    decreases j,
{
    if j == 0 {
        assert(s.take(0) =~= Seq::<char>::empty());
    } else {
        let t = s.drop_first();
        assert(forall|i: int| 0 <= i < j - 1 ==> !is_blank(#[trigger] t[i]));
        lemma_take_word_at(t, j - 1);
        assert(take_word(s) =~= seq![s[0]] + t.take(j - 1));
        assert(seq![s[0]] + t.take(j - 1) =~= s.take(j));
    }
}

/// The display title of an identifier.
pub open spec fn extract_title_from_id_spec(id: Seq<char>) -> Seq<char> {
    let f = if has_char(id, '/') {
        let k = choose|k: int| last_index_of(id, '/', k);
        id.skip(k + 1)
    } else {
        id
    };
    join_spaces(split_blank(f.map_values(|c: char| humanize_map(c))).map_values(
        |w: Seq<char>| title_case_word(w),
    ))
}

/// Humanize an identifier into a display title.
pub fn extract_title_from_id(id: &str) -> (r: String)
    ensures
        r@ == extract_title_from_id_spec(id@),
{
    let v = to_char_vec(id);
    let n = v.len();
    let fname = match rfind_char(&v, '/') {
        Some(k) => {
            proof {
                let wit = choose|w: int| last_index_of(v@, '/', w);
                lemma_last_index_unique(v@, '/', wit, k as int);
            }
            subrange_vec(&v, k + 1, n)
        },
        None => subrange_vec(&v, 0, v.len()),
    };
    let ghost fspec = if has_char(id@, '/') {
        let k = choose|k: int| last_index_of(id@, '/', k);
        id@.skip(k + 1)
    } else {
        id@
    };
    proof {
        assert(fname@ =~= fspec);
    }

    // humanize separators
    let mut hv: Vec<char> = Vec::new();
    let mut i: usize = 0;
    while i < fname.len()
        invariant
            0 <= i <= fname@.len(),
            hv@ == fname@.take(i as int).map_values(|c: char| humanize_map(c)),
        decreases fname@.len() - i,
    {
        let c = fname[i];
        if c == '-' || c == '_' {
            hv.push(' ');
        } else {
            hv.push(c);
        }
        proof {
            assert(hv@ =~= fname@.take(i + 1).map_values(|c: char| humanize_map(c)));
        }
        i = i + 1;
    }
    proof {
        assert(fname@.take(fname@.len() as int) =~= fname@);
    }
    let ghost target = join_spaces(split_blank(hv@).map_values(
        |w: Seq<char>| title_case_word(w),
    ));

    // split into words, title-case, join
    let mut out: Vec<char> = Vec::new();
    let ghost mut done_words: Seq<Seq<char>> = Seq::empty();
    let mut first = true;
    let mut cur: Vec<char> = hv;
    loop
        invariant_except_break
            out@ == join_spaces(done_words.map_values(|w: Seq<char>| title_case_word(w))),
            join_spaces(
                (done_words + split_blank(cur@)).map_values(|w: Seq<char>| title_case_word(w)),
            ) == target,
            first == (done_words.len() == 0),
        ensures
            out@ == target,
        decreases cur@.len(),
    {
        if cur.len() == 0 {
            proof {
                assert(done_words + split_blank(cur@) =~= done_words);
            }
            break;
        }
        if is_blank_char(cur[0]) {
            let rest = subrange_vec(&cur, 1, cur.len());
            proof {
                assert(rest@ =~= cur@.drop_first());
            }
            cur = rest;
        } else {
            // scan the word
            let mut j: usize = 0;
            while j < cur.len() && !is_blank_char(cur[j])
                invariant
                    0 <= j <= cur@.len(),
                    forall|i2: int| 0 <= i2 < j ==> !is_blank(cur@[i2]),
                decreases cur@.len() - j,
            {
                j = j + 1;
            }
            proof {
                lemma_take_word_at(cur@, j as int);
            }
            let w = subrange_vec(&cur, 0, j);
            let rest = subrange_vec(&cur, j, cur.len());
            proof {
                assert(w@ =~= cur@.take(j as int));
                assert(rest@ =~= cur@.skip(j as int));
                assert(split_blank(cur@) == seq![w@] + split_blank(rest@));
            }
            let ghost before_words = done_words;
            let ghost before_out = out@;
            if first {
                first = false;
            } else {
                out.push(' ');
            }
            let up = char_uppercase(w[0]);
            let upv = to_char_vec(up.as_str());
            push_all(&mut out, &upv);
            push_range(&mut out, &w, 1, w.len());
            proof {
                done_words = before_words.push(w@);
                assert(title_case_word(w@) =~= upper_of(w@[0]) + w@.drop_first());
                assert(w@.subrange(1, w@.len() as int) =~= w@.drop_first());
                lemma_join_snoc(
                    before_words.map_values(|x: Seq<char>| title_case_word(x)),
                    title_case_word(w@),
                );
                assert(before_words.push(w@).map_values(|x: Seq<char>| title_case_word(x))
                    =~= before_words.map_values(|x: Seq<char>| title_case_word(x)).push(
                    title_case_word(w@),
                ));
                if before_words.len() == 0 {
                    assert(before_out =~= Seq::<char>::empty());
                    assert(out@ =~= title_case_word(w@));
                } else {
                    assert(out@ =~= before_out + seq![' '] + title_case_word(w@));
                }
                assert((before_words.push(w@) + split_blank(rest@)) =~= (before_words
                    + split_blank(cur@)));
            }
            cur = rest;
        }
    }
    from_char_vec(&out)
}

} // verus!
