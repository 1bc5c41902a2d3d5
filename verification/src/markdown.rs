use vstd::prelude::*;

use crate::strings::find_seq;
use crate::strings::first_match_from;
use crate::strings::found_from;
use crate::strings::from_char_vec;
use crate::strings::has_match_from;
use crate::strings::lemma_first_match_is;
use crate::strings::lemma_no_match_from;
use crate::strings::is_blank;
use crate::strings::is_blank_char;
use crate::strings::lemma_found_from_unique;
use crate::strings::lemma_trim_start_at;
use crate::strings::lines_spec;
use crate::strings::lines_vec;
use crate::strings::match_at;
use crate::strings::push_range;
use crate::strings::subrange_vec;
use crate::strings::to_char_vec;
use crate::strings::trim_chars;
use crate::strings::trim_spec;
use crate::strings::trim_start_spec;
use crate::text::strip_frontmatter_chars;
use crate::text::strip_frontmatter_spec;

verus! {

// ---------------------------------------------------------------------------
// Markdown stripping.
//
// Preview text drops the formatting of a markdown line: heading markers,
// strikethrough, bold, inline code, image and link syntax collapsed to their
// display text, italic, task-list and list markers.  The passes run in a
// fixed order and each keeps unmatched delimiters verbatim; nested and
// overlapping markup resolves by "first pair found wins", bold before
// italic.
// ---------------------------------------------------------------------------
// Heading markers.
/// The text with its leading run of `#` removed.
pub open spec fn drop_hashes(s: Seq<char>) -> Seq<char>
    decreases s.len(),
{
    if s.len() > 0 && s[0] == '#' {
        drop_hashes(s.drop_first())
    } else {
        s
    }
}

proof fn lemma_drop_hashes_at(s: Seq<char>, i: int)
    requires
        0 <= i <= s.len(),
        forall|j: int| 0 <= j < i ==> s[j] == '#',
        i < s.len() ==> s[i] != '#',
    ensures
        drop_hashes(s) == s.subrange(i, s.len() as int),
    decreases i,
{
    if i == 0 {
        assert(s.subrange(0, s.len() as int) =~= s);
    } else {
        let t = s.drop_first();
        assert(forall|j: int| 0 <= j < i - 1 ==> #[trigger] t[j] == '#');
        lemma_drop_hashes_at(t, i - 1);
        assert(t.subrange(i - 1, t.len() as int) =~= s.subrange(i, s.len() as int));
    }
}

/// If the line (after leading blanks) starts with `#`, drop the run of `#`
/// and the blanks after it; otherwise leave the line untouched.
pub open spec fn strip_heading_spec(s: Seq<char>) -> Seq<char> {
    let t = trim_start_spec(s);
    if t.len() > 0 && t[0] == '#' {
        trim_start_spec(drop_hashes(t))
    } else {
        s
    }
}

/// Remove a leading heading marker.
pub fn strip_heading(v: Vec<char>) -> (r: Vec<char>)
    ensures
        r@ == strip_heading_spec(v@),
{
    let n = v.len();
    let mut a: usize = 0;
    while a < n && is_blank_char(v[a])
        invariant
            0 <= a <= n,
            n == v@.len(),
            forall|j: int| 0 <= j < a ==> is_blank(v@[j]),
        decreases n - a,
    {
        a = a + 1;
    }
    proof {
        lemma_trim_start_at(v@, a as int);
    }
    if a < n && v[a] == '#' {
        let ghost t = v@.subrange(a as int, n as int);
        let mut b: usize = a;
        while b < n && v[b] == '#'
            invariant
                a <= b <= n,
                n == v@.len(),
                forall|j: int| a <= j < b ==> v@[j] == '#',
            decreases n - b,
        {
            b = b + 1;
        }
        proof {
            assert(forall|j: int| 0 <= j < b - a ==> #[trigger] t[j] == '#');
            lemma_drop_hashes_at(t, b - a);
            assert(t.subrange(b - a, t.len() as int) =~= v@.subrange(b as int, n as int));
        }
        let ghost d = v@.subrange(b as int, n as int);
        let mut c: usize = b;
        while c < n && is_blank_char(v[c])
            invariant
                b <= c <= n,
                n == v@.len(),
                forall|j: int| b <= j < c ==> is_blank(v@[j]),
            decreases n - c,
        {
            c = c + 1;
        }
        proof {
            assert(forall|j: int| 0 <= j < c - b ==> is_blank(#[trigger] d[j]));
            lemma_trim_start_at(d, c - b);
            assert(d.subrange(c - b, d.len() as int) =~= v@.subrange(c as int, n as int));
        }
        subrange_vec(&v, c, n)
    } else {
        v
    }
}

// ---------------------------------------------------------------------------
// Paired delimiters: strikethrough, bold, inline code, italic.
// ---------------------------------------------------------------------------

/// One find-and-splice step: the first occurrence of `pat` and the next one
/// after it are removed, keeping the text between them.  `need_inner` makes
/// adjacent delimiters end the pass instead (the italic behaviour).
pub open spec fn pair_step(s: Seq<char>, pat: Seq<char>, need_inner: bool) -> Option<Seq<char>> {
    let w = pat.len() as int;
    if has_match_from(s, pat, 0) {
        let i = first_match_from(s, pat, 0);
        if has_match_from(s, pat, i + w) {
            let j = first_match_from(s, pat, i + w);
            if !need_inner || j > i + w {
                Some(s.subrange(0, i) + s.subrange(i + w, j) + s.subrange(j + w, s.len() as int))
            } else {
                None
            }
        } else {
            None
        }
    } else {
        None
    }
}

/// Repeat `pair_step` until no further pair is found.
pub open spec fn strip_pairs(s: Seq<char>, pat: Seq<char>, need_inner: bool) -> Seq<char>
    decreases s.len(),
{
    if pat.len() == 0 {
        s
    } else {
        match pair_step(s, pat, need_inner) {
            Some(t) => strip_pairs(t, pat, need_inner),
            None => s,
        }
    }
}

/// Remove every closed `pat`…`pat` pair, keeping the inner text.
pub fn strip_pairs_vec(s: Vec<char>, pat: &Vec<char>, need_inner: bool) -> (r: Vec<char>)
    requires
        pat@.len() >= 1,
    ensures
        r@ == strip_pairs(s@, pat@, need_inner),
{
    let mut cur = s;
    loop
        invariant
            pat@.len() >= 1,
            strip_pairs(cur@, pat@, need_inner) == strip_pairs(s@, pat@, need_inner),
        ensures
            cur@ == strip_pairs(s@, pat@, need_inner),
        decreases cur@.len(),
    {
        let w = pat.len();
        let n = cur.len();
        match find_seq(&cur, pat, 0) {
            None => {
                proof {
                    lemma_no_match_from(cur@, pat@, 0);
                    assert(strip_pairs(cur@, pat@, need_inner) == cur@);
                }
                break;
            },
            Some(i) => {
                proof {
                    lemma_first_match_is(cur@, pat@, 0, i as int);
                }
                match find_seq(&cur, pat, i + w) {
                    None => {
                        proof {
                            lemma_no_match_from(cur@, pat@, i + w);
                            assert(strip_pairs(cur@, pat@, need_inner) == cur@);
                        }
                        break;
                    },
                    Some(j) => {
                        proof {
                            lemma_first_match_is(cur@, pat@, i + w, j as int);
                        }
                        if need_inner && j == i + w {
                            proof {
                                assert(strip_pairs(cur@, pat@, need_inner) == cur@);
                            }
                            break;
                        }
                        let ghost prev = cur@;
                        let mut nxt: Vec<char> = subrange_vec(&cur, 0, i);
                        push_range(&mut nxt, &cur, i + w, j);
                        push_range(&mut nxt, &cur, j + w, cur.len());
                        proof {
                            assert(pair_step(prev, pat@, need_inner) == Some(nxt@));
                            assert(strip_pairs(prev, pat@, need_inner) == strip_pairs(
                                nxt@,
                                pat@,
                                need_inner,
                            ));
                        }
                        cur = nxt;
                    },
                }
            },
        }
    }
    cur
}

// ---------------------------------------------------------------------------
// Images and links: `![alt](url)` and `[text](url)` collapse to their
// display text.  The display text may be empty for an image but not for a
// link; the target must be non-empty.
// ---------------------------------------------------------------------------

/// The opening characters of the construct stand at `i`.
pub open spec fn bracket_prefix_ok(s: Seq<char>, i: int, img: bool) -> bool {
    if img {
        0 <= i && i + 1 < s.len() && s[i] == '!' && s[i + 1] == '['
    } else {
        0 <= i && i < s.len() && s[i] == '['
    }
}

/// Index of the display text's first character, relative to `i`.
pub open spec fn bracket_open(img: bool) -> int {
    if img {
        2int
    } else {
        1int
    }
}

/// The positions of the closing `]` and `)` of a construct starting at `i`,
/// if one starts there.
pub open spec fn bracket_parts(s: Seq<char>, i: int, img: bool) -> Option<(int, int)> {
    if bracket_prefix_ok(s, i, img) {
        let o = i + bracket_open(img);
        if has_match_from(s, seq![']'], o) {
            let a = first_match_from(s, seq![']'], o);
            if (img || a > o) && a + 1 < s.len() && s[a + 1] == '(' {
                if has_match_from(s, seq![')'], a + 2) {
                    let b = first_match_from(s, seq![')'], a + 2);
                    if b > a + 2 {
                        Some((a, b))
                    } else {
                        None
                    }
                } else {
                    None
                }
            } else {
                None
            }
        } else {
            None
        }
    } else {
        None
    }
}

/// `i` is the first position where a construct starts.
pub open spec fn bracket_found(s: Seq<char>, i: int, img: bool) -> bool {
    &&& bracket_parts(s, i, img) is Some
    &&& forall|j: int| 0 <= j < i ==> bracket_parts(s, j, img) is None
}

/// Replace every construct by its display text, scanning left to right.
pub open spec fn strip_brackets(s: Seq<char>, img: bool) -> Seq<char>
    decreases s.len(),
{
    if exists|i: int| bracket_found(s, i, img) {
        let i = choose|i: int| bracket_found(s, i, img);
        let ab = bracket_parts(s, i, img).unwrap();
        s.subrange(0, i) + s.subrange(i + bracket_open(img), ab.0) + strip_brackets(
            s.subrange(ab.1 + 1, s.len() as int),
            img,
        )
    } else {
        s
    }
}

/// The parts of a construct starting exactly at `i`, if any.
fn bracket_parts_at(s: &Vec<char>, i: usize, img: bool) -> (r: Option<(usize, usize)>)
    ensures
        match r {
            Some(ab) => bracket_parts(s@, i as int, img) == Some((ab.0 as int, ab.1 as int)),
            None => bracket_parts(s@, i as int, img) is None,
        },
{
    let close_sq: Vec<char> = vec![']'];
    let close_par: Vec<char> = vec![')'];
    proof {
        assert(close_sq@ =~= seq![']']);
        assert(close_par@ =~= seq![')']);
    }
    let ok = if img {
        i < s.len() && i + 1 < s.len() && s[i] == '!' && s[i + 1] == '['
    } else {
        i < s.len() && s[i] == '['
    };
    if !ok {
        return None;
    }
    let o = if img {
        i + 2
    } else {
        i + 1
    };
    match find_seq(s, &close_sq, o) {
        None => {
            proof {
                lemma_no_match_from(s@, seq![']'], o as int);
            }
            None
        },
        Some(a) => {
            proof {
                lemma_first_match_is(s@, seq![']'], o as int, a as int);
            }
            if !((img || a > o) && a + 1 < s.len() && s[a + 1] == '(') {
                return None;
            }
            match find_seq(s, &close_par, a + 2) {
                None => {
                    proof {
                        lemma_no_match_from(s@, seq![')'], a + 2);
                    }
                    None
                },
                Some(b) => {
                    proof {
                        lemma_first_match_is(s@, seq![')'], a + 2, b as int);
                    }
                    if b > a + 2 {
                        Some((a, b))
                    } else {
                        None
                    }
                },
            }
        },
    }
}

/// The first construct of the text, if any.
fn find_bracket(s: &Vec<char>, img: bool) -> (r: Option<(usize, usize, usize)>)
    ensures
        match r {
            Some(iab) => {
                &&& bracket_found(s@, iab.0 as int, img)
                &&& bracket_parts(s@, iab.0 as int, img) == Some((iab.1 as int, iab.2 as int))
            },
            None => forall|i: int| !bracket_found(s@, i, img),
        },
{
    let n = s.len();
    let mut i: usize = 0;
    while i < n
        invariant
            0 <= i <= n,
            n == s@.len(),
            forall|j: int| 0 <= j < i ==> bracket_parts(s@, j, img) is None,
        decreases n - i,
    {
        match bracket_parts_at(s, i, img) {
            Some(ab) => {
                return Some((i, ab.0, ab.1));
            },
            None => {
                i = i + 1;
            },
        }
    }
    proof {
        assert(forall|i: int| !bracket_found(s@, i, img)) by {
            if exists|i: int| bracket_found(s@, i, img) {
                let i = choose|i: int| bracket_found(s@, i, img);
                if 0 <= i < s@.len() {
                    assert(bracket_parts(s@, i, img) is None);
                } else {
                    assert(!bracket_prefix_ok(s@, i, img));
                }
            }
        }
    }
    None
}

/// Collapse every image or link construct to its display text.
pub fn strip_brackets_vec(s: Vec<char>, img: bool) -> (r: Vec<char>)
    ensures
        r@ == strip_brackets(s@, img),
{
    let mut out: Vec<char> = Vec::new();
    let mut cur = s;
    loop
        invariant_except_break
            out@ + strip_brackets(cur@, img) == strip_brackets(s@, img),
        ensures
            out@ == strip_brackets(s@, img),
        decreases cur@.len(),
    {
        let n = cur.len();
        match find_bracket(&cur, img) {
            None => {
                let ghost remainder = cur@;
                let mut tail = cur;
                out.append(&mut tail);
                proof {
                    assert(strip_brackets(remainder, img) == remainder);
                }
                break;
            },
            Some(iab) => {
                let (i, a, b) = iab;
                proof {
                    let wit = choose|x: int| bracket_found(cur@, x, img);
                    assert(bracket_found(cur@, i as int, img));
                    if wit < i {
                        assert(bracket_parts(cur@, wit, img) is None);
                    }
                    if i < wit {
                        assert(bracket_parts(cur@, i as int, img) is None);
                    }
                    assert(wit == i as int);
                }
                let o = if img {
                    i + 2
                } else {
                    i + 1
                };
                let ghost prev = cur@;
                push_range(&mut out, &cur, 0, i);
                push_range(&mut out, &cur, o, a);
                let tail = subrange_vec(&cur, b + 1, cur.len());
                proof {
                    assert(strip_brackets(prev, img) == prev.subrange(0, i as int) + prev.subrange(
                        i + bracket_open(img),
                        a as int,
                    ) + strip_brackets(prev.subrange(b + 1, prev.len() as int), img));
                    assert(out@ + strip_brackets(tail@, img) =~= strip_brackets(s@, img));
                }
                cur = tail;
            },
        }
    }
    out
}

// ---------------------------------------------------------------------------
// Fixed-text removal: task-list markers.
// ---------------------------------------------------------------------------

/// Remove every (non-overlapping, left-to-right) occurrence of `pat`.
pub open spec fn remove_all(s: Seq<char>, pat: Seq<char>) -> Seq<char>
    decreases s.len(),
{
    if pat.len() == 0 {
        s
    } else if exists|i: int| found_from(s, pat, 0, i) {
        let i = choose|i: int| found_from(s, pat, 0, i);
        s.subrange(0, i) + remove_all(s.subrange(i + pat.len(), s.len() as int), pat)
    } else {
        s
    }
}

/// Remove every occurrence of `pat`.
pub fn remove_all_vec(s: Vec<char>, pat: &Vec<char>) -> (r: Vec<char>)
    requires
        pat@.len() >= 1,
    ensures
        r@ == remove_all(s@, pat@),
{
    let w = pat.len();
    let mut out: Vec<char> = Vec::new();
    let mut cur = s;
    loop
        invariant_except_break
            pat@.len() == w,
            w >= 1,
            out@ + remove_all(cur@, pat@) == remove_all(s@, pat@),
        ensures
            out@ == remove_all(s@, pat@),
        decreases cur@.len(),
    {
        let n = cur.len();
        match find_seq(&cur, pat, 0) {
            None => {
                proof {
                    assert(!(exists|i: int| found_from(cur@, pat@, 0, i))) by {
                        if exists|i: int| found_from(cur@, pat@, 0, i) {
                            let i = choose|i: int| found_from(cur@, pat@, 0, i);
                            assert(!match_at(cur@, pat@, i));
                        }
                    }
                    assert(remove_all(cur@, pat@) == cur@);
                }
                let mut tail = cur;
                out.append(&mut tail);
                break;
            },
            Some(i) => {
                proof {
                    assert(found_from(cur@, pat@, 0, i as int));
                    let wit = choose|x: int| found_from(cur@, pat@, 0, x);
                    lemma_found_from_unique(cur@, pat@, 0, wit, i as int);
                }
                let ghost prev = cur@;
                push_range(&mut out, &cur, 0, i);
                let tail = subrange_vec(&cur, i + w, cur.len());
                proof {
                    assert(remove_all(prev, pat@) == prev.subrange(0, i as int) + remove_all(
                        prev.subrange(i + w, prev.len() as int),
                        pat@,
                    ));
                    assert(out@ + remove_all(tail@, pat@) =~= remove_all(s@, pat@));
                }
                cur = tail;
            },
        }
    }
    out
}

// ---------------------------------------------------------------------------
// Leading list markers: `- `, `+ `, `* ` or `1. ` (after optional blanks),
// together with the blanks that follow them.
// ---------------------------------------------------------------------------

/// An ASCII decimal digit.
pub open spec fn is_digit(c: char) -> bool {
    c == '0' || c == '1' || c == '2' || c == '3' || c == '4' || c == '5' || c == '6' || c == '7'
        || c == '8' || c == '9'
}

fn is_digit_char(c: char) -> (r: bool)
    ensures
        r == is_digit(c),
{
    c == '0' || c == '1' || c == '2' || c == '3' || c == '4' || c == '5' || c == '6' || c == '7'
        || c == '8' || c == '9'
}

/// The text with its leading run of digits removed.
pub open spec fn drop_digits(s: Seq<char>) -> Seq<char>
    decreases s.len(),
{
    if s.len() > 0 && is_digit(s[0]) {
        drop_digits(s.drop_first())
    } else {
        s
    }
}

proof fn lemma_drop_digits_at(s: Seq<char>, i: int)
    requires
        0 <= i <= s.len(),
        forall|j: int| 0 <= j < i ==> is_digit(s[j]),
        i < s.len() ==> !is_digit(s[i]),
    ensures
        drop_digits(s) == s.subrange(i, s.len() as int),
    decreases i,
{
    if i == 0 {
        assert(s.subrange(0, s.len() as int) =~= s);
    } else {
        let t = s.drop_first();
        assert(forall|j: int| 0 <= j < i - 1 ==> is_digit(#[trigger] t[j]));
        lemma_drop_digits_at(t, i - 1);
        assert(t.subrange(i - 1, t.len() as int) =~= s.subrange(i, s.len() as int));
    }
}

/// What remains after a list marker and at least one blank; the text itself
/// when no marker-plus-blank prefix is there.
pub open spec fn strip_list_marker_spec(s: Seq<char>) -> Seq<char> {
    let t = trim_start_spec(s);
    if t.len() > 0 && (t[0] == '-' || t[0] == '+' || t[0] == '*') {
        let rest = t.drop_first();
        if trim_start_spec(rest).len() < rest.len() {
            trim_start_spec(rest)
        } else {
            s
        }
    } else if t.len() > 0 && is_digit(t[0]) {
        let after = drop_digits(t);
        if after.len() > 0 && after[0] == '.' {
            let rest = after.drop_first();
            if trim_start_spec(rest).len() < rest.len() {
                trim_start_spec(rest)
            } else {
                s
            }
        } else {
            s
        }
    } else {
        s
    }
}

/// Remove a leading list marker, with the blanks around it.
pub fn strip_list_marker(v: Vec<char>) -> (r: Vec<char>)
    ensures
        r@ == strip_list_marker_spec(v@),
{
    let n = v.len();
    let mut a: usize = 0;
    while a < n && is_blank_char(v[a])
        invariant
            0 <= a <= n,
            n == v@.len(),
            forall|j: int| 0 <= j < a ==> is_blank(v@[j]),
        decreases n - a,
    {
        a = a + 1;
    }
    proof {
        lemma_trim_start_at(v@, a as int);
    }
    let ghost t = v@.subrange(a as int, n as int);
    if a < n && (v[a] == '-' || v[a] == '+' || v[a] == '*') {
        let ghost rest = t.drop_first();
        proof {
            assert(rest =~= v@.subrange(a + 1, n as int));
        }
        if a + 1 < n && is_blank_char(v[a + 1]) {
            let mut c: usize = a + 1;
            while c < n && is_blank_char(v[c])
                invariant
                    a + 1 <= c <= n,
                    n == v@.len(),
                    forall|j: int| a + 1 <= j < c ==> is_blank(v@[j]),
                decreases n - c,
            {
                c = c + 1;
            }
            proof {
                assert(forall|j: int| 0 <= j < c - (a + 1) ==> is_blank(#[trigger] rest[j]));
                lemma_trim_start_at(rest, c - (a + 1));
                assert(rest.subrange(c - (a + 1), rest.len() as int) =~= v@.subrange(
                    c as int,
                    n as int,
                ));
            }
            subrange_vec(&v, c, n)
        } else {
            proof {
                lemma_trim_start_at(rest, 0);
            }
            v
        }
    } else if a < n && is_digit_char(v[a]) {
        let mut b: usize = a;
        while b < n && is_digit_char(v[b])
            invariant
                a <= b <= n,
                n == v@.len(),
                forall|j: int| a <= j < b ==> is_digit(v@[j]),
            decreases n - b,
        {
            b = b + 1;
        }
        proof {
            assert(forall|j: int| 0 <= j < b - a ==> is_digit(#[trigger] t[j]));
            lemma_drop_digits_at(t, b - a);
            assert(t.subrange(b - a, t.len() as int) =~= v@.subrange(b as int, n as int));
        }
        let ghost after = v@.subrange(b as int, n as int);
        if b < n && v[b] == '.' {
            let ghost rest = after.drop_first();
            proof {
                assert(rest =~= v@.subrange(b + 1, n as int));
            }
            if b + 1 < n && is_blank_char(v[b + 1]) {
                let mut c: usize = b + 1;
                while c < n && is_blank_char(v[c])
                    invariant
                        b + 1 <= c <= n,
                        n == v@.len(),
                        forall|j: int| b + 1 <= j < c ==> is_blank(v@[j]),
                    decreases n - c,
                {
                    c = c + 1;
                }
                proof {
                    assert(forall|j: int| 0 <= j < c - (b + 1) ==> is_blank(#[trigger] rest[j]));
                    lemma_trim_start_at(rest, c - (b + 1));
                    assert(rest.subrange(c - (b + 1), rest.len() as int) =~= v@.subrange(
                        c as int,
                        n as int,
                    ));
                }
                subrange_vec(&v, c, n)
            } else {
                proof {
                    lemma_trim_start_at(rest, 0);
                }
                v
            }
        } else {
            v
        }
    } else {
        v
    }
}

// ---------------------------------------------------------------------------
// The whole pipeline.
// ---------------------------------------------------------------------------

/// A line with markdown formatting stripped, in the fixed pass order:
/// heading markers, strikethrough, bold (both spellings), inline code,
/// images, links, italic (both spellings), task-list markers, a leading
/// list marker, and a final trim.
pub open spec fn strip_markdown_spec(s: Seq<char>) -> Seq<char> {
    let s1 = strip_heading_spec(s);
    let s2 = strip_pairs(s1, seq!['~', '~'], false);
    let s3 = strip_pairs(s2, seq!['*', '*'], false);
    let s4 = strip_pairs(s3, seq!['_', '_'], false);
    let s5 = strip_pairs(s4, seq!['`'], false);
    let s6 = strip_brackets(s5, true);
    let s7 = strip_brackets(s6, false);
    let s8 = strip_pairs(s7, seq!['*'], true);
    let s9 = strip_pairs(s8, seq!['_'], true);
    let s10 = remove_all(s9, seq!['-', ' ', '[', ' ', ']', ' ']);
    let s11 = remove_all(s10, seq!['-', ' ', '[', 'x', ']', ' ']);
    let s12 = remove_all(s11, seq!['-', ' ', '[', 'X', ']', ' ']);
    trim_spec(strip_list_marker_spec(s12))
}

/// Strip markdown formatting from one line of text.
pub fn strip_markdown_chars(v: Vec<char>) -> (r: Vec<char>)
    ensures
        r@ == strip_markdown_spec(v@),
{
    let tilde2: Vec<char> = vec!['~', '~'];
    let star2: Vec<char> = vec!['*', '*'];
    let under2: Vec<char> = vec!['_', '_'];
    let tick: Vec<char> = vec!['`'];
    let star: Vec<char> = vec!['*'];
    let under: Vec<char> = vec!['_'];
    let task_open: Vec<char> = vec!['-', ' ', '[', ' ', ']', ' '];
    let task_x: Vec<char> = vec!['-', ' ', '[', 'x', ']', ' '];
    let task_upper_x: Vec<char> = vec!['-', ' ', '[', 'X', ']', ' '];
    proof {
        assert(tilde2@ =~= seq!['~', '~']);
        assert(star2@ =~= seq!['*', '*']);
        assert(under2@ =~= seq!['_', '_']);
        assert(tick@ =~= seq!['`']);
        assert(star@ =~= seq!['*']);
        assert(under@ =~= seq!['_']);
        assert(task_open@ =~= seq!['-', ' ', '[', ' ', ']', ' ']);
        assert(task_x@ =~= seq!['-', ' ', '[', 'x', ']', ' ']);
        assert(task_upper_x@ =~= seq!['-', ' ', '[', 'X', ']', ' ']);
    }
    let s1 = strip_heading(v);
    let s2 = strip_pairs_vec(s1, &tilde2, false);
    let s3 = strip_pairs_vec(s2, &star2, false);
    let s4 = strip_pairs_vec(s3, &under2, false);
    let s5 = strip_pairs_vec(s4, &tick, false);
    let s6 = strip_brackets_vec(s5, true);
    let s7 = strip_brackets_vec(s6, false);
    let s8 = strip_pairs_vec(s7, &star, true);
    let s9 = strip_pairs_vec(s8, &under, true);
    let s10 = remove_all_vec(s9, &task_open);
    let s11 = remove_all_vec(s10, &task_x);
    let s12 = remove_all_vec(s11, &task_upper_x);
    let s13 = strip_list_marker(s12);
    trim_chars(&s13)
}

/// Strip markdown formatting from one line of text.
pub fn strip_markdown(text: &str) -> (r: String)
    ensures
        r@ == strip_markdown_spec(text@),
{
    let v = to_char_vec(text);
    let out = strip_markdown_chars(v);
    from_char_vec(&out)
}

// ---------------------------------------------------------------------------
// Preview.
// ---------------------------------------------------------------------------

/// The accumulator after one line: a non-empty line whose stripped text is
/// non-empty is appended, space-separated.
pub open spec fn preview_append(acc: Seq<char>, line: Seq<char>) -> Seq<char> {
    let tr = trim_spec(line);
    let stripped = strip_markdown_spec(tr);
    if tr.len() > 0 && stripped.len() > 0 {
        if acc.len() == 0 {
            stripped
        } else {
            acc + seq![' '] + stripped
        }
    } else {
        acc
    }
}

/// Fold the lines into a preview, stopping once 200 characters are reached.
pub open spec fn preview_lines(ls: Seq<Seq<char>>, acc: Seq<char>) -> Seq<char>
    decreases ls.len(),
{
    if ls.len() == 0 {
        acc
    } else {
        let acc2 = preview_append(acc, ls[0]);
        if acc2.len() >= 200 {
            acc2
        } else {
            preview_lines(ls.drop_first(), acc2)
        }
    }
}

/// The preview of a note's content: frontmatter and the title line are
/// skipped, the rest is stripped and joined, cut to 200 characters.
pub open spec fn generate_preview_spec(s: Seq<char>) -> Seq<char> {
    let ls = lines_spec(strip_frontmatter_spec(s));
    let p = if ls.len() == 0 {
        Seq::<char>::empty()
    } else {
        preview_lines(ls.drop_first(), Seq::<char>::empty())
    };
    if p.len() <= 200 {
        p
    } else {
        p.take(200)
    }
}

/// Build the preview of a note's content.
pub fn generate_preview_chars(v: &Vec<char>) -> (r: Vec<char>)
    ensures
        r@ == generate_preview_spec(v@),
{
    let body = strip_frontmatter_chars(v);
    let ls = lines_vec(&body);
    let mut acc: Vec<char> = Vec::new();
    if ls.len() == 0 {
        return acc;
    }
    let ghost target = preview_lines(ls.deep_view().drop_first(), Seq::<char>::empty());
    proof {
        assert(ls.deep_view().skip(1) =~= ls.deep_view().drop_first());
    }
    let mut i: usize = 1;
    loop
        invariant_except_break
            1 <= i <= ls@.len(),
            acc@.len() < 200,
            preview_lines(ls.deep_view().skip(i as int), acc@) == target,
        ensures
            acc@ == target,
        decreases ls@.len() - i,
    {
        if i >= ls.len() {
            proof {
                assert(ls.deep_view().skip(i as int) =~= Seq::<Seq<char>>::empty());
            }
            break;
        }
        let ghost line = ls@[i as int]@;
        let ghost acc_before = acc@;
        proof {
            assert(ls.deep_view().skip(i as int).drop_first() =~= ls.deep_view().skip(i + 1));
            assert(ls.deep_view().skip(i as int)[0] == ls@[i as int].deep_view());
            assert(ls@[i as int].deep_view() =~= line);
        }
        let tr = trim_chars(&ls[i]);
        if tr.len() > 0 {
            let stripped = strip_markdown_chars(tr);
            if stripped.len() > 0 {
                if acc.len() == 0 {
                    acc = stripped;
                } else {
                    let ghost before = acc@;
                    acc.push(' ');
                    let mut tail = stripped;
                    let ghost tailv = tail@;
                    acc.append(&mut tail);
                    proof {
                        assert(acc@ =~= before + seq![' '] + tailv);
                    }
                }
            }
        }
        proof {
            assert(acc@ == preview_append(acc_before, line));
        }
        if acc.len() >= 200 {
            proof {
                assert(preview_lines(ls.deep_view().skip(i as int), acc_before) == acc@);
            }
            break;
        }
        i = i + 1;
    }
    if acc.len() <= 200 {
        acc
    } else {
        subrange_vec(&acc, 0, 200)
    }
}

/// Build the preview of a note's content.
pub fn generate_preview(content: &str) -> (r: String)
    ensures
        r@ == generate_preview_spec(content@),
{
    let v = to_char_vec(content);
    let out = generate_preview_chars(&v);
    from_char_vec(&out)
}

} // verus!
