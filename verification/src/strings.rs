use vstd::prelude::*;

verus! {

// ---------------------------------------------------------------------------
// Conversions between `str`/`String` and `Vec<char>`.
//
// All text logic in this crate works on character vectors, whose view is the
// same `Seq<char>` that a `String` views to, so contracts stated over either
// form compose.
// ---------------------------------------------------------------------------

/// The characters of a string, gathered through `str::chars`.
pub fn to_char_vec(s: &str) -> (r: Vec<char>)
    ensures
        r@ == s@,
{
    broadcast use vstd::string::group_string_axioms;

    let mut out: Vec<char> = Vec::new();
    let mut it = s.chars();
    loop
        invariant_except_break
            vstd::std_specs::iter::IteratorSpec::obeys_prophetic_iter_laws(&it),
            out@ + vstd::std_specs::iter::IteratorSpec::remaining(&it) == s@,
            vstd::std_specs::iter::IteratorSpec::decrease(&it) is Some,
        ensures
            out@ == s@,
        decreases vstd::std_specs::iter::IteratorSpec::decrease(&it).unwrap(),
    {
        match it.next() {
            Some(c) => {
                out.push(c);
                proof {
                    assert(out@ + vstd::std_specs::iter::IteratorSpec::remaining(&it) =~= s@);
                }
            },
            None => {
                proof {
                    assert(out@ =~= s@);
                }
                break;
            },
        }
    }
    out
}

/// Relies on std's `Iterator::collect` for `String` from chars: the string
/// holds exactly the given characters, in order.
#[verifier::external_body]
pub fn from_char_vec(v: &Vec<char>) -> (r: String)
    ensures
        r@ == v@,
{
    v.iter().collect()
}

// ---------------------------------------------------------------------------
// Blank characters and trimming.
// ---------------------------------------------------------------------------

/// Characters treated as blank when trimming and when testing text for
/// emptiness: every Unicode white-space character (the `White_Space`
/// property, what `char::is_whitespace` accepts) plus the zero-width
/// no-break space that pasted text often carries.
pub open spec fn is_blank(c: char) -> bool {
    ||| c == '\u{0009}'
    ||| c == '\u{000A}'
    ||| c == '\u{000B}'
    ||| c == '\u{000C}'
    ||| c == '\u{000D}'
    ||| c == '\u{0020}'
    ||| c == '\u{0085}'
    ||| c == '\u{00A0}'
    ||| c == '\u{1680}'
    ||| c == '\u{2000}'
    ||| c == '\u{2001}'
    ||| c == '\u{2002}'
    ||| c == '\u{2003}'
    ||| c == '\u{2004}'
    ||| c == '\u{2005}'
    ||| c == '\u{2006}'
    ||| c == '\u{2007}'
    ||| c == '\u{2008}'
    ||| c == '\u{2009}'
    ||| c == '\u{200A}'
    ||| c == '\u{2028}'
    ||| c == '\u{2029}'
    ||| c == '\u{202F}'
    ||| c == '\u{205F}'
    ||| c == '\u{3000}'
    ||| c == '\u{FEFF}'
}

pub fn is_blank_char(c: char) -> (r: bool)
    ensures
        r == is_blank(c),
{
    c == '\u{0009}' || c == '\u{000A}' || c == '\u{000B}' || c == '\u{000C}' || c == '\u{000D}'
        || c == '\u{0020}' || c == '\u{0085}' || c == '\u{00A0}' || c == '\u{1680}' || c
        == '\u{2000}' || c == '\u{2001}' || c == '\u{2002}' || c == '\u{2003}' || c == '\u{2004}'
        || c == '\u{2005}' || c == '\u{2006}' || c == '\u{2007}' || c == '\u{2008}' || c
        == '\u{2009}' || c == '\u{200A}' || c == '\u{2028}' || c == '\u{2029}' || c == '\u{202F}'
        || c == '\u{205F}' || c == '\u{3000}' || c == '\u{FEFF}'
}

/// Every character of the text is blank.
pub open spec fn all_blank(s: Seq<char>) -> bool {
    forall|i: int| 0 <= i < s.len() ==> is_blank(s[i])
}

/// The text with leading blanks removed.
pub open spec fn trim_start_spec(s: Seq<char>) -> Seq<char>
    decreases s.len(),
{
    if s.len() > 0 && is_blank(s[0]) {
        trim_start_spec(s.drop_first())
    } else {
        s
    }
}

/// The text with trailing blanks removed.
pub open spec fn trim_end_spec(s: Seq<char>) -> Seq<char>
    decreases s.len(),
{
    if s.len() > 0 && is_blank(s.last()) {
        trim_end_spec(s.drop_last())
    } else {
        s
    }
}

/// The text with leading and trailing blanks removed.
pub open spec fn trim_spec(s: Seq<char>) -> Seq<char> {
    trim_end_spec(trim_start_spec(s))
}

pub proof fn lemma_trim_start_at(s: Seq<char>, i: int)
    requires
        0 <= i <= s.len(),
        forall|j: int| 0 <= j < i ==> is_blank(s[j]),
        i < s.len() ==> !is_blank(s[i]),
    ensures
        trim_start_spec(s) == s.subrange(i, s.len() as int),
    decreases i,
{
    if i == 0 {
        if s.len() > 0 && is_blank(s[0]) {
            assert(false);
        }
        assert(s.subrange(0, s.len() as int) =~= s);
    } else {
        let t = s.drop_first();
        assert(forall|j: int| 0 <= j < i - 1 ==> is_blank(#[trigger] t[j]));
        lemma_trim_start_at(t, i - 1);
        assert(t.subrange(i - 1, t.len() as int) =~= s.subrange(i, s.len() as int));
    }
}

pub proof fn lemma_trim_end_at(s: Seq<char>, i: int)
    requires
        0 <= i <= s.len(),
        forall|j: int| i <= j < s.len() ==> is_blank(s[j]),
        i > 0 ==> !is_blank(s[i - 1]),
    ensures
        trim_end_spec(s) == s.subrange(0, i),
    decreases s.len() - i,
{
    if i == s.len() {
        if s.len() > 0 && is_blank(s.last()) {
            assert(false);
        }
        assert(s.subrange(0, s.len() as int) =~= s);
    } else {
        let t = s.drop_last();
        lemma_trim_end_at(t, i);
        assert(t.subrange(0, i) =~= s.subrange(0, i));
    }
}

/// Trim `v` to the blank-free core, as `str::trim` does.
pub fn trim_chars(v: &Vec<char>) -> (r: Vec<char>)
    ensures
        r@ == trim_spec(v@),
{
    let n = v.len();
    let mut a: usize = 0;
    while a < n && is_blank_char(v[a])
        invariant
            0 <= a <= n,
            n == v.len(),
            forall|j: int| 0 <= j < a ==> is_blank(v@[j]),
        decreases n - a,
    {
        a = a + 1;
    }
    proof {
        lemma_trim_start_at(v@, a as int);
    }
    let mut b: usize = n;
    while b > a && is_blank_char(v[b - 1])
        invariant
            a <= b <= n,
            n == v.len(),
            forall|j: int| b <= j < n ==> is_blank(v@[j]),
        decreases b,
    {
        b = b - 1;
    }
    proof {
        let st = v@.subrange(a as int, n as int);
        assert(forall|j: int| b - a <= j < st.len() ==> is_blank(#[trigger] st[j]));
        lemma_trim_end_at(st, b - a);
        assert(st.subrange(0, b - a) =~= v@.subrange(a as int, b as int));
    }
    subrange_vec(v, a, b)
}

/// True when the string has no visible content.
pub fn is_all_blank(v: &Vec<char>) -> (r: bool)
    ensures
        r == all_blank(v@),
{
    let mut i: usize = 0;
    while i < v.len()
        invariant
            0 <= i <= v.len(),
            forall|j: int| 0 <= j < i ==> is_blank(v@[j]),
        decreases v.len() - i,
    {
        if !is_blank_char(v[i]) {
            return false;
        }
        i = i + 1;
    }
    true
}

// ---------------------------------------------------------------------------
// Subranges and concatenation.
// ---------------------------------------------------------------------------

/// Copy of the characters in `[a, b)`.
pub fn subrange_vec(v: &Vec<char>, a: usize, b: usize) -> (r: Vec<char>)
    requires
        a <= b <= v@.len(),
    ensures
        r@ == v@.subrange(a as int, b as int),
{
    let mut out: Vec<char> = Vec::new();
    let mut i: usize = a;
    while i < b
        invariant
            a <= i <= b <= v@.len(),
            out@ == v@.subrange(a as int, i as int),
        decreases b - i,
    {
        out.push(v[i]);
        proof {
            assert(out@ =~= v@.subrange(a as int, i + 1 as int));
        }
        i = i + 1;
    }
    out
}

/// Append the characters of `v` in `[a, b)` to `out`.
pub fn push_range(out: &mut Vec<char>, v: &Vec<char>, a: usize, b: usize)
    requires
        a <= b <= v@.len(),
    ensures
        final(out)@ == old(out)@ + v@.subrange(a as int, b as int),
{
    let mut i: usize = a;
    while i < b
        invariant
            a <= i <= b <= v@.len(),
            out@ == old(out)@ + v@.subrange(a as int, i as int),
        decreases b - i,
    {
        out.push(v[i]);
        proof {
            assert(out@ =~= old(out)@ + v@.subrange(a as int, i + 1 as int));
        }
        i = i + 1;
    }
}

/// Append every character of `v` to `out`.
pub fn push_all(out: &mut Vec<char>, v: &Vec<char>)
    ensures
        final(out)@ == old(out)@ + v@,
{
    push_range(out, v, 0, v.len());
    proof {
        assert(v@.subrange(0, v@.len() as int) =~= v@);
    }
}


/// Character-for-character equality of two texts.
pub fn chars_eq(a: &Vec<char>, b: &Vec<char>) -> (r: bool)
    ensures
        r == (a@ == b@),
{
    if a.len() != b.len() {
        return false;
    }
    let mut i: usize = 0;
    while i < a.len()
        invariant
            0 <= i <= a@.len(),
            a@.len() == b@.len(),
            forall|j: int| 0 <= j < i ==> a@[j] == b@[j],
        decreases a@.len() - i,
    {
        if a[i] != b[i] {
            return false;
        }
        i = i + 1;
    }
    proof {
        assert(a@ =~= b@);
    }
    true
}

// ---------------------------------------------------------------------------
// Pattern search.
// ---------------------------------------------------------------------------

/// `pat` occurs in `s` starting at `i`.
pub open spec fn match_at(s: Seq<char>, pat: Seq<char>, i: int) -> bool {
    &&& 0 <= i
    &&& i + pat.len() <= s.len()
    &&& s.subrange(i, i + pat.len()) == pat
}

/// `i` is the first occurrence of `pat` in `s` at or after `from`.
pub open spec fn found_from(s: Seq<char>, pat: Seq<char>, from: int, i: int) -> bool {
    &&& match_at(s, pat, i)
    &&& from <= i
    &&& forall|j: int| from <= j < i ==> !match_at(s, pat, j)
}

/// `pat` occurs somewhere in `s`.
pub open spec fn contains_seq(s: Seq<char>, pat: Seq<char>) -> bool {
    exists|i: int| match_at(s, pat, i)
}

/// `pat` occurs in `s` at or after `from`.
pub open spec fn has_match_from(s: Seq<char>, pat: Seq<char>, from: int) -> bool {
    exists|i: int| found_from(s, pat, from, i)
}

/// The first occurrence of `pat` in `s` at or after `from`.
pub open spec fn first_match_from(s: Seq<char>, pat: Seq<char>, from: int) -> int {
    choose|i: int| found_from(s, pat, from, i)
}

/// A found occurrence pins `first_match_from` down.
pub proof fn lemma_first_match_is(s: Seq<char>, pat: Seq<char>, from: int, i: int)
    requires
        found_from(s, pat, from, i),
    ensures
        has_match_from(s, pat, from),
        first_match_from(s, pat, from) == i,
{
    assert(has_match_from(s, pat, from));
    let w = first_match_from(s, pat, from);
    lemma_found_from_unique(s, pat, from, w, i);
}

/// Any occurrence at or after `from` means there is a first one.
pub proof fn lemma_has_first_match(s: Seq<char>, pat: Seq<char>, from: int, j0: int)
    requires
        from <= j0,
        match_at(s, pat, j0),
    ensures
        has_match_from(s, pat, from),
    decreases j0 - from,
{
    if exists|j: int| from <= j < j0 && match_at(s, pat, j) {
        let j = choose|j: int| from <= j < j0 && match_at(s, pat, j);
        lemma_has_first_match(s, pat, from, j);
    } else {
        assert(found_from(s, pat, from, j0));
    }
}

/// No occurrence anywhere at or after `from` refutes `has_match_from`.
pub proof fn lemma_no_match_from(s: Seq<char>, pat: Seq<char>, from: int)
    requires
        forall|j: int| from <= j ==> !match_at(s, pat, j),
    ensures
        !has_match_from(s, pat, from),
{
    if has_match_from(s, pat, from) {
        let i = choose|i: int| found_from(s, pat, from, i);
        assert(!match_at(s, pat, i));
    }
}

/// The first occurrence is unique.
pub proof fn lemma_found_from_unique(s: Seq<char>, pat: Seq<char>, from: int, i1: int, i2: int)
    requires
        found_from(s, pat, from, i1),
        found_from(s, pat, from, i2),
    ensures
        i1 == i2,
{
    if i1 < i2 {
        assert(!match_at(s, pat, i1));
    }
    if i2 < i1 {
        assert(!match_at(s, pat, i2));
    }
}

/// Whether `pat` occurs at position `i` of `s`.
pub fn is_match_at(s: &Vec<char>, pat: &Vec<char>, i: usize) -> (r: bool)
    requires
        i + pat@.len() <= s@.len(),
    ensures
        r == match_at(s@, pat@, i as int),
{
    let n = s.len();
    let mut k: usize = 0;
    while k < pat.len()
        invariant
            0 <= k <= pat@.len(),
            i + pat@.len() <= s@.len(),
            n == s@.len(),
            forall|j: int| 0 <= j < k ==> s@[i + j] == pat@[j],
        decreases pat@.len() - k,
    {
        if s[i + k] != pat[k] {
            proof {
                let sub = s@.subrange(i as int, i + pat@.len());
                assert(sub[k as int] != pat@[k as int]);
            }
            return false;
        }
        k = k + 1;
    }
    proof {
        assert(s@.subrange(i as int, i + pat@.len()) =~= pat@);
    }
    true
}

/// First occurrence of `pat` in `s` at or after `from`, if any.
pub fn find_seq(s: &Vec<char>, pat: &Vec<char>, from: usize) -> (r: Option<usize>)
    requires
        pat@.len() >= 1,
    ensures
        match r {
            Some(i) => found_from(s@, pat@, from as int, i as int),
            None => forall|j: int| from <= j ==> !match_at(s@, pat@, j),
        },
{
    if pat.len() > s.len() {
        return None;
    }
    let last = s.len() - pat.len();
    let mut i: usize = from;
    while i <= last
        invariant
            pat@.len() >= 1,
            pat@.len() <= s@.len(),
            last == s@.len() - pat@.len(),
            last < usize::MAX,
            from <= i,
            forall|j: int| from <= j < i ==> !match_at(s@, pat@, j),
        decreases last + 1 - i,
    {
        if is_match_at(s, pat, i) {
            return Some(i);
        }
        i = i + 1;
    }
    None
}

/// Whether `pat` occurs anywhere in `s` (an empty pattern always does).
pub fn contains_vec(s: &Vec<char>, pat: &Vec<char>) -> (r: bool)
    ensures
        r == contains_seq(s@, pat@),
{
    if pat.len() == 0 {
        proof {
            assert(match_at(s@, pat@, 0)) by {
                assert(s@.subrange(0, 0) =~= pat@);
            }
        }
        return true;
    }
    match find_seq(s, pat, 0) {
        Some(_) => true,
        None => {
            proof {
                assert(forall|j: int| j < 0 ==> !match_at(s@, pat@, j));
            }
            false
        },
    }
}

/// `s` starts with `pat`.
pub open spec fn starts_with_spec(s: Seq<char>, pat: Seq<char>) -> bool {
    match_at(s, pat, 0)
}

pub fn starts_with_vec(s: &Vec<char>, pat: &Vec<char>) -> (r: bool)
    ensures
        r == starts_with_spec(s@, pat@),
{
    if pat.len() > s.len() {
        return false;
    }
    is_match_at(s, pat, 0)
}

// ---------------------------------------------------------------------------
// Last occurrence of a single character.
// ---------------------------------------------------------------------------

/// `k` is the last occurrence of `c` in `s`.
pub open spec fn last_index_of(s: Seq<char>, c: char, k: int) -> bool {
    &&& 0 <= k < s.len()
    &&& s[k] == c
    &&& forall|j: int| k < j < s.len() ==> s[j] != c
}

/// `c` occurs in `s`.
pub open spec fn has_char(s: Seq<char>, c: char) -> bool {
    exists|k: int| 0 <= k < s.len() && s[k] == c
}

/// The last occurrence is unique.
pub proof fn lemma_last_index_unique(s: Seq<char>, c: char, k1: int, k2: int)
    requires
        last_index_of(s, c, k1),
        last_index_of(s, c, k2),
    ensures
        k1 == k2,
{
}

/// The last occurrence of `c` in `v`, if any.
pub fn rfind_char(v: &Vec<char>, c: char) -> (r: Option<usize>)
    ensures
        match r {
            Some(k) => last_index_of(v@, c, k as int),
            None => !has_char(v@, c),
        },
{
    let mut i: usize = v.len();
    while i > 0
        invariant
            0 <= i <= v@.len(),
            forall|j: int| i <= j < v@.len() ==> v@[j] != c,
        decreases i,
    {
        i = i - 1;
        if v[i] == c {
            return Some(i);
        }
    }
    None
}

// ---------------------------------------------------------------------------
// Splitting into lines, as `str::lines` does: lines end at `\n`, with a
// `\r` immediately before the `\n` removed, and a final line ending optional.
// ---------------------------------------------------------------------------

/// One line's text with a trailing carriage return removed.
pub open spec fn strip_cr(s: Seq<char>) -> Seq<char> {
    if s.len() > 0 && s.last() == '\r' {
        s.drop_last()
    } else {
        s
    }
}

/// The lines of the text.
pub open spec fn lines_spec(s: Seq<char>) -> Seq<Seq<char>>
    decreases s.len(),
{
    if s.len() == 0 {
        Seq::empty()
    } else if exists|i: int| found_from(s, seq!['\n'], 0, i) {
        let i = choose|i: int| found_from(s, seq!['\n'], 0, i);
        seq![strip_cr(s.subrange(0, i))] + lines_spec(s.subrange(i + 1, s.len() as int))
    } else {
        seq![s]
    }
}

/// Split `v` into its lines.
pub fn lines_vec(v: &Vec<char>) -> (r: Vec<Vec<char>>)
    ensures
        r.deep_view() == lines_spec(v@),
{
    let newline: Vec<char> = vec!['\n'];
    let mut out: Vec<Vec<char>> = Vec::new();
    let mut rest: Vec<char> = subrange_vec(v, 0, v.len());
    proof {
        assert(v@.subrange(0, v@.len() as int) =~= v@);
    }
    loop
        invariant
            newline@ == seq!['\n'],
            out.deep_view() + lines_spec(rest@) == lines_spec(v@),
        ensures
            out.deep_view() == lines_spec(v@),
        decreases rest@.len(),
    {
        if rest.len() == 0 {
            proof {
                assert(out.deep_view() + lines_spec(rest@) =~= out.deep_view());
            }
            break;
        }
        match find_seq(&rest, &newline, 0) {
            None => {
                proof {
                    assert(!(exists|i: int| found_from(rest@, seq!['\n'], 0, i))) by {
                        if exists|i: int| found_from(rest@, seq!['\n'], 0, i) {
                            let i = choose|i: int| found_from(rest@, seq!['\n'], 0, i);
                            assert(!match_at(rest@, seq!['\n'], i));
                        }
                    }
                }
                let whole = subrange_vec(&rest, 0, rest.len());
                proof {
                    assert(rest@.subrange(0, rest@.len() as int) =~= rest@);
                }
                let ghost prev = out.deep_view();
                out.push(whole);
                proof {
                    assert(out.deep_view() =~~= prev + seq![rest@]);
                    assert(lines_spec(rest@) =~= seq![rest@]);
                    assert(out.deep_view() + lines_spec(Seq::<char>::empty()) =~= lines_spec(
                        v@,
                    ));
                }
                rest = Vec::new();
                break;
            },
            Some(i) => {
                proof {
                    let wit = choose|w: int| found_from(rest@, seq!['\n'], 0, w);
                    lemma_found_from_unique(rest@, seq!['\n'], 0, wit, i as int);
                }
                let mut line = subrange_vec(&rest, 0, i);
                if line.len() > 0 && line[line.len() - 1] == '\r' {
                    line.pop();
                    proof {
                        assert(line@ =~= strip_cr(rest@.subrange(0, i as int)));
                    }
                } else {
                    proof {
                        assert(line@ =~= strip_cr(rest@.subrange(0, i as int)));
                    }
                }
                let ghost prev = out.deep_view();
                let ghost old_rest = rest@;
                out.push(line);
                let tail = subrange_vec(&rest, i + 1, rest.len());
                proof {
                    assert(out.deep_view() =~~= prev + seq![strip_cr(old_rest.subrange(0, i as int))]);
                    assert(lines_spec(old_rest) =~= seq![strip_cr(old_rest.subrange(0, i as int))]
                        + lines_spec(old_rest.subrange(i + 1, old_rest.len() as int)));
                    assert(out.deep_view() + lines_spec(old_rest.subrange(
                        i + 1,
                        old_rest.len() as int,
                    )) =~= lines_spec(v@));
                }
                rest = tail;
            },
        }
    }
    out
}

// ---------------------------------------------------------------------------
// Decimal rendering of counters.
// ---------------------------------------------------------------------------

/// The decimal digit character for `d`.
pub open spec fn spec_digit(d: int) -> char {
    if d == 0 {
        '0'
    } else if d == 1 {
        '1'
    } else if d == 2 {
        '2'
    } else if d == 3 {
        '3'
    } else if d == 4 {
        '4'
    } else if d == 5 {
        '5'
    } else if d == 6 {
        '6'
    } else if d == 7 {
        '7'
    } else if d == 8 {
        '8'
    } else {
        '9'
    }
}

/// The decimal rendering of `n`, without sign or leading zeros.
pub open spec fn dec_str(n: nat) -> Seq<char>
    decreases n,
{
    if n < 10 {
        seq![spec_digit(n as int)]
    } else {
        dec_str(n / 10) + seq![spec_digit((n % 10) as int)]
    }
}

fn digit_char(d: u64) -> (r: char)
    requires
        d < 10,
    ensures
        r == spec_digit(d as int),
{
    if d == 0 {
        '0'
    } else if d == 1 {
        '1'
    } else if d == 2 {
        '2'
    } else if d == 3 {
        '3'
    } else if d == 4 {
        '4'
    } else if d == 5 {
        '5'
    } else if d == 6 {
        '6'
    } else if d == 7 {
        '7'
    } else if d == 8 {
        '8'
    } else {
        '9'
    }
}

/// Append the decimal rendering of `n` to `out`.
pub fn push_dec(out: &mut Vec<char>, n: u64)
    ensures
        final(out)@ == old(out)@ + dec_str(n as nat),
    decreases n,
{
    if n < 10 {
        out.push(digit_char(n));
    } else {
        push_dec(out, n / 10);
        out.push(digit_char(n % 10));
    }
}

/// The value denoted by a digit character (partial inverse of `spec_digit`).
pub open spec fn spec_digit_val(c: char) -> int {
    if c == '0' {
        0
    } else if c == '1' {
        1
    } else if c == '2' {
        2
    } else if c == '3' {
        3
    } else if c == '4' {
        4
    } else if c == '5' {
        5
    } else if c == '6' {
        6
    } else if c == '7' {
        7
    } else if c == '8' {
        8
    } else {
        9
    }
}

/// The number a digit string denotes.
pub open spec fn dec_val(s: Seq<char>) -> int
    decreases s.len(),
{
    if s.len() == 0 {
        0
    } else {
        dec_val(s.drop_last()) * 10 + spec_digit_val(s.last())
    }
}

/// Decimal rendering round-trips through `dec_val`.
pub proof fn lemma_dec_str_val(n: nat)
    ensures
        dec_val(dec_str(n)) == n,
    decreases n,
{
    if n < 10 {
        assert(dec_str(n) =~= seq![spec_digit(n as int)]);
        assert(seq![spec_digit(n as int)].drop_last() =~= Seq::<char>::empty());
        assert(dec_val(dec_str(n)) == dec_val(Seq::<char>::empty()) * 10 + spec_digit_val(
            spec_digit(n as int),
        ));
    } else {
        lemma_dec_str_val(n / 10);
        let s = dec_str(n);
        assert(s =~= dec_str(n / 10) + seq![spec_digit((n % 10) as int)]);
        assert(s.drop_last() =~= dec_str(n / 10));
        assert(s.last() == spec_digit((n % 10) as int));
    }
}

/// Distinct numbers render to distinct digit strings.
pub proof fn lemma_dec_str_injective(a: nat, b: nat)
    requires
        a != b,
    ensures
        dec_str(a) != dec_str(b),
{
    lemma_dec_str_val(a);
    lemma_dec_str_val(b);
}

// ---------------------------------------------------------------------------
// Hexadecimal rendering (lower case, no leading zeros), used for naming the
// search-index directory of a folder.
// ---------------------------------------------------------------------------

/// The lower-case hexadecimal digit character for `d`.
pub open spec fn spec_hex_digit(d: int) -> char {
    if d < 10 {
        spec_digit(d)
    } else if d == 10 {
        'a'
    } else if d == 11 {
        'b'
    } else if d == 12 {
        'c'
    } else if d == 13 {
        'd'
    } else if d == 14 {
        'e'
    } else {
        'f'
    }
}

/// The hexadecimal rendering of `n`, without leading zeros.
pub open spec fn hex_str(n: nat) -> Seq<char>
    decreases n,
{
    if n < 16 {
        seq![spec_hex_digit(n as int)]
    } else {
        hex_str(n / 16) + seq![spec_hex_digit((n % 16) as int)]
    }
}

fn hex_digit_char(d: u64) -> (r: char)
    requires
        d < 16,
    ensures
        r == spec_hex_digit(d as int),
{
    if d < 10 {
        digit_char(d)
    } else if d == 10 {
        'a'
    } else if d == 11 {
        'b'
    } else if d == 12 {
        'c'
    } else if d == 13 {
        'd'
    } else if d == 14 {
        'e'
    } else {
        'f'
    }
}

/// Append the hexadecimal rendering of `n` to `out`.
pub fn push_hex(out: &mut Vec<char>, n: u64)
    ensures
        final(out)@ == old(out)@ + hex_str(n as nat),
    decreases n,
{
    if n < 16 {
        out.push(hex_digit_char(n));
    } else {
        push_hex(out, n / 16);
        out.push(hex_digit_char(n % 16));
    }
}

} // verus!
