use vstd::prelude::*;

use crate::strings::chars_eq;
use crate::strings::dec_str;
use crate::strings::lemma_dec_str_injective;
use crate::strings::push_all;
use crate::strings::push_dec;
use crate::strings::to_char_vec;

verus! {

// ---------------------------------------------------------------------------
// Collision-avoided naming.
//
// New notes, renamed notes and new asset files all pick the first free name
// in the sequence `head+tail`, `head-1+tail`, `head-2+tail`, …, probing a
// set of names already taken.  A save may in addition stop at the note's
// own current identifier, which permits an in-place save.
// ---------------------------------------------------------------------------

/// The `k`-th candidate name.
pub open spec fn candidate(head: Seq<char>, tail: Seq<char>, k: nat) -> Seq<char> {
    if k == 0 {
        head + tail
    } else {
        head + seq!['-'] + dec_str(k) + tail
    }
}

/// The name is already taken.
pub open spec fn taken(existing: Seq<Seq<char>>, s: Seq<char>) -> bool {
    exists|i: int| 0 <= i < existing.len() && existing[i] == s
}

/// The probe stops at `k`: the candidate is the identifier being saved, or
/// it is free.
pub open spec fn probe_stops(
    head: Seq<char>,
    tail: Seq<char>,
    existing: Seq<Seq<char>>,
    skip: Option<Seq<char>>,
    k: nat,
) -> bool {
    ||| (skip is Some && candidate(head, tail, k) == skip.unwrap())
    ||| !taken(existing, candidate(head, tail, k))
}

/// `k` is the least index at which the probe stops.
pub open spec fn stops_first(
    head: Seq<char>,
    tail: Seq<char>,
    existing: Seq<Seq<char>>,
    skip: Option<Seq<char>>,
    k: nat,
) -> bool {
    &&& probe_stops(head, tail, existing, skip, k)
    &&& forall|j: nat| j < k ==> !probe_stops(head, tail, existing, skip, j)
}

/// The least index at which the probe stops.
pub open spec fn least_stop(
    head: Seq<char>,
    tail: Seq<char>,
    existing: Seq<Seq<char>>,
    skip: Option<Seq<char>>,
) -> nat {
    choose|k: nat| stops_first(head, tail, existing, skip, k)
}

/// The name the probe picks.
pub open spec fn chosen_name(
    head: Seq<char>,
    tail: Seq<char>,
    existing: Seq<Seq<char>>,
    skip: Option<Seq<char>>,
) -> Seq<char> {
    candidate(head, tail, least_stop(head, tail, existing, skip))
}

/// Only one index can be the least stopping one.
pub proof fn lemma_stops_first_unique(
    head: Seq<char>,
    tail: Seq<char>,
    existing: Seq<Seq<char>>,
    skip: Option<Seq<char>>,
    k1: nat,
    k2: nat,
)
    requires
        stops_first(head, tail, existing, skip, k1),
        stops_first(head, tail, existing, skip, k2),
    ensures
        k1 == k2,
{
}

/// A decimal rendering is never empty.
proof fn lemma_dec_str_nonempty(n: nat)
    ensures
        dec_str(n).len() >= 1,
{
    if n >= 10 {
    }
}

/// Distinct indices give distinct candidate names.
proof fn lemma_candidate_injective(head: Seq<char>, tail: Seq<char>, k1: nat, k2: nat)
    requires
        k1 != k2,
    ensures
        candidate(head, tail, k1) != candidate(head, tail, k2),
{
    let h = head.len() as int;
    let t = tail.len() as int;
    if k1 == 0 || k2 == 0 {
        let k = if k1 == 0 {
            k2
        } else {
            k1
        };
        lemma_dec_str_nonempty(k);
        assert(candidate(head, tail, 0).len() == h + t);
        assert(candidate(head, tail, k).len() == h + 1 + dec_str(k).len() + t);
    } else {
        lemma_dec_str_nonempty(k1);
        lemma_dec_str_nonempty(k2);
        let c1 = candidate(head, tail, k1);
        let c2 = candidate(head, tail, k2);
        if c1 == c2 {
            let d1 = dec_str(k1).len() as int;
            let d2 = dec_str(k2).len() as int;
            assert(c1.len() == h + 1 + d1 + t);
            assert(c2.len() == h + 1 + d2 + t);
            assert(d1 == d2);
            assert(c1.subrange(h + 1, h + 1 + d1) =~= dec_str(k1));
            assert(c2.subrange(h + 1, h + 1 + d2) =~= dec_str(k2));
            lemma_dec_str_injective(k1, k2);
            assert(false);
        }
    }
}

/// Among the first `existing.len() + 1` candidates, one is free: each taken
/// name can match at most one candidate.
proof fn lemma_free_candidate(head: Seq<char>, tail: Seq<char>, existing: Seq<Seq<char>>)
    ensures
        exists|k: nat| k <= existing.len() && !taken(existing, candidate(head, tail, k)),
{
    broadcast use vstd::seq_lib::seq_to_set_is_finite;

    let n = existing.len() as int;
    if !(exists|k: nat| k <= existing.len() && !taken(existing, candidate(head, tail, k))) {
        assert(forall|k: nat|
            k <= existing.len() ==> taken(existing, #[trigger] candidate(head, tail, k)));
        let cs = Seq::new((n + 1) as nat, |k: int| candidate(head, tail, k as nat));
        assert(cs.no_duplicates()) by {
            assert forall|i: int, j: int|
                0 <= i < cs.len() && 0 <= j < cs.len() && i != j implies cs[i] != cs[j] by {
                lemma_candidate_injective(head, tail, i as nat, j as nat);
            }
        }
        cs.unique_seq_to_set();
        existing.lemma_cardinality_of_set();
        assert(cs.to_set().subset_of(existing.to_set())) by {
            assert forall|x: Seq<char>| cs.to_set().contains(x) implies existing.to_set().contains(
                x,
            ) by {
                let k = choose|k: int| 0 <= k < cs.len() && cs[k] == x;
                assert(taken(existing, candidate(head, tail, k as nat)));
                let i = choose|i: int| 0 <= i < existing.len() && existing[i] == x;
                assert(existing.to_set().contains(existing[i]));
            }
        }
        vstd::set_lib::lemma_len_subset(cs.to_set(), existing.to_set());
        assert(false);
    }
}

proof fn lemma_stops_first_exists_from(
    head: Seq<char>,
    tail: Seq<char>,
    existing: Seq<Seq<char>>,
    skip: Option<Seq<char>>,
    k0: nat,
)
    requires
        probe_stops(head, tail, existing, skip, k0),
    ensures
        stops_first(head, tail, existing, skip, least_stop(head, tail, existing, skip)),
    decreases k0,
{
    if exists|j: nat| j < k0 && probe_stops(head, tail, existing, skip, j) {
        let j = choose|j: nat| j < k0 && probe_stops(head, tail, existing, skip, j);
        lemma_stops_first_exists_from(head, tail, existing, skip, j);
    } else {
        assert(stops_first(head, tail, existing, skip, k0));
        let w = least_stop(head, tail, existing, skip);
        assert(stops_first(head, tail, existing, skip, w)) by {
            assert(exists|k: nat| stops_first(head, tail, existing, skip, k));
        }
    }
}

/// The probe always stops somewhere, and at the least index.
pub proof fn lemma_least_stop_exists(
    head: Seq<char>,
    tail: Seq<char>,
    existing: Seq<Seq<char>>,
    skip: Option<Seq<char>>,
)
    ensures
        stops_first(head, tail, existing, skip, least_stop(head, tail, existing, skip)),
{
    lemma_free_candidate(head, tail, existing);
    let k = choose|k: nat| k <= existing.len() && !taken(existing, candidate(head, tail, k));
    assert(probe_stops(head, tail, existing, skip, k));
    lemma_stops_first_exists_from(head, tail, existing, skip, k);
}

/// A chosen name never collides: it is the identifier the probe was allowed
/// to stop at, or a name no existing entry carries.  A save can therefore
/// land on its own note or on a fresh file, never on another note's.
pub proof fn lemma_chosen_name_safe(
    head: Seq<char>,
    tail: Seq<char>,
    existing: Seq<Seq<char>>,
    skip: Option<Seq<char>>,
)
    ensures
        (skip is Some && chosen_name(head, tail, existing, skip) == skip.unwrap()) || !taken(
            existing,
            chosen_name(head, tail, existing, skip),
        ),
{
    lemma_least_stop_exists(head, tail, existing, skip);
}

/// Render `candidate(head, tail, k)`.
fn candidate_name(head: &Vec<char>, tail: &Vec<char>, k: u64) -> (r: Vec<char>)
    ensures
        r@ == candidate(head@, tail@, k as nat),
{
    let mut out: Vec<char> = Vec::new();
    push_all(&mut out, head);
    if k > 0 {
        out.push('-');
        push_dec(&mut out, k);
    }
    push_all(&mut out, tail);
    proof {
        if k == 0 {
            assert(out@ =~= head@ + tail@);
        } else {
            assert(out@ =~= head@ + seq!['-'] + dec_str(k as nat) + tail@);
        }
    }
    out
}

/// Whether `name` is among `existing`.
fn name_taken(existing: &Vec<String>, name: &Vec<char>) -> (r: bool)
    ensures
        r == taken(existing.deep_view(), name@),
{
    let mut i: usize = 0;
    while i < existing.len()
        invariant
            0 <= i <= existing@.len(),
            forall|j: int| 0 <= j < i ==> existing.deep_view()[j] != name@,
        decreases existing@.len() - i,
    {
        let e = to_char_vec(existing[i].as_str());
        if chars_eq(&e, name) {
            proof {
                assert(existing.deep_view()[i as int] =~= e@);
            }
            return true;
        }
        proof {
            assert(existing.deep_view()[i as int] =~= e@);
        }
        i = i + 1;
    }
    false
}


/// The first candidate name at which the probe stops.  The result is
/// `candidate(head, tail, k)` for the least `k` that stops the probe: the
/// candidate equals `skip` (saving a note under its own identifier) or no
/// existing name matches it.
pub fn first_free_name(
    head: &Vec<char>,
    tail: &Vec<char>,
    existing: &Vec<String>,
    skip: Option<&Vec<char>>,
) -> (r: Vec<char>)
    requires
        existing@.len() < 0xffff_ffff_ffff_0000u64,
    ensures
        stops_first(
            head@,
            tail@,
            existing.deep_view(),
            spec_skip(skip),
            least_stop(head@, tail@, existing.deep_view(), spec_skip(skip)),
        ),
        r@ == chosen_name(head@, tail@, existing.deep_view(), spec_skip(skip)),
{
    let ghost ex = existing.deep_view();
    let ghost sk = spec_skip(skip);
    let n = existing.len();
    proof {
        assert(ex.len() == existing@.len());
    }
    let mut k: u64 = 0;
    loop
        invariant
            ex == existing.deep_view(),
            sk == spec_skip(skip),
            n == existing@.len(),
            ex.len() == n,
            n < 0xffff_ffff_ffff_0000u64,
            k <= n + 1,
            forall|j: nat| j < k as nat ==> !probe_stops(head@, tail@, ex, sk, j),
        decreases n + 2 - k,
    {
        let cand = candidate_name(head, tail, k);
        let stops = match skip {
            Some(s) => chars_eq(&cand, s) || !name_taken(existing, &cand),
            None => !name_taken(existing, &cand),
        };
        proof {
            assert(stops == probe_stops(head@, tail@, ex, sk, k as nat));
        }
        if stops {
            proof {
                assert(stops_first(head@, tail@, ex, sk, k as nat));
                let w = least_stop(head@, tail@, ex, sk);
                assert(stops_first(head@, tail@, ex, sk, w)) by {
                    assert(exists|j: nat| stops_first(head@, tail@, ex, sk, j));
                }
                lemma_stops_first_unique(head@, tail@, ex, sk, w, k as nat);
            }
            return cand;
        }
        proof {
            if k as nat > n as nat {
                lemma_free_candidate(head@, tail@, ex);
                let w = choose|j: nat|
                    j <= ex.len() && !taken(ex, candidate(head@, tail@, j));
                assert(probe_stops(head@, tail@, ex, sk, w));
                assert(false);
            }
        }
        k = k + 1;
    }
}

/// The ghost view of the optional identifier to stop at.
pub open spec fn spec_skip(skip: Option<&Vec<char>>) -> Option<Seq<char>> {
    match skip {
        Some(s) => Some(s@),
        None => None,
    }
}

} // verus!
