//! Range selection over keyed directory entries.
use vstd::prelude::*;

verus! {

/// Whether a key lies inside the inclusive bounds; an absent bound does not restrict.
pub open spec fn in_range(k: u64, first: Option<u64>, last: Option<u64>) -> bool {
    &&& (first matches Some(f) ==> f <= k)
    &&& (last matches Some(l) ==> k <= l)
}

/// The keys of the candidates that are in range, in candidate order.
pub open spec fn keys_in_range(keys: Seq<Option<u64>>, first: Option<u64>, last: Option<u64>) -> Seq<u64>
    decreases keys.len(),
{
    if keys.len() == 0 {
        seq![]
    } else {
        let rest = keys_in_range(keys.drop_last(), first, last);
        match keys.last() {
            Some(k) => if in_range(k, first, last) { rest.push(k) } else { rest },
            None => rest,
        }
    }
}

/// Ascending order.
pub open spec fn sorted(s: Seq<u64>) -> bool {
    forall|i: int, j: int| 0 <= i < j < s.len() ==> s[i] <= s[j]
}

/// Whether some candidate carries exactly this key.
pub open spec fn has_key(keys: Seq<Option<u64>>, k: u64) -> bool {
    exists|i: int| 0 <= i < keys.len() && keys[i] == Some(k)
}

/// Whether a bound, if set, is carried by some candidate.
pub open spec fn bound_ok(keys: Seq<Option<u64>>, b: Option<u64>) -> bool {
    b matches Some(k) ==> has_key(keys, k)
}

/// `out` is the in-range keys in ascending order.
pub open spec fn is_selection(keys: Seq<Option<u64>>, first: Option<u64>, last: Option<u64>, out: Seq<u64>) -> bool {
    sorted(out) && out.to_multiset() == keys_in_range(keys, first, last).to_multiset()
}

/// Relies on `slice::sort_unstable`: the same elements, in ascending order.
#[verifier::external_body]
fn sort_ascending(v: &mut Vec<u64>)
    ensures
        final(v)@.to_multiset() == old(v)@.to_multiset(),
        sorted(final(v)@),
{
    v.sort_unstable();
}

/// Whether some candidate carries the key `k`.
pub fn contains_key(keys: &Vec<Option<u64>>, k: u64) -> (r: bool)
    ensures
        r == has_key(keys@, k),
{
    let mut i: usize = 0;
    while i < keys.len()
        invariant
            i <= keys.len(),
            forall|j: int| 0 <= j < i ==> keys@[j] != Some(k),
        decreases keys.len() - i,
    {
        if keys[i] == Some(k) {
            return true;
        }
        i = i + 1;
    }
    false
}

/// The keys of the candidates that lie in range, in ascending order.
pub fn select_keys(keys: &Vec<Option<u64>>, first: Option<u64>, last: Option<u64>) -> (r: Vec<u64>)
    ensures
        is_selection(keys@, first, last, r@),
{
    let mut out: Vec<u64> = Vec::new();
    let mut i: usize = 0;
    while i < keys.len()
        invariant
            i <= keys.len(),
            out@ == keys_in_range(keys@.take(i as int), first, last),
        decreases keys.len() - i,
    {
        assert(keys@.take(i + 1).drop_last() =~= keys@.take(i as int));
        match keys[i] {
            Some(k) => {
                let inside = match first {
                    Some(f) => f <= k,
                    None => true,
                } && match last {
                    Some(l) => k <= l,
                    None => true,
                };
                if inside {
                    out.push(k);
                }
            },
            None => {},
        }
        i = i + 1;
    }
    assert(keys@.take(keys.len() as int) =~= keys@);
    sort_ascending(&mut out);
    out
}

/// The position of the first candidate that carries the key `k`, if any.
pub fn position_of_key(keys: &Vec<Option<u64>>, k: u64) -> (r: Option<usize>)
    ensures
        match r {
            Some(i) => i < keys@.len() && keys@[i as int] == Some(k),
            None => !has_key(keys@, k),
        },
{
    let mut i: usize = 0;
    while i < keys.len()
        invariant
            i <= keys.len(),
            forall|j: int| 0 <= j < i ==> keys@[j] != Some(k),
        decreases keys.len() - i,
    {
        if keys[i] == Some(k) {
            return Some(i);
        }
        i = i + 1;
    }
    None
}

/// `n` is one of `names` whose key, given at the same position of `keys`, is `k`.
pub open spec fn name_with_key(names: Seq<String>, keys: Seq<Option<u64>>, k: u64, n: String) -> bool {
    exists|i: int| 0 <= i < names.len() && keys[i] == Some(k) && names[i]@ == n@
}

/// `out` holds, for each key of `ks` in turn, one of `names` whose key it is.
pub open spec fn names_for_keys(names: Seq<String>, keys: Seq<Option<u64>>, ks: Seq<u64>, out: Seq<String>) -> bool {
    &&& out.len() == ks.len()
    &&& forall|j: int| 0 <= j < ks.len() ==> #[trigger] name_with_key(names, keys, ks[j], out[j])
}

/// `out` holds the names whose key is in range, ordered by key.
pub open spec fn selected_names(
    names: Seq<String>,
    keys: Seq<Option<u64>>,
    first: Option<u64>,
    last: Option<u64>,
    out: Seq<String>,
) -> bool {
    exists|ks: Seq<u64>| #[trigger] is_selection(keys, first, last, ks) && names_for_keys(names, keys, ks, out)
}

/// Every in-range key is carried by some candidate.
proof fn lemma_in_range_has_key(keys: Seq<Option<u64>>, first: Option<u64>, last: Option<u64>, k: u64)
    requires
        keys_in_range(keys, first, last).contains(k),
    ensures
        has_key(keys, k),
    decreases keys.len(),
{
    if keys.len() > 0 {
        let rest = keys_in_range(keys.drop_last(), first, last);
        if rest.contains(k) {
            lemma_in_range_has_key(keys.drop_last(), first, last, k);
            let i = choose|i: int| 0 <= i < keys.drop_last().len() && keys.drop_last()[i] == Some(k);
            assert(keys[i] == Some(k));
        } else {
            assert(keys[keys.len() - 1] == Some(k));
        }
    }
}

/// The names whose key, given at the same position of `keys`, lies in range, ordered by key.
pub fn names_in_range(names: &Vec<String>, keys: &Vec<Option<u64>>, first: Option<u64>, last: Option<u64>) -> (out: Vec<String>)
    requires
        names.len() == keys.len(),
    ensures
        selected_names(names@, keys@, first, last, out@),
{
    let ks = select_keys(keys, first, last);
    let mut out: Vec<String> = Vec::new();
    let ghost mut at: Seq<int> = seq![];
    let mut j: usize = 0;
    while j < ks.len()
        invariant
            j <= ks.len(),
            names.len() == keys.len(),
            is_selection(keys@, first, last, ks@),
            out@.len() == j,
            at.len() == j,
            forall|q: int|
                0 <= q < j ==> 0 <= #[trigger] at[q] < names@.len() && keys@[at[q]] == Some(ks@[q])
                    && names@[at[q]]@ == out@[q]@,
        decreases ks.len() - j,
    {
        proof {
            broadcast use vstd::seq_lib::group_to_multiset_ensures;

            let sel = keys_in_range(keys@, first, last);
            assert(ks@.contains(ks@[j as int]));
            assert(ks@.to_multiset().count(ks@[j as int]) > 0);
            assert(sel.contains(ks@[j as int]));
            lemma_in_range_has_key(keys@, first, last, ks@[j as int]);
        }
        match position_of_key(keys, ks[j]) {
            Some(p) => {
                let name = names[p].clone();
                out.push(name);
                proof {
                    at = at.push(p as int);
                }
            },
            None => {
                assert(false);
                return out;
            },
        }
        j = j + 1;
    }
    assert forall|q: int| 0 <= q < ks@.len() implies #[trigger] name_with_key(names@, keys@, ks@[q], out@[q]) by {
        assert(0 <= at[q] < names@.len() && keys@[at[q]] == Some(ks@[q]) && names@[at[q]]@ == out@[q]@);
    }
    assert(names_for_keys(names@, keys@, ks@, out@));
    assert(is_selection(keys@, first, last, ks@));
    out
}

/// A selection holds as many names as there are in-range keys.
pub proof fn lemma_selected_len(
    names: Seq<String>,
    keys: Seq<Option<u64>>,
    first: Option<u64>,
    last: Option<u64>,
    out: Seq<String>,
)
    requires
        selected_names(names, keys, first, last, out),
    ensures
        out.len() == keys_in_range(keys, first, last).len(),
{
    broadcast use vstd::seq_lib::group_to_multiset_ensures;

    let ks = choose|ks: Seq<u64>| #[trigger]
        is_selection(keys, first, last, ks) && names_for_keys(names, keys, ks, out);
    assert(ks.to_multiset().len() == keys_in_range(keys, first, last).to_multiset().len());
}

/// Every in-range key is in range.
pub proof fn lemma_keys_in_range_are_in_range(keys: Seq<Option<u64>>, first: Option<u64>, last: Option<u64>, k: u64)
    requires
        keys_in_range(keys, first, last).contains(k),
    ensures
        in_range(k, first, last),
    decreases keys.len(),
{
    if keys.len() > 0 {
        let rest = keys_in_range(keys.drop_last(), first, last);
        if rest.contains(k) {
            lemma_keys_in_range_are_in_range(keys.drop_last(), first, last, k);
        }
    }
}

/// A selection is ordered by key, and the key of each selected name is in range.
pub proof fn lemma_selection_ordered_in_range(
    names: Seq<String>,
    keys: Seq<Option<u64>>,
    first: Option<u64>,
    last: Option<u64>,
    out: Seq<String>,
) -> (ks: Seq<u64>)
    requires
        selected_names(names, keys, first, last, out),
    ensures
        ks.len() == out.len(),
        sorted(ks),
        forall|j: int| 0 <= j < ks.len() ==> in_range(#[trigger] ks[j], first, last),
        forall|j: int| 0 <= j < ks.len() ==> #[trigger] name_with_key(names, keys, ks[j], out[j]),
{
    broadcast use vstd::seq_lib::group_to_multiset_ensures;

    let ks = choose|ks: Seq<u64>| #[trigger]
        is_selection(keys, first, last, ks) && names_for_keys(names, keys, ks, out);
    assert forall|j: int| 0 <= j < ks.len() implies in_range(#[trigger] ks[j], first, last) by {
        assert(ks.contains(ks[j]));
        assert(ks.to_multiset().count(ks[j]) > 0);
        lemma_keys_in_range_are_in_range(keys, first, last, ks[j]);
    }
    ks
}

} // verus!
