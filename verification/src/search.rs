use vstd::prelude::*;

verus! {

/// Index of the first element of `s` that satisfies `p`.
pub open spec fn first_match<T>(s: Seq<T>, p: spec_fn(T) -> bool) -> Option<int>
    decreases s.len(),
{
    if s.len() == 0 {
        None
    } else {
        match first_match(s.drop_last(), p) {
            Some(i) => Some(i),
            None => if p(s.last()) {
                Some(s.len() - 1)
            } else {
                None
            },
        }
    }
}

/// Index of the last element of `s` that satisfies `p`.
pub open spec fn last_match<T>(s: Seq<T>, p: spec_fn(T) -> bool) -> Option<int>
    decreases s.len(),
{
    if s.len() == 0 {
        None
    } else if p(s.last()) {
        Some(s.len() - 1)
    } else {
        last_match(s.drop_last(), p)
    }
}

pub proof fn lemma_first_match_step<T>(s: Seq<T>, p: spec_fn(T) -> bool, i: int)
    requires
        0 <= i < s.len(),
        first_match(s.take(i), p) is None,
    ensures
        first_match(s.take(i + 1), p) == (if p(s[i]) {
            Some(i)
        } else {
            None::<int>
        }),
{
    assert(s.take(i + 1).drop_last() =~= s.take(i));
}

pub proof fn lemma_first_match_found<T>(s: Seq<T>, p: spec_fn(T) -> bool, i: int, n: int)
    requires
        0 <= i < n <= s.len(),
        first_match(s.take(i + 1), p) == Some(i),
    ensures
        first_match(s.take(n), p) == Some(i),
    decreases n - i,
{
    if n > i + 1 {
        lemma_first_match_found(s, p, i, n - 1);
        assert(s.take(n).drop_last() =~= s.take(n - 1));
    }
}

pub proof fn lemma_first_match_facts<T>(s: Seq<T>, p: spec_fn(T) -> bool)
    ensures
        match first_match(s, p) {
            Some(i) => 0 <= i < s.len() && p(s[i]) && forall|j: int| 0 <= j < i ==> !p(#[trigger] s[j]),
            None => forall|j: int| 0 <= j < s.len() ==> !p(#[trigger] s[j]),
        },
    decreases s.len(),
{
    if s.len() > 0 {
        lemma_first_match_facts(s.drop_last(), p);
        assert forall|j: int| 0 <= j < s.len() - 1 implies s.drop_last()[j] == s[j] by {}
    }
}

pub proof fn lemma_last_match_facts<T>(s: Seq<T>, p: spec_fn(T) -> bool)
    ensures
        match last_match(s, p) {
            Some(i) => 0 <= i < s.len() && p(s[i]) && forall|j: int| i < j < s.len() ==> !p(#[trigger] s[j]),
            None => forall|j: int| 0 <= j < s.len() ==> !p(#[trigger] s[j]),
        },
    decreases s.len(),
{
    if s.len() > 0 {
        lemma_last_match_facts(s.drop_last(), p);
        assert forall|j: int| 0 <= j < s.len() - 1 implies s.drop_last()[j] == s[j] by {}
    }
}

/// The first match is characterised by its facts.
pub proof fn lemma_first_match_unique<T>(s: Seq<T>, p: spec_fn(T) -> bool, k: Option<int>)
    requires
        match k {
            Some(i) => 0 <= i < s.len() && p(s[i]) && forall|j: int| 0 <= j < i ==> !p(#[trigger] s[j]),
            None => forall|j: int| 0 <= j < s.len() ==> !p(#[trigger] s[j]),
        },
    ensures
        first_match(s, p) == k,
{
    lemma_first_match_facts(s, p);
    match first_match(s, p) {
        Some(a) => match k {
            Some(b) => {
                if a < b {
                    assert(!p(s[a]));
                } else if b < a {
                    assert(!p(s[b]));
                }
            },
            None => {
                assert(!p(s[a]));
            },
        },
        None => match k {
            Some(b) => {
                assert(!p(s[b]));
            },
            None => {},
        },
    }
}

/// The last match is characterised by its facts.
pub proof fn lemma_last_match_unique<T>(s: Seq<T>, p: spec_fn(T) -> bool, k: Option<int>)
    requires
        match k {
            Some(i) => 0 <= i < s.len() && p(s[i]) && forall|j: int| i < j < s.len() ==> !p(#[trigger] s[j]),
            None => forall|j: int| 0 <= j < s.len() ==> !p(#[trigger] s[j]),
        },
    ensures
        last_match(s, p) == k,
{
    lemma_last_match_facts(s, p);
    match last_match(s, p) {
        Some(a) => match k {
            Some(b) => {
                if a < b {
                    assert(!p(s[b]));
                } else if b < a {
                    assert(!p(s[a]));
                }
            },
            None => {
                assert(!p(s[a]));
            },
        },
        None => match k {
            Some(b) => {
                assert(!p(s[b]));
            },
            None => {},
        },
    }
}

} // verus!
