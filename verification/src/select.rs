//! Picking from sequences: the first least key, and the values that a partial function keeps.
use vstd::prelude::*;

verus! {

/// Whether `i` holds a least key, and is the first to hold it. An absent key takes no part.
pub open spec fn is_first_min(keys: Seq<Option<u32>>, i: int) -> bool {
    &&& 0 <= i < keys.len()
    &&& keys[i] is Some
    &&& forall|j: int|
        0 <= j < keys.len() && #[trigger] keys[j] is Some ==> keys[i]->0 <= keys[j]->0
    &&& forall|j: int| 0 <= j < i && #[trigger] keys[j] is Some ==> keys[i]->0 < keys[j]->0
}

/// The index of the first least key; `None` where every key is absent.
pub open spec fn first_min(keys: Seq<Option<u32>>) -> Option<int> {
    if exists|i: int| is_first_min(keys, i) {
        Some(choose|i: int| is_first_min(keys, i))
    } else {
        None
    }
}

/// A first least key is the only one.
pub proof fn lemma_first_min(keys: Seq<Option<u32>>, i: int)
    requires
        is_first_min(keys, i),
    ensures
        first_min(keys) == Some(i),
{
    let j = choose|j: int| is_first_min(keys, j);
    assert(is_first_min(keys, j));
    assert(keys[i] is Some && keys[j] is Some);
    if j < i {
        assert(keys[i]->0 < keys[j]->0);
    }
    if i < j {
        assert(keys[j]->0 < keys[i]->0);
    }
}

/// There is a first least key exactly where some key is present.
pub proof fn lemma_first_min_exists(keys: Seq<Option<u32>>)
    ensures
        first_min(keys) is Some <==> exists|i: int| 0 <= i < keys.len() && #[trigger] keys[i] is Some,
        first_min(keys) matches Some(i) ==> is_first_min(keys, i),
    decreases keys.len(),
{
    if keys.len() > 0 {
        let init = keys.drop_last();
        let last = keys.len() - 1;
        lemma_first_min_exists(init);
        if first_min(init) is Some {
            let b = first_min(init)->0;
            assert(forall|j: int| 0 <= j < last ==> init[j] == #[trigger] keys[j]);
            if keys[last] is Some && keys[last]->0 < keys[b]->0 {
                assert(is_first_min(keys, last));
            } else {
                assert(is_first_min(keys, b));
            }
        } else {
            assert forall|j: int| 0 <= j < last implies #[trigger] keys[j] is None by {
                assert(init[j] == keys[j]);
            }
            if keys[last] is Some {
                assert(is_first_min(keys, last));
            }
        }
    }
    if first_min(keys) is Some {
        let i = first_min(keys)->0;
        assert(is_first_min(keys, i));
        assert(keys[i] is Some);
    }
}

/// The index of the first least key; `None` where every key is absent.
pub fn find_first_min(keys: &Vec<Option<u32>>) -> (best: Option<usize>)
    ensures
        best matches Some(i) ==> first_min(keys@) == Some(i as int) && i < keys@.len(),
        best is None ==> first_min(keys@) is None,
{
    let mut best: Option<usize> = None;
    let mut i: usize = 0;
    while i < keys.len()
        invariant
            i <= keys@.len(),
            best matches Some(b) ==> b < i && is_first_min(keys@.take(i as int), b as int),
            best is None ==> forall|j: int| 0 <= j < i ==> #[trigger] keys@[j] is None,
        decreases keys@.len() - i,
    {
        let ghost before = keys@.take(i as int);
        let ghost after = keys@.take(i + 1);
        proof {
            assert(forall|j: int| 0 <= j < i ==> before[j] == #[trigger] after[j]);
            assert(after[i as int] == keys@[i as int]);
        }
        if let Some(key) = keys[i] {
            match best {
                Some(b) => {
                    match keys[b] {
                        Some(least) => {
                            if key < least {
                                best = Some(i);
                            }
                        },
                        None => {
                            assert(before[b as int] is Some);
                        },
                    }
                },
                None => {
                    best = Some(i);
                },
            }
        }
        i = i + 1;
    }
    proof {
        assert(keys@.take(keys@.len() as int) =~= keys@);
        if let Some(b) = best {
            lemma_first_min(keys@, b as int);
        } else {
            lemma_first_min_exists(keys@);
        }
    }
    best
}

/// The values of a partial function over a sequence, in order, where it has one.
pub open spec fn filter_map<A, B>(s: Seq<A>, f: spec_fn(A) -> Option<B>) -> Seq<B>
    decreases s.len(),
{
    if s.len() == 0 {
        Seq::empty()
    } else {
        let init = filter_map(s.drop_last(), f);
        match f(s.last()) {
            Some(b) => init.push(b),
            None => init,
        }
    }
}

/// One more element of a prefix adds its value, where it has one.
pub proof fn lemma_filter_map_take<A, B>(s: Seq<A>, f: spec_fn(A) -> Option<B>, i: int)
    requires
        0 <= i < s.len(),
    ensures
        filter_map(s.take(i + 1), f) == (match f(s[i]) {
            Some(b) => filter_map(s.take(i), f).push(b),
            None => filter_map(s.take(i), f),
        }),
{
    assert(s.take(i + 1).drop_last() =~= s.take(i));
}

/// Leaving out elements without a value leaves the values as they are.
pub proof fn lemma_filter_map_filter<A, B>(
    s: Seq<A>,
    keep: spec_fn(A) -> bool,
    f: spec_fn(A) -> Option<B>,
)
    requires
        forall|a: A| #[trigger] f(a) is Some ==> keep(a),
    ensures
        filter_map(s.filter(keep), f) == filter_map(s, f),
    decreases s.len(),
{
    reveal(Seq::filter);
    if s.len() > 0 {
        lemma_filter_map_filter(s.drop_last(), keep, f);
        let init = s.drop_last().filter(keep);
        if keep(s.last()) {
            assert(init.push(s.last()).drop_last() =~= init);
        }
    }
}

/// A value is kept exactly where the function gives it on some element.
pub proof fn lemma_filter_map_contains<A, B>(s: Seq<A>, f: spec_fn(A) -> Option<B>, b: B)
    ensures
        filter_map(s, f).contains(b) <==> exists|i: int|
            0 <= i < s.len() && #[trigger] f(s[i]) == Some(b),
    decreases s.len(),
{
    if s.len() > 0 {
        let init = s.drop_last();
        lemma_filter_map_contains(init, f, b);
        let kept = filter_map(init, f);
        if filter_map(s, f).contains(b) {
            let k = choose|k: int| 0 <= k < filter_map(s, f).len() && filter_map(s, f)[k] == b;
            if f(s.last()) is Some && k == kept.len() {
                assert(f(s[s.len() - 1]) == Some(b));
            } else {
                assert(kept[k] == b);
                let i = choose|i: int| 0 <= i < init.len() && #[trigger] f(init[i]) == Some(b);
                assert(f(s[i]) == Some(b));
            }
        }
        if exists|i: int| 0 <= i < s.len() && #[trigger] f(s[i]) == Some(b) {
            let i = choose|i: int| 0 <= i < s.len() && #[trigger] f(s[i]) == Some(b);
            if i == s.len() - 1 {
                assert(filter_map(s, f)[kept.len() as int] == b);
            } else {
                assert(f(init[i]) == Some(b));
                let k = choose|k: int| 0 <= k < kept.len() && kept[k] == b;
                assert(filter_map(s, f)[k] == b);
            }
        }
    }
}

/// Elements without a value at the end of a sequence add nothing.
pub proof fn lemma_filter_map_rest<A, B>(s: Seq<A>, f: spec_fn(A) -> Option<B>, i: int)
    requires
        0 <= i <= s.len(),
        forall|j: int| i <= j < s.len() ==> #[trigger] f(s[j]) is None,
    ensures
        filter_map(s, f) == filter_map(s.take(i), f),
    decreases s.len(),
{
    if i < s.len() {
        let init = s.drop_last();
        assert forall|j: int| i <= j < init.len() implies #[trigger] f(init[j]) is None by {
            assert(init[j] == s[j]);
        }
        lemma_filter_map_rest(init, f, i);
        assert(init.take(i) =~= s.take(i));
        assert(f(s[s.len() - 1]) is None);
    } else {
        assert(s.take(i) =~= s);
    }
}

/// How many elements of a sequence meet a condition, counted by index.
pub open spec fn count_where<A>(s: Seq<A>, p: spec_fn(A) -> bool) -> nat {
    Set::new(|i: int| 0 <= i < s.len() && p(s[i])).len()
}

/// As many values are kept as there are elements with one.
pub proof fn lemma_filter_map_count<A, B>(
    s: Seq<A>,
    f: spec_fn(A) -> Option<B>,
    p: spec_fn(A) -> bool,
)
    requires
        forall|i: int| 0 <= i < s.len() ==> (f(#[trigger] s[i]) is Some <==> p(s[i])),
    ensures
        filter_map(s, f).len() == count_where(s, p),
        Set::new(|i: int| 0 <= i < s.len() && p(s[i])).finite(),
    decreases s.len(),
{
    let all = Set::new(|i: int| 0 <= i < s.len() && p(s[i]));
    if s.len() == 0 {
        assert(all =~= Set::empty());
    } else {
        let init = s.drop_last();
        let last = s.len() - 1;
        assert(forall|i: int| 0 <= i < init.len() ==> #[trigger] init[i] == s[i]);
        assert(s.last() == s[last]);
        lemma_filter_map_count(init, f, p);
        let rest = Set::new(|i: int| 0 <= i < init.len() && p(init[i]));
        assert forall|i: int| rest.contains(i) <==> all.contains(i) && i != last by {
            if 0 <= i < last {
                assert(init[i] == s[i]);
            }
        }
        if p(s.last()) {
            assert(all =~= rest.insert(last));
        } else {
            assert(all =~= rest);
        }
    }
}

/// Where each element has a value of just one of two functions, the values are as many as the
/// elements.
pub proof fn lemma_filter_map_split<A, B>(
    s: Seq<A>,
    f: spec_fn(A) -> Option<B>,
    g: spec_fn(A) -> Option<B>,
)
    requires
        forall|i: int| 0 <= i < s.len() ==> (g(#[trigger] s[i]) is Some <==> f(s[i]) is None),
    ensures
        filter_map(s, f).len() + filter_map(s, g).len() == s.len(),
    decreases s.len(),
{
    if s.len() > 0 {
        let init = s.drop_last();
        assert(forall|i: int| 0 <= i < init.len() ==> #[trigger] init[i] == s[i]);
        assert(s.last() == s[s.len() - 1]);
        lemma_filter_map_split(init, f, g);
    }
}

/// The value of an element stands after those of the elements before it that have one.
pub proof fn lemma_filter_map_index<A, B>(
    s: Seq<A>,
    f: spec_fn(A) -> Option<B>,
    p: spec_fn(A) -> bool,
    m: int,
)
    requires
        0 <= m < s.len(),
        f(s[m]) is Some,
        forall|i: int| 0 <= i < s.len() ==> (f(#[trigger] s[i]) is Some <==> p(s[i])),
    ensures
        count_where(s.take(m), p) < filter_map(s, f).len(),
        Some(filter_map(s, f)[count_where(s.take(m), p) as int]) == f(s[m]),
    decreases s.len(),
{
    let init = s.drop_last();
    assert(forall|i: int| 0 <= i < init.len() ==> #[trigger] init[i] == s[i]);
    if m < init.len() {
        lemma_filter_map_index(init, f, p, m);
        assert(init.take(m) =~= s.take(m));
    } else {
        lemma_filter_map_count(init, f, p);
        assert(s.take(m) =~= init);
        assert(s.last() == s[m]);
    }
}

} // verus!
