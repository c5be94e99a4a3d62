//! What holds of every selection: what it keeps, and in which order.
use vstd::prelude::*;

verus! {

/// Whether `out` are the elements of `s` at the places `at`, in the order of `s`.
pub open spec fn picks<T>(s: Seq<T>, out: Seq<T>, at: Seq<int>) -> bool {
    &&& at.len() == out.len()
    &&& forall|k: int| 0 <= k < at.len() ==> 0 <= #[trigger] at[k] < s.len()
    &&& forall|k: int| 0 <= k < at.len() ==> #[trigger] out[k] == s[at[k]]
    &&& forall|j: int, k: int| 0 <= j < k < at.len() ==> #[trigger] at[j] < #[trigger] at[k]
}

/// Filtering keeps the elements that satisfy the condition, all of them, in their order, and
/// nothing else: these are their places.
pub proof fn lemma_filter_picks<T>(s: Seq<T>, p: spec_fn(T) -> bool) -> (at: Seq<int>)
    ensures
        picks(s, s.filter(p), at),
        forall|i: int| 0 <= i < s.len() ==> (#[trigger] p(s[i]) <==> at.contains(i)),
    decreases s.len(),
{
    reveal(Seq::filter);
    if s.len() == 0 {
        Seq::empty()
    } else {
        let n = s.len() - 1;
        let front = s.drop_last();
        let before = lemma_filter_picks(front, p);
        let at = if p(s.last()) {
            before.push(n)
        } else {
            before
        };
        let out = s.filter(p);
        assert forall|k: int| 0 <= k < at.len() implies 0 <= #[trigger] at[k] < s.len() && out[k]
            == s[at[k]] by {
            if k < before.len() {
                assert(at[k] == before[k]);
                assert(front.filter(p)[k] == front[before[k]]);
            }
        }
        assert forall|j: int, k: int| 0 <= j < k < at.len() implies #[trigger] at[j]
            < #[trigger] at[k] by {
            assert(at[j] == before[j]);
            if k < before.len() {
                assert(at[k] == before[k]);
            }
        }
        assert forall|i: int| 0 <= i < s.len() implies (#[trigger] p(s[i]) <==> at.contains(i)) by {
            if i < n {
                assert(front[i] == s[i]);
                if before.contains(i) {
                    let k = choose|k: int| 0 <= k < before.len() && before[k] == i;
                    assert(at[k] == i);
                }
                if at.contains(i) {
                    let k = choose|k: int| 0 <= k < at.len() && at[k] == i;
                    assert(before[k] == i);
                }
            } else {
                if p(s[i]) {
                    assert(at[before.len() as int] == i);
                }
                if at.contains(i) {
                    let k = choose|k: int| 0 <= k < at.len() && at[k] == i;
                    if k < before.len() {
                        assert(before[k] < front.len());
                    }
                }
            }
        }
        at
    }
}

/// Mapping where there is something to map to keeps the order too: these are the places of what is
/// mapped.
pub proof fn lemma_filter_map_picks<T, U>(s: Seq<T>, f: spec_fn(T) -> Option<U>) -> (at: Seq<int>)
    ensures
        at.len() == s.filter_map(f).len(),
        forall|k: int| 0 <= k < at.len() ==> 0 <= #[trigger] at[k] < s.len(),
        forall|j: int, k: int| 0 <= j < k < at.len() ==> #[trigger] at[j] < #[trigger] at[k],
        forall|k: int| 0 <= k < at.len() ==> f(s[#[trigger] at[k]]) == Some(s.filter_map(f)[k]),
        forall|i: int| 0 <= i < s.len() ==> (#[trigger] f(s[i]) is Some <==> at.contains(i)),
    decreases s.len(),
{
    if s.len() == 0 {
        reveal_with_fuel(Seq::filter_map, 1);
        assert(s.filter_map(f) =~= Seq::empty());
        Seq::empty()
    } else {
        let n = s.len() - 1;
        let front = s.take(n);
        let before = lemma_filter_map_picks(front, f);
        s.lemma_filter_map_take_succ(f, n);
        assert(s.take(n + 1) =~= s);
        let at = if f(s[n]) is Some {
            before.push(n)
        } else {
            before
        };
        let out = s.filter_map(f);
        assert forall|k: int| 0 <= k < at.len() implies 0 <= #[trigger] at[k] < s.len() && f(
            s[at[k]],
        ) == Some(out[k]) by {
            if k < before.len() {
                assert(at[k] == before[k]);
                assert(front[before[k]] == s[before[k]]);
                assert(out[k] == front.filter_map(f)[k]);
            }
        }
        assert forall|j: int, k: int| 0 <= j < k < at.len() implies #[trigger] at[j]
            < #[trigger] at[k] by {
            assert(at[j] == before[j]);
            if k < before.len() {
                assert(at[k] == before[k]);
            }
        }
        assert forall|i: int| 0 <= i < s.len() implies (#[trigger] f(s[i]) is Some <==> at.contains(
            i,
        )) by {
            if i < n {
                assert(front[i] == s[i]);
                assert(f(front[i]) is Some <==> before.contains(i));
                if before.contains(i) {
                    let k = choose|k: int| 0 <= k < before.len() && before[k] == i;
                    assert(at[k] == i);
                }
                if at.contains(i) {
                    let k = choose|k: int| 0 <= k < at.len() && at[k] == i;
                    assert(before[k] == i);
                }
            } else {
                if f(s[i]) is Some {
                    assert(at[before.len() as int] == i);
                }
                if at.contains(i) {
                    let k = choose|k: int| 0 <= k < at.len() && at[k] == i;
                    if k < before.len() {
                        assert(before[k] < front.len());
                    }
                }
            }
        }
        at
    }
}

} // verus!
