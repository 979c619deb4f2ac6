use vstd::prelude::*;

use crate::text::{chars_eq, chars_of};

verus! {

/// The moves of `s` with every repeat of an earlier move left out, in order.
pub open spec fn first_occurrences(s: Seq<Seq<char>>) -> Seq<Seq<char>>
    decreases s.len(),
{
    if s.len() == 0 {
        seq![]
    } else {
        let d = first_occurrences(s.drop_last());
        if d.contains(s.last()) {
            d
        } else {
            d.push(s.last())
        }
    }
}

/// Keeping first occurrences leaves no move twice and loses none: a move is kept exactly
/// when it occurs in the input.
pub proof fn lemma_first_occurrences(s: Seq<Seq<char>>)
    ensures
        first_occurrences(s).no_duplicates(),
        forall|m: Seq<char>| #[trigger] first_occurrences(s).contains(m) <==> s.contains(m),
    decreases s.len(),
{
    if s.len() > 0 {
        let init = s.drop_last();
        lemma_first_occurrences(init);
        let d = first_occurrences(init);
        let x = s.last();
        assert(s =~= init.push(x));
        assert forall|m: Seq<char>| #[trigger] s.contains(m) <==> (init.contains(m) || m == x) by {
            if s.contains(m) {
                let k = choose|k: int| 0 <= k < s.len() && s[k] == m;
                if k < init.len() {
                    assert(init[k] == m);
                }
            }
            if init.contains(m) {
                let k = choose|k: int| 0 <= k < init.len() && init[k] == m;
                assert(s[k] == m);
            }
            if m == x {
                assert(s[s.len() - 1] == m);
            }
        }
        if !d.contains(x) {
            let e = d.push(x);
            assert forall|m: Seq<char>| #[trigger] e.contains(m) <==> (d.contains(m) || m == x) by {
                if e.contains(m) {
                    let k = choose|k: int| 0 <= k < e.len() && e[k] == m;
                    if k < d.len() {
                        assert(d[k] == m);
                    }
                }
                if d.contains(m) {
                    let k = choose|k: int| 0 <= k < d.len() && d[k] == m;
                    assert(e[k] == m);
                }
                if m == x {
                    assert(e[e.len() - 1] == m);
                }
            }
            assert forall|i: int, j: int| 0 <= i < e.len() && 0 <= j < e.len() && i != j implies e[i]
                != e[j] by {
                if i == d.len() {
                    assert(d[j] == e[j]);
                } else if j == d.len() {
                    assert(d[i] == e[i]);
                }
            }
        }
    }
}

/// The candidate moves of a MAX node: the engine's top moves followed by Maia's top
/// moves, each move kept once, at its first place.
pub fn merge_candidates(engine_top: &Vec<String>, maia_top: &Vec<String>) -> (r: Vec<String>)
    requires
        engine_top@.len() + maia_top@.len() <= usize::MAX,
    ensures
        r@.map_values(|m: String| m@) == first_occurrences(
            engine_top@.map_values(|m: String| m@) + maia_top@.map_values(|m: String| m@),
        ),
{
    let ghost all = engine_top@.map_values(|m: String| m@) + maia_top@.map_values(|m: String| m@);
    let mut r: Vec<String> = Vec::new();
    let mut seen: Vec<Vec<char>> = Vec::new();
    let total = engine_top.len() + maia_top.len();
    let mut k: usize = 0;
    while k < total
        invariant
            total == all.len(),
            all == engine_top@.map_values(|m: String| m@) + maia_top@.map_values(|m: String| m@),
            k <= total,
            r@.map_values(|m: String| m@) == first_occurrences(all.take(k as int)),
            seen@.map_values(|v: Vec<char>| v@) == first_occurrences(all.take(k as int)),
        decreases total - k,
    {
        let m: &String = if k < engine_top.len() {
            &engine_top[k]
        } else {
            &maia_top[k - engine_top.len()]
        };
        assert(m@ == all[k as int]);
        let mv = chars_of(m.as_str());
        let ghost d = first_occurrences(all.take(k as int));
        let mut found = false;
        let mut j: usize = 0;
        while j < seen.len()
            invariant
                j <= seen@.len(),
                seen@.map_values(|v: Vec<char>| v@) == d,
                found == (exists|i: int| 0 <= i < j && d[i] == mv@),
            decreases seen@.len() - j,
        {
            if chars_eq(&seen[j], &mv) {
                found = true;
            }
            proof {
                assert(d[j as int] == seen@[j as int]@);
                if found {
                    if d[j as int] == mv@ {
                        assert(exists|i: int| 0 <= i < j + 1 && d[i] == mv@);
                    } else {
                        let i = choose|i: int| 0 <= i < j && d[i] == mv@;
                        assert(0 <= i < j + 1 && d[i] == mv@);
                    }
                }
            }
            j += 1;
        }
        proof {
            assert(all.take(k + 1).drop_last() =~= all.take(k as int));
            assert(all.take(k + 1).last() == all[k as int]);
            assert(found == d.contains(mv@));
        }
        if !found {
            let ghost r_before = r@;
            let ghost seen_before = seen@;
            r.push(m.clone());
            seen.push(mv);
            proof {
                assert(r@.map_values(|x: String| x@) =~= r_before.map_values(|x: String| x@).push(m@));
                assert(seen@.map_values(|v: Vec<char>| v@) =~= seen_before.map_values(|v: Vec<char>| v@).push(all[k as int]));
            }
        }
        k += 1;
    }
    assert(all.take(total as int) =~= all);
    r
}

} // verus!
