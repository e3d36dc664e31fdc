//! The mathematical model of an occupancy index: a sequence of flags, one per
//! slot position, `true` where the slot is occupied.
use vstd::prelude::*;

verus! {

/// The positions `p` with `from <= p < s.len()` and `s[p] == v`, ascending.
pub open spec fn positions_from(s: Seq<bool>, from: int, v: bool) -> Seq<int>
    decreases s.len() - from,
{
    if from < 0 || from >= s.len() {
        Seq::empty()
    } else if s[from] == v {
        seq![from].add(positions_from(s, from + 1, v))
    } else {
        positions_from(s, from + 1, v)
    }
}

/// The occupied positions of `s`, ascending.
pub open spec fn occupied_positions(s: Seq<bool>) -> Seq<int> {
    positions_from(s, 0, true)
}

/// The vacant positions of `s`, ascending.
pub open spec fn vacant_positions(s: Seq<bool>) -> Seq<int> {
    positions_from(s, 0, false)
}

/// How many positions of `s` are occupied.
pub open spec fn count_occupied(s: Seq<bool>) -> nat {
    occupied_positions(s).len()
}

/// The lowest vacant position of `s`, or `s.len()` when every position is occupied.
pub open spec fn first_vacant(s: Seq<bool>) -> int {
    if vacant_positions(s).len() > 0 {
        vacant_positions(s)[0]
    } else {
        s.len() as int
    }
}

/// `n` vacant positions.
pub open spec fn all_vacant(n: nat) -> Seq<bool> {
    Seq::new(n, |i: int| false)
}

/// `s` truncated or extended to `n` positions: positions below both lengths keep
/// their flag, all others are vacant.
pub open spec fn resized(s: Seq<bool>, n: nat) -> Seq<bool> {
    Seq::new(n, |i: int| i < s.len() && s[i])
}

/// A sequence of positions that is strictly ascending.
pub open spec fn strictly_ascending(p: Seq<int>) -> bool {
    forall|i: int, j: int| 0 <= i < j < p.len() ==> p[i] < p[j]
}

/// `p` is strictly ascending and lists positions of `s` whose flag is `v`.
pub open spec fn ascending_within(p: Seq<int>, s: Seq<bool>, v: bool) -> bool {
    &&& strictly_ascending(p)
    &&& forall|k: int| 0 <= k < p.len() ==> 0 <= #[trigger] p[k] < s.len() && s[p[k]] == v
}

/// What `positions_from` holds: exactly the matching positions at or after
/// `from`, each once, ascending.
pub proof fn lemma_positions_from(s: Seq<bool>, from: int, v: bool)
    requires
        0 <= from,
    ensures
        strictly_ascending(positions_from(s, from, v)),
        forall|i: int|
            0 <= i < positions_from(s, from, v).len() ==> from <= #[trigger] positions_from(
                s,
                from,
                v,
            )[i] < s.len() && s[positions_from(s, from, v)[i]] == v,
        forall|p: int|
            from <= p < s.len() && s[p] == v ==> #[trigger] positions_from(s, from, v).contains(p),
        positions_from(s, from, v).len() <= if from <= s.len() {
            s.len() - from
        } else {
            0
        },
    decreases s.len() - from,
{
    if from < s.len() {
        lemma_positions_from(s, from + 1, v);
        let rest = positions_from(s, from + 1, v);
        if s[from] == v {
            let r = seq![from].add(rest);
            assert forall|p: int| from <= p < s.len() && s[p] == v implies r.contains(p) by {
                if p == from {
                    assert(r[0] == p);
                } else {
                    assert(rest.contains(p));
                    let k = choose|k: int| 0 <= k < rest.len() && rest[k] == p;
                    assert(r[k + 1] == p);
                }
            }
        }
    }
}

/// Two sequences that agree at and after `from` have the same positions there.
pub proof fn lemma_positions_from_agree(s: Seq<bool>, t: Seq<bool>, from: int, v: bool)
    requires
        0 <= from,
        s.len() == t.len(),
        forall|i: int| from <= i < s.len() ==> s[i] == t[i],
    ensures
        positions_from(s, from, v) == positions_from(t, from, v),
    decreases s.len() - from,
{
    if from < s.len() {
        lemma_positions_from_agree(s, t, from + 1, v);
    }
}

/// Vacant positions appended after `from`'s end add no occupied position.
pub proof fn lemma_positions_from_extend(s: Seq<bool>, t: Seq<bool>, from: int)
    requires
        0 <= from,
        s.len() <= t.len(),
        forall|i: int| 0 <= i < s.len() ==> s[i] == t[i],
        forall|i: int| s.len() <= i < t.len() ==> !t[i],
    ensures
        positions_from(s, from, true) == positions_from(t, from, true),
    decreases t.len() - from,
{
    if from < t.len() {
        lemma_positions_from_extend(s, t, from + 1);
    }
}

/// Setting position `i` to `b` changes the number of positions with flag `v`
/// at or after `from <= i` by at most one, as the flags say.
pub proof fn lemma_positions_from_update(s: Seq<bool>, from: int, i: int, b: bool, v: bool)
    requires
        0 <= from <= i < s.len(),
    ensures
        positions_from(s.update(i, b), from, v).len() + (if s[i] == v {
            1int
        } else {
            0
        }) == positions_from(s, from, v).len() + (if b == v {
            1int
        } else {
            0
        }),
    decreases i - from,
{
    let t = s.update(i, b);
    if from == i {
        lemma_positions_from_agree(s, t, from + 1, v);
    } else {
        lemma_positions_from_update(s, from + 1, i, b, v);
    }
}

/// Where every position at or after `from` has flag `v`, none has the other flag.
pub proof fn lemma_positions_from_none(s: Seq<bool>, from: int, v: bool)
    requires
        0 <= from,
        forall|i: int| from <= i < s.len() ==> s[i] == v,
    ensures
        positions_from(s, from, !v).len() == 0,
    decreases s.len() - from,
{
    if from < s.len() {
        lemma_positions_from_none(s, from + 1, v);
    }
}

/// The occupied and vacant positions at or after `from` together cover the range.
pub proof fn lemma_positions_from_split(s: Seq<bool>, from: int)
    requires
        0 <= from <= s.len(),
    ensures
        positions_from(s, from, true).len() + positions_from(s, from, false).len() == s.len()
            - from,
    decreases s.len() - from,
{
    if from < s.len() {
        lemma_positions_from_split(s, from + 1);
    }
}

/// A run of positions with flag `!v` starting at `from` can be skipped.
pub proof fn lemma_positions_from_skip(s: Seq<bool>, from: int, to: int, v: bool)
    requires
        0 <= from <= to,
        forall|i: int| from <= i < to && i < s.len() ==> s[i] != v,
    ensures
        positions_from(s, from, v) == positions_from(s, to, v),
    decreases to - from,
{
    if from < to {
        if from < s.len() {
            lemma_positions_from_skip(s, from + 1, to, v);
        } else {
            assert(positions_from(s, from, v).len() == 0);
            assert(positions_from(s, to, v).len() == 0);
        }
    }
}

/// The first vacant position is vacant, and every position before it is occupied.
pub proof fn lemma_first_vacant(s: Seq<bool>)
    ensures
        0 <= first_vacant(s) <= s.len(),
        first_vacant(s) < s.len() ==> !s[first_vacant(s)],
        forall|i: int| 0 <= i < first_vacant(s) ==> s[i],
        first_vacant(s) == s.len() <==> count_occupied(s) == s.len(),
{
    lemma_positions_from(s, 0, false);
    lemma_positions_from_split(s, 0);
    let f = vacant_positions(s);
    assert forall|i: int| 0 <= i < first_vacant(s) implies s[i] by {
        if !s[i] {
            assert(f.contains(i));
            let k = choose|k: int| 0 <= k < f.len() && f[k] == i;
            if k > 0 {
                assert(f[0] < f[k]);
            }
        }
    }
}

/// An all-vacant sequence has no occupied position.
pub proof fn lemma_all_vacant(n: nat)
    ensures
        count_occupied(all_vacant(n)) == 0,
        occupied_positions(all_vacant(n)).len() == 0,
{
    lemma_positions_from_none(all_vacant(n), 0, false);
}

} // verus!

verus! {

/// Whether position `p` of `s` is occupied; positions outside `s` are not.
pub open spec fn is_occupied(s: Seq<bool>, p: int) -> bool {
    0 <= p < s.len() && s[p]
}

/// The first position at or after `from` with flag `v`, or `s.len()` when there is none.
pub open spec fn next_from(s: Seq<bool>, from: int, v: bool) -> int {
    if positions_from(s, from, v).len() > 0 {
        positions_from(s, from, v)[0]
    } else {
        s.len() as int
    }
}

/// The first position with flag `v` at or after `from` is preceded only by
/// positions with the other flag, and what follows it is the rest of the positions.
pub proof fn lemma_next_from(s: Seq<bool>, from: int, v: bool)
    requires
        0 <= from,
    ensures
        forall|q: int| from <= q < next_from(s, from, v) && q < s.len() ==> s[q] != v,
        next_from(s, from, v) < s.len() ==> {
            &&& from <= next_from(s, from, v)
            &&& s[next_from(s, from, v)] == v
            &&& positions_from(s, next_from(s, from, v) + 1, v) == positions_from(
                s,
                from,
                v,
            ).drop_first()
        },
        next_from(s, from, v) >= s.len() ==> positions_from(s, from, v).len() == 0,
{
    lemma_positions_from(s, from, v);
    let r = positions_from(s, from, v);
    assert forall|q: int| from <= q < next_from(s, from, v) && q < s.len() implies s[q] != v by {
        if s[q] == v {
            assert(r.contains(q));
            let k = choose|k: int| 0 <= k < r.len() && r[k] == q;
            if k > 0 {
                assert(r[0] < r[k]);
            }
        }
    }
    if r.len() > 0 {
        let p = r[0];
        lemma_positions_from_skip(s, from, p, v);
        assert(positions_from(s, p, v) == seq![p].add(positions_from(s, p + 1, v)));
        assert(positions_from(s, p + 1, v) =~= r.drop_first());
    }
}

} // verus!
