//! Sequences in ascending order: the view of a vector of machine integers
//! as natural numbers, an insertion sort, and why a strictly ascending
//! sequence is fixed by its entries.

use vstd::prelude::*;

use crate::unsigned::Num;

verus! {

/// The natural numbers that a sequence of machine integers holds.
pub open spec fn values<T: Num>(s: Seq<T>) -> Seq<nat> {
    s.map_values(|t: T| t.val())
}

/// Each entry is below the next.
pub open spec fn strictly_ascending(s: Seq<nat>) -> bool {
    forall|i: int, j: int| 0 <= i < j < s.len() ==> s[i] < s[j]
}

/// Inserting `x` where everything before is smaller and everything after is
/// larger keeps a sequence strictly ascending.
proof fn lemma_insert_ascending(s: Seq<nat>, pos: int, x: nat)
    requires
        strictly_ascending(s),
        0 <= pos <= s.len(),
        forall|k: int| 0 <= k < pos ==> s[k] < x,
        pos < s.len() ==> x < s[pos],
    ensures
        strictly_ascending(s.insert(pos, x)),
{
    let t = s.insert(pos, x);
    assert forall|i: int, j: int| 0 <= i < j < t.len() implies t[i] < t[j] by {
        if j < pos {
        } else if j == pos {
        } else if i < pos {
            assert(s[i] < x);
            assert(x < s[pos]);
            assert(s[pos] <= s[j - 1]);
        } else if i == pos {
            assert(x < s[pos]);
            assert(s[pos] <= s[j - 1]);
        } else {
        }
    }
}

/// The entries of `v` in ascending order, by insertion into a new vector.
pub(crate) fn sort_ascending<T: Num>(v: &Vec<T>) -> (r: Vec<T>)
    requires
        values(v@).no_duplicates(),
    ensures
        strictly_ascending(values(r@)),
        forall|d: nat| #[trigger] values(r@).contains(d) <==> values(v@).contains(d),
{
    let mut r: Vec<T> = Vec::new();
    let mut i: usize = 0;
    while i < v.len()
        invariant
            i <= v.len(),
            values(v@).no_duplicates(),
            strictly_ascending(values(r@)),
            forall|d: nat| #[trigger] values(r@).contains(d) <==> values(v@).take(i as int).contains(d),
        decreases v.len() - i,
    {
        let x = v[i];
        let mut pos: usize = 0;
        while pos < r.len() && r[pos].less_than(x)
            invariant
                pos <= r.len(),
                forall|k: int| 0 <= k < pos ==> values(r@)[k] < x.val(),
            decreases r.len() - pos,
        {
            pos = pos + 1;
        }
        let ghost before = values(r@);
        proof {
            if pos < r.len() {
                if before[pos as int] == x.val() {
                    assert(before.contains(x.val()));
                    let k = choose|k: int| 0 <= k < i && #[trigger] values(v@).take(i as int)[k] == x.val();
                    assert(values(v@)[k] == values(v@)[i as int]);
                }
            }
            lemma_insert_ascending(before, pos as int, x.val());
        }
        r.insert(pos, x);
        assert(values(r@) =~= before.insert(pos as int, x.val()));
        assert(values(v@).take(i + 1) =~= values(v@).take(i as int).push(x.val()));
        assert forall|d: nat| #[trigger] values(r@).contains(d) <==> values(v@).take(i + 1).contains(d) by {
            let now = values(r@);
            if now.contains(d) {
                let k = choose|k: int| 0 <= k < now.len() && now[k] == d;
                if k < pos {
                    assert(before[k] == d);
                    assert(before.contains(d));
                } else if k > pos {
                    assert(before[k - 1] == d);
                    assert(before.contains(d));
                } else {
                    assert(values(v@).take(i + 1)[i as int] == d);
                }
            }
            if values(v@).take(i + 1).contains(d) {
                if d == x.val() {
                    assert(now[pos as int] == d);
                } else {
                    let k = choose|k: int| 0 <= k < i + 1 && #[trigger] values(v@).take(i + 1)[k] == d;
                    assert(values(v@).take(i as int)[k] == d);
                    assert(before.contains(d));
                    let k2 = choose|k2: int| 0 <= k2 < before.len() && before[k2] == d;
                    if k2 < pos {
                        assert(now[k2] == d);
                    } else {
                        assert(now[k2 + 1] == d);
                    }
                }
            }
        }
        i = i + 1;
    }
    assert(values(v@).take(v.len() as int) =~= values(v@));
    r
}

/// Two strictly ascending sequences with the same entries are equal.
pub proof fn lemma_ascending_unique(s1: Seq<nat>, s2: Seq<nat>)
    requires
        strictly_ascending(s1),
        strictly_ascending(s2),
        forall|d: nat| #![trigger s1.contains(d)] #![trigger s2.contains(d)] s1.contains(d) <==> s2.contains(d),
    ensures
        s1 == s2,
    decreases s1.len(),
{
    if s1.len() == 0 {
        if s2.len() > 0 {
            assert(s2.contains(s2[0]));
        }
        assert(s1 =~= s2);
    } else {
        assert(s1.contains(s1[0]));
        assert(s2.len() > 0);
        assert(s2.contains(s2[0]));
        let k2 = choose|k: int| 0 <= k < s2.len() && s2[k] == s1[0];
        let k1 = choose|k: int| 0 <= k < s1.len() && s1[k] == s2[0];
        assert(s1[0] <= s1[k1]);
        assert(s2[0] <= s2[k2]);
        let t1 = s1.drop_first();
        let t2 = s2.drop_first();
        assert forall|d: nat| #![trigger t1.contains(d)] #![trigger t2.contains(d)] t1.contains(d) <==> t2.contains(d) by {
            if t1.contains(d) {
                let i = choose|i: int| 0 <= i < t1.len() && t1[i] == d;
                assert(s1[i + 1] == d);
                assert(s1.contains(d));
                let k = choose|k: int| 0 <= k < s2.len() && s2[k] == d;
                assert(k != 0);
                assert(t2[k - 1] == d);
            }
            if t2.contains(d) {
                let i = choose|i: int| 0 <= i < t2.len() && t2[i] == d;
                assert(s2[i + 1] == d);
                assert(s2.contains(d));
                let k = choose|k: int| 0 <= k < s1.len() && s1[k] == d;
                assert(k != 0);
                assert(t1[k - 1] == d);
            }
        }
        lemma_ascending_unique(t1, t2);
        assert(s1.len() == s2.len());
        assert(s1 =~= s2) by {
            assert forall|i: int| 0 <= i < s1.len() implies s1[i] == s2[i] by {
                if i > 0 {
                    assert(s1[i] == t1[i - 1]);
                    assert(s2[i] == t2[i - 1]);
                }
            }
        }
    }
}

} // verus!
