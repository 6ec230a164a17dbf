//! The registers in the order of their votes.

use crate::common::MmioAddress;
use core::cmp::Ordering;
use itertools::Itertools;
use vstd::prelude::*;

verus! {

/// The registers with exactly `n` votes.
pub open spec fn with_votes(n: u128) -> spec_fn((MmioAddress, u128)) -> bool {
    |entry: (MmioAddress, u128)| entry.1 == n
}

/// Puts the one with more votes first.
fn by_votes(a: &(MmioAddress, u128), b: &(MmioAddress, u128)) -> (res: Ordering)
    ensures
        res == (if a.1 > b.1 {
            Ordering::Less
        } else if a.1 < b.1 {
            Ordering::Greater
        } else {
            Ordering::Equal
        }),
{
    if a.1 > b.1 {
        Ordering::Less
    } else if a.1 < b.1 {
        Ordering::Greater
    } else {
        Ordering::Equal
    }
}

/// `Itertools::sorted_by` with `by_votes`: the registers in descending order of their votes. Those
/// with the same number of votes are the same ones as before, in the order in which they stood.
#[verifier::external_body]
fn sort_by_votes(entries: Vec<(MmioAddress, u128)>) -> (res: Vec<(MmioAddress, u128)>)
    ensures
        forall|i: int, j: int| 0 <= i < j < res@.len() ==> res@[i].1 >= res@[j].1,
        forall|n: u128| #[trigger]
            res@.filter(with_votes(n)) == entries@.filter(with_votes(n)),
{
    entries.into_iter().sorted_by(|a, b| by_votes(a, b)).collect()
}

/// What is kept was there.
proof fn lemma_filtered<A>(s: Seq<A>, p: spec_fn(A) -> bool, x: A)
    requires
        s.filter(p).contains(x),
    ensures
        s.contains(x),
    decreases s.len(),
{
    reveal(Seq::filter);
    if s.len() > 0 {
        let rest = s.drop_last();
        assert(s[s.len() - 1] == s.last());
        if rest.filter(p).contains(x) {
            lemma_filtered(rest, p, x);
            let i = choose|i: int| 0 <= i < rest.len() && rest[i] == x;
            assert(s[i] == x);
        } else {
            let kept = s.filter(p);
            let i = choose|i: int| 0 <= i < kept.len() && kept[i] == x;
            if i < rest.filter(p).len() {
                assert(rest.filter(p)[i] == x);
            }
            assert(x == s.last());
        }
    }
}

/// Finds the first one of the registers with the most votes.
pub fn most_voted_register(entries: Vec<(MmioAddress, u128)>) -> (res: Option<MmioAddress>)
    ensures
        res is None <==> entries@.len() == 0,
        res matches Some(r) ==> exists|i: int|
            0 <= i < entries@.len() && (#[trigger] entries@[i]).0 == r && (forall|j: int|
                0 <= j < entries@.len() ==> (#[trigger] entries@[j]).1 <= entries@[i].1) && (
            forall|j: int| 0 <= j < i ==> (#[trigger] entries@[j]).1 < entries@[i].1),
{
    let ghost all = entries@;
    let sorted = sort_by_votes(entries);
    if sorted.len() == 0 {
        proof {
            if all.len() > 0 {
                let n = all[0].1;
                all.lemma_filter_contains(with_votes(n), 0);
                assert(sorted@.filter(with_votes(n)).contains(all[0]));
                lemma_filtered(sorted@, with_votes(n), all[0]);
            }
        }
        return None;
    }
    let first = sorted[0];
    proof {
        let n = first.1;
        sorted@.lemma_filter_contains(with_votes(n), 0);
        assert forall|j: int| 0 <= j < all.len() implies (#[trigger] all[j]).1 <= n by {
            let m = all[j].1;
            all.lemma_filter_contains(with_votes(m), j);
            assert(sorted@.filter(with_votes(m)).contains(all[j]));
            lemma_filtered(sorted@, with_votes(m), all[j]);
            let k = choose|k: int| 0 <= k < sorted@.len() && sorted@[k] == all[j];
            if k > 0 {
                assert(sorted@[0].1 >= sorted@[k].1);
            }
        }
        lemma_first_kept(sorted@, with_votes(n));
        assert(sorted@.filter(with_votes(n))[0] == first);
        assert(all.filter(with_votes(n)).contains(first));
        lemma_filtered(all, with_votes(n), first);
        let i = lemma_first_hit(all, with_votes(n));
        assert(all[i] == first);
        assert forall|j: int| 0 <= j < i implies (#[trigger] all[j]).1 < all[i].1 by {
            assert(!with_votes(n)(all[j]));
        }
        assert(all[i].0 == first.0);
    }
    Some(first.0)
}

/// An element that is kept and stands first is kept as the first one.
proof fn lemma_first_kept<A>(s: Seq<A>, p: spec_fn(A) -> bool)
    requires
        s.len() > 0,
        p(s[0]),
    ensures
        s.filter(p).len() > 0,
        s.filter(p)[0] == s[0],
    decreases s.len(),
{
    reveal(Seq::filter);
    if s.len() > 1 {
        lemma_first_kept(s.drop_last(), p);
    } else {
        assert(s.drop_last().filter(p) =~= Seq::empty());
    }
}

/// The first element that is kept.
proof fn lemma_first_hit<A>(s: Seq<A>, p: spec_fn(A) -> bool) -> (i: int)
    requires
        s.filter(p).len() > 0,
    ensures
        0 <= i < s.len(),
        s[i] == s.filter(p)[0],
        forall|j: int| 0 <= j < i ==> !p(#[trigger] s[j]),
    decreases s.len(),
{
    reveal(Seq::filter);
    let rest = s.drop_last();
    if rest.filter(p).len() > 0 {
        let i = lemma_first_hit(rest, p);
        assert forall|j: int| 0 <= j < i implies !p(#[trigger] s[j]) by {
            assert(s[j] == rest[j]);
        }
        i
    } else {
        assert forall|j: int| 0 <= j < rest.len() implies !p(#[trigger] s[j]) by {
            if p(s[j]) {
                assert(rest[j] == s[j]);
                rest.lemma_filter_contains(p, j);
            }
        }
        s.len() - 1
    }
}

} // verus!
