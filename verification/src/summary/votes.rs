//! How often each buffer was found.

use crate::common::{MmioAddress, RamAddress};
use crate::dma_analysis::types::{BufModel, DmaBufMeta, SizeRange};
use crate::dma_snippet::{buf_views, snippet_views, DmaAnalysisSnippet, SnippetModel};
use crate::scan::{first_from, lemma_first_from};
use crate::tables::{
    enumerates, lemma_take_to_set, lists_values, map_get, map_insert, map_keys, map_remove,
    set_contains,
};
use fxhash::{FxHashMap, FxHashSet};
use vstd::prelude::*;

verus! {

broadcast use vstd::std_specs::hash::group_hash_axioms;

/// How often the buffers of a register were found, and how often with which sizes. The numbers are
/// wide enough for any number of snippets.
#[derive(Debug)]
pub struct BufVoteEntry {
    pub num_votes: u128,
    pub buf: DmaBufMeta,
    pub size_votes: FxHashMap<RamAddress, Vec<(SizeRange, u128)>>,
    pub conflicts: Vec<DmaBufMeta>,
}

/// The contents of a `BufVoteEntry`.
pub struct VoteModel {
    pub num_votes: nat,
    pub buf: BufModel,
    pub size_votes: Map<(RamAddress, SizeRange), nat>,
    pub conflicts: Seq<BufModel>,
}

/// The votes for a size.
pub open spec fn votes_for(votes: Seq<(SizeRange, u128)>, size: SizeRange) -> spec_fn(int) -> bool {
    |i: int| votes[i].0 == size
}

/// The place of the votes for a size.
pub open spec fn vote_place(votes: Seq<(SizeRange, u128)>, size: SizeRange) -> Option<int> {
    first_from(0, votes.len() as int, votes_for(votes, size))
}

/// The number of votes for each size at each address.
pub open spec fn size_vote_views(m: Map<RamAddress, Vec<(SizeRange, u128)>>) -> Map<
    (RamAddress, SizeRange),
    nat,
> {
    Map::new(
        |k: (RamAddress, SizeRange)| m.contains_key(k.0) && vote_place(m[k.0]@, k.1) is Some,
        |k: (RamAddress, SizeRange)| m[k.0]@[vote_place(m[k.0]@, k.1)->0].1 as nat,
    )
}

/// Some size is listed, and none twice.
pub open spec fn votes_ok(votes: Seq<(SizeRange, u128)>) -> bool {
    &&& votes.len() > 0
    &&& forall|i: int, j: int| 0 <= i < j < votes.len() ==> votes[i].0 != votes[j].0
}

impl View for BufVoteEntry {
    type V = VoteModel;

    open spec fn view(&self) -> VoteModel {
        VoteModel {
            num_votes: self.num_votes as nat,
            buf: self.buf@,
            size_votes: size_vote_views(self.size_votes@),
            conflicts: self.conflicts@.map_values(|b: DmaBufMeta| b@),
        }
    }
}

/// The buffer is a vote for the size at the address.
pub open spec fn votes_for_size(buf: BufModel, k: (RamAddress, SizeRange)) -> bool {
    buf.known_sizes.contains_key(k.0) && buf.known_sizes[k.0] == k.1
}

/// The number of votes, and zero where there are none.
pub open spec fn vote_count(
    votes: Map<(RamAddress, SizeRange), nat>,
    k: (RamAddress, SizeRange),
) -> nat {
    if votes.contains_key(k) {
        votes[k]
    } else {
        0
    }
}

/// The votes with those of one more buffer.
pub open spec fn with_size_votes(
    votes: Map<(RamAddress, SizeRange), nat>,
    buf: BufModel,
) -> Map<(RamAddress, SizeRange), nat> {
    Map::new(
        |k: (RamAddress, SizeRange)| votes.contains_key(k) || votes_for_size(buf, k),
        |k: (RamAddress, SizeRange)|
            if votes_for_size(buf, k) {
                vote_count(votes, k) + 1
            } else {
                votes[k]
            },
    )
}

impl VoteModel {
    /// The votes of one buffer.
    pub open spec fn first(buf: BufModel) -> VoteModel {
        VoteModel {
            num_votes: 1,
            buf,
            size_votes: with_size_votes(Map::empty(), buf),
            conflicts: Seq::empty(),
        }
    }

    /// The votes with those of one more buffer.
    pub open spec fn with(self, buf: BufModel) -> VoteModel {
        VoteModel {
            num_votes: self.num_votes + 1,
            size_votes: with_size_votes(self.size_votes, buf),
            ..self
        }
    }
}

/// The votes of the buffers in their order, by register. The registers in `skipped` get none.
pub open spec fn tally(bufs: Seq<BufModel>, skipped: Set<MmioAddress>) -> Map<
    MmioAddress,
    VoteModel,
>
    decreases bufs.len(),
{
    if bufs.len() == 0 {
        Map::empty()
    } else {
        let before = tally(bufs.drop_last(), skipped);
        let buf = bufs.last();
        let r = buf.mmio_address;
        if skipped.contains(r) {
            before
        } else if before.contains_key(r) {
            before.insert(r, before[r].with(buf))
        } else {
            before.insert(r, VoteModel::first(buf))
        }
    }
}

impl BufVoteEntry {
    /// The sizes at each address are listed properly, and none has more votes than there are.
    pub open spec fn wf(&self) -> bool {
        &&& forall|a: RamAddress| #[trigger]
            self.size_votes@.contains_key(a) ==> votes_ok(self.size_votes@[a]@)
        &&& forall|k: (RamAddress, SizeRange)| #[trigger]
            self@.size_votes.contains_key(k) ==> self@.size_votes[k] <= self.num_votes
    }

    /// Adds the votes of a buffer for its sizes.
    fn add_size_votes(&mut self, buf: &DmaBufMeta)
        requires
            old(self).num_votes < u128::MAX,
            forall|a: RamAddress| #[trigger]
                old(self).size_votes@.contains_key(a) ==> votes_ok(old(self).size_votes@[a]@),
            forall|k: (RamAddress, SizeRange)| #[trigger]
                old(self)@.size_votes.contains_key(k) ==> old(self)@.size_votes[k]
                    <= old(self).num_votes,
        ensures
            final(self).num_votes == old(self).num_votes,
            final(self).buf == old(self).buf,
            final(self).conflicts == old(self).conflicts,
            final(self)@.size_votes == with_size_votes(old(self)@.size_votes, buf@),
            forall|a: RamAddress| #[trigger]
                final(self).size_votes@.contains_key(a) ==> votes_ok(final(self).size_votes@[a]@),
    {
        let ghost sizes = buf.dma_buf.known_sizes@;
        let ghost before = self@.size_votes;
        let keys = map_keys(&buf.dma_buf.known_sizes);
        let mut i: usize = 0;
        proof {
            let none = BufModel { known_sizes: sizes.restrict(keys@.take(0).to_set()), ..buf@ };
            assert(keys@.take(0).to_set() =~= Set::empty());
            assert(with_size_votes(before, none) =~= before);
        }
        while i < keys.len()
            invariant
                sizes == buf.dma_buf.known_sizes@,
                enumerates(keys@, sizes.dom()),
                i <= keys@.len(),
                before == old(self)@.size_votes,
                old(self).num_votes < u128::MAX,
                forall|k: (RamAddress, SizeRange)| #[trigger]
                    before.contains_key(k) ==> before[k] <= old(self).num_votes,
                self.num_votes == old(self).num_votes,
                self.buf == old(self).buf,
                self.conflicts == old(self).conflicts,
                forall|a: RamAddress| #[trigger]
                    self.size_votes@.contains_key(a) ==> votes_ok(self.size_votes@[a]@),
                self@.size_votes == with_size_votes(
                    before,
                    BufModel {
                        known_sizes: sizes.restrict(keys@.take(i as int).to_set()),
                        ..buf@
                    },
                ),
            decreases keys.len() - i,
        {
            let a = keys[i];
            proof {
                assert(keys@.to_set().contains(a));
                lemma_take_to_set(keys@, i as int);
                assert(!keys@.take(i as int).contains(a));
            }
            let size = *map_get(&buf.dma_buf.known_sizes, &a).unwrap();
            let ghost now = self@.size_votes;
            proof {
                let seen = BufModel {
                    known_sizes: sizes.restrict(keys@.take(i as int).to_set()),
                    ..buf@
                };
                assert(!votes_for_size(seen, (a, size)));
                assert(vote_count(now, (a, size)) == vote_count(before, (a, size)));
            }
            add_vote(&mut self.size_votes, a, size);
            proof {
                let seen = BufModel {
                    known_sizes: sizes.restrict(keys@.take(i as int).to_set()),
                    ..buf@
                };
                let more = BufModel {
                    known_sizes: sizes.restrict(keys@.take(i + 1).to_set()),
                    ..buf@
                };
                assert forall|k: (RamAddress, SizeRange)| votes_for_size(more, k) <==> (
                votes_for_size(seen, k) || k == (a, size)) by {}
                assert(self@.size_votes =~= with_size_votes(before, more));
            }
            i += 1;
        }
        assert(keys@.take(i as int) =~= keys@);
        assert(sizes.restrict(sizes.dom()) =~= sizes);
    }

    /// The votes of one buffer.
    pub fn from_buf(buf: &DmaBufMeta) -> (res: Self)
        ensures
            res@ == VoteModel::first(buf@),
            res.wf(),
    {
        let mut res = BufVoteEntry {
            num_votes: 1,
            buf: buf.clone(),
            size_votes: FxHashMap::default(),
            conflicts: Vec::new(),
        };
        assert(res@.size_votes =~= Map::empty());
        res.add_size_votes(buf);
        assert(res@.conflicts =~= Seq::empty());
        res
    }

    /// Adds the votes of one more buffer. Any two buffers of one register go together.
    pub fn add_buf(&mut self, buf: &DmaBufMeta) -> (res: bool)
        requires
            old(self).wf(),
            old(self).num_votes < u128::MAX,
        ensures
            res,
            final(self)@ == old(self)@.with(buf@),
            final(self).wf(),
    {
        self.add_size_votes(buf);
        self.num_votes += 1;
        self.buf.is_compatible_with(buf)
    }
}

/// Adds a vote for a size at an address.
fn add_vote(m: &mut FxHashMap<RamAddress, Vec<(SizeRange, u128)>>, a: RamAddress, size: SizeRange)
    requires
        vote_count(size_vote_views(old(m)@), (a, size)) < u128::MAX,
        forall|b: RamAddress| #[trigger]
            old(m)@.contains_key(b) ==> votes_ok(old(m)@[b]@),
    ensures
        size_vote_views(final(m)@) == size_vote_views(old(m)@).insert(
            (a, size),
            vote_count(size_vote_views(old(m)@), (a, size)) + 1,
        ),
        forall|b: RamAddress| #[trigger]
            final(m)@.contains_key(b) ==> votes_ok(final(m)@[b]@),
{
    let ghost before = size_vote_views(m@);
    let ghost old_m = m@;
    let mut votes = match map_remove(m, &a) {
        Some(votes) => votes,
        None => Vec::new(),
    };
    let ghost old_votes = votes@;
    count_vote(&mut votes, size);
    map_insert(m, a, votes);
    proof {
        let after = size_vote_views(m@);
        let wanted = before.insert((a, size), vote_count(before, (a, size)) + 1);
        assert forall|k: (RamAddress, SizeRange)|
            #![trigger after.dom().contains(k)]
            #![trigger wanted.dom().contains(k)]
            #![trigger after[k]]
            (after.dom().contains(k) <==> wanted.dom().contains(k)) && (after.dom().contains(k)
                ==> after[k] == wanted[k]) by {
            if k.0 == a {
                if old_m.contains_key(a) {
                    assert(old_votes == old_m[a]@);
                } else {
                    assert(vote_place(old_votes, k.1) is None);
                }
                assert(before.contains_key(k) <==> vote_place(old_votes, k.1) is Some);
                if k.1 == size {
                    assert(k == (a, size));
                }
            }
        }
        assert(after =~= wanted);
    }
}

/// Adds a vote for a size.
fn count_vote(votes: &mut Vec<(SizeRange, u128)>, size: SizeRange)
    requires
        vote_place(old(votes)@, size) matches Some(i) ==> old(votes)@[i].1 < u128::MAX,
        forall|i: int, j: int|
            0 <= i < j < old(votes)@.len() ==> old(votes)@[i].0 != old(votes)@[j].0,
    ensures
        votes_ok(final(votes)@),
        vote_place(final(votes)@, size) is Some,
        final(votes)@[vote_place(final(votes)@, size)->0].1 == (match vote_place(
            old(votes)@,
            size,
        ) {
            Some(i) => old(votes)@[i].1 + 1,
            None => 1,
        }),
        forall|other: SizeRange|
            other != size ==> {
                let i = #[trigger] vote_place(old(votes)@, other);
                let j = vote_place(final(votes)@, other);
                &&& i is Some <==> j is Some
                &&& i is Some ==> final(votes)@[j->0].1 == old(votes)@[i->0].1
            },
{
    let ghost before = votes@;
    let mut i: usize = 0;
    while i < votes.len()
        invariant
            votes@ == before,
            i <= before.len(),
            vote_place(before, size) == first_from(
                i as int,
                before.len() as int,
                votes_for(before, size),
            ),
            vote_place(before, size) matches Some(i) ==> before[i].1 < u128::MAX,
            forall|i: int, j: int| 0 <= i < j < before.len() ==> before[i].0 != before[j].0,
            before == old(votes)@,
        decreases before.len() - i,
    {
        if votes[i].0 == size {
            let count = votes[i].1;
            votes.set(i, (size, count + 1));
            proof {
                lemma_first_from(0, before.len() as int, votes_for(before, size));
                assert forall|j: int| 0 <= j < i implies (#[trigger] before[j]).0 != size by {
                    assert(!votes_for(before, size)(j));
                }
                lemma_vote_places(before, votes@, size, i as int);
            }
            return;
        }
        i += 1;
    }
    votes.push((size, 1));
    proof {
        lemma_first_from(0, before.len() as int, votes_for(before, size));
        assert forall|j: int| 0 <= j < before.len() implies (#[trigger] before[j]).0 != size by {
            assert(!votes_for(before, size)(j));
        }
        lemma_vote_places(before, votes@, size, before.len() as int);
        assert forall|i: int, j: int| 0 <= i < j < votes@.len() implies votes@[i].0 != votes@[j].0 by {
            if j == before.len() {
                assert(!votes_for(before, size)(i));
            }
        }
    }
}

/// The places of votes stay where they are when those for `size` at `i` change or are added.
proof fn lemma_vote_places(
    before: Seq<(SizeRange, u128)>,
    after: Seq<(SizeRange, u128)>,
    size: SizeRange,
    i: int,
)
    requires
        0 <= i <= before.len(),
        after.len() == (if i == before.len() {
            i + 1
        } else {
            before.len() as int
        }),
        after[i].0 == size,
        i < before.len() ==> before[i].0 == size,
        forall|j: int| 0 <= j < before.len() && j != i ==> after[j] == before[j],
        forall|j: int| 0 <= j < i ==> (#[trigger] before[j]).0 != size,
    ensures
        vote_place(after, size) == Some(i),
        i < before.len() ==> vote_place(before, size) == Some(i),
        i == before.len() ==> vote_place(before, size) is None,
        forall|other: SizeRange|
            other != size ==> #[trigger] vote_place(before, other) == vote_place(after, other),
        forall|other: SizeRange|
            other != size && #[trigger] vote_place(before, other) is Some ==> 0 <= vote_place(
                before,
                other,
            )->0 < before.len() && vote_place(before, other)->0 != i,
{
    lemma_first_from(0, after.len() as int, votes_for(after, size));
    lemma_first_from(0, before.len() as int, votes_for(before, size));
    assert(votes_for(after, size)(i));
    if let Some(j) = vote_place(after, size) {
        if j < i {
            assert(before[j].0 != size);
        }
    }
    if i < before.len() {
        assert(votes_for(before, size)(i));
    }
    if let Some(j) = vote_place(before, size) {
        if j < i {
            assert(before[j].0 != size);
        }
    }
    assert forall|other: SizeRange| other != size implies #[trigger] vote_place(before, other)
        == vote_place(after, other) && (vote_place(before, other) matches Some(j) ==> 0 <= j
        < before.len() && j != i) by {
        let p = votes_for(before, other);
        let q = votes_for(after, other);
        lemma_first_from(0, before.len() as int, p);
        lemma_first_from(0, after.len() as int, q);
        assert forall|j: int| 0 <= j < before.len() implies #[trigger] p(j) == q(j) by {}
        assert(!q(i));
        match (vote_place(before, other), vote_place(after, other)) {
            (Some(j), Some(k)) => {
                assert(p(j) && q(k));
                assert(k < before.len());
                assert(p(k));
                assert(q(j));
            },
            (Some(j), None) => {
                assert(q(j));
            },
            (None, Some(k)) => {
                assert(p(k));
            },
            (None, None) => {},
        }
    }
}

/// The lists, one after the other.
pub open spec fn joined<T>(lists: Seq<Seq<T>>) -> Seq<T>
    decreases lists.len(),
{
    if lists.len() == 0 {
        Seq::empty()
    } else {
        joined(lists.drop_last()) + lists.last()
    }
}

/// The lists hold the buffers that each snippet detects, in an order that is left open.
pub open spec fn are_ballots(lists: Seq<Seq<BufModel>>, snippets: Seq<SnippetModel>) -> bool {
    &&& lists.len() == snippets.len()
    &&& forall|i: int|
        0 <= i < lists.len() ==> lists_values(
            #[trigger] lists[i],
            snippets[i].detected_candidates,
        )
}

/// The contents of the votes of each register.
pub open spec fn vote_views(m: Map<MmioAddress, BufVoteEntry>) -> Map<MmioAddress, VoteModel> {
    m.map_values(|v: BufVoteEntry| v@)
}

/// The votes of every register are listed properly.
pub open spec fn all_votes_ok(m: Map<MmioAddress, BufVoteEntry>) -> bool {
    forall|r: MmioAddress| #[trigger] m.contains_key(r) ==> m[r].wf()
}

/// No register has more votes than there are buffers, and none has a conflict.
pub proof fn lemma_tally_bound(bufs: Seq<BufModel>, skipped: Set<MmioAddress>)
    ensures
        forall|r: MmioAddress| #[trigger]
            tally(bufs, skipped).contains_key(r) ==> {
                &&& 0 < tally(bufs, skipped)[r].num_votes <= bufs.len()
                &&& tally(bufs, skipped)[r].conflicts.len() == 0
                &&& !skipped.contains(r)
            },
    decreases bufs.len(),
{
    if bufs.len() > 0 {
        lemma_tally_bound(bufs.drop_last(), skipped);
        let before = tally(bufs.drop_last(), skipped);
        assert forall|r: MmioAddress| #[trigger] tally(bufs, skipped).contains_key(r) implies {
            &&& 0 < tally(bufs, skipped)[r].num_votes <= bufs.len()
            &&& tally(bufs, skipped)[r].conflicts.len() == 0
            &&& !skipped.contains(r)
        } by {
            assert(before.contains_key(r) ==> before[r].num_votes < bufs.len());
        }
    }
}

/// Counts one more buffer.
fn add_ballot(
    votes: &mut FxHashMap<MmioAddress, BufVoteEntry>,
    buf: &DmaBufMeta,
    non_pointer_registers: &FxHashSet<MmioAddress>,
    tx_registers: &FxHashSet<MmioAddress>,
    Ghost(bufs): Ghost<Seq<BufModel>>,
)
    requires
        vote_views(old(votes)@) == tally(bufs, non_pointer_registers@.union(tx_registers@)),
        all_votes_ok(old(votes)@),
        bufs.len() < u128::MAX,
    ensures
        vote_views(final(votes)@) == tally(
            bufs.push(buf@),
            non_pointer_registers@.union(tx_registers@),
        ),
        all_votes_ok(final(votes)@),
{
    let ghost skipped = non_pointer_registers@.union(tx_registers@);
    let ghost before = votes@;
    let r = buf.mmio_address;
    proof {
        lemma_tally_bound(bufs, skipped);
        assert(bufs.push(buf@).drop_last() =~= bufs);
    }
    if set_contains(non_pointer_registers, &r) || set_contains(tx_registers, &r) {
        return;
    }
    match map_remove(votes, &r) {
        Some(mut vote) => {
            proof {
                assert(before.contains_key(r));
                assert(vote_views(before)[r] == vote@);
                assert(tally(bufs, skipped).contains_key(r));
            }
            if !vote.add_buf(buf) {
                vote.conflicts.push(buf.clone());
            }
            map_insert(votes, r, vote);
            assert(vote_views(votes@) =~= vote_views(before).insert(r, vote@));
        },
        None => {
            let vote = BufVoteEntry::from_buf(buf);
            map_insert(votes, r, vote);
            assert(vote_views(votes@) =~= vote_views(before).insert(r, vote@));
        },
    }
}

/// Counts the buffers in their order, by register, apart from those of registers that do not hold
/// pointers or that send.
pub fn tally_votes(
    bufs: &Vec<DmaBufMeta>,
    non_pointer_registers: &FxHashSet<MmioAddress>,
    tx_registers: &FxHashSet<MmioAddress>,
) -> (res: FxHashMap<MmioAddress, BufVoteEntry>)
    ensures
        vote_views(res@) == tally(
            bufs@.map_values(|b: DmaBufMeta| b@),
            non_pointer_registers@.union(tx_registers@),
        ),
        all_votes_ok(res@),
{
    let ghost skipped = non_pointer_registers@.union(tx_registers@);
    let ghost views = bufs@.map_values(|b: DmaBufMeta| b@);
    let mut res: FxHashMap<MmioAddress, BufVoteEntry> = FxHashMap::default();
    let mut i: usize = 0;
    assert(views.take(0) =~= Seq::empty());
    assert(vote_views(res@) =~= Map::empty());
    while i < bufs.len()
        invariant
            skipped == non_pointer_registers@.union(tx_registers@),
            views == bufs@.map_values(|b: DmaBufMeta| b@),
            i <= bufs@.len(),
            vote_views(res@) == tally(views.take(i as int), skipped),
            all_votes_ok(res@),
        decreases bufs.len() - i,
    {
        assert(views.take(i as int).push(views[i as int]) =~= views.take(i + 1));
        add_ballot(
            &mut res,
            &bufs[i],
            non_pointer_registers,
            tx_registers,
            Ghost(views.take(i as int)),
        );
        i += 1;
    }
    assert(views.take(i as int) =~= views);
    res
}

/// Counts the buffers that the snippets detect, by register, apart from those of registers that do
/// not hold pointers or that send. The order in which those of a snippet are counted is left open.
pub fn extract_buf_votes_from_fuzzware_snippets(
    snippets: &[DmaAnalysisSnippet],
    non_pointer_registers: &FxHashSet<MmioAddress>,
    tx_registers: &FxHashSet<MmioAddress>,
) -> (res: FxHashMap<MmioAddress, BufVoteEntry>)
    ensures
        exists|ballots: Seq<Seq<BufModel>>| #[trigger]
            are_ballots(ballots, snippet_views(snippets@)) && vote_views(res@) == tally(
                joined(ballots),
                non_pointer_registers@.union(tx_registers@),
            ),
        all_votes_ok(res@),
{
    let ghost skipped = non_pointer_registers@.union(tx_registers@);
    let ghost views = snippet_views(snippets@);
    let ghost mut ballots = Seq::<Seq<BufModel>>::empty();
    let mut res: FxHashMap<MmioAddress, BufVoteEntry> = FxHashMap::default();
    let mut i: usize = 0;
    assert(vote_views(res@) =~= Map::empty());
    while i < snippets.len()
        invariant
            skipped == non_pointer_registers@.union(tx_registers@),
            views == snippet_views(snippets@),
            i <= snippets@.len(),
            are_ballots(ballots, views.take(i as int)),
            joined(ballots).len() <= i * usize::MAX,
            vote_views(res@) == tally(joined(ballots), skipped),
            all_votes_ok(res@),
        decreases snippets.len() - i,
    {
        let detected = &snippets[i].detected_candidates;
        let keys = map_keys(detected);
        let ghost bufs = buf_views(detected@);
        let ghost before = joined(ballots);
        let ghost mut list = Seq::<BufModel>::empty();
        let mut j: usize = 0;
        assert(before + list =~= before);
        assert(bufs == views[i as int].detected_candidates);
        while j < keys.len()
            invariant
                skipped == non_pointer_registers@.union(tx_registers@),
                i < usize::MAX,
                bufs == buf_views(detected@),
                enumerates(keys@, detected@.dom()),
                j <= keys@.len(),
                list == keys@.take(j as int).map_values(|k: MmioAddress| bufs[k]),
                before.len() <= i * usize::MAX,
                vote_views(res@) == tally(before + list, skipped),
                all_votes_ok(res@),
            decreases keys.len() - j,
        {
            proof {
                assert(keys@.to_set().contains(keys@[j as int]));
                assert(i * usize::MAX + j < u128::MAX) by (nonlinear_arith)
                    requires
                        0 <= i < usize::MAX,
                        0 <= j < usize::MAX,
                        usize::MAX <= 0xffff_ffff_ffff_ffff,
                ;
            }
            let buf = map_get(detected, &keys[j]).unwrap();
            add_ballot(
                &mut res,
                buf,
                non_pointer_registers,
                tx_registers,
                Ghost(before + list),
            );
            proof {
                assert(bufs[keys@[j as int]] == buf@);
                let more = list.push(buf@);
                assert(more =~= keys@.take(j + 1).map_values(|k: MmioAddress| bufs[k]));
                assert((before + list).push(buf@) =~= before + more);
                list = more;
            }
            j += 1;
        }
        proof {
            assert(keys@.take(j as int) =~= keys@);
            assert(bufs.dom() =~= detected@.dom());
            assert(lists_values(list, bufs)) by {
                assert(enumerates(keys@, bufs.dom()));
            }
            let more = ballots.push(list);
            assert(more.drop_last() =~= ballots);
            assert(joined(more) =~= before + list);
            assert((i + 1) * usize::MAX == i * usize::MAX + usize::MAX) by (nonlinear_arith);
            assert forall|k: int| 0 <= k < more.len() implies lists_values(
                #[trigger] more[k],
                views.take(i + 1)[k].detected_candidates,
            ) by {
                if k < ballots.len() {
                    assert(lists_values(ballots[k], views.take(i as int)[k].detected_candidates));
                }
            }
            ballots = more;
        }
        i += 1;
    }
    assert(views.take(i as int) =~= views);
    res
}

/// The size has the most votes at its address.
pub open spec fn is_most_voted(
    votes: Map<(RamAddress, SizeRange), nat>,
    a: RamAddress,
    size: SizeRange,
) -> bool {
    &&& votes.contains_key((a, size))
    &&& forall|other: SizeRange| #[trigger]
        votes.contains_key((a, other)) ==> votes[(a, other)] <= votes[(a, size)]
}

/// Some size has votes at the address.
pub open spec fn has_votes(votes: Map<(RamAddress, SizeRange), nat>, a: RamAddress) -> bool {
    exists|size: SizeRange| #[trigger] votes.contains_key((a, size))
}

/// The sizes are those with the most votes, at each address with votes. Where several sizes have
/// the most votes, it is left open which one is taken.
pub open spec fn are_most_voted(
    votes: Map<(RamAddress, SizeRange), nat>,
    sizes: Map<RamAddress, SizeRange>,
) -> bool {
    &&& forall|a: RamAddress| #[trigger] sizes.contains_key(a) <==> has_votes(votes, a)
    &&& forall|a: RamAddress| #[trigger]
        sizes.contains_key(a) ==> is_most_voted(votes, a, sizes[a])
}

/// A size with the most votes in a list.
fn most_voted(votes: &Vec<(SizeRange, u128)>) -> (res: SizeRange)
    requires
        votes_ok(votes@),
    ensures
        exists|i: int| 0 <= i < votes@.len() && (#[trigger] votes@[i]).0 == res && forall|j: int|
            0 <= j < votes@.len() ==> (#[trigger] votes@[j]).1 <= votes@[i].1,
{
    let mut best: usize = 0;
    let mut i: usize = 1;
    while i < votes.len()
        invariant
            best < votes@.len(),
            1 <= i <= votes@.len(),
            forall|j: int| 0 <= j < i ==> (#[trigger] votes@[j]).1 <= votes@[best as int].1,
        decreases votes.len() - i,
    {
        if votes[i].1 >= votes[best].1 {
            best = i;
        }
        i += 1;
    }
    assert(votes@[best as int].0 == votes@[best as int].0);
    votes[best].0
}

impl BufVoteEntry {
    /// A size with the most votes, at each address with votes.
    pub fn highest_voted_sizes(&self) -> (res: FxHashMap<RamAddress, SizeRange>)
        requires
            self.wf(),
        ensures
            are_most_voted(self@.size_votes, res@),
    {
        let ghost votes = self@.size_votes;
        let keys = map_keys(&self.size_votes);
        let mut res: FxHashMap<RamAddress, SizeRange> = FxHashMap::default();
        let mut i: usize = 0;
        while i < keys.len()
            invariant
                self.wf(),
                votes == self@.size_votes,
                enumerates(keys@, self.size_votes@.dom()),
                i <= keys@.len(),
                res@.dom() == keys@.take(i as int).to_set(),
                forall|a: RamAddress| #[trigger]
                    res@.contains_key(a) ==> is_most_voted(votes, a, res@[a]),
            decreases keys.len() - i,
        {
            let a = keys[i];
            proof {
                assert(keys@.to_set().contains(a));
                lemma_take_to_set(keys@, i as int);
                assert(self.size_votes@.contains_key(a));
            }
            let list = map_get(&self.size_votes, &a).unwrap();
            let size = most_voted(list);
            proof {
                lemma_most_voted(self, a, size);
            }
            map_insert(&mut res, a, size);
            assert(res@.dom() =~= keys@.take(i + 1).to_set());
            i += 1;
        }
        proof {
            assert(keys@.take(i as int) =~= keys@);
            assert forall|a: RamAddress| #[trigger] res@.contains_key(a) <==> has_votes(
                votes,
                a,
            ) by {
                if res@.contains_key(a) {
                    assert(votes.contains_key((a, res@[a])));
                }
                if has_votes(votes, a) {
                    let size = choose|size: SizeRange| #[trigger] votes.contains_key((a, size));
                    assert(votes.contains_key((a, size)));
                    assert(self.size_votes@.contains_key(a));
                }
            }
        }
        res
    }
}

/// The size at the head of a list has the most votes at its address.
proof fn lemma_most_voted(entry: &BufVoteEntry, a: RamAddress, size: SizeRange)
    requires
        entry.wf(),
        entry.size_votes@.contains_key(a),
        exists|i: int|
            0 <= i < entry.size_votes@[a]@.len() && (#[trigger] entry.size_votes@[a]@[i]).0 == size
                && forall|j: int|
                0 <= j < entry.size_votes@[a]@.len() ==> (#[trigger] entry.size_votes@[a]@[j]).1
                    <= entry.size_votes@[a]@[i].1,
    ensures
        is_most_voted(entry@.size_votes, a, size),
{
    let votes = entry.size_votes@[a]@;
    let i = choose|i: int|
        0 <= i < votes.len() && (#[trigger] votes[i]).0 == size && forall|j: int|
            0 <= j < votes.len() ==> (#[trigger] votes[j]).1 <= votes[i].1;
    lemma_first_from(0, votes.len() as int, votes_for(votes, size));
    assert(votes_for(votes, size)(i));
    let place = vote_place(votes, size)->0;
    assert(votes_for(votes, size)(place));
    assert(votes_ok(votes));
    assert(place == i);
    assert(entry@.size_votes.contains_key((a, size)));
    assert(entry@.size_votes[(a, size)] == votes[i].1);
    assert forall|other: SizeRange| #[trigger]
        entry@.size_votes.contains_key((a, other)) implies entry@.size_votes[(a, other)]
        <= entry@.size_votes[(a, size)] by {
        lemma_first_from(0, votes.len() as int, votes_for(votes, other));
        let j = vote_place(votes, other)->0;
        assert(votes[j].1 <= votes[i].1);
    }
}

} // verus!
