//! Directory records and the spec-level helpers that the registry
//! contracts are stated over.

use vstd::prelude::*;

verus! {

/// Seconds since the Unix epoch, always supplied by the caller; the
/// engine never reads a clock.
pub type Epoch = u64;

/// Accumulated visit weight, in thousandths: a rank of one visit is
/// stored as [`RANK_UNIT`]. Fixed point keeps every rank computation
/// exact.
pub type Rank = u32;

/// The fixed-point value of a single visit (a rank of 1.0).
pub const RANK_UNIT: u32 = 1000;

/// One directory record: an opaque, never-normalized path together
/// with its accumulated rank and the time of its most recent visit.
#[derive(Debug)]
pub struct Dir {
    pub path: String,
    pub rank: Rank,
    pub last_accessed: Epoch,
}

/// The mathematical image of a record: the path as a character
/// sequence, rank and last-accessed time as plain integers.
pub struct DirV {
    pub path: Seq<char>,
    pub rank: u32,
    pub last_accessed: u64,
}

impl View for Dir {
    type V = DirV;

    open spec fn view(&self) -> DirV {
        DirV { path: self.path@, rank: self.rank, last_accessed: self.last_accessed }
    }
}

impl Dir {
    /// A field-for-field copy of the record.
    pub fn duplicate(&self) -> (r: Dir)
        ensures
            r@ == self@,
    {
        Dir { path: self.path.clone(), rank: self.rank, last_accessed: self.last_accessed }
    }
}

/// The view of a whole record list.
pub open spec fn dirs_view(s: Seq<Dir>) -> Seq<DirV> {
    s.map_values(|d: Dir| d@)
}

/// Whether some record in `s` carries exactly the path `p`.
pub open spec fn contains_path(s: Seq<DirV>, p: Seq<char>) -> bool {
    exists|i: int| 0 <= i < s.len() && s[i].path == p
}

/// The index of the first record whose path is `p`; `s.len()` when no
/// record matches.
pub open spec fn first_match(s: Seq<DirV>, p: Seq<char>) -> int
    decreases s.len(),
{
    if s.len() == 0 {
        0
    } else if s[0].path == p {
        0
    } else {
        1 + first_match(s.drop_first(), p)
    }
}

/// How many records in `s` carry the path `p`.
pub open spec fn count_path(s: Seq<DirV>, p: Seq<char>) -> int
    decreases s.len(),
{
    if s.len() == 0 {
        0
    } else {
        (if s[0].path == p {
            1int
        } else {
            0int
        }) + count_path(s.drop_first(), p)
    }
}

/// The sum of all ranks in `s`, as an unbounded integer.
pub open spec fn sum_ranks(s: Seq<DirV>) -> int
    decreases s.len(),
{
    if s.len() == 0 {
        0
    } else {
        s[0].rank + sum_ranks(s.drop_first())
    }
}

/// `first_match` names the first index carrying `p`, and `s.len()`
/// exactly when `p` is absent.
pub proof fn lemma_first_match(s: Seq<DirV>, p: Seq<char>)
    ensures
        0 <= first_match(s, p) <= s.len(),
        contains_path(s, p) <==> first_match(s, p) < s.len(),
        first_match(s, p) < s.len() ==> s[first_match(s, p)].path == p,
        forall|j: int| 0 <= j < first_match(s, p) ==> s[j].path != p,
    decreases s.len(),
{
    if s.len() != 0 && s[0].path != p {
        lemma_first_match(s.drop_first(), p);
        assert forall|i: int| 0 <= i < s.len() && s[i].path == p implies first_match(s, p)
            < s.len() by {
            assert(s.drop_first()[i - 1] == s[i]);
        }
        assert forall|j: int| 0 <= j < first_match(s, p) implies s[j].path != p by {
            if j > 0 {
                assert(s.drop_first()[j - 1] == s[j]);
            }
        }
    }
}

/// A record's presence is the same thing as a positive count.
pub proof fn lemma_count_path_contains(s: Seq<DirV>, p: Seq<char>)
    ensures
        count_path(s, p) >= 0,
        contains_path(s, p) <==> count_path(s, p) > 0,
    decreases s.len(),
{
    if s.len() != 0 {
        lemma_count_path_contains(s.drop_first(), p);
        if count_path(s, p) > 0 {
            if s[0].path == p {
                assert(contains_path(s, p));
            } else {
                let i = choose|i: int|
                    0 <= i < s.drop_first().len() && s.drop_first()[i].path == p;
                assert(s[i + 1].path == p);
            }
        }
        if contains_path(s, p) && s[0].path != p {
            let i = choose|i: int| 0 <= i < s.len() && s[i].path == p;
            assert(s.drop_first()[i - 1] == s[i]);
            assert(contains_path(s.drop_first(), p));
        }
    }
}

/// Every rank is bounded by the sum of the ranks around it.
pub proof fn lemma_rank_le_sum(s: Seq<DirV>, i: int)
    requires
        0 <= i < s.len(),
    ensures
        0 <= s[i].rank <= sum_ranks(s),
        sum_ranks(s) >= 0,
    decreases s.len(),
{
    lemma_sum_ranks_nonneg(s.drop_first());
    if i > 0 {
        lemma_rank_le_sum(s.drop_first(), i - 1);
        assert(s.drop_first()[i - 1] == s[i]);
    }
}

/// Rank sums are never negative.
pub proof fn lemma_sum_ranks_nonneg(s: Seq<DirV>)
    ensures
        sum_ranks(s) >= 0,
    decreases s.len(),
{
    if s.len() != 0 {
        lemma_sum_ranks_nonneg(s.drop_first());
    }
}

/// Summing is additive over concatenation.
pub proof fn lemma_sum_ranks_add(a: Seq<DirV>, b: Seq<DirV>)
    ensures
        sum_ranks(a + b) == sum_ranks(a) + sum_ranks(b),
    decreases a.len(),
{
    if a.len() == 0 {
        assert(a + b =~= b);
    } else {
        assert((a + b).drop_first() =~= a.drop_first() + b);
        lemma_sum_ranks_add(a.drop_first(), b);
    }
}

/// Replacing one record changes the sum by the difference of the two
/// ranks.
pub proof fn lemma_sum_ranks_update(s: Seq<DirV>, i: int, d: DirV)
    requires
        0 <= i < s.len(),
    ensures
        sum_ranks(s.update(i, d)) == sum_ranks(s) - s[i].rank + d.rank,
    decreases s.len(),
{
    if i == 0 {
        assert(s.update(0, d).drop_first() =~= s.drop_first());
    } else {
        assert(s.update(i, d).drop_first() =~= s.drop_first().update(i - 1, d));
        assert(s.drop_first()[i - 1] == s[i]);
        lemma_sum_ranks_update(s.drop_first(), i - 1, d);
    }
}

/// Appending one record adds its rank to the sum.
pub proof fn lemma_sum_ranks_push(s: Seq<DirV>, d: DirV)
    ensures
        sum_ranks(s.push(d)) == sum_ranks(s) + d.rank,
{
    assert(s.push(d) =~= s + seq![d]);
    lemma_sum_ranks_add(s, seq![d]);
    assert(seq![d].drop_first() =~= Seq::<DirV>::empty());
    assert(sum_ranks(Seq::<DirV>::empty()) == 0);
    assert(sum_ranks(seq![d]) == d.rank + sum_ranks(seq![d].drop_first()));
}

} // verus!
