//! The in-memory registry: an unordered list of directory records
//! with a `modified` flag, supporting add, remove, dedup and age.

use crate::codec;
use crate::codec::{DecodeError, EncodeError};
use crate::dir::{
    contains_path, count_path, dirs_view, first_match, lemma_count_path_contains,
    lemma_first_match, lemma_rank_le_sum, lemma_sum_ranks_nonneg, lemma_sum_ranks_push,
    lemma_sum_ranks_update, sum_ranks, Dir, DirV, Epoch, Rank, RANK_UNIT,
};
use vstd::prelude::*;
use vstd::string::StringExecFns;

verus! {

/// The registry: records in memory plus a flag that records whether
/// the in-memory state differs from the last successful save.
#[derive(Debug)]
pub struct Database {
    pub dirs: Vec<Dir>,
    pub modified: bool,
}

/// Ranks add with saturation at the top of the fixed-point range.
pub open spec fn merge_rank(a: u32, b: u32) -> u32 {
    if a + b <= u32::MAX {
        (a + b) as u32
    } else {
        u32::MAX
    }
}

/// A record after one more visit at `now`.
pub open spec fn bumped(d: DirV, now: u64) -> DirV {
    DirV { path: d.path, rank: merge_rank(d.rank, RANK_UNIT), last_accessed: now }
}

/// The index of the first record with path `p`, if any.
fn find_path(dirs: &Vec<Dir>, path: &String) -> (r: Option<usize>)
    ensures
        r is Some <==> contains_path(dirs_view(dirs@), path@),
        r matches Some(i) ==> i == first_match(dirs_view(dirs@), path@) && i < dirs@.len(),
{
    let ghost s = dirs_view(dirs@);
    proof {
        lemma_first_match(s, path@);
    }
    let mut i: usize = 0;
    while i < dirs.len()
        invariant
            0 <= i <= dirs@.len(),
            s == dirs_view(dirs@),
            forall|j: int| 0 <= j < i ==> s[j].path != path@,
            0 <= first_match(s, path@) <= s.len(),
            contains_path(s, path@) <==> first_match(s, path@) < s.len(),
            first_match(s, path@) < s.len() ==> s[first_match(s, path@)].path == path@,
            forall|j: int| 0 <= j < first_match(s, path@) ==> s[j].path != path@,
        decreases dirs@.len() - i,
    {
        assert(s[i as int] == dirs@[i as int]@);
        if dirs[i].path == *path {
            assert(s[i as int].path == path@);
            assert(contains_path(s, path@));
            assert(i == first_match(s, path@));
            return Some(i);
        }
        i = i + 1;
    }
    assert(!contains_path(s, path@));
    None
}

impl Database {
    /// An empty, unmodified registry.
    pub fn new() -> (r: Database)
        ensures
            dirs_view(r.dirs@) =~= Seq::<DirV>::empty(),
            !r.modified,
    {
        Database { dirs: Vec::new(), modified: false }
    }

    /// Decodes a registry from a buffer read off disk; fresh from
    /// disk, it counts as unmodified.
    pub fn from_bytes(bytes: &[u8]) -> (r: Result<Database, DecodeError>)
        ensures
            r matches Ok(db) ==> codec::spec_decode(bytes@) == Ok::<Seq<DirV>, DecodeError>(
                dirs_view(db.dirs@),
            ) && !db.modified,
            r matches Err(e) ==> codec::spec_decode(bytes@) == Err::<Seq<DirV>, DecodeError>(e),
    {
        match codec::decode(bytes) {
            Ok(dirs) => Ok(Database { dirs, modified: false }),
            Err(e) => Err(e),
        }
    }

    /// Encodes the registry for saving; record order in the buffer is
    /// the in-memory order.
    pub fn to_bytes(&self) -> (r: Result<Vec<u8>, EncodeError>)
        ensures
            r is Ok <==> codec::encodable(dirs_view(self.dirs@)),
            r matches Ok(bytes) ==> bytes@ == codec::spec_encode(dirs_view(self.dirs@)),
    {
        codec::encode(&self.dirs)
    }

    /// Clears the modified flag once a save has succeeded.
    pub fn mark_saved(&mut self)
        ensures
            final(self).dirs == old(self).dirs,
            !final(self).modified,
    {
        self.modified = false;
    }

    /// Adds a new directory or bumps an existing one: the first
    /// record with exactly this path gets one more visit of rank and
    /// its last-accessed time set to `now`; otherwise a fresh record
    /// with one visit is appended.
    pub fn add(&mut self, path: &str, now: Epoch)
        ensures
            ({
                let s = dirs_view(old(self).dirs@);
                let t = dirs_view(final(self).dirs@);
                if contains_path(s, path@) {
                    t == s.update(first_match(s, path@), bumped(s[first_match(s, path@)], now))
                } else {
                    t == s.push(DirV { path: path@, rank: RANK_UNIT, last_accessed: now })
                }
            }),
            final(self).modified,
    {
        let ghost s = dirs_view(self.dirs@);
        let owned = String::from_str(path);
        match find_path(&self.dirs, &owned) {
            Some(i) => {
                let r = self.dirs[i].rank;
                let nr = if r <= u32::MAX - RANK_UNIT {
                    r + RANK_UNIT
                } else {
                    u32::MAX
                };
                self.dirs[i].rank = nr;
                self.dirs[i].last_accessed = now;
                assert(dirs_view(self.dirs@) =~= s.update(
                    first_match(s, path@),
                    bumped(s[first_match(s, path@)], now),
                ));
            },
            None => {
                self.dirs.push(Dir { path: owned, rank: RANK_UNIT, last_accessed: now });
                assert(dirs_view(self.dirs@) =~= s.push(
                    DirV { path: path@, rank: RANK_UNIT, last_accessed: now },
                ));
            },
        }
        self.modified = true;
    }

    /// Removes the first record with exactly this path, filling its
    /// place with the last record (order is not preserved). Returns
    /// whether a record was removed; the flag is set only then.
    pub fn remove(&mut self, path: &str) -> (r: bool)
        ensures
            r == contains_path(dirs_view(old(self).dirs@), path@),
            ({
                let s = dirs_view(old(self).dirs@);
                if contains_path(s, path@) {
                    dirs_view(final(self).dirs@) == s.update(
                        first_match(s, path@),
                        s.last(),
                    ).drop_last() && final(self).modified
                } else {
                    *final(self) == *old(self)
                }
            }),
    {
        let ghost s = dirs_view(self.dirs@);
        let owned = String::from_str(path);
        match find_path(&self.dirs, &owned) {
            Some(i) => {
                self.dirs.swap_remove(i);
                self.modified = true;
                assert(dirs_view(self.dirs@) =~= s.update(
                    first_match(s, path@),
                    s.last(),
                ).drop_last());
                true
            },
            None => false,
        }
    }
}

/// The result of one record being absorbed by an earlier one with
/// the same path: ranks add (saturating), the later visit time wins.
pub open spec fn merged_dir(a: DirV, b: DirV) -> DirV {
    DirV {
        path: a.path,
        rank: merge_rank(a.rank, b.rank),
        last_accessed: if a.last_accessed >= b.last_accessed {
            a.last_accessed
        } else {
            b.last_accessed
        },
    }
}

/// Merging one record into a list: the first record with the same
/// path absorbs it, or it is appended.
pub open spec fn merge_into(acc: Seq<DirV>, d: DirV) -> Seq<DirV> {
    if contains_path(acc, d.path) {
        acc.update(first_match(acc, d.path), merged_dir(acc[first_match(acc, d.path)], d))
    } else {
        acc.push(d)
    }
}

/// Merging a whole list into an accumulator, left to right.
pub open spec fn dedup_from(acc: Seq<DirV>, s: Seq<DirV>) -> Seq<DirV>
    decreases s.len(),
{
    if s.len() == 0 {
        acc
    } else {
        dedup_from(merge_into(acc, s[0]), s.drop_first())
    }
}

/// The registry after deduplication: duplicates merged into the first
/// occurrence of each path, in first-occurrence order.
pub open spec fn spec_dedup(s: Seq<DirV>) -> Seq<DirV> {
    dedup_from(Seq::empty(), s)
}

/// No two records share a path.
pub open spec fn unique_paths(s: Seq<DirV>) -> bool {
    forall|i: int, j: int| 0 <= i < j < s.len() ==> s[i].path != s[j].path
}

/// Some two records share a path.
pub open spec fn has_dup(s: Seq<DirV>) -> bool {
    exists|i: int, j: int| 0 <= i < j < s.len() && s[i].path == s[j].path
}

/// Merging one record adds its path to the paths of the accumulator.
pub proof fn lemma_merge_into_paths(acc: Seq<DirV>, d: DirV)
    ensures
        forall|p: Seq<char>| #[trigger]
            contains_path(merge_into(acc, d), p) == (contains_path(acc, p) || p == d.path),
{
    lemma_first_match(acc, d.path);
    let t = merge_into(acc, d);
    assert forall|p: Seq<char>| #[trigger]
        contains_path(t, p) == (contains_path(acc, p) || p == d.path) by {
        if contains_path(acc, d.path) {
            let fm = first_match(acc, d.path);
            if contains_path(t, p) {
                let m = choose|m: int| 0 <= m < t.len() && t[m].path == p;
                if m == fm {
                    assert(p == d.path);
                } else {
                    assert(acc[m].path == p);
                    assert(contains_path(acc, p));
                }
            }
            if contains_path(acc, p) {
                let m = choose|m: int| 0 <= m < acc.len() && acc[m].path == p;
                if m == fm {
                    assert(t[fm].path == d.path && p == d.path);
                } else {
                    assert(t[m].path == p);
                }
                assert(contains_path(t, p));
            }
            if p == d.path {
                assert(t[fm].path == p);
                assert(contains_path(t, p));
            }
        } else {
            if contains_path(t, p) {
                let m = choose|m: int| 0 <= m < t.len() && t[m].path == p;
                if m == acc.len() {
                    assert(p == d.path);
                } else {
                    assert(acc[m].path == p);
                    assert(contains_path(acc, p));
                }
            }
            if contains_path(acc, p) {
                let m = choose|m: int| 0 <= m < acc.len() && acc[m].path == p;
                assert(t[m].path == p);
                assert(contains_path(t, p));
            }
            if p == d.path {
                assert(t[acc.len() as int].path == p);
                assert(contains_path(t, p));
            }
        }
    }
}

/// One more record extends the paths of a prefix by its own path.
pub proof fn lemma_take_paths(s: Seq<DirV>, i: int)
    requires
        0 <= i < s.len(),
    ensures
        forall|p: Seq<char>| #[trigger]
            contains_path(s.take(i + 1), p) == (contains_path(s.take(i), p) || p == s[i].path),
{
    assert forall|p: Seq<char>| #[trigger]
        contains_path(s.take(i + 1), p) == (contains_path(s.take(i), p) || p == s[i].path) by {
        if contains_path(s.take(i + 1), p) {
            let m = choose|m: int| 0 <= m < i + 1 && #[trigger] s.take(i + 1)[m].path == p;
            if m < i {
                assert(s.take(i)[m].path == p);
                assert(contains_path(s.take(i), p));
            } else {
                assert(p == s[i].path);
            }
        }
        if contains_path(s.take(i), p) {
            let m = choose|m: int| 0 <= m < i && s.take(i)[m].path == p;
            assert(s.take(i + 1)[m].path == p);
            assert(contains_path(s.take(i + 1), p));
        }
        if p == s[i].path {
            assert(s.take(i + 1)[i].path == p);
            assert(contains_path(s.take(i + 1), p));
        }
    }
}

impl Database {
    /// Merges all records that share a path: the first occurrence
    /// keeps its place and absorbs the ranks (summed) and the latest
    /// visit time of the others. The flag is set only when some merge
    /// occurred.
    pub fn dedup(&mut self)
        ensures
            dirs_view(final(self).dirs@) == spec_dedup(dirs_view(old(self).dirs@)),
            final(self).modified == (old(self).modified || has_dup(dirs_view(old(self).dirs@))),
    {
        let ghost s = dirs_view(self.dirs@);
        let mut out: Vec<Dir> = Vec::new();
        let mut merged = false;
        let mut i: usize = 0;
        proof {
            assert(s.skip(0) =~= s);
            assert(dirs_view(out@) =~= Seq::<DirV>::empty());
            assert(s.take(0) =~= Seq::<DirV>::empty());
        }
        while i < self.dirs.len()
            invariant
                s == dirs_view(self.dirs@),
                0 <= i <= s.len(),
                dedup_from(dirs_view(out@), s.skip(i as int)) == spec_dedup(s),
                forall|p: Seq<char>| #[trigger]
                    contains_path(dirs_view(out@), p) == contains_path(s.take(i as int), p),
                merged == has_dup(s.take(i as int)),
            decreases s.len() - i,
        {
            let ghost acc = dirs_view(out@);
            proof {
                assert(s[i as int] == self.dirs@[i as int]@);
                assert(s.skip(i as int)[0] == s[i as int]);
                assert(s.skip(i as int).drop_first() =~= s.skip(i as int + 1));
                lemma_merge_into_paths(acc, s[i as int]);
                lemma_take_paths(s, i as int);
            }
            match find_path(&out, &self.dirs[i].path) {
                Some(j) => {
                    let add_rank = self.dirs[i].rank;
                    let add_last = self.dirs[i].last_accessed;
                    let r = out[j].rank;
                    let nr = if r <= u32::MAX - add_rank {
                        r + add_rank
                    } else {
                        u32::MAX
                    };
                    out[j].rank = nr;
                    if out[j].last_accessed < add_last {
                        out[j].last_accessed = add_last;
                    }
                    merged = true;
                    proof {
                        assert(dirs_view(out@) =~= acc.update(
                            first_match(acc, s[i as int].path),
                            merged_dir(acc[first_match(acc, s[i as int].path)], s[i as int]),
                        ));
                        assert(dirs_view(out@) == merge_into(acc, s[i as int]));
                        assert(contains_path(s.take(i as int), s[i as int].path));
                        let m = choose|m: int|
                            0 <= m < i && s.take(i as int)[m].path == s[i as int].path;
                        assert(s.take(i as int + 1)[m].path == s.take(i as int + 1)[i as int].path);
                        assert(has_dup(s.take(i as int + 1)));
                    }
                },
                None => {
                    out.push(self.dirs[i].duplicate());
                    proof {
                        assert(dirs_view(out@) =~= acc.push(s[i as int]));
                        assert(dirs_view(out@) == merge_into(acc, s[i as int]));
                        if has_dup(s.take(i as int + 1)) {
                            let (a, b) = choose|a: int, b: int|
                                0 <= a < b < i + 1 && #[trigger] s.take(i as int + 1)[a].path == #[trigger] s.take(
                                    i as int + 1,
                                )[b].path;
                            if b == i {
                                assert(s.take(i as int)[a].path == s[i as int].path);
                                assert(contains_path(s.take(i as int), s[i as int].path));
                                assert(false);
                            } else {
                                assert(s.take(i as int)[a].path == s.take(i as int)[b].path);
                                assert(has_dup(s.take(i as int)));
                            }
                        }
                        assert(!has_dup(s.take(i as int + 1)) ==> !has_dup(s.take(i as int)))
                            by {
                            if has_dup(s.take(i as int)) {
                                let (a, b) = choose|a: int, b: int|
                                    0 <= a < b < i && #[trigger] s.take(i as int)[a].path == #[trigger] s.take(
                                        i as int,
                                    )[b].path;
                                assert(s.take(i as int + 1)[a].path == s.take(i as int + 1)[b].path);
                            }
                        }
                    }
                },
            }
            i = i + 1;
        }
        proof {
            assert(s.skip(i as int) =~= Seq::<DirV>::empty());
            assert(s.take(i as int) =~= s);
        }
        self.dirs = out;
        if merged {
            self.modified = true;
        }
    }
}

/// Two distinct matching positions make the count at least two.
proof fn lemma_count_two(s: Seq<DirV>, p: Seq<char>, i: int, j: int)
    requires
        0 <= i < j < s.len(),
        s[i].path == p,
        s[j].path == p,
    ensures
        count_path(s, p) >= 2,
    decreases s.len(),
{
    lemma_count_path_contains(s.drop_first(), p);
    if i == 0 {
        assert(s.drop_first()[j - 1] == s[j]);
        assert(contains_path(s.drop_first(), p));
    } else {
        assert(s.drop_first()[i - 1] == s[i]);
        assert(s.drop_first()[j - 1] == s[j]);
        lemma_count_two(s.drop_first(), p, i - 1, j - 1);
    }
}

/// Removing the only record with path `p` leaves no record with that
/// path. With duplicate paths (possible before a dedup) only the
/// first record goes.
pub proof fn lemma_remove_clears_path(s: Seq<DirV>, p: Seq<char>)
    requires
        contains_path(s, p),
        count_path(s, p) <= 1,
    ensures
        !contains_path(s.update(first_match(s, p), s.last()).drop_last(), p),
{
    lemma_first_match(s, p);
    let i = first_match(s, p);
    let t = s.update(i, s.last()).drop_last();
    assert forall|m: int| 0 <= m < t.len() implies t[m].path != p by {
        if m == i {
            if s[s.len() - 1].path == p && i < s.len() - 1 {
                lemma_count_two(s, p, i, s.len() - 1);
            }
        } else {
            if s[m].path == p {
                if m < i {
                    lemma_count_two(s, p, m, i);
                } else {
                    lemma_count_two(s, p, i, m);
                }
            }
        }
    }
}

} // verus!

verus! {

/// A rank scaled by the aging factor `0.9 * max_age / total`, rounded
/// down to the fixed-point grid.
pub open spec fn aged_rank(r: u32, m: u32, total: int) -> int {
    (r * 9 * m) / (10 * total)
}

/// The registry after aging against the given total: every rank
/// scaled, records falling below one visit dropped.
pub open spec fn spec_age_with(s: Seq<DirV>, m: u32, total: int) -> Seq<DirV>
    decreases s.len(),
{
    if s.len() == 0 {
        Seq::empty()
    } else {
        let rest = spec_age_with(s.drop_first(), m, total);
        let nr = aged_rank(s[0].rank, m, total);
        if nr >= RANK_UNIT {
            seq![DirV { path: s[0].path, rank: nr as u32, last_accessed: s[0].last_accessed }]
                + rest
        } else {
            rest
        }
    }
}

/// The registry after an aging pass that fired.
pub open spec fn spec_age(s: Seq<DirV>, m: u32) -> Seq<DirV> {
    spec_age_with(s, m, sum_ranks(s))
}

/// A scaled rank stays between zero and the rank it came from.
proof fn lemma_aged_rank_le(r: u32, m: u32, total: int)
    requires
        total > m,
    ensures
        0 <= aged_rank(r, m, total) <= r,
{
    let x = r * 9 * m;
    let d = 10 * total;
    assert(x >= 0 && d > 0 && x <= r * d) by (nonlinear_arith)
        requires
            total > m,
            r >= 0,
            m >= 0,
            x == r * 9 * m,
            d == 10 * total,
    ;
    vstd::arithmetic::div_mod::lemma_div_pos_is_pos(x, d);
    vstd::arithmetic::div_mod::lemma_div_is_ordered(x, r * d, d);
    vstd::arithmetic::div_mod::lemma_div_multiples_vanish(r as int, d);
    assert(r * d == d * r) by (nonlinear_arith);
}

/// Aging cuts the weighted rank sum down to at most nine tenths of
/// `max_age` (stated scaled by `10 * total` to stay in integers), and
/// every surviving rank is still at least one visit.
proof fn lemma_age_with_sum(s: Seq<DirV>, m: u32, total: int)
    requires
        total > m,
    ensures
        10 * total * sum_ranks(spec_age_with(s, m, total)) <= 9 * m * sum_ranks(s),
        forall|i: int|
            0 <= i < spec_age_with(s, m, total).len() ==> RANK_UNIT <= #[trigger] spec_age_with(
                s,
                m,
                total,
            )[i].rank,
    decreases s.len(),
{
    let t = spec_age_with(s, m, total);
    if s.len() == 0 {
        assert(10 * total * sum_ranks(t) == 0) by (nonlinear_arith)
            requires
                sum_ranks(t) == 0,
        ;
        assert(9 * m * sum_ranks(s) == 0) by (nonlinear_arith)
            requires
                sum_ranks(s) == 0,
        ;
    } else {
        let r = s[0].rank;
        let rest = spec_age_with(s.drop_first(), m, total);
        let nr = aged_rank(r, m, total);
        lemma_age_with_sum(s.drop_first(), m, total);
        lemma_aged_rank_le(r, m, total);
        let x = r * 9 * m;
        let d = 10 * total;
        vstd::arithmetic::div_mod::lemma_fundamental_div_mod(x, d);
        assert(d * nr <= x);
        lemma_sum_ranks_nonneg(s.drop_first());
        if nr >= RANK_UNIT {
            let head = DirV { path: s[0].path, rank: nr as u32, last_accessed: s[0].last_accessed };
            assert(t == seq![head] + rest);
            assert((seq![head] + rest).drop_first() =~= rest);
            assert(sum_ranks(t) == nr + sum_ranks(rest));
            assert(10 * total * sum_ranks(t) <= 9 * m * sum_ranks(s)) by (nonlinear_arith)
                requires
                    sum_ranks(t) == nr + sum_ranks(rest),
                    sum_ranks(s) == r + sum_ranks(s.drop_first()),
                    d * nr <= x,
                    x == r * 9 * m,
                    d == 10 * total,
                    10 * total * sum_ranks(rest) <= 9 * m * sum_ranks(s.drop_first()),
            ;
            assert forall|i: int| 0 <= i < t.len() implies RANK_UNIT <= t[i].rank by {
                if i > 0 {
                    assert(t[i] == rest[i - 1]);
                }
            }
        } else {
            assert(t == rest);
            assert(10 * total * sum_ranks(t) <= 9 * m * sum_ranks(s)) by (nonlinear_arith)
                requires
                    sum_ranks(t) == sum_ranks(rest),
                    sum_ranks(s) == r + sum_ranks(s.drop_first()),
                    r >= 0,
                    m >= 0,
                    total > 0,
                    10 * total * sum_ranks(rest) <= 9 * m * sum_ranks(s.drop_first()),
            ;
        }
    }
}

/// After an aging pass that fired, the rank sum is at most
/// nine tenths of `max_age`.
pub proof fn lemma_age_bound(s: Seq<DirV>, m: u32)
    requires
        sum_ranks(s) > m,
    ensures
        10 * sum_ranks(spec_age(s, m)) <= 9 * m,
        forall|i: int|
            0 <= i < spec_age(s, m).len() ==> RANK_UNIT <= #[trigger] spec_age(s, m)[i].rank,
{
    let total = sum_ranks(s);
    lemma_age_with_sum(s, m, total);
    assert(10 * sum_ranks(spec_age(s, m)) <= 9 * m) by (nonlinear_arith)
        requires
            total > 0,
            10 * total * sum_ranks(spec_age(s, m)) <= 9 * m * total,
    ;
}

/// A rank sum is at most the length times the largest rank.
proof fn lemma_sum_ranks_le(s: Seq<DirV>)
    ensures
        sum_ranks(s) <= s.len() * (u32::MAX as int),
    decreases s.len(),
{
    if s.len() == 0 {
    } else {
        lemma_sum_ranks_le(s.drop_first());
        assert(sum_ranks(s) <= s.len() * (u32::MAX as int)) by (nonlinear_arith)
            requires
                sum_ranks(s) == s[0].rank + sum_ranks(s.drop_first()),
                s[0].rank <= u32::MAX,
                sum_ranks(s.drop_first()) <= (s.len() - 1) * (u32::MAX as int),
                s.len() >= 1,
        ;
    }
}

impl Database {
    /// Ages the registry: when the rank sum exceeds `max_age`, every
    /// rank is scaled by `0.9 * max_age / sum` and records that fall
    /// below one visit are dropped; otherwise nothing happens. After
    /// a pass that fired, the rank sum is at most `0.9 * max_age` and
    /// every survivor keeps at least one visit of rank.
    pub fn age(&mut self, max_age: Rank)
        ensures
            sum_ranks(dirs_view(old(self).dirs@)) <= max_age ==> *final(self) == *old(self),
            sum_ranks(dirs_view(old(self).dirs@)) > max_age ==> ({
                let s = dirs_view(old(self).dirs@);
                let t = dirs_view(final(self).dirs@);
                &&& t == spec_age(s, max_age)
                &&& final(self).modified
                &&& 10 * sum_ranks(t) <= 9 * max_age
                &&& forall|i: int| 0 <= i < t.len() ==> RANK_UNIT <= #[trigger] t[i].rank
            }),
    {
        let ghost s = dirs_view(self.dirs@);
        let mut total: u128 = 0;
        let mut i: usize = 0;
        proof {
            assert(s.take(0) =~= Seq::<DirV>::empty());
        }
        while i < self.dirs.len()
            invariant
                s == dirs_view(self.dirs@),
                0 <= i <= s.len(),
                total == sum_ranks(s.take(i as int)),
            decreases s.len() - i,
        {
            proof {
                assert(s[i as int] == self.dirs@[i as int]@);
                assert(s.take(i as int).push(s[i as int]) =~= s.take(i as int + 1));
                lemma_sum_ranks_push(s.take(i as int), s[i as int]);
                lemma_sum_ranks_le(s.take(i as int));
                assert(s.take(i as int).len() * (u32::MAX as int) <= (usize::MAX as int) * (
                u32::MAX as int)) by (nonlinear_arith)
                    requires
                        0 <= s.take(i as int).len() <= usize::MAX as int,
                ;
            }
            total = total + self.dirs[i].rank as u128;
            i = i + 1;
        }
        proof {
            assert(s.take(i as int) =~= s);
        }
        if total <= max_age as u128 {
            return ;
        }
        proof {
            lemma_sum_ranks_le(s);
            assert(s.len() * (u32::MAX as int) <= (usize::MAX as int) * (u32::MAX as int))
                by (nonlinear_arith)
                requires
                    0 <= s.len() <= usize::MAX as int,
            ;
        }
        let mut out: Vec<Dir> = Vec::new();
        i = 0;
        proof {
            assert(s.skip(0) =~= s);
            assert(dirs_view(out@) =~= Seq::<DirV>::empty());
            assert(Seq::<DirV>::empty() + spec_age(s, max_age) =~= spec_age(s, max_age));
        }
        while i < self.dirs.len()
            invariant
                s == dirs_view(self.dirs@),
                0 <= i <= s.len(),
                total == sum_ranks(s),
                sum_ranks(s) > max_age,
                total <= (usize::MAX as int) * (u32::MAX as int),
                spec_age(s, max_age) == dirs_view(out@) + spec_age_with(
                    s.skip(i as int),
                    max_age,
                    sum_ranks(s),
                ),
            decreases s.len() - i,
        {
            let ghost acc = dirs_view(out@);
            proof {
                assert(s[i as int] == self.dirs@[i as int]@);
                assert(s.skip(i as int)[0] == s[i as int]);
                assert(s.skip(i as int).drop_first() =~= s.skip(i as int + 1));
                lemma_aged_rank_le(self.dirs@[i as int]@.rank, max_age, total as int);
            }
            let r = self.dirs[i].rank;
            proof {
                assert((r as int) * 9 * (max_age as int) <= 0xffff_ffff * 9 * 0xffff_ffff)
                    by (nonlinear_arith)
                    requires
                        0 <= r <= 0xffff_ffffu64,
                        0 <= max_age <= 0xffff_ffffu64,
                ;
            }
            let num: u128 = (r as u128) * 9 * (max_age as u128);
            let den: u128 = 10 * total;
            let nr128 = num / den;
            proof {
                assert(nr128 == aged_rank(r, max_age, total as int));
            }
            if nr128 >= RANK_UNIT as u128 {
                let kept = Dir {
                    path: self.dirs[i].path.clone(),
                    rank: nr128 as u32,
                    last_accessed: self.dirs[i].last_accessed,
                };
                out.push(kept);
                proof {
                    let ghost head = DirV {
                        path: s[i as int].path,
                        rank: aged_rank(s[i as int].rank, max_age, total as int) as u32,
                        last_accessed: s[i as int].last_accessed,
                    };
                    assert(dirs_view(out@) =~= acc.push(head));
                    assert(acc + (seq![head] + spec_age_with(
                        s.skip(i as int + 1),
                        max_age,
                        sum_ranks(s),
                    )) =~= dirs_view(out@) + spec_age_with(
                        s.skip(i as int + 1),
                        max_age,
                        sum_ranks(s),
                    ));
                }
            }
            i = i + 1;
        }
        proof {
            assert(s.skip(i as int) =~= Seq::<DirV>::empty());
            assert(dirs_view(out@) + Seq::<DirV>::empty() =~= dirs_view(out@));
        }
        self.dirs = out;
        self.modified = true;
        proof {
            lemma_age_bound(s, max_age);
        }
    }
}

} // verus!

verus! {

/// The larger of two times.
pub open spec fn later(a: int, b: int) -> int {
    if a >= b {
        a
    } else {
        b
    }
}

/// The total rank carried by records with path `p`.
pub open spec fn group_rank(s: Seq<DirV>, p: Seq<char>) -> int
    decreases s.len(),
{
    if s.len() == 0 {
        0
    } else {
        (if s[0].path == p {
            s[0].rank as int
        } else {
            0int
        }) + group_rank(s.drop_first(), p)
    }
}

/// The latest visit among records with path `p` (zero when none).
pub open spec fn group_last(s: Seq<DirV>, p: Seq<char>) -> int
    decreases s.len(),
{
    if s.len() == 0 {
        0
    } else {
        let rest = group_last(s.drop_first(), p);
        if s[0].path == p {
            later(s[0].last_accessed as int, rest)
        } else {
            rest
        }
    }
}

/// Merging one record into a duplicate-free list keeps it
/// duplicate-free.
proof fn lemma_merge_into_unique(acc: Seq<DirV>, d: DirV)
    requires
        unique_paths(acc),
    ensures
        unique_paths(merge_into(acc, d)),
        forall|i: int| 0 <= i < acc.len() ==> #[trigger] merge_into(acc, d)[i].path == acc[i].path,
{
    lemma_first_match(acc, d.path);
    let t = merge_into(acc, d);
    if contains_path(acc, d.path) {
        assert forall|i: int, j: int| 0 <= i < j < t.len() implies t[i].path != t[j].path by {
            assert(t[i].path == acc[i].path);
            assert(t[j].path == acc[j].path);
        }
    } else {
        assert forall|i: int, j: int| 0 <= i < j < t.len() implies t[i].path != t[j].path by {
            if j == acc.len() {
                if acc[i].path == d.path {
                    assert(contains_path(acc, d.path));
                }
            }
        }
    }
}

/// In a duplicate-free list the first match carries the whole group:
/// its rank is the group rank and its time the group's latest.
proof fn lemma_unique_group(acc: Seq<DirV>, p: Seq<char>)
    requires
        unique_paths(acc),
    ensures
        contains_path(acc, p) ==> group_rank(acc, p) == acc[first_match(acc, p)].rank as int
            && group_last(acc, p) == acc[first_match(acc, p)].last_accessed as int,
        !contains_path(acc, p) ==> group_rank(acc, p) == 0 && group_last(acc, p) == 0,
    decreases acc.len(),
{
    lemma_first_match(acc, p);
    if acc.len() == 0 {
    } else {
        assert forall|i: int, j: int|
            0 <= i < j < acc.drop_first().len() implies acc.drop_first()[i].path != acc.drop_first(
        )[j].path by {
            assert(acc.drop_first()[i] == acc[i + 1]);
            assert(acc.drop_first()[j] == acc[j + 1]);
        }
        lemma_unique_group(acc.drop_first(), p);
        lemma_first_match(acc.drop_first(), p);
        if acc[0].path == p {
            if contains_path(acc.drop_first(), p) {
                let m = choose|m: int|
                    0 <= m < acc.drop_first().len() && #[trigger] acc.drop_first()[m].path == p;
                assert(acc[m + 1].path == p && acc[0].path == p);
                assert(false);
            }
            assert(first_match(acc, p) == 0);
        } else {
            if contains_path(acc, p) {
                let m = choose|m: int| 0 <= m < acc.len() && #[trigger] acc[m].path == p;
                assert(acc.drop_first()[m - 1].path == p);
                assert(contains_path(acc.drop_first(), p));
                assert(first_match(acc, p) == 1 + first_match(acc.drop_first(), p));
                assert(acc[first_match(acc, p)] == acc.drop_first()[first_match(
                    acc.drop_first(),
                    p,
                )]);
            } else {
                if contains_path(acc.drop_first(), p) {
                    let m = choose|m: int|
                        0 <= m < acc.drop_first().len() && #[trigger] acc.drop_first()[m].path
                            == p;
                    assert(acc[m + 1].path == p);
                    assert(false);
                }
            }
        }
    }
}

/// Merging one record adds its rank to its path's group and keeps
/// every other group unchanged; one path at a time.
proof fn lemma_merge_into_group_one(acc: Seq<DirV>, d: DirV, p: Seq<char>)
    requires
        unique_paths(acc),
        sum_ranks(acc) + d.rank <= u32::MAX,
    ensures
        group_rank(merge_into(acc, d), p) == group_rank(acc, p) + (if d.path == p {
            d.rank as int
        } else {
            0int
        }),
        group_last(merge_into(acc, d), p) == (if d.path == p {
            later(group_last(acc, p), d.last_accessed as int)
        } else {
            group_last(acc, p)
        }),
{
    lemma_first_match(acc, d.path);
    lemma_merge_into_unique(acc, d);
    lemma_sum_ranks_nonneg(acc);
    let t = merge_into(acc, d);
    lemma_unique_group(acc, p);
    lemma_unique_group(t, p);
    lemma_first_match(acc, p);
    lemma_first_match(t, p);
    lemma_merge_into_paths(acc, d);
    assert(contains_path(t, p) == (contains_path(acc, p) || p == d.path));
    if contains_path(acc, d.path) {
        let fm = first_match(acc, d.path);
        lemma_rank_le_sum(acc, fm);
        assert(t.len() == acc.len());
        assert(forall|i: int| 0 <= i < acc.len() ==> #[trigger] t[i].path == acc[i].path);
        if p == d.path {
            assert(t[fm].path == p);
            assert forall|j: int| 0 <= j < fm implies t[j].path != p by {
                assert(acc[j].path != p);
            }
            assert(first_match(t, p) == fm) by {
                if first_match(t, p) < fm {
                    assert(t[first_match(t, p)].path == p);
                }
                if fm < first_match(t, p) {
                    assert(t[fm].path == p);
                }
            }
            assert(t[fm].rank == merge_rank(acc[fm].rank, d.rank));
            assert(merge_rank(acc[fm].rank, d.rank) == acc[fm].rank + d.rank);
        } else {
            if contains_path(acc, p) {
                let fmp = first_match(acc, p);
                assert(fmp != fm);
                assert(t[fmp].path == p);
                assert forall|j: int| 0 <= j < fmp implies t[j].path != p by {
                    assert(acc[j].path != p);
                }
                assert(first_match(t, p) == fmp) by {
                    if first_match(t, p) < fmp {
                        assert(t[first_match(t, p)].path == p);
                    }
                    if fmp < first_match(t, p) {
                        assert(t[fmp].path == p);
                    }
                }
                assert(t[fmp] == acc[fmp]);
            }
        }
    } else {
        assert(t == acc.push(d));
        if p == d.path {
            assert(t[acc.len() as int].path == p);
            assert forall|j: int| 0 <= j < acc.len() implies t[j].path != p by {
                if acc[j].path == d.path {
                    assert(contains_path(acc, d.path));
                }
            }
            assert(first_match(t, p) == acc.len()) by {
                if first_match(t, p) < acc.len() {
                    assert(t[first_match(t, p)].path == p);
                }
                if acc.len() < first_match(t, p) {
                    assert(t[acc.len() as int].path == p);
                }
            }
            assert(group_rank(acc, p) == 0 && group_last(acc, p) == 0);
        } else {
            if contains_path(acc, p) {
                let fmp = first_match(acc, p);
                assert(t[fmp].path == p);
                assert forall|j: int| 0 <= j < fmp implies t[j].path != p by {
                    assert(acc[j].path != p);
                }
                assert(first_match(t, p) == fmp) by {
                    if first_match(t, p) < fmp {
                        assert(t[first_match(t, p)].path == p);
                    }
                    if fmp < first_match(t, p) {
                        assert(t[fmp].path == p);
                    }
                }
                assert(t[fmp] == acc[fmp]);
            }
        }
    }
}

/// Merging a list into a duplicate-free accumulator keeps it
/// duplicate-free; paths and per-path groups combine.
proof fn lemma_dedup_from_groups(acc: Seq<DirV>, s: Seq<DirV>)
    requires
        unique_paths(acc),
        sum_ranks(acc) + sum_ranks(s) <= u32::MAX,
    ensures
        unique_paths(dedup_from(acc, s)),
        sum_ranks(dedup_from(acc, s)) == sum_ranks(acc) + sum_ranks(s),
        forall|p: Seq<char>| #[trigger]
            contains_path(dedup_from(acc, s), p) == (contains_path(acc, p) || contains_path(
                s,
                p,
            )),
        forall|p: Seq<char>| #[trigger]
            group_rank(dedup_from(acc, s), p) == group_rank(acc, p) + group_rank(s, p),
        forall|p: Seq<char>| #[trigger]
            group_last(dedup_from(acc, s), p) == later(group_last(acc, p), group_last(s, p)),
    decreases s.len(),
{
    lemma_sum_ranks_nonneg(acc);
    lemma_sum_ranks_nonneg(s);
    if s.len() == 0 {
        assert(forall|p: Seq<char>| group_rank(s, p) == 0 && group_last(s, p) == 0);
        assert forall|p: Seq<char>| #[trigger]
            group_last(dedup_from(acc, s), p) == later(group_last(acc, p), group_last(s, p)) by {
            lemma_group_last_nonneg(acc, p);
        }
    } else {
        let d = s[0];
        let t = merge_into(acc, d);
        let rest = s.drop_first();
        lemma_sum_ranks_nonneg(rest);
        lemma_rank_le_sum(s, 0);
        lemma_merge_into_unique(acc, d);
        lemma_merge_into_paths(acc, d);
        lemma_first_match(acc, d.path);
        // the merge moves one rank from the list into the accumulator
        if contains_path(acc, d.path) {
            let fm = first_match(acc, d.path);
            lemma_rank_le_sum(acc, fm);
            lemma_sum_ranks_update(acc, fm, merged_dir(acc[fm], d));
        } else {
            lemma_sum_ranks_push(acc, d);
        }
        assert(sum_ranks(t) == sum_ranks(acc) + d.rank);
        lemma_dedup_from_groups(t, rest);
        assert(dedup_from(acc, s) == dedup_from(t, rest));
        assert forall|p: Seq<char>| #[trigger]
            contains_path(dedup_from(acc, s), p) == (contains_path(acc, p) || contains_path(
                s,
                p,
            )) by {
            assert(contains_path(dedup_from(t, rest), p) == (contains_path(t, p)
                || contains_path(rest, p)));
            if contains_path(s, p) {
                let m = choose|m: int| 0 <= m < s.len() && #[trigger] s[m].path == p;
                if m > 0 {
                    assert(rest[m - 1].path == p);
                    assert(contains_path(rest, p));
                }
            }
            if contains_path(rest, p) {
                let m = choose|m: int| 0 <= m < rest.len() && #[trigger] rest[m].path == p;
                assert(s[m + 1].path == p);
                assert(contains_path(s, p));
            }
            if p == d.path {
                assert(s[0].path == p);
                assert(contains_path(s, p));
            }
        }
        assert forall|p: Seq<char>| #[trigger]
            group_rank(dedup_from(acc, s), p) == group_rank(acc, p) + group_rank(s, p) by {
            assert(group_rank(dedup_from(t, rest), p) == group_rank(t, p) + group_rank(rest, p));
            lemma_merge_into_group_one(acc, d, p);
            assert(group_rank(s, p) == (if s[0].path == p {
                s[0].rank as int
            } else {
                0int
            }) + group_rank(rest, p));
        }
        assert forall|p: Seq<char>| #[trigger]
            group_last(dedup_from(acc, s), p) == later(group_last(acc, p), group_last(s, p)) by {
            assert(group_last(dedup_from(t, rest), p) == later(group_last(t, p), group_last(
                rest,
                p,
            )));
            lemma_merge_into_group_one(acc, d, p);
        }
    }
}

/// Merging a duplicate-free list whose paths are new to the
/// accumulator just appends it.
proof fn lemma_dedup_from_disjoint(acc: Seq<DirV>, u: Seq<DirV>)
    requires
        unique_paths(u),
        forall|i: int, j: int|
            0 <= i < acc.len() && 0 <= j < u.len() ==> #[trigger] acc[i].path != #[trigger] u[j].path,
    ensures
        dedup_from(acc, u) == acc + u,
    decreases u.len(),
{
    if u.len() == 0 {
        assert(acc + u =~= acc);
    } else {
        let d = u[0];
        if contains_path(acc, d.path) {
            let m = choose|m: int| 0 <= m < acc.len() && #[trigger] acc[m].path == d.path;
            assert(acc[m].path != u[0].path);
            assert(false);
        }
        assert(merge_into(acc, d) == acc.push(d));
        assert forall|i: int, j: int|
            0 <= i < acc.push(d).len() && 0 <= j < u.drop_first().len() implies #[trigger] acc.push(
            d,
        )[i].path != #[trigger] u.drop_first()[j].path by {
            assert(u.drop_first()[j] == u[j + 1]);
            if i < acc.len() {
            } else {
                assert(acc.push(d)[i] == u[0]);
            }
        }
        assert forall|i: int, j: int|
            0 <= i < j < u.drop_first().len() implies u.drop_first()[i].path != u.drop_first(
        )[j].path by {
            assert(u.drop_first()[i] == u[i + 1]);
            assert(u.drop_first()[j] == u[j + 1]);
        }
        lemma_dedup_from_disjoint(acc.push(d), u.drop_first());
        assert(acc.push(d) + u.drop_first() =~= acc + u);
    }
}

/// Merging a list into a duplicate-free accumulator keeps it
/// duplicate-free, whatever the ranks are.
proof fn lemma_dedup_from_unique(acc: Seq<DirV>, s: Seq<DirV>)
    requires
        unique_paths(acc),
    ensures
        unique_paths(dedup_from(acc, s)),
    decreases s.len(),
{
    if s.len() != 0 {
        lemma_merge_into_unique(acc, s[0]);
        lemma_dedup_from_unique(merge_into(acc, s[0]), s.drop_first());
    }
}

/// Dedup idempotence: deduplicating leaves every path exactly once,
/// and a second pass changes nothing.
pub proof fn lemma_dedup_idempotent(s: Seq<DirV>)
    ensures
        unique_paths(spec_dedup(s)),
        spec_dedup(spec_dedup(s)) == spec_dedup(s),
{
    lemma_dedup_from_unique(Seq::empty(), s);
    let u = spec_dedup(s);
    lemma_dedup_from_disjoint(Seq::empty(), u);
    assert(Seq::<DirV>::empty() + u =~= u);
}

/// Dedup conservation: the rank sum is unchanged, and each surviving
/// record carries its group's summed rank and latest visit time.
/// (With a rank sum past the fixed-point ceiling the merged ranks
/// would saturate, so that case is left out.)
pub proof fn lemma_dedup_conserves(s: Seq<DirV>)
    requires
        sum_ranks(s) <= u32::MAX,
    ensures
        sum_ranks(spec_dedup(s)) == sum_ranks(s),
        forall|p: Seq<char>| #[trigger]
            contains_path(spec_dedup(s), p) == contains_path(s, p),
        forall|p: Seq<char>|
            contains_path(s, p) ==> (#[trigger] spec_dedup(s)[first_match(spec_dedup(s), p)].rank
                as int) == group_rank(s, p) && (spec_dedup(s)[first_match(
                spec_dedup(s),
                p,
            )].last_accessed as int) == group_last(s, p),
{
    lemma_sum_ranks_nonneg(s);
    lemma_dedup_from_groups(Seq::empty(), s);
    assert forall|p: Seq<char>| contains_path(s, p) implies (#[trigger] spec_dedup(s)[first_match(
        spec_dedup(s),
        p,
    )].rank as int) == group_rank(s, p) && (spec_dedup(s)[first_match(
        spec_dedup(s),
        p,
    )].last_accessed as int) == group_last(s, p) by {
        let t = spec_dedup(s);
        assert(contains_path(t, p) == (contains_path(Seq::<DirV>::empty(), p) || contains_path(
            s,
            p,
        )));
        assert(group_rank(t, p) == group_rank(Seq::<DirV>::empty(), p) + group_rank(s, p));
        assert(group_last(t, p) == later(group_last(Seq::<DirV>::empty(), p), group_last(s, p)));
        assert(group_last(s, p) >= 0) by {
            lemma_group_last_nonneg(s, p);
        }
        lemma_unique_group(t, p);
    }
}

/// A group's latest visit time is never negative.
proof fn lemma_group_last_nonneg(s: Seq<DirV>, p: Seq<char>)
    ensures
        group_last(s, p) >= 0,
    decreases s.len(),
{
    if s.len() != 0 {
        lemma_group_last_nonneg(s.drop_first(), p);
    }
}

} // verus!
