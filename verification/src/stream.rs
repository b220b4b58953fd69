//! The stream: a filtered, score-ordered view over the registry at a
//! fixed instant.
//!
//! Scores are `rank * decay(now - last_accessed)` with the piecewise
//! decay 4 / 2 / 0.5 / 0.25 (hour / day / week / older). To stay in
//! integers the stream carries scores scaled by four: a score unit is
//! a quarter of a fixed-point rank unit.

use crate::dir::{dirs_view, DirV, Epoch};
use crate::db::Database;
use vstd::prelude::*;
use vstd::seq_lib::lemma_multiset_commutative;
use vstd::slice::*;
use vstd::string::StrSliceExecFns;
use vstd::utf8::encode_utf8;

verus! {

/// Four times the decay factor for a visit this old: 4.0 within an
/// hour, 2.0 within a day, 0.5 within a week, 0.25 beyond.
pub open spec fn spec_decay4(dt: u64) -> u64 {
    if dt < 3600 {
        16
    } else if dt < 86400 {
        8
    } else if dt < 604800 {
        2
    } else {
        1
    }
}

/// The age of a visit, clamped at zero for timestamps in the future.
pub open spec fn spec_delta(now: u64, last: u64) -> u64 {
    if last <= now {
        (now - last) as u64
    } else {
        0
    }
}

/// A record's score at `now`, in quarter-units: `rank * decay * 4`.
pub open spec fn spec_score(rank: u32, now: u64, last: u64) -> int {
    rank * spec_decay4(spec_delta(now, last))
}

/// ASCII folding of one byte.
pub open spec fn lower_byte(b: u8) -> u8 {
    if 65 <= b <= 90 {
        (b + 32) as u8
    } else {
        b
    }
}

/// ASCII folding of a byte string.
pub open spec fn lower_seq(s: Seq<u8>) -> Seq<u8> {
    s.map_values(|b: u8| lower_byte(b))
}

/// Path separators recognized when splitting off the basename.
pub open spec fn is_sep(b: u8) -> bool {
    b == ('/' as u8) || b == ('\\' as u8)
}

/// The index right after the last path separator: where the basename
/// begins.
pub open spec fn basename_start(s: Seq<u8>) -> int
    decreases s.len(),
{
    if s.len() == 0 {
        0
    } else if is_sep(s.last()) {
        s.len() as int
    } else {
        basename_start(s.drop_last())
    }
}

/// The basename starts inside the string.
pub proof fn lemma_basename_bounds(s: Seq<u8>)
    ensures
        0 <= basename_start(s) <= s.len(),
    decreases s.len(),
{
    if s.len() != 0 && !is_sep(s.last()) {
        lemma_basename_bounds(s.drop_last());
    }
}

/// `n` occurs somewhere inside `h`.
pub open spec fn contains_sub(h: Seq<u8>, n: Seq<u8>) -> bool {
    exists|k: int| 0 <= k <= h.len() - n.len() && #[trigger] h.subrange(k, k + n.len()) == n
}

/// A path (as bytes) matches a keyword list: the last keyword occurs
/// in the basename, every earlier one anywhere in the path, all
/// ASCII-folded. An empty list matches everything.
pub open spec fn keywords_match(path_b: Seq<u8>, kws: Seq<Seq<u8>>) -> bool {
    if kws.len() == 0 {
        true
    } else {
        contains_sub(lower_seq(path_b.skip(basename_start(path_b))), lower_seq(kws.last()))
            && forall|i: int|
            0 <= i < kws.len() - 1 ==> contains_sub(lower_seq(path_b), lower_seq(#[trigger] kws[i]))
    }
}

/// One stream candidate: a path with its score and its position in
/// the registry (the tie-breaker).
pub struct Entry {
    pub path: String,
    pub score: u64,
    pub pos: usize,
}

/// The mathematical image of an entry.
pub struct EntryV {
    pub path: Seq<char>,
    pub score: u64,
    pub pos: usize,
}

impl View for Entry {
    type V = EntryV;

    open spec fn view(&self) -> EntryV {
        EntryV { path: self.path@, score: self.score, pos: self.pos }
    }
}

/// The view of an entry list.
pub open spec fn entries_view(s: Seq<Entry>) -> Seq<EntryV> {
    s.map_values(|e: Entry| e@)
}

/// Stream order: higher score first, registry position breaking ties.
pub open spec fn entry_before(a: EntryV, b: EntryV) -> bool {
    a.score > b.score || (a.score == b.score && a.pos <= b.pos)
}

/// The list is in stream order.
pub open spec fn sorted_entries(s: Seq<EntryV>) -> bool {
    forall|i: int, j: int| 0 <= i < j < s.len() ==> entry_before(#[trigger] s[i], #[trigger] s[j])
}

/// The candidates a registry yields at `now`, in registry order.
pub open spec fn base_entries(s: Seq<DirV>, now: u64) -> Seq<EntryV> {
    Seq::new(
        s.len(),
        |i: int|
            EntryV {
                path: s[i].path,
                score: spec_score(s[i].rank, now, s[i].last_accessed) as u64,
                pos: i as usize,
            },
    )
}

/// An entry passes the active filters: keywords match its path and it
/// is not the excluded path.
pub open spec fn passes(e: EntryV, kws: Seq<Seq<u8>>, excl: Option<Seq<char>>) -> bool {
    keywords_match(encode_utf8(e.path), kws) && match excl {
        Some(x) => e.path != x,
        None => true,
    }
}

/// The subsequence of entries that pass the filters.
pub open spec fn filtered(es: Seq<EntryV>, kws: Seq<Seq<u8>>, excl: Option<Seq<char>>) -> Seq<
    EntryV,
>
    decreases es.len(),
{
    if es.len() == 0 {
        Seq::empty()
    } else {
        let rest = filtered(es.drop_first(), kws, excl);
        if passes(es[0], kws, excl) {
            seq![es[0]] + rest
        } else {
            rest
        }
    }
}

/// Everything the filters pass through came from the list, and
/// vice versa: the filtered entries are exactly the passing ones.
pub proof fn lemma_filtered_exact(es: Seq<EntryV>, kws: Seq<Seq<u8>>, excl: Option<Seq<char>>)
    ensures
        forall|e: EntryV| #[trigger]
            filtered(es, kws, excl).contains(e) == (es.contains(e) && passes(e, kws, excl)),
    decreases es.len(),
{
    if es.len() == 0 {
    } else {
        lemma_filtered_exact(es.drop_first(), kws, excl);
        let t = filtered(es, kws, excl);
        let rest = filtered(es.drop_first(), kws, excl);
        assert forall|e: EntryV| #[trigger]
            t.contains(e) == (es.contains(e) && passes(e, kws, excl)) by {
            if t.contains(e) {
                let m = choose|m: int| 0 <= m < t.len() && t[m] == e;
                if passes(es[0], kws, excl) && m == 0 {
                    assert(es[0] == e);
                    assert(es.contains(e));
                } else {
                    if passes(es[0], kws, excl) {
                        assert(rest[m - 1] == e);
                    }
                    assert(rest.contains(e));
                    let m2 = choose|m2: int| 0 <= m2 < es.drop_first().len()
                        && #[trigger] es.drop_first()[m2] == e;
                    assert(es[m2 + 1] == e);
                    assert(es.contains(e));
                }
            }
            if es.contains(e) && passes(e, kws, excl) {
                let m = choose|m: int| 0 <= m < es.len() && es[m] == e;
                if m == 0 {
                    assert(t[0] == e);
                } else {
                    assert(es.drop_first()[m - 1] == e);
                    assert(es.drop_first().contains(e));
                    assert(rest.contains(e));
                    let m2 = choose|m2: int| 0 <= m2 < rest.len() && #[trigger] rest[m2] == e;
                    if passes(es[0], kws, excl) {
                        assert(t[m2 + 1] == e);
                    }
                    assert(t.contains(e));
                }
            }
        }
    }
}

/// Filtering a stream-ordered list keeps it stream-ordered, so the
/// yielded scores are non-increasing.
pub proof fn lemma_filtered_sorted(es: Seq<EntryV>, kws: Seq<Seq<u8>>, excl: Option<Seq<char>>)
    requires
        sorted_entries(es),
    ensures
        sorted_entries(filtered(es, kws, excl)),
        forall|i: int, j: int|
            0 <= i < j < filtered(es, kws, excl).len() ==> (#[trigger] filtered(
                es,
                kws,
                excl,
            )[i].score) >= (#[trigger] filtered(es, kws, excl)[j].score),
    decreases es.len(),
{
    if es.len() == 0 {
    } else {
        assert forall|i: int, j: int|
            0 <= i < j < es.drop_first().len() implies entry_before(
            #[trigger] es.drop_first()[i],
            #[trigger] es.drop_first()[j],
        ) by {
            assert(es.drop_first()[i] == es[i + 1]);
            assert(es.drop_first()[j] == es[j + 1]);
        }
        lemma_filtered_sorted(es.drop_first(), kws, excl);
        lemma_filtered_exact(es.drop_first(), kws, excl);
        let t = filtered(es, kws, excl);
        let rest = filtered(es.drop_first(), kws, excl);
        assert forall|i: int, j: int| 0 <= i < j < t.len() implies entry_before(
            #[trigger] t[i],
            #[trigger] t[j],
        ) by {
            if passes(es[0], kws, excl) {
                if i == 0 {
                    assert(t[j] == rest[j - 1]);
                    assert(rest.contains(rest[j - 1]));
                    assert(es.drop_first().contains(rest[j - 1]));
                    let m = choose|m: int| 0 <= m < es.drop_first().len()
                        && #[trigger] es.drop_first()[m] == rest[j - 1];
                    assert(es[m + 1] == rest[j - 1]);
                    assert(entry_before(es[0], es[m + 1]));
                } else {
                    assert(t[i] == rest[i - 1] && t[j] == rest[j - 1]);
                }
            }
        }
    }
}

/// What a well-formed stream still yields is in stream order — the
/// scores only fall — and holds exactly the entries that pass the
/// active filters. (The on-disk existence filter is applied outside
/// the engine and is not part of this statement.)
pub proof fn lemma_stream_yield_order(st: Stream)
    requires
        st.wf(),
    ensures
        sorted_entries(st.remaining()),
        forall|i: int, j: int|
            0 <= i < j < st.remaining().len() ==> (#[trigger] st.remaining()[i].score)
                >= (#[trigger] st.remaining()[j].score),
        forall|e: EntryV| #[trigger]
            st.remaining().contains(e) == (st.entries_v().skip(st.cursor as int).contains(e)
                && passes(e, st.kws(), st.excl())),
{
    let tail = st.entries_v().skip(st.cursor as int);
    assert forall|i: int, j: int| 0 <= i < j < tail.len() implies entry_before(
        #[trigger] tail[i],
        #[trigger] tail[j],
    ) by {
        assert(tail[i] == st.entries_v()[i + st.cursor]);
        assert(tail[j] == st.entries_v()[j + st.cursor]);
    }
    lemma_filtered_sorted(tail, st.kws(), st.excl());
    lemma_filtered_exact(tail, st.kws(), st.excl());
}

/// The stream: a lazy, non-restartable walk over the candidates in
/// stream order, handing out those that pass the active filters.
/// The existence filter is only recorded here: checking the file
/// system is left to the surrounding program.
pub struct Stream {
    pub entries: Vec<Entry>,
    pub cursor: usize,
    pub keywords: Vec<String>,
    pub exclude: Option<String>,
    pub check_exists: bool,
}

impl Stream {
    /// The entry list as mathematics.
    pub open spec fn entries_v(self) -> Seq<EntryV> {
        entries_view(self.entries@)
    }

    /// The keyword list as byte strings.
    pub open spec fn kws(self) -> Seq<Seq<u8>> {
        self.keywords@.map_values(|k: String| encode_utf8(k@))
    }

    /// The excluded path, if any.
    pub open spec fn excl(self) -> Option<Seq<char>> {
        match self.exclude {
            Some(x) => Some(x@),
            None => None,
        }
    }

    /// Well-formed: candidates in stream order, cursor in range.
    pub open spec fn wf(self) -> bool {
        sorted_entries(self.entries_v()) && self.cursor <= self.entries@.len()
    }

    /// What is still to be yielded: the passing entries at or past
    /// the cursor.
    pub open spec fn remaining(self) -> Seq<EntryV> {
        filtered(self.entries_v().skip(self.cursor as int), self.kws(), self.excl())
    }

    /// Restricts the stream to paths matching all keywords.
    pub fn with_keywords(self, keywords: Vec<String>) -> (r: Stream)
        ensures
            r == (Stream { keywords, ..self }),
    {
        Stream { keywords, ..self }
    }

    /// Skips the record whose path equals this string exactly.
    pub fn with_exclude(self, path: String) -> (r: Stream)
        ensures
            r == (Stream { exclude: Some(path), ..self }),
    {
        Stream { exclude: Some(path), ..self }
    }

    /// Records that only paths existing on disk should be yielded;
    /// the caller that walks the file system enforces it.
    pub fn with_exists(self, check: bool) -> (r: Stream)
        ensures
            r == (Stream { check_exists: check, ..self }),
    {
        Stream { check_exists: check, ..self }
    }

    /// Whether the caller asked for the existence check.
    pub fn wants_exists_check(&self) -> (r: bool)
        ensures
            r == self.check_exists,
    {
        self.check_exists
    }

    /// The next passing entry in stream order: its path and score
    /// (in quarter-units), or nothing once the stream is exhausted.
    pub fn next(&mut self) -> (r: Option<(String, u64)>)
        requires
            old(self).wf(),
        ensures
            final(self).wf(),
            final(self).entries == old(self).entries,
            final(self).keywords == old(self).keywords,
            final(self).exclude == old(self).exclude,
            final(self).check_exists == old(self).check_exists,
            match r {
                Some(y) => old(self).remaining().len() > 0 && y.0@ == old(self).remaining()[0].path
                    && y.1 == old(self).remaining()[0].score && final(self).remaining() == old(
                    self,
                ).remaining().drop_first(),
                None => old(self).remaining().len() == 0 && final(self).remaining() == old(
                    self,
                ).remaining(),
            },
    {
        let ghost es = self.entries_v();
        while self.cursor < self.entries.len()
            invariant
                old(self).wf(),
                es == self.entries_v(),
                self.entries == old(self).entries,
                self.keywords == old(self).keywords,
                self.exclude == old(self).exclude,
                self.check_exists == old(self).check_exists,
                old(self).cursor <= self.cursor <= self.entries@.len(),
                filtered(es.skip(self.cursor as int), self.kws(), self.excl()) == old(
                    self,
                ).remaining(),
            decreases self.entries@.len() - self.cursor,
        {
            let c = self.cursor;
            let ghost tail = es.skip(c as int);
            proof {
                assert(es[c as int] == self.entries@[c as int]@);
                assert(tail[0] == es[c as int]);
                assert(tail.drop_first() =~= es.skip(c as int + 1));
            }
            let keep = if matches_keywords(&self.entries[c].path, &self.keywords) {
                match &self.exclude {
                    Some(x) => !(self.entries[c].path == *x),
                    None => true,
                }
            } else {
                false
            };
            proof {
                assert(keep == passes(es[c as int], self.kws(), self.excl()));
            }
            self.cursor = c + 1;
            if keep {
                let path = self.entries[c].path.clone();
                let score = self.entries[c].score;
                proof {
                    assert(old(self).remaining() == seq![es[c as int]] + filtered(
                        es.skip(c as int + 1),
                        self.kws(),
                        self.excl(),
                    ));
                    assert((seq![es[c as int]] + filtered(
                        es.skip(c as int + 1),
                        self.kws(),
                        self.excl(),
                    )).drop_first() =~= filtered(es.skip(c as int + 1), self.kws(), self.excl()));
                }
                return Some((path, score));
            }
        }
        proof {
            assert(es.skip(self.cursor as int).len() == 0);
        }
        None
    }
}

/// ASCII-lowercases a byte string.
fn lower_bytes(s: &[u8]) -> (r: Vec<u8>)
    ensures
        r@ == lower_seq(s@),
{
    let mut out: Vec<u8> = Vec::new();
    let mut i: usize = 0;
    while i < s.len()
        invariant
            0 <= i <= s@.len(),
            out@.len() == i,
            forall|j: int| 0 <= j < i ==> out@[j] == lower_byte(s@[j]),
        decreases s@.len() - i,
    {
        let b = s[i];
        if 65 <= b && b <= 90 {
            out.push(b + 32);
        } else {
            out.push(b);
        }
        i = i + 1;
    }
    assert(out@ =~= lower_seq(s@));
    out
}

/// Where the basename begins in a byte string.
fn basename_index(s: &[u8]) -> (r: usize)
    ensures
        r == basename_start(s@),
{
    let mut j: usize = s.len();
    proof {
        assert(s@.take(j as int) =~= s@);
    }
    while j > 0
        invariant
            0 <= j <= s@.len(),
            basename_start(s@) == basename_start(s@.take(j as int)),
        decreases j,
    {
        if s[j - 1] == ('/' as u8) || s[j - 1] == ('\\' as u8) {
            proof {
                assert(s@.take(j as int).last() == s@[j - 1]);
                assert(is_sep(s@.take(j as int).last()));
            }
            return j;
        }
        proof {
            assert(s@.take(j as int).last() == s@[j - 1]);
            assert(!is_sep(s@.take(j as int).last()));
            assert(s@.take(j as int).drop_last() =~= s@.take(j as int - 1));
        }
        j = j - 1;
    }
    proof {
        assert(s@.take(0).len() == 0);
    }
    0
}

/// Whether `n` occurs inside `h`.
fn contains_bytes(h: &Vec<u8>, n: &Vec<u8>) -> (r: bool)
    ensures
        r == contains_sub(h@, n@),
{
    if n.len() > h.len() {
        return false;
    }
    if n.len() == 0 {
        assert(contains_sub(h@, n@)) by {
            assert(h@.subrange(0, 0 + n@.len() as int) =~= n@);
        }
        return true;
    }
    let mut k: usize = 0;
    while k <= h.len() - n.len()
        invariant
            1 <= n@.len() <= h@.len(),
            h@.len() <= usize::MAX,
            0 <= k <= h@.len() - n@.len() + 1,
            forall|kk: int| 0 <= kk < k ==> #[trigger] h@.subrange(kk, kk + n@.len()) != n@,
        decreases h@.len() - n@.len() + 1 - k,
    {
        let mut m: usize = 0;
        let mut hit = true;
        while m < n.len()
            invariant
                1 <= n@.len() <= h@.len(),
                h@.len() <= usize::MAX,
                0 <= k <= h@.len() - n@.len(),
                0 <= m <= n@.len(),
                hit ==> forall|mm: int| 0 <= mm < m ==> h@[k + mm] == n@[mm],
                !hit ==> h@.subrange(k as int, k + n@.len()) != n@,
            decreases n@.len() - m,
        {
            if h[k + m] != n[m] {
                proof {
                    assert(h@.subrange(k as int, k + n@.len())[m as int] != n@[m as int]);
                }
                hit = false;
                m = n.len();
            } else {
                m = m + 1;
            }
        }
        if hit {
            assert(h@.subrange(k as int, k + n@.len()) =~= n@);
            return true;
        }
        k = k + 1;
    }
    assert forall|kk: int| 0 <= kk <= h@.len() - n@.len() implies #[trigger] h@.subrange(
        kk,
        kk + n@.len(),
    ) != n@ by {}
    false
}

/// Whether a path matches every keyword, the last against its
/// basename, the rest anywhere, all ASCII-folded.
fn matches_keywords(path: &String, keywords: &Vec<String>) -> (r: bool)
    ensures
        r == keywords_match(encode_utf8(path@), keywords@.map_values(|k: String| encode_utf8(k@))),
{
    let ghost kws = keywords@.map_values(|k: String| encode_utf8(k@));
    if keywords.len() == 0 {
        return true;
    }
    let pb = path.as_str().as_bytes_vec();
    assert(pb@ == encode_utf8(path@));
    let lower_full = lower_bytes(pb.as_slice());
    let base = basename_index(pb.as_slice());
    proof {
        lemma_basename_bounds(pb@);
    }
    let base_slice = slice_subrange(lower_full.as_slice(), base, lower_full.len());
    let base_lower = slice_to_vec(base_slice);
    proof {
        assert(base_lower@ =~= lower_seq(pb@.skip(basename_start(pb@))));
    }
    let last_kw = &keywords[keywords.len() - 1];
    let lk = lower_bytes(last_kw.as_str().as_bytes_vec().as_slice());
    proof {
        assert(kws.last() == encode_utf8(last_kw@));
    }
    if !contains_bytes(&base_lower, &lk) {
        return false;
    }
    let mut i: usize = 0;
    while i < keywords.len() - 1
        invariant
            keywords@.len() >= 1,
            kws == keywords@.map_values(|k: String| encode_utf8(k@)),
            pb@ == encode_utf8(path@),
            lower_full@ == lower_seq(pb@),
            0 <= i <= keywords@.len() - 1,
            contains_sub(lower_seq(pb@.skip(basename_start(pb@))), lower_seq(kws.last())),
            forall|j: int|
                0 <= j < i ==> contains_sub(lower_seq(pb@), lower_seq(#[trigger] kws[j])),
        decreases keywords@.len() - 1 - i,
    {
        let kw = lower_bytes(keywords[i].as_str().as_bytes_vec().as_slice());
        proof {
            assert(kw@ == lower_seq(encode_utf8(keywords@[i as int]@)));
            assert(kws[i as int] == encode_utf8(keywords@[i as int]@));
        }
        if !contains_bytes(&lower_full, &kw) {
            return false;
        }
        i = i + 1;
    }
    true
}

/// Stream order between two entries.
fn entry_before_exec(a: &Entry, b: &Entry) -> (r: bool)
    ensures
        r == entry_before(a@, b@),
{
    a.score > b.score || (a.score == b.score && a.pos <= b.pos)
}

/// Where a new entry belongs in a stream-ordered list: after every
/// entry that goes before it.
fn insert_pos(out: &Vec<Entry>, e: &Entry) -> (j: usize)
    ensures
        0 <= j <= out@.len(),
        forall|k: int| 0 <= k < j ==> entry_before(#[trigger] entries_view(out@)[k], e@),
        j < out@.len() ==> !entry_before(entries_view(out@)[j as int], e@),
{
    let ghost eo = entries_view(out@);
    let mut j: usize = 0;
    while j < out.len()
        invariant
            eo == entries_view(out@),
            0 <= j <= out@.len(),
            forall|k: int| 0 <= k < j ==> entry_before(#[trigger] eo[k], e@),
        decreases out@.len() - j,
    {
        proof {
            assert(eo[j as int] == out@[j as int]@);
        }
        if !entry_before_exec(&out[j], e) {
            return j;
        }
        j = j + 1;
    }
    j
}

/// Sorts the candidates into stream order, keeping exactly the same
/// entries.
fn sort_entries(v: Vec<Entry>) -> (r: Vec<Entry>)
    ensures
        sorted_entries(entries_view(r@)),
        entries_view(r@).to_multiset() == entries_view(v@).to_multiset(),
{
    broadcast use vstd::seq_lib::group_to_multiset_ensures;

    let mut out: Vec<Entry> = Vec::new();
    let mut i: usize = 0;
    proof {
        assert(entries_view(v@.take(0)) =~= Seq::<EntryV>::empty());
        assert(entries_view(out@) =~= Seq::<EntryV>::empty());
    }
    while i < v.len()
        invariant
            0 <= i <= v@.len(),
            sorted_entries(entries_view(out@)),
            entries_view(out@).to_multiset() == entries_view(v@.take(i as int)).to_multiset(),
        decreases v@.len() - i,
    {
        broadcast use vstd::seq_lib::group_to_multiset_ensures;

        let e = Entry { path: v[i].path.clone(), score: v[i].score, pos: v[i].pos };
        let ghost ev = e@;
        let ghost eo = entries_view(out@);
        proof {
            assert(ev == v@[i as int]@);
        }
        let j = insert_pos(&out, &e);
        out.insert(j, e);
        proof {
            let t = entries_view(out@);
            assert(t =~= eo.insert(j as int, ev));
            // order: everything before j goes first, everything after
            // j comes later by totality of the order
            assert forall|k1: int, k2: int| 0 <= k1 < k2 < t.len() implies entry_before(
                #[trigger] t[k1],
                #[trigger] t[k2],
            ) by {
                if k1 < j && k2 == j {
                } else if k1 == j && k2 > j {
                    assert(t[k2] == eo[k2 - 1]);
                    assert(forall|k: int| 0 <= k < j ==> entry_before(#[trigger] eo[k], ev));
                    if j < eo.len() {
                        assert(!entry_before(eo[j as int], ev));
                        if k2 - 1 > j {
                            assert(entry_before(eo[j as int], eo[k2 - 1]));
                        }
                    }
                } else if k1 < j && k2 > j {
                    assert(t[k1] == eo[k1] && t[k2] == eo[k2 - 1]);
                } else if k1 > j && k2 > j {
                    assert(t[k1] == eo[k1 - 1] && t[k2] == eo[k2 - 1]);
                } else if k1 < j && k2 < j {
                }
            }
            // multiset: inserting one entry anywhere adds it once
            assert(eo.insert(j as int, ev) =~= eo.take(j as int) + (seq![ev] + eo.skip(j as int)));
            lemma_multiset_commutative(eo.take(j as int), seq![ev] + eo.skip(j as int));
            lemma_multiset_commutative(seq![ev], eo.skip(j as int));
            assert(eo =~= eo.take(j as int) + eo.skip(j as int));
            lemma_multiset_commutative(eo.take(j as int), eo.skip(j as int));
            assert(seq![ev] =~= Seq::<EntryV>::empty().push(ev));
            assert(entries_view(v@.take(i as int)).push(v@[i as int]@) =~= entries_view(
                v@.take(i as int + 1),
            ));
            assert(t.to_multiset() =~= entries_view(v@.take(i as int + 1)).to_multiset());
        }
        i = i + 1;
    }
    proof {
        assert(v@.take(i as int) =~= v@);
    }
    out
}

/// A record's score at `now`, in quarter-units.
fn score_of(rank: u32, now: u64, last: u64) -> (r: u64)
    ensures
        r == spec_score(rank, now, last),
{
    let dt = if last <= now {
        now - last
    } else {
        0
    };
    let decay: u64 = if dt < 3600 {
        16
    } else if dt < 86400 {
        8
    } else if dt < 604800 {
        2
    } else {
        1
    };
    assert(rank as int * decay as int <= 0xffff_ffff * 16) by (nonlinear_arith)
        requires
            0 <= rank <= 0xffff_ffffu64,
            0 < decay <= 16,
    ;
    (rank as u64) * decay
}

impl Database {
    /// Opens a stream over the registry at instant `now`: every
    /// record becomes a candidate scored at `now`, held in stream
    /// order with no filters active yet.
    pub fn stream(&self, now: Epoch) -> (r: Stream)
        ensures
            r.wf(),
            r.cursor == 0,
            r.entries_v().to_multiset() == base_entries(dirs_view(self.dirs@), now).to_multiset(),
            r.keywords@.len() == 0,
            r.exclude is None,
            !r.check_exists,
    {
        broadcast use vstd::seq_lib::group_to_multiset_ensures;

        let ghost s = dirs_view(self.dirs@);
        let mut entries: Vec<Entry> = Vec::new();
        let mut i: usize = 0;
        proof {
            assert(entries_view(entries@) =~= Seq::<EntryV>::empty());
            assert(base_entries(s, now).take(0) =~= Seq::<EntryV>::empty());
        }
        while i < self.dirs.len()
            invariant
                s == dirs_view(self.dirs@),
                0 <= i <= s.len(),
                entries_view(entries@) == base_entries(s, now).take(i as int),
            decreases s.len() - i,
        {
            proof {
                assert(s[i as int] == self.dirs@[i as int]@);
            }
            let sc = score_of(self.dirs[i].rank, now, self.dirs[i].last_accessed);
            let ghost prev = entries@;
            entries.push(Entry { path: self.dirs[i].path.clone(), score: sc, pos: i });
            proof {
                let be = base_entries(s, now);
                assert(entries@ == prev.push(entries@.last()));
                assert(prev.len() == entries_view(prev).len());
                assert(entries_view(prev).len() == be.take(i as int).len());
                assert(be.take(i as int).len() == i);
                assert(be[i as int].path == s[i as int].path);
                assert(be[i as int].score == spec_score(
                    s[i as int].rank,
                    now,
                    s[i as int].last_accessed,
                ) as u64);
                assert(be[i as int].pos == i as usize);
                assert(entries@.last()@ == be[i as int]);
                assert(entries@.len() == i + 1);
                assert forall|k: int| 0 <= k < i + 1 implies entries_view(entries@)[k]
                    == be.take(i as int + 1)[k] by {
                    assert(entries_view(entries@)[k] == entries@[k]@);
                    if k < i {
                        assert(entries@[k]@ == entries_view(entries@)[k]);
                        assert(be.take(i as int)[k] == be[k]);
                    }
                }
                assert(entries_view(entries@) =~= be.take(i as int + 1));
            }
            i = i + 1;
        }
        proof {
            assert(base_entries(s, now).take(i as int) =~= base_entries(s, now));
        }
        let entries = sort_entries(entries);
        Stream { entries, cursor: 0, keywords: Vec::new(), exclude: None, check_exists: false }
    }
}

} // verus!
