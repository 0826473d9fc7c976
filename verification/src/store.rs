//! The change-detection store: entries kept strictly sorted by path, the
//! classify-and-merge update, and the snapshot codec with its round trip.

use crate::byteorder::{bytes_eq, bytes_lt, lemma_lex_asymmetric, lemma_lex_irreflexive,
    lemma_lex_total, lemma_lex_transitive, lex_lt};
use crate::sha_state::{line_of, merged, parse_line, parse_line_spec, DiffResult, EntryModel,
    ShaState};
use crate::split::{find_byte_from, lemma_split_first, lemma_split_whole, split_on};
use vstd::prelude::*;
use vstd::slice::slice_subrange;

verus! {

/// Entries in strictly increasing path order: deterministic snapshot order
/// and at most one entry per path.
pub open spec fn sorted_by_path(s: Seq<EntryModel>) -> bool {
    forall|i: int, j: int| 0 <= i < j < s.len() ==> lex_lt(#[trigger] s[i].path, #[trigger] s[j].path)
}

/// Every entry is well formed.
pub open spec fn all_wf(s: Seq<EntryModel>) -> bool {
    forall|i: int| 0 <= i < s.len() ==> (#[trigger] s[i]).wf()
}

/// First index whose entry has path `p`, or -1 when absent.
pub open spec fn find_path(s: Seq<EntryModel>, p: Seq<u8>) -> int
    decreases s.len(),
{
    if s.len() == 0 {
        -1
    } else if s[0].path == p {
        0
    } else {
        let r = find_path(s.skip(1), p);
        if r < 0 {
            -1
        } else {
            r + 1
        }
    }
}

/// Insertion into a path-sorted sequence, keeping the order.
pub open spec fn insert_sorted(s: Seq<EntryModel>, e: EntryModel) -> Seq<EntryModel>
    decreases s.len(),
{
    if s.len() == 0 {
        seq![e]
    } else if lex_lt(e.path, s[0].path) {
        seq![e] + s
    } else {
        seq![s[0]] + insert_sorted(s.skip(1), e)
    }
}

/// A fresh entry: both change counters at zero.
pub open spec fn fresh_entry(path: Seq<u8>, sha: Seq<u8>, mtime: u64) -> EntryModel {
    EntryModel { path, sha, mtime, t_deltas: 0, sha_deltas: 0 }
}

/// What `add` does: an unknown path is inserted fresh in sorted position and
/// classified Added; a known path is replaced by the classify-and-merge rule.
pub open spec fn add_spec(s: Seq<EntryModel>, path: Seq<u8>, sha: Seq<u8>, mtime: u64) -> (
    Seq<EntryModel>,
    DiffResult,
) {
    let i = find_path(s, path);
    if i < 0 {
        (insert_sorted(s, fresh_entry(path, sha, mtime)), DiffResult::Added)
    } else {
        (s.update(i, merged(s[i], sha, mtime).0), merged(s[i], sha, mtime).1)
    }
}

pub proof fn lemma_find_path_props(s: Seq<EntryModel>, p: Seq<u8>)
    ensures
        find_path(s, p) == -1 <==> (forall|i: int| 0 <= i < s.len() ==> (#[trigger] s[i]).path
            != p),
        find_path(s, p) >= 0 ==> find_path(s, p) < s.len() && s[find_path(s, p)].path == p,
    decreases s.len(),
{
    if s.len() > 0 && s[0].path != p {
        lemma_find_path_props(s.skip(1), p);
        let r = find_path(s.skip(1), p);
        if r >= 0 {
            assert(s.skip(1)[r] == s[r + 1]);
        } else {
            assert forall|i: int| 0 <= i < s.len() implies (#[trigger] s[i]).path != p by {
                if i > 0 {
                    assert(s.skip(1)[i - 1] == s[i]);
                }
            }
        }
    }
}

/// In a sorted sequence, an index holding path `p` is the index found.
pub proof fn lemma_find_path_unique(s: Seq<EntryModel>, p: Seq<u8>, i: int)
    requires
        sorted_by_path(s),
        0 <= i < s.len(),
        s[i].path == p,
    ensures
        find_path(s, p) == i,
{
    lemma_find_path_props(s, p);
    let k = find_path(s, p);
    assert(k >= 0);
    if k < i {
        lemma_lex_irreflexive(p);
        assert(lex_lt(s[k].path, s[i].path));
    } else if k > i {
        lemma_lex_irreflexive(p);
        assert(lex_lt(s[i].path, s[k].path));
    }
}

/// When every entry before `idx` sorts below `e` and every entry from `idx`
/// on sorts above it, `insert_sorted` places `e` exactly at `idx`.
pub proof fn lemma_insert_sorted_at(s: Seq<EntryModel>, e: EntryModel, idx: int)
    requires
        0 <= idx <= s.len(),
        forall|k: int| 0 <= k < idx ==> lex_lt(#[trigger] s[k].path, e.path),
        forall|k: int| idx <= k < s.len() ==> lex_lt(e.path, #[trigger] s[k].path),
    ensures
        insert_sorted(s, e) == s.take(idx) + seq![e] + s.skip(idx),
    decreases s.len(),
{
    if s.len() == 0 {
        assert(insert_sorted(s, e) =~= s.take(idx) + seq![e] + s.skip(idx));
    } else if lex_lt(e.path, s[0].path) {
        if idx > 0 {
            lemma_lex_asymmetric(s[0].path, e.path);
        }
        assert(idx == 0);
        assert(insert_sorted(s, e) =~= s.take(idx) + seq![e] + s.skip(idx));
    } else {
        if idx == 0 {
            assert(lex_lt(e.path, s[0].path));
        }
        assert(idx > 0);
        assert forall|k: int| 0 <= k < idx - 1 implies lex_lt(
            #[trigger] s.skip(1)[k].path,
            e.path,
        ) by {
            assert(s.skip(1)[k] == s[k + 1]);
        }
        assert forall|k: int| idx - 1 <= k < s.skip(1).len() implies lex_lt(
            e.path,
            #[trigger] s.skip(1)[k].path,
        ) by {
            assert(s.skip(1)[k] == s[k + 1]);
        }
        lemma_insert_sorted_at(s.skip(1), e, idx - 1);
        assert(insert_sorted(s, e) =~= s.take(idx) + seq![e] + s.skip(idx)) by {
            assert(insert_sorted(s, e) == seq![s[0]] + insert_sorted(s.skip(1), e));
            assert(seq![s[0]] + (s.skip(1).take(idx - 1) + seq![e] + s.skip(1).skip(idx - 1))
                =~= s.take(idx) + seq![e] + s.skip(idx));
        }
    }
}

/// The snapshot text for an entry sequence: each entry's line, each ended by
/// a newline.
pub open spec fn snapshot_rep(s: Seq<EntryModel>) -> Seq<u8>
    decreases s.len(),
{
    if s.len() == 0 {
        Seq::empty()
    } else {
        line_of(s[0]) + seq![0x0Au8] + snapshot_rep(s.skip(1))
    }
}

/// What loading a sequence of snapshot lines yields: parseable lines are
/// inserted in path order; an unparseable line, or a path already loaded, is
/// skipped.
pub open spec fn load_lines(lines: Seq<Seq<u8>>) -> Seq<EntryModel>
    decreases lines.len(),
{
    if lines.len() == 0 {
        Seq::empty()
    } else {
        let prev = load_lines(lines.drop_last());
        match parse_line_spec(lines.last()) {
            None => prev,
            Some(e) => if find_path(prev, e.path) >= 0 {
                prev
            } else {
                insert_sorted(prev, e)
            },
        }
    }
}

/// The store: prior scan results, one per path, in path order.
pub struct ShaSet {
    pub entries: Vec<ShaState>,
}

impl View for ShaSet {
    type V = Seq<EntryModel>;

    open spec fn view(&self) -> Seq<EntryModel> {
        Seq::new(self.entries@.len(), |i: int| self.entries@[i]@)
    }
}

impl ShaSet {
    /// The store's invariant: entries strictly sorted by path.
    pub open spec fn wf(&self) -> bool {
        sorted_by_path(self@)
    }

    /// An empty store: the starting state when no snapshot exists.
    pub fn new() -> (r: ShaSet)
        ensures
            r@ =~= Seq::<EntryModel>::empty(),
            r.wf(),
    {
        ShaSet { entries: Vec::new() }
    }

    /// How many paths are tracked.
    pub fn len(&self) -> (r: usize)
        ensures
            r == self@.len(),
    {
        self.entries.len()
    }

    /// Binary search for `path`. Found: its index. Not found: the insertion
    /// point that keeps the order.
    fn find_idx(&self, path: &[u8]) -> (r: (bool, usize))
        requires
            self.wf(),
        ensures
            r.0 ==> r.1 < self@.len() && self@[r.1 as int].path == path@ && find_path(
                self@,
                path@,
            ) == r.1,
            !r.0 ==> find_path(self@, path@) == -1 && r.1 <= self@.len() && (forall|k: int|
                0 <= k < r.1 ==> lex_lt(#[trigger] self@[k].path, path@)) && (forall|k: int|
                r.1 <= k < self@.len() ==> lex_lt(path@, #[trigger] self@[k].path)),
    {
        let mut lo: usize = 0;
        let mut hi: usize = self.entries.len();
        while lo < hi
            invariant
                lo <= hi <= self@.len(),
                self.wf(),
                forall|k: int| 0 <= k < lo ==> lex_lt(#[trigger] self@[k].path, path@),
                forall|k: int| hi <= k < self@.len() ==> lex_lt(path@, #[trigger] self@[k].path),
            decreases hi - lo,
    {
            let mid = lo + (hi - lo) / 2;
            let probe = &self.entries[mid];
            if bytes_lt(probe.path.as_slice(), path) {
                proof {
                    assert forall|k: int| 0 <= k < mid + 1 implies lex_lt(
                        #[trigger] self@[k].path,
                        path@,
                    ) by {
                        if k < mid {
                            lemma_lex_transitive(self@[k].path, self@[mid as int].path, path@);
                        }
                    }
                }
                lo = mid + 1;
            } else if bytes_lt(path, probe.path.as_slice()) {
                proof {
                    assert forall|k: int| mid <= k < self@.len() implies lex_lt(
                        path@,
                        #[trigger] self@[k].path,
                    ) by {
                        if k > mid {
                            lemma_lex_transitive(path@, self@[mid as int].path, self@[k].path);
                        }
                    }
                }
                hi = mid;
            } else {
                proof {
                    lemma_lex_total(path@, self@[mid as int].path);
                    lemma_find_path_unique(self@, path@, mid as int);
                }
                return (true, mid);
            }
        }
        proof {
            lemma_find_path_props(self@, path@);
            assert forall|i: int| 0 <= i < self@.len() implies (#[trigger] self@[i]).path != path@
                by {
                if i < lo {
                    lemma_lex_asymmetric(self@[i].path, path@);
                } else {
                    lemma_lex_asymmetric(path@, self@[i].path);
                }
            }
        }
        (false, lo)
    }

    /// Look a path up; the stored entry when present.
    pub fn get(&self, path: &[u8]) -> (r: Option<&ShaState>)
        requires
            self.wf(),
        ensures
            find_path(self@, path@) >= 0 ==> (r matches Some(e) && e@ == self@[find_path(
                self@,
                path@,
            )]),
            find_path(self@, path@) == -1 ==> r is None,
    {
        let (found, idx) = self.find_idx(path);
        if found {
            Some(&self.entries[idx])
        } else {
            None
        }
    }

    /// Apply one observation: insert an unseen path fresh, or classify and
    /// merge into the entry the path already has.
    pub fn add(&mut self, e: ShaState) -> (r: DiffResult)
        requires
            old(self).wf(),
        ensures
            final(self).wf(),
            final(self)@ == add_spec(old(self)@, e@.path, e@.sha, e@.mtime).0,
            r == add_spec(old(self)@, e@.path, e@.sha, e@.mtime).1,
            all_wf(old(self)@) && e@.wf() ==> all_wf(final(self)@),
    {
        let (found, idx) = self.find_idx(e.path.as_slice());
        if found {
            let prev = &self.entries[idx];
            let sha_same = bytes_eq(prev.sha.as_slice(), e.sha.as_slice());
            let time_same = prev.mtime == e.mtime;
            let t_deltas: u64 = if time_same {
                prev.t_deltas
            } else if prev.t_deltas == u64::MAX {
                prev.t_deltas
            } else {
                prev.t_deltas + 1
            };
            let sha_deltas: u64 = if sha_same {
                prev.sha_deltas
            } else if prev.sha_deltas == u64::MAX {
                prev.sha_deltas
            } else {
                prev.sha_deltas + 1
            };
            let r = if sha_same && time_same {
                DiffResult::Same
            } else if !sha_same && !time_same {
                DiffResult::BothDiff
            } else if sha_same {
                DiffResult::TimeDiff
            } else {
                DiffResult::ShaDiff
            };
            let next = ShaState { path: e.path, sha: e.sha, mtime: e.mtime, t_deltas, sha_deltas };
            let ghost old_view = self@;
            self.entries[idx] = next;
            proof {
                assert(self@ =~= old_view.update(idx as int, merged(
                    old_view[idx as int],
                    e@.sha,
                    e@.mtime,
                ).0));
                assert(sorted_by_path(self@)) by {
                    assert forall|i: int, j: int| 0 <= i < j < self@.len() implies lex_lt(
                        #[trigger] self@[i].path,
                        #[trigger] self@[j].path,
                    ) by {
                        assert(self@[i].path == old_view[i].path);
                        assert(self@[j].path == old_view[j].path);
                    }
                }
            }
            r
        } else {
            let next = ShaState {
                path: e.path,
                sha: e.sha,
                mtime: e.mtime,
                t_deltas: 0,
                sha_deltas: 0,
            };
            let ghost old_view = self@;
            let ghost model = next@;
            self.entries.insert(idx, next);
            proof {
                lemma_insert_sorted_at(old_view, model, idx as int);
                assert(self@ =~= old_view.take(idx as int) + seq![model] + old_view.skip(
                    idx as int,
                ));
                assert(sorted_by_path(self@)) by {
                    assert forall|i: int, j: int| 0 <= i < j < self@.len() implies lex_lt(
                        #[trigger] self@[i].path,
                        #[trigger] self@[j].path,
                    ) by {
                        let n = idx as int;
                        if i < n && j < n {
                            assert(self@[i] == old_view[i] && self@[j] == old_view[j]);
                        } else if i < n && j == n {
                            assert(self@[i] == old_view[i]);
                        } else if i < n && j > n {
                            assert(self@[i] == old_view[i] && self@[j] == old_view[j - 1]);
                        } else if i == n && j > n {
                            assert(self@[j] == old_view[j - 1]);
                        } else {
                            assert(self@[i] == old_view[i - 1] && self@[j] == old_view[j - 1]);
                        }
                    }
                }
            }
            DiffResult::Added
        }
    }

    /// Insert an entry as read from a snapshot, counters included, keeping
    /// the first entry seen for a path.
    pub fn insert_if_absent(&mut self, e: ShaState)
        requires
            old(self).wf(),
        ensures
            final(self).wf(),
            final(self)@ == (if find_path(old(self)@, e@.path) >= 0 {
                old(self)@
            } else {
                insert_sorted(old(self)@, e@)
            }),
            all_wf(old(self)@) && e@.wf() ==> all_wf(final(self)@),
    {
        let (found, idx) = self.find_idx(e.path.as_slice());
        if found {
            return ;
        }
        let ghost old_view = self@;
        let ghost model = e@;
        self.entries.insert(idx, e);
        proof {
            lemma_insert_sorted_at(old_view, model, idx as int);
            assert(self@ =~= old_view.take(idx as int) + seq![model] + old_view.skip(idx as int));
            assert(sorted_by_path(self@)) by {
                assert forall|i: int, j: int| 0 <= i < j < self@.len() implies lex_lt(
                    #[trigger] self@[i].path,
                    #[trigger] self@[j].path,
                ) by {
                    let n = idx as int;
                    if i < n && j < n {
                        assert(self@[i] == old_view[i] && self@[j] == old_view[j]);
                    } else if i < n && j == n {
                        assert(self@[i] == old_view[i]);
                    } else if i < n && j > n {
                        assert(self@[i] == old_view[i] && self@[j] == old_view[j - 1]);
                    } else if i == n && j > n {
                        assert(self@[j] == old_view[j - 1]);
                    } else {
                        assert(self@[i] == old_view[i - 1] && self@[j] == old_view[j - 1]);
                    }
                }
            }
        }
    }

    /// Serialize the store: one line per entry, in path order.
    pub fn snapshot_bytes(&self) -> (r: Vec<u8>)
        ensures
            r@ == snapshot_rep(self@),
    {
        let mut r: Vec<u8> = Vec::new();
        let mut i: usize = 0;
        proof {
            assert(self@.skip(0) =~= self@);
        }
        while i < self.entries.len()
            invariant
                i <= self@.len(),
                snapshot_rep(self@) =~= r@ + snapshot_rep(self@.skip(i as int)),
            decreases self@.len() - i,
        {
            let line = self.entries[i].to_line();
            r.extend_from_slice(line.as_slice());
            r.push(0x0A);
            proof {
                assert(self@.skip(i as int)[0] == self@[i as int]);
                assert(self@.skip(i as int).skip(1) =~= self@.skip(i + 1));
                assert(snapshot_rep(self@) =~= r@ + snapshot_rep(self@.skip(i + 1)));
            }
            i = i + 1;
        }
        proof {
            assert(snapshot_rep(self@.skip(self@.len() as int)) =~= Seq::<u8>::empty());
            assert(r@ =~= snapshot_rep(self@));
        }
        r
    }

    /// Load a store from snapshot text. Unparseable lines are skipped, so a
    /// truncated or foreign file yields a (possibly empty) store rather than
    /// an error.
    pub fn from_snapshot(bytes: &[u8]) -> (r: ShaSet)
        ensures
            r.wf(),
            all_wf(r@),
            r@ == load_lines(split_on(bytes@, 0x0A)),
    {
        let n = bytes.len();
        let mut set = ShaSet::new();
        let mut pos: usize = 0;
        let ghost mut processed: Seq<Seq<u8>> = Seq::empty();
        proof {
            assert(bytes@.skip(0) =~= bytes@);
            assert(split_on(bytes@, 0x0A) =~= processed + split_on(bytes@.skip(0), 0x0A));
        }
        loop
            invariant_except_break
                n == bytes@.len(),
                pos <= bytes@.len(),
                set.wf(),
                all_wf(set@),
                split_on(bytes@, 0x0A) == processed + split_on(bytes@.skip(pos as int), 0x0A),
                set@ == load_lines(processed),
            ensures
                set.wf(),
                all_wf(set@),
                set@ == load_lines(split_on(bytes@, 0x0A)),
            decreases bytes@.len() - pos,
        {
            match find_byte_from(bytes, 0x0A, pos) {
                None => {
                    let line = slice_subrange(bytes, pos, n);
                    proof {
                        let rem = bytes@.skip(pos as int);
                        assert forall|j: int| 0 <= j < rem.len() implies rem[j] != 0x0A by {
                            assert(rem[j] == bytes@[pos + j]);
                        }
                        lemma_split_whole(rem, 0x0A);
                        assert(line@ =~= rem);
                    }
                    match parse_line(line) {
                        None => {},
                        Some(e) => {
                            set.insert_if_absent(e);
                        },
                    }
                    proof {
                        let fields = processed.push(line@);
                        assert(fields.drop_last() =~= processed);
                        assert(set@ == load_lines(fields));
                        assert(split_on(bytes@, 0x0A) =~= fields);
                        processed = fields;
                    }
                    break ;
                },
                Some(k) => {
                    let line = slice_subrange(bytes, pos, k);
                    proof {
                        let rem = bytes@.skip(pos as int);
                        assert(rem[k - pos] == bytes@[k as int]);
                        assert forall|j: int| 0 <= j < k - pos implies rem[j] != 0x0A by {
                            assert(rem[j] == bytes@[pos + j]);
                        }
                        lemma_split_first(rem, 0x0A, k - pos);
                        assert(rem.take(k - pos) =~= line@);
                        assert(rem.skip(k - pos + 1) =~= bytes@.skip(k + 1));
                    }
                    match parse_line(line) {
                        None => {},
                        Some(e) => {
                            set.insert_if_absent(e);
                        },
                    }
                    proof {
                        let fields = processed.push(line@);
                        assert(fields.drop_last() =~= processed);
                        assert(set@ == load_lines(fields));
                        assert(split_on(bytes@, 0x0A) =~= fields + split_on(
                            bytes@.skip(k + 1),
                            0x0A,
                        ));
                        processed = fields;
                    }
                    pos = k + 1;
                },
            }
        }
        set
    }
}

/// Inserting grows the sequence by exactly one entry.
proof fn lemma_insert_sorted_len(s: Seq<EntryModel>, e: EntryModel)
    ensures
        insert_sorted(s, e).len() == s.len() + 1,
    decreases s.len(),
{
    if s.len() > 0 && !lex_lt(e.path, s[0].path) {
        lemma_insert_sorted_len(s.skip(1), e);
    }
}

/// An observation for a path the store has never seen adds exactly one
/// entry, classified Added; nothing else is touched.
pub proof fn lemma_add_new_path_grows_by_one(
    s: Seq<EntryModel>,
    path: Seq<u8>,
    sha: Seq<u8>,
    mtime: u64,
)
    requires
        find_path(s, path) == -1,
    ensures
        add_spec(s, path, sha, mtime).0.len() == s.len() + 1,
        add_spec(s, path, sha, mtime).1 == DiffResult::Added,
{
    lemma_insert_sorted_len(s, fresh_entry(path, sha, mtime));
}

/// Entries are keyed and counted independently: an observation for one
/// stored path leaves every other path's entry exactly as it was, even when
/// the two entries share a content hash.
pub proof fn lemma_add_leaves_other_entries(
    s: Seq<EntryModel>,
    i: int,
    sha: Seq<u8>,
    mtime: u64,
    j: int,
)
    requires
        sorted_by_path(s),
        0 <= i < s.len(),
        0 <= j < s.len(),
        j != i,
    ensures
        add_spec(s, s[i].path, sha, mtime).0.len() == s.len(),
        add_spec(s, s[i].path, sha, mtime).0[j] == s[j],
{
    lemma_find_path_unique(s, s[i].path, i);
}

/// Re-adding the very observation a sorted store already holds for a path
/// classifies as Same and leaves the store unchanged.
pub proof fn lemma_add_same_unchanged(s: Seq<EntryModel>, i: int)
    requires
        sorted_by_path(s),
        0 <= i < s.len(),
    ensures
        add_spec(s, s[i].path, s[i].sha, s[i].mtime) == (s, DiffResult::Same),
{
    lemma_find_path_unique(s, s[i].path, i);
    crate::sha_state::lemma_merge_idempotent(s[i]);
    assert(s.update(i, s[i]) =~= s);
}

proof fn lemma_snapshot_split(s: Seq<EntryModel>)
    requires
        all_wf(s),
    ensures
        split_on(snapshot_rep(s), 0x0A) == s.map_values(|e: EntryModel| line_of(e)).push(
            Seq::<u8>::empty(),
        ),
    decreases s.len(),
{
    let f = |e: EntryModel| line_of(e);
    if s.len() == 0 {
        assert(snapshot_rep(s) =~= Seq::<u8>::empty());
        assert(split_on(Seq::<u8>::empty(), 0x0A) =~= seq![Seq::<u8>::empty()]);
        assert(s.map_values(f).push(Seq::<u8>::empty()) =~= seq![Seq::<u8>::empty()]);
    } else {
        crate::sha_state::lemma_line_round_trip(s[0]);
        assert forall|i: int| 0 <= i < s.skip(1).len() implies (#[trigger] s.skip(1)[i]).wf() by {
            assert(s.skip(1)[i] == s[i + 1]);
        }
        lemma_snapshot_split(s.skip(1));
        crate::split::lemma_split_prepend(line_of(s[0]), snapshot_rep(s.skip(1)), 0x0A);
        assert(snapshot_rep(s) =~= line_of(s[0]) + seq![0x0Au8] + snapshot_rep(s.skip(1)));
        assert(split_on(snapshot_rep(s), 0x0A) =~= seq![line_of(s[0])] + split_on(
            snapshot_rep(s.skip(1)),
            0x0A,
        ));
        assert(split_on(snapshot_rep(s), 0x0A) =~= s.map_values(f).push(Seq::<u8>::empty())) by {
            assert(s.skip(1).map_values(f).len() == s.len() - 1);
            assert forall|i: int| 0 <= i < s.len() implies s.map_values(f)[i] == (seq![
                line_of(s[0]),
            ] + s.skip(1).map_values(f))[i] by {
                if i > 0 {
                    assert(s.skip(1).map_values(f)[i - 1] == f(s.skip(1)[i - 1]));
                    assert(s.skip(1)[i - 1] == s[i]);
                }
            }
        }
    }
}

proof fn lemma_load_of_lines(s: Seq<EntryModel>)
    requires
        sorted_by_path(s),
        all_wf(s),
    ensures
        load_lines(s.map_values(|e: EntryModel| line_of(e))) == s,
    decreases s.len(),
{
    let f = |e: EntryModel| line_of(e);
    if s.len() == 0 {
        assert(load_lines(s.map_values(f)) =~= s);
    } else {
        let head = s.drop_last();
        assert(sorted_by_path(head) && all_wf(head)) by {
            assert(forall|i: int| 0 <= i < head.len() ==> head[i] == s[i]);
        }
        lemma_load_of_lines(head);
        let lines = s.map_values(f);
        assert(lines.drop_last() =~= head.map_values(f));
        assert(lines.last() == line_of(s.last()));
        crate::sha_state::lemma_line_round_trip(s.last());
        lemma_find_path_props(head, s.last().path);
        assert forall|i: int| 0 <= i < head.len() implies (#[trigger] head[i]).path != s.last().path
            by {
            assert(head[i] == s[i]);
            assert(lex_lt(s[i].path, s.last().path));
            lemma_lex_asymmetric(s[i].path, s.last().path);
        }
        lemma_insert_sorted_at(head, s.last(), head.len() as int);
        assert(insert_sorted(head, s.last()) =~= s) by {
            assert(head.take(head.len() as int) =~= head);
            assert(head.skip(head.len() as int) =~= Seq::<EntryModel>::empty());
            assert(head + seq![s.last()] =~= s);
            assert(head.take(head.len() as int) + seq![s.last()] + head.skip(head.len() as int)
                =~= head + seq![s.last()]);
        }
        assert(load_lines(lines) == s);
    }
}

/// Round trip: loading a saved snapshot restores the store exactly, for any
/// store whose entries are well formed.
pub proof fn lemma_snapshot_round_trip(s: Seq<EntryModel>)
    requires
        sorted_by_path(s),
        all_wf(s),
    ensures
        load_lines(split_on(snapshot_rep(s), 0x0A)) == s,
{
    lemma_snapshot_split(s);
    lemma_load_of_lines(s);
    let lines = s.map_values(|e: EntryModel| line_of(e)).push(Seq::<u8>::empty());
    assert(lines.drop_last() =~= s.map_values(|e: EntryModel| line_of(e)));
    assert(split_on(Seq::<u8>::empty(), 0x00) =~= seq![Seq::<u8>::empty()]);
    assert(parse_line_spec(Seq::<u8>::empty()) is None);
    assert(load_lines(lines) == s);
}

} // verus!
