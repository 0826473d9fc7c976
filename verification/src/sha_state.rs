//! One tracked file: its path, content digest, modification time and change
//! counters, with the classify-and-merge rule and the snapshot line codec.

use crate::decimal::{all_digits, dec_rep, dec_val, lemma_decimal_round_trip, parse_decimal,
    to_decimal};
use crate::hex::{hex_decode, hex_encode, hex_parse, hex_rep, lemma_hex_parse_of_rep};
use crate::split::{find_byte_from, lemma_split_first, lemma_split_whole, split_on};
use vstd::prelude::*;
use vstd::slice::slice_subrange;

verus! {

/// Classification of one file against the prior snapshot.
#[derive(Clone, Copy, Debug, PartialEq, Eq, Structural)]
pub enum DiffResult {
    Added,
    BothDiff,
    ShaDiff,
    TimeDiff,
    Same,
}

impl DiffResult {
    /// The recorder's warning label for a change; nothing is logged for
    /// Added or Same.
    pub fn label(&self) -> (r: Option<&'static str>)
        ensures
            *self is BothDiff ==> (r matches Some(s) && s@ == "SHA TIME CHANGE"@),
            *self is ShaDiff ==> (r matches Some(s) && s@ == "SHA CHANGE"@),
            *self is TimeDiff ==> (r matches Some(s) && s@ == "TIME CHANGE"@),
            (*self is Added || *self is Same) ==> r is None,
    {
        match self {
            DiffResult::BothDiff => Some("SHA TIME CHANGE"),
            DiffResult::ShaDiff => Some("SHA CHANGE"),
            DiffResult::TimeDiff => Some("TIME CHANGE"),
            _ => None,
        }
    }
}

/// Mathematical model of one store entry.
pub struct EntryModel {
    pub path: Seq<u8>,
    pub sha: Seq<u8>,
    pub mtime: u64,
    pub t_deltas: u64,
    pub sha_deltas: u64,
}

/// A path the line codec can carry: free of NUL (the field separator) and of
/// newline (the line separator).
pub open spec fn path_ok(p: Seq<u8>) -> bool {
    forall|j: int| 0 <= j < p.len() ==> p[j] != 0x00 && p[j] != 0x0A
}

impl EntryModel {
    /// A well-formed entry: a 160-bit digest and a codec-safe path.
    pub open spec fn wf(self) -> bool {
        self.sha.len() == 20 && path_ok(self.path)
    }
}

/// One tracked file with its change counters.
pub struct ShaState {
    pub path: Vec<u8>,
    pub sha: Vec<u8>,
    pub mtime: u64,
    pub t_deltas: u64,
    pub sha_deltas: u64,
}

impl View for ShaState {
    type V = EntryModel;

    open spec fn view(&self) -> EntryModel {
        EntryModel {
            path: self.path@,
            sha: self.sha@,
            mtime: self.mtime,
            t_deltas: self.t_deltas,
            sha_deltas: self.sha_deltas,
        }
    }
}

/// A counter bump that sticks at the maximum instead of wrapping.
pub open spec fn sat_inc(c: u64) -> u64 {
    if c == u64::MAX {
        c
    } else {
        (c + 1) as u64
    }
}

/// The classify-and-merge rule: how a fresh observation `(sha, mtime)` of a
/// path already stored as `prev` updates the entry, and what it is classified
/// as. Equal digest and time change nothing; a differing digest bumps the
/// digest counter, a differing time the time counter, and both bump both.
pub open spec fn merged(prev: EntryModel, sha: Seq<u8>, mtime: u64) -> (EntryModel, DiffResult) {
    let sha_same = prev.sha == sha;
    let time_same = prev.mtime == mtime;
    let next = EntryModel {
        path: prev.path,
        sha: sha,
        mtime: mtime,
        t_deltas: if time_same {
            prev.t_deltas
        } else {
            sat_inc(prev.t_deltas)
        },
        sha_deltas: if sha_same {
            prev.sha_deltas
        } else {
            sat_inc(prev.sha_deltas)
        },
    };
    let diff = if sha_same && time_same {
        DiffResult::Same
    } else if !sha_same && !time_same {
        DiffResult::BothDiff
    } else if sha_same {
        DiffResult::TimeDiff
    } else {
        DiffResult::ShaDiff
    };
    (next, diff)
}

/// Repeating the very observation an entry already holds classifies as Same
/// and leaves the entry untouched.
pub proof fn lemma_merge_idempotent(prev: EntryModel)
    ensures
        merged(prev, prev.sha, prev.mtime) == (prev, DiffResult::Same),
{
}

/// The entry after a whole sequence of `(sha, mtime)` observations of the
/// same path, applied in order by the classify-and-merge rule.
pub open spec fn apply_updates(e: EntryModel, ups: Seq<(Seq<u8>, u64)>) -> EntryModel
    decreases ups.len(),
{
    if ups.len() == 0 {
        e
    } else {
        merged(apply_updates(e, ups.drop_last()), ups.last().0, ups.last().1).0
    }
}

/// How many observations in `ups` change the digest relative to the entry
/// they meet.
pub open spec fn count_sha_changes(e: EntryModel, ups: Seq<(Seq<u8>, u64)>) -> nat
    decreases ups.len(),
{
    if ups.len() == 0 {
        0
    } else {
        count_sha_changes(e, ups.drop_last()) + if apply_updates(e, ups.drop_last()).sha
            != ups.last().0 {
            1nat
        } else {
            0nat
        }
    }
}

/// How many observations in `ups` change the modification time relative to
/// the entry they meet.
pub open spec fn count_time_changes(e: EntryModel, ups: Seq<(Seq<u8>, u64)>) -> nat
    decreases ups.len(),
{
    if ups.len() == 0 {
        0
    } else {
        count_time_changes(e, ups.drop_last()) + if apply_updates(e, ups.drop_last()).mtime
            != ups.last().1 {
            1nat
        } else {
            0nat
        }
    }
}

proof fn lemma_counts_bounded(e: EntryModel, ups: Seq<(Seq<u8>, u64)>)
    ensures
        count_sha_changes(e, ups) <= ups.len(),
        count_time_changes(e, ups) <= ups.len(),
    decreases ups.len(),
{
    if ups.len() > 0 {
        lemma_counts_bounded(e, ups.drop_last());
    }
}

/// Counters track transitions: starting from zeroed counters, after any
/// sequence of observations of one path the digest-delta counter equals the
/// number of digest-changing observations and the time-delta counter the
/// number of time-changing ones.
pub proof fn lemma_counters_track(e: EntryModel, ups: Seq<(Seq<u8>, u64)>)
    requires
        e.sha_deltas == 0,
        e.t_deltas == 0,
        ups.len() < u64::MAX,
    ensures
        apply_updates(e, ups).sha_deltas == count_sha_changes(e, ups),
        apply_updates(e, ups).t_deltas == count_time_changes(e, ups),
    decreases ups.len(),
{
    if ups.len() > 0 {
        lemma_counters_track(e, ups.drop_last());
        lemma_counts_bounded(e, ups.drop_last());
    }
}

/// The snapshot line for an entry: path, lowercase hex digest, modification
/// time, time-delta count and digest-delta count, NUL-separated.
pub open spec fn line_of(e: EntryModel) -> Seq<u8> {
    e.path + seq![0x00u8] + hex_rep(e.sha) + seq![0x00u8] + dec_rep(e.mtime as nat)
        + seq![0x00u8] + dec_rep(e.t_deltas as nat) + seq![0x00u8] + dec_rep(
        e.sha_deltas as nat,
    )
}

/// What a snapshot line means: five NUL-separated fields; a codec-safe path,
/// a 40-digit lowercase hex digest, and three decimal counters.
pub open spec fn parse_line_spec(l: Seq<u8>) -> Option<EntryModel> {
    let fs = split_on(l, 0x00);
    if fs.len() == 5 {
        let path = fs[0];
        let hx = fs[1];
        if !path.contains(0x0A) && hx.len() == 40 && hex_parse(hx) is Some && fs[2].len() >= 1
            && all_digits(fs[2]) && dec_val(fs[2]) <= u64::MAX && fs[3].len() >= 1 && all_digits(
            fs[3],
        ) && dec_val(fs[3]) <= u64::MAX && fs[4].len() >= 1 && all_digits(fs[4]) && dec_val(
            fs[4],
        ) <= u64::MAX {
            Some(
                EntryModel {
                    path: path,
                    sha: hex_parse(hx).unwrap(),
                    mtime: dec_val(fs[2]) as u64,
                    t_deltas: dec_val(fs[3]) as u64,
                    sha_deltas: dec_val(fs[4]) as u64,
                },
            )
        } else {
            None
        }
    } else {
        None
    }
}

impl ShaState {
    /// A fresh observation: both change counters start at zero.
    pub fn new(path: Vec<u8>, sha: Vec<u8>, mtime: u64) -> (r: ShaState)
        ensures
            r@ == (EntryModel {
                path: path@,
                sha: sha@,
                mtime: mtime,
                t_deltas: 0,
                sha_deltas: 0,
            }),
    {
        ShaState { path, sha, mtime, t_deltas: 0, sha_deltas: 0 }
    }

    /// Render this entry as its snapshot line.
    pub fn to_line(&self) -> (r: Vec<u8>)
        ensures
            r@ == line_of(self@),
    {
        let mut r: Vec<u8> = Vec::new();
        r.extend_from_slice(self.path.as_slice());
        r.push(0x00);
        let hx = hex_encode(self.sha.as_slice());
        r.extend_from_slice(hx.as_slice());
        r.push(0x00);
        let d = to_decimal(self.mtime);
        r.extend_from_slice(d.as_slice());
        r.push(0x00);
        let d = to_decimal(self.t_deltas);
        r.extend_from_slice(d.as_slice());
        r.push(0x00);
        let d = to_decimal(self.sha_deltas);
        r.extend_from_slice(d.as_slice());
        proof {
            assert(r@ =~= line_of(self@));
        }
        r
    }
}

/// Parse one snapshot line. Succeeds exactly where `parse_line_spec` does,
/// and then returns a well-formed entry with that meaning.
#[verifier::rlimit(100)]
pub fn parse_line(l: &[u8]) -> (r: Option<ShaState>)
    ensures
        r matches Some(e) ==> parse_line_spec(l@) == Some(e@) && e@.wf(),
        r is None ==> parse_line_spec(l@) is None,
{
    let n = l.len();
    let p1 = match find_byte_from(l, 0x00, 0) {
        Some(p) => p,
        None => {
            proof {
                lemma_split_whole(l@, 0x00);
            }
            return None;
        },
    };
    proof {
        lemma_split_first(l@, 0x00, p1 as int);
    }
    let ghost r1 = l@.skip(p1 as int + 1);
    let p2 = match find_byte_from(l, 0x00, p1 + 1) {
        Some(p) => p,
        None => {
            proof {
                assert forall|j: int| 0 <= j < r1.len() implies r1[j] != 0x00 by {
                    assert(r1[j] == l@[p1 + 1 + j]);
                }
                lemma_split_whole(r1, 0x00);
            }
            return None;
        },
    };
    proof {
        assert(r1[p2 - p1 - 1] == l@[p2 as int]);
        assert forall|j: int| 0 <= j < p2 - p1 - 1 implies r1[j] != 0x00 by {
            assert(r1[j] == l@[p1 + 1 + j]);
        }
        lemma_split_first(r1, 0x00, p2 - p1 - 1);
        assert(r1.take(p2 - p1 - 1) =~= l@.subrange(p1 as int + 1, p2 as int));
        assert(r1.skip(p2 - p1) =~= l@.skip(p2 as int + 1));
    }
    let ghost r2 = l@.skip(p2 as int + 1);
    let p3 = match find_byte_from(l, 0x00, p2 + 1) {
        Some(p) => p,
        None => {
            proof {
                assert forall|j: int| 0 <= j < r2.len() implies r2[j] != 0x00 by {
                    assert(r2[j] == l@[p2 + 1 + j]);
                }
                lemma_split_whole(r2, 0x00);
            }
            return None;
        },
    };
    proof {
        assert(r2[p3 - p2 - 1] == l@[p3 as int]);
        assert forall|j: int| 0 <= j < p3 - p2 - 1 implies r2[j] != 0x00 by {
            assert(r2[j] == l@[p2 + 1 + j]);
        }
        lemma_split_first(r2, 0x00, p3 - p2 - 1);
        assert(r2.take(p3 - p2 - 1) =~= l@.subrange(p2 as int + 1, p3 as int));
        assert(r2.skip(p3 - p2) =~= l@.skip(p3 as int + 1));
    }
    let ghost r3 = l@.skip(p3 as int + 1);
    let p4 = match find_byte_from(l, 0x00, p3 + 1) {
        Some(p) => p,
        None => {
            proof {
                assert forall|j: int| 0 <= j < r3.len() implies r3[j] != 0x00 by {
                    assert(r3[j] == l@[p3 + 1 + j]);
                }
                lemma_split_whole(r3, 0x00);
            }
            return None;
        },
    };
    proof {
        assert(r3[p4 - p3 - 1] == l@[p4 as int]);
        assert forall|j: int| 0 <= j < p4 - p3 - 1 implies r3[j] != 0x00 by {
            assert(r3[j] == l@[p3 + 1 + j]);
        }
        lemma_split_first(r3, 0x00, p4 - p3 - 1);
        assert(r3.take(p4 - p3 - 1) =~= l@.subrange(p3 as int + 1, p4 as int));
        assert(r3.skip(p4 - p3) =~= l@.skip(p4 as int + 1));
    }
    let ghost r4 = l@.skip(p4 as int + 1);
    match find_byte_from(l, 0x00, p4 + 1) {
        Some(p5) => {
            // a sixth field: not a snapshot line
            proof {
                assert(r4[p5 - p4 - 1] == l@[p5 as int]);
                assert forall|j: int| 0 <= j < p5 - p4 - 1 implies r4[j] != 0x00 by {
                    assert(r4[j] == l@[p4 + 1 + j]);
                }
                lemma_split_first(r4, 0x00, p5 - p4 - 1);
                assert(split_on(l@, 0x00).len() >= 6);
            }
            return None;
        },
        None => {
            proof {
                assert forall|j: int| 0 <= j < r4.len() implies r4[j] != 0x00 by {
                    assert(r4[j] == l@[p4 + 1 + j]);
                }
                lemma_split_whole(r4, 0x00);
            }
        },
    }
    let ghost fs = split_on(l@, 0x00);
    proof {
        assert(fs =~= seq![
            l@.take(p1 as int),
            l@.subrange(p1 as int + 1, p2 as int),
            l@.subrange(p2 as int + 1, p3 as int),
            l@.subrange(p3 as int + 1, p4 as int),
            l@.skip(p4 as int + 1),
        ]);
    }
    // path: must be free of newline for the line codec
    match find_byte_from(l, 0x0A, 0) {
        Some(j) if j < p1 => {
            proof {
                assert(fs[0][j as int] == 0x0A);
                assert(fs[0].contains(0x0A));
            }
            return None;
        },
        _ => {},
    }
    let f0 = slice_subrange(l, 0, p1);
    proof {
        assert(!fs[0].contains(0x0A)) by {
            if fs[0].contains(0x0A) {
                let j = choose|j: int| 0 <= j < fs[0].len() && fs[0][j] == 0x0A;
                assert(l@[j] == 0x0A);
            }
        }
    }
    let f1 = slice_subrange(l, p1 + 1, p2);
    let sha = match hex_decode(f1) {
        Some(v) => v,
        None => {
            return None;
        },
    };
    if sha.len() != 20 {
        return None;
    }
    let f2 = slice_subrange(l, p2 + 1, p3);
    let mtime = match parse_decimal(f2) {
        Some(v) => v,
        None => {
            return None;
        },
    };
    let f3 = slice_subrange(l, p3 + 1, p4);
    let t_deltas = match parse_decimal(f3) {
        Some(v) => v,
        None => {
            return None;
        },
    };
    let f4 = slice_subrange(l, p4 + 1, l.len());
    proof {
        assert(f4@ =~= l@.skip(p4 as int + 1));
    }
    let sha_deltas = match parse_decimal(f4) {
        Some(v) => v,
        None => {
            return None;
        },
    };
    let path = vstd::slice::slice_to_vec(f0);
    let e = ShaState { path, sha, mtime, t_deltas, sha_deltas };
    proof {
        assert(parse_line_spec(l@) == Some(e@));
        assert(e@.wf()) by {
            assert forall|j: int| 0 <= j < e@.path.len() implies e@.path[j] != 0x00 && e@.path[j]
                != 0x0A by {
                assert(e@.path[j] == l@[j]);
            }
        }
    }
    Some(e)
}

/// Round trip: a well-formed entry's line parses back to the entry, and the
/// line is free of newline, so lines can be joined by newline.
pub proof fn lemma_line_round_trip(e: EntryModel)
    requires
        e.wf(),
    ensures
        parse_line_spec(line_of(e)) == Some(e),
        forall|j: int| 0 <= j < line_of(e).len() ==> line_of(e)[j] != 0x0A,
{
    let l = line_of(e);
    let hx = hex_rep(e.sha);
    let d2 = dec_rep(e.mtime as nat);
    let d3 = dec_rep(e.t_deltas as nat);
    let d4 = dec_rep(e.sha_deltas as nat);
    crate::hex::lemma_hex_rep_valid(e.sha);
    lemma_hex_parse_of_rep(e.sha);
    lemma_decimal_round_trip(e.mtime);
    lemma_decimal_round_trip(e.t_deltas);
    lemma_decimal_round_trip(e.sha_deltas);
    let rest2 = d2 + seq![0x00u8] + d3 + seq![0x00u8] + d4;
    let rest3 = d3 + seq![0x00u8] + d4;
    assert(l =~= e.path + seq![0x00u8] + (hx + seq![0x00u8] + rest2));
    crate::split::lemma_split_prepend(e.path, hx + seq![0x00u8] + rest2, 0x00);
    crate::split::lemma_split_prepend(hx, rest2, 0x00);
    assert(rest2 =~= d2 + seq![0x00u8] + rest3);
    crate::split::lemma_split_prepend(d2, rest3, 0x00);
    crate::split::lemma_split_prepend(d3, d4, 0x00);
    lemma_split_whole(d4, 0x00);
    let fs = split_on(l, 0x00);
    assert(fs =~= seq![e.path, hx, d2, d3, d4]);
    assert(!e.path.contains(0x0A)) by {
        if e.path.contains(0x0A) {
            let j = choose|j: int| 0 <= j < e.path.len() && e.path[j] == 0x0A;
        }
    }
    assert(parse_line_spec(l) == Some(e)) by {
        assert(hex_parse(hx).unwrap() == e.sha);
        assert(dec_val(d2) as u64 == e.mtime);
        assert(dec_val(d3) as u64 == e.t_deltas);
        assert(dec_val(d4) as u64 == e.sha_deltas);
    }
    assert forall|j: int| 0 <= j < l.len() implies l[j] != 0x0A by {
        crate::hex::lemma_hex_rep_valid(e.sha);
    }
}

} // verus!
