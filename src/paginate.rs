//! Adaptive range pagination of log queries.
//!
//! A provider may refuse a log query whose result would be too large, and suggest a
//! smaller range in its error message. [`Pagination`] holds the decisions of the retry:
//! it keeps an ordered work-list of the queries still to issue, replaces a refused query
//! by consecutive windows of the suggested size, and gathers the logs in window order.
//! Issuing the queries is the caller's part.

use vstd::prelude::*;
use vstd::string::StringSliceAdditionalSpecFns;
use crate::hint::{hint_of, parse_max_results_error};

verus! {

/// The deepest level at which a refused query is still split; deeper queries are issued
/// once, and what the provider answers is final.
pub const MAX_RECURSION_DEPTH: u32 = 10;

/// One bound of a block range, as a log filter states it.
#[derive(Clone, Copy, Debug, PartialEq, Eq)]
pub enum BlockTag {
    Number(u64),
    Earliest,
    Latest,
    Pending,
    Safe,
    Finalized,
}

/// The block bounds of a log query; the query's other fields are of no concern here.
#[derive(Clone, Copy, Debug, PartialEq, Eq)]
pub struct QueryRange {
    pub from_block: Option<BlockTag>,
    pub to_block: Option<BlockTag>,
}

impl QueryRange {
    pub fn new() -> (r: QueryRange)
        ensures
            r.from_block is None,
            r.to_block is None,
    {
        QueryRange { from_block: None, to_block: None }
    }

    pub fn from_block(self, b: BlockTag) -> (r: QueryRange)
        ensures
            r.from_block == Some(b),
            r.to_block == self.to_block,
    {
        QueryRange { from_block: Some(b), to_block: self.to_block }
    }

    pub fn to_block(self, b: BlockTag) -> (r: QueryRange)
        ensures
            r.from_block == self.from_block,
            r.to_block == Some(b),
    {
        QueryRange { from_block: self.from_block, to_block: Some(b) }
    }
}

pub open spec fn block_range_of(q: QueryRange) -> Option<(u64, u64)> {
    match (q.from_block, q.to_block) {
        (Some(BlockTag::Number(f)), Some(BlockTag::Number(t))) => Some((f, t)),
        _ => None,
    }
}

/// The concrete `(from, to)` of a query, when both bounds are block numbers.
pub fn extract_block_range(q: &QueryRange) -> (r: Option<(u64, u64)>)
    ensures
        r == block_range_of(*q),
{
    match (q.from_block, q.to_block) {
        (Some(BlockTag::Number(f)), Some(BlockTag::Number(t))) => Some((f, t)),
        _ => None,
    }
}

/// The last block of the window of `chunk` blocks that starts at `from`, clipped to `to`.
pub open spec fn window_end(from: int, to: int, chunk: int) -> int {
    if from + chunk - 1 < to {
        from + chunk - 1
    } else {
        to
    }
}

/// `[from, to]` cut into consecutive windows of `chunk` blocks, the last one clipped.
pub open spec fn windows(from: int, to: int, chunk: int) -> Seq<(u64, u64)>
    decreases to + 1 - from,
{
    if from > to || chunk < 1 {
        seq![]
    } else {
        let e = window_end(from, to, chunk);
        seq![(from as u64, e as u64)] + windows(e + 1, to, chunk)
    }
}

/// The windows `(from, to, chunk)` that a refused query at `depth` is replaced by, given
/// the query's concrete range (if any) and the range that the provider suggested (if
/// one could be read); `None` when the refusal is final.
pub open spec fn plan_of(range: Option<(u64, u64)>, depth: u32, hint: Option<(u64, u64)>) -> Option<(u64, u64, u64)> {
    match hint {
        None => None,
        Some((sf, st)) => {
            let c = st - sf + 1;
            let (f, t) = match range {
                Some(r) => r,
                None => (sf, st),
            };
            if st < sf || c > u64::MAX {
                None
            } else if f > t {
                None
            } else if c >= t - f + 1 && depth > 0 {
                None
            } else {
                Some((f, t, c as u64))
            }
        },
    }
}

/// Decides how a refused query is retried: over which range, in windows of which size.
/// The chunk size is the length of the suggested range; the range is the query's own, or
/// the suggested one when the query has none. Below the top level a chunk that is no
/// smaller than the range makes no progress, and the refusal is final.
pub fn plan_retry(range: Option<(u64, u64)>, depth: u32, hint: Option<(u64, u64)>) -> (r: Option<(u64, u64, u64)>)
    ensures
        r == plan_of(range, depth, hint),
        r matches Some((f, t, c)) ==> f <= t && c >= 1,
        match (range, hint) {
            (Some((f, t)), Some((sf, st))) => depth > 0 && sf <= st && f <= t
                && st - sf >= t - f ==> r is None,
            _ => true,
        },
{
    let (sf, st) = match hint {
        None => {
            return None;
        },
        Some(h) => h,
    };
    if st < sf || st - sf == u64::MAX {
        return None;
    }
    let c = st - sf + 1;
    let (f, t) = match range {
        Some(r) => r,
        None => (sf, st),
    };
    if f > t {
        return None;
    }
    if c - 1 >= t - f && depth > 0 {
        return None;
    }
    Some((f, t, c))
}

/// Below the top level, a suggested chunk no smaller than the refused query's range is
/// no progress: the refusal is final.
pub proof fn lemma_no_progress_is_final(f: u64, t: u64, depth: u32, sf: u64, st: u64)
    requires
        depth > 0,
        f <= t,
        sf <= st,
        st - sf + 1 >= t - f + 1,
    ensures
        plan_of(Some((f, t)), depth, Some((sf, st))) is None,
{
}

/// Windows of `chunk` blocks cover `[from, to]` exactly: they start at `from` and end at
/// `to`, each begins right after the one before it ends, and all but the last hold
/// exactly `chunk` blocks, the last at most `chunk`.
pub proof fn lemma_windows_partition(from: u64, to: u64, chunk: u64)
    requires
        from <= to,
        1 <= chunk,
    ensures
        ({
            let w = windows(from as int, to as int, chunk as int);
            &&& w.len() >= 1
            &&& w[0].0 == from
            &&& w[w.len() - 1].1 == to
            &&& forall|i: int| 0 <= i < w.len() ==> #[trigger] w[i].0 <= w[i].1
            &&& forall|i: int| 0 <= i < w.len() ==> #[trigger] w[i].1 - w[i].0 + 1 <= chunk
            &&& forall|i: int| 0 <= i < w.len() - 1 ==> #[trigger] w[i].1 - w[i].0 + 1 == chunk
            &&& forall|i: int| 0 <= i < w.len() - 1 ==> #[trigger] w[i + 1].0 == w[i].1 + 1
        }),
    decreases to - from,
{
    let w = windows(from as int, to as int, chunk as int);
    let e = window_end(from as int, to as int, chunk as int);
    if e < to {
        lemma_windows_partition((e + 1) as u64, to, chunk);
        let rest = windows(e + 1, to as int, chunk as int);
        assert(w == seq![(from, e as u64)] + rest);
        assert forall|i: int| 0 <= i < w.len() implies #[trigger] w[i].0 <= w[i].1 by {
            if i > 0 {
                assert(w[i] == rest[i - 1]);
            }
        }
        assert forall|i: int| 0 <= i < w.len() implies #[trigger] w[i].1 - w[i].0 + 1 <= chunk by {
            if i > 0 {
                assert(w[i] == rest[i - 1]);
            }
        }
        assert forall|i: int| 0 <= i < w.len() - 1 implies #[trigger] w[i].1 - w[i].0 + 1 == chunk by {
            if i > 0 {
                assert(w[i] == rest[i - 1]);
            }
        }
        assert forall|i: int| 0 <= i < w.len() - 1 implies #[trigger] w[i + 1].0 == w[i].1 + 1 by {
            assert(w[i + 1] == rest[i]);
            if i > 0 {
                assert(w[i] == rest[i - 1]);
                assert(rest[(i - 1) + 1].0 == rest[i - 1].1 + 1);
            } else {
                assert(w[0] == (from, e as u64));
                assert(rest[0].0 == (e + 1) as u64);
            }
        }
    } else {
        assert(windows(e + 1, to as int, chunk as int) == Seq::<(u64, u64)>::empty());
        assert(w =~= seq![(from, to)]);
    }
}

/// How a refusal of `q` with message `m` is retried, if it is: never below the
/// deepest level, else as [`plan_of`] says for the range that `m` suggests.
pub open spec fn retry_of(q: Query, m: Seq<u8>) -> Option<(u64, u64, u64)> {
    if q.depth > MAX_RECURSION_DEPTH {
        None
    } else {
        plan_of(q.range, q.depth, hint_of(m))
    }
}

/// A log query to issue: its concrete block range (`None`: the caller's own bounds, as
/// given) and its depth in the retry tree.
#[derive(Clone, Copy, Debug, PartialEq, Eq)]
pub struct Query {
    pub range: Option<(u64, u64)>,
    pub depth: u32,
}

/// The windows of `[from, to]` still to issue, `chunk` blocks each, at `depth`.
struct Frame {
    from: u64,
    to: u64,
    chunk: u64,
    depth: u32,
}

pub open spec fn window_queries(ws: Seq<(u64, u64)>, depth: u32) -> Seq<Query> {
    ws.map_values(|w: (u64, u64)| Query { range: Some(w), depth })
}

spec fn frame_queries(f: Frame) -> Seq<Query> {
    window_queries(windows(f.from as int, f.to as int, f.chunk as int), f.depth)
}

/// The queries still owed by frames under the top one: the current window of each has
/// been split into the frame above it, and only the windows after it remain.
spec fn lower_queries(fs: Seq<Frame>) -> Seq<Query>
    decreases fs.len(),
{
    if fs.len() == 0 {
        seq![]
    } else {
        frame_queries(fs.last()).drop_first() + lower_queries(fs.drop_last())
    }
}

/// The state of one paginated fetch: the queries still to issue, and the logs so far.
pub struct Pagination<L> {
    root: Option<(u64, u64)>,
    root_pending: bool,
    frames: Vec<Frame>,
    logs: Vec<L>,
}

impl<L> Pagination<L> {
    /// The queries still to issue, in order; the first is the one to issue next.
    pub closed spec fn pending(&self) -> Seq<Query> {
        if self.frames@.len() == 0 {
            if self.root_pending {
                seq![Query { range: self.root, depth: 0 }]
            } else {
                seq![]
            }
        } else {
            frame_queries(self.frames@.last()) + lower_queries(self.frames@.drop_last())
        }
    }

    /// The logs gathered so far, in window order.
    pub closed spec fn logs(&self) -> Seq<L> {
        self.logs@
    }

    pub closed spec fn wf(&self) -> bool {
        &&& self.root_pending ==> self.frames@.len() == 0
        &&& forall|i: int|
            0 <= i < self.frames@.len() ==> {
                let f = #[trigger] self.frames@[i];
                &&& f.from <= f.to
                &&& 1 <= f.chunk
                &&& 1 <= f.depth <= MAX_RECURSION_DEPTH + 1
            }
    }

    /// Starts a fetch of one query, whose concrete block range is `range` if it has one.
    pub fn new(range: Option<(u64, u64)>) -> (r: Pagination<L>)
        ensures
            r.wf(),
            r.pending() == seq![Query { range, depth: 0 }],
            r.logs() == Seq::<L>::empty(),
    {
        Pagination { root: range, root_pending: true, frames: Vec::new(), logs: Vec::new() }
    }

    /// All queries have been answered.
    pub fn is_done(&self) -> (r: bool)
        requires
            self.wf(),
        ensures
            r == (self.pending().len() == 0),
    {
        if self.frames.len() == 0 {
            !self.root_pending
        } else {
            proof {
                self.lemma_top_nonempty();
            }
            false
        }
    }

    proof fn lemma_top_nonempty(&self)
        requires
            self.wf(),
            self.frames@.len() > 0,
        ensures
            frame_queries(self.frames@.last()).len() >= 1,
            self.pending().len() >= 1,
            self.pending()[0] == frame_queries(self.frames@.last())[0],
            self.pending().drop_first() == frame_queries(self.frames@.last()).drop_first()
                + lower_queries(self.frames@.drop_last()),
    {
        let f = self.frames@.last();
        assert(self.frames@[self.frames@.len() - 1] == f);
        let fq = frame_queries(f);
        let lq = lower_queries(self.frames@.drop_last());
        assert((fq + lq).drop_first() =~= fq.drop_first() + lq);
    }

    /// The query to issue next, if any.
    pub fn next_query(&self) -> (r: Option<Query>)
        requires
            self.wf(),
        ensures
            self.pending().len() == 0 ==> r is None,
            self.pending().len() > 0 ==> r == Some(self.pending()[0]),
            r matches Some(q) ==> q.depth <= MAX_RECURSION_DEPTH + 1,
    {
        let n = self.frames.len();
        if n == 0 {
            if self.root_pending {
                Some(Query { range: self.root, depth: 0 })
            } else {
                None
            }
        } else {
            let f = &self.frames[n - 1];
            proof {
                self.lemma_top_nonempty();
                assert(self.frames@[n - 1] == self.frames@.last());
            }
            let e = if f.chunk - 1 < f.to - f.from {
                f.from + (f.chunk - 1)
            } else {
                f.to
            };
            Some(Query { range: Some((f.from, e)), depth: f.depth })
        }
    }

    /// The next query was refused with the error message `msg`. Where the refusal can be
    /// retried, the query is replaced in the work-list by its windows, one level deeper,
    /// and `true` comes back; otherwise nothing changes and `false` comes back: the
    /// refusal is then the fetch's final error.
    pub fn on_error(&mut self, msg: &str) -> (r: bool)
        requires
            old(self).wf(),
            old(self).pending().len() > 0,
        ensures
            final(self).wf(),
            final(self).logs() == old(self).logs(),
            r == retry_of(old(self).pending()[0], msg.spec_bytes()) is Some,
            match retry_of(old(self).pending()[0], msg.spec_bytes()) {
                None => final(self).pending() == old(self).pending(),
                Some((f, t, c)) => final(self).pending() == window_queries(
                    windows(f as int, t as int, c as int),
                    (old(self).pending()[0].depth + 1) as u32,
                ) + old(self).pending().drop_first(),
            },
    {
        let q = match self.next_query() {
            Some(q) => q,
            None => {
                return false;
            },
        };
        if q.depth > MAX_RECURSION_DEPTH {
            return false;
        }
        let hint = parse_max_results_error(msg);
        let (f, t, c) = match plan_retry(q.range, q.depth, hint) {
            None => {
                return false;
            },
            Some(p) => p,
        };
        let ghost pre = self.frames@;
        proof {
            if pre.len() > 0 {
                self.lemma_top_nonempty();
                assert(pre[pre.len() - 1] == pre.last());
            }
        }
        self.root_pending = false;
        let next = Frame { from: f, to: t, chunk: c, depth: q.depth + 1 };
        self.frames.push(next);
        proof {
            assert(self.frames@.drop_last() =~= pre);
            assert(self.frames@.last() == next);
            if pre.len() == 0 {
                assert(old(self).pending().drop_first() =~= Seq::<Query>::empty());
                assert(lower_queries(pre) == Seq::<Query>::empty());
            } else {
                assert(lower_queries(pre) == frame_queries(pre.last()).drop_first()
                    + lower_queries(pre.drop_last()));
            }
            assert(frame_queries(next) + lower_queries(pre) =~= window_queries(
                windows(f as int, t as int, c as int), (q.depth + 1) as u32) + old(self).pending().drop_first());
            assert forall|i: int| 0 <= i < self.frames@.len() implies {
                let g = #[trigger] self.frames@[i];
                &&& g.from <= g.to
                &&& 1 <= g.chunk
                &&& 1 <= g.depth <= MAX_RECURSION_DEPTH + 1
            } by {
                if i < pre.len() {
                    assert(self.frames@[i] == pre[i]);
                }
            }
        }
        true
    }

    /// The logs gathered, once the fetch is over.
    pub fn into_logs(self) -> (r: Vec<L>)
        ensures
            r@ == self.logs(),
    {
        self.logs
    }

    /// The next query was answered with `batch`: it leaves the work-list and its logs
    /// are appended.
    pub fn on_logs(&mut self, batch: Vec<L>)
        requires
            old(self).wf(),
            old(self).pending().len() > 0,
        ensures
            final(self).wf(),
            final(self).pending() == old(self).pending().drop_first(),
            final(self).logs() == old(self).logs() + batch@,
    {
        let mut batch = batch;
        self.logs.append(&mut batch);
        if self.frames.len() == 0 {
            self.root_pending = false;
            return;
        }
        let ghost goal = old(self).pending().drop_first();
        let ghost gathered = self.logs@;
        proof {
            self.lemma_top_nonempty();
        }
        loop
            invariant_except_break
                self.frames@.len() > 0,
                goal == frame_queries(self.frames@.last()).drop_first() + lower_queries(
                    self.frames@.drop_last(),
                ),
            invariant
                self.wf(),
                self.logs@ == gathered,
            ensures
                self.wf(),
                self.logs@ == gathered,
                self.pending() == goal,
            decreases self.frames@.len(),
        {
            let ghost pre = self.frames@;
            let f = self.frames.pop().unwrap();
            proof {
                assert(pre[pre.len() - 1] == f);
                lemma_frame_step(f);
                assert(self.frames@ == pre.drop_last());
            }
            if f.chunk - 1 < f.to - f.from {
                let next = Frame { from: f.from + f.chunk, to: f.to, chunk: f.chunk, depth: f.depth };
                self.frames.push(next);
                proof {
                    assert(self.frames@.drop_last() =~= pre.drop_last());
                    assert(self.frames@.last() == next);
                    assert forall|i: int| 0 <= i < self.frames@.len() implies {
                        let g = #[trigger] self.frames@[i];
                        &&& g.from <= g.to
                        &&& 1 <= g.chunk
                        &&& 1 <= g.depth <= MAX_RECURSION_DEPTH + 1
                    } by {
                        if i < self.frames@.len() - 1 {
                            assert(self.frames@[i] == pre[i]);
                        }
                    }
                }
                break;
            }
            proof {
                assert forall|i: int| 0 <= i < self.frames@.len() implies {
                    let g = #[trigger] self.frames@[i];
                    &&& g.from <= g.to
                    &&& 1 <= g.chunk
                    &&& 1 <= g.depth <= MAX_RECURSION_DEPTH + 1
                } by {
                    assert(self.frames@[i] == pre[i]);
                }
            }
            if self.frames.len() == 0 {
                proof {
                    assert(goal =~= seq![]);
                }
                break;
            }
        }
    }
}

proof fn lemma_frame_step(f: Frame)
    requires
        f.from <= f.to,
        1 <= f.chunk,
    ensures
        ({
            let e = window_end(f.from as int, f.to as int, f.chunk as int);
            let fq = frame_queries(f);
            &&& f.from <= e <= f.to
            &&& fq.len() >= 1
            &&& fq[0] == Query { range: Some((f.from, e as u64)), depth: f.depth }
            &&& e < f.to ==> fq.drop_first() == frame_queries(
                Frame { from: (e + 1) as u64, to: f.to, chunk: f.chunk, depth: f.depth },
            )
            &&& e == f.to ==> fq.drop_first() == Seq::<Query>::empty()
        }),
{
    let e = window_end(f.from as int, f.to as int, f.chunk as int);
    let rest = windows(e + 1, f.to as int, f.chunk as int);
    let w = windows(f.from as int, f.to as int, f.chunk as int);
    assert(w == seq![(f.from, e as u64)] + rest);
    let fq = frame_queries(f);
    assert(fq.drop_first() =~= window_queries(rest, f.depth));
    if e == f.to {
        assert(rest == Seq::<(u64, u64)>::empty());
    }
}

} // verus!
