//! In-memory model of the versioned, copy-on-write authenticated store.
//!
//! Every commit at version `v` writes a batch of `(address, value)` pairs. Each
//! write creates a leaf node; the leaf it supersedes (the previous write to the
//! same address) is recorded in the stale-node index under `stale_since_version
//! == v`. Pruning up to a target `T` deletes, in one atomic batch, every stale
//! index entry with `stale_since_version <= T` together with the node it
//! references, and persists the progress watermark `T` in the same batch, so
//! that an interruption can never leave a dangling entry or an inconsistent
//! watermark.
//!
//! The mathematical model of a store is the pair of its commit history (one
//! write batch per version) and its watermark; [`StateStore::inv`] pins the
//! concrete node and index collections down as exactly the live part of that
//! history.

use vstd::prelude::*;

use crate::Error;

verus! {

/// One committed write batch: `(address, value)` per written address.
pub type WriteBatch = Seq<(u64, Seq<u8>)>;

/// The full commit history: the write batch of each version `0, 1, 2, ...`.
pub type History = Seq<WriteBatch>;

/// Does the batch write to address `a`?
pub open spec fn writes_addr(ws: WriteBatch, a: u64) -> bool {
    exists|i: int| 0 <= i < ws.len() && ws[i].0 == a
}

/// Index of the write to `a` inside the batch (unique when addresses are distinct).
pub open spec fn write_index(ws: WriteBatch, a: u64) -> int {
    choose|i: int| 0 <= i < ws.len() && ws[i].0 == a
}

/// The value the batch writes to address `a`.
pub open spec fn written_value(ws: WriteBatch, a: u64) -> Seq<u8> {
    ws[write_index(ws, a)].1
}

/// No two writes of one batch target the same address.
pub open spec fn distinct_addrs(ws: WriteBatch) -> bool {
    forall|i: int, j: int| 0 <= i < j < ws.len() ==> ws[i].0 != ws[j].0
}

/// Every committed batch has pairwise distinct addresses.
pub open spec fn wf_history(h: History) -> bool {
    forall|v: int| 0 <= v < h.len() ==> distinct_addrs(#[trigger] h[v])
}

/// The smallest version `w` with `from <= w < h.len()` whose batch writes `a`.
pub open spec fn next_write_from(h: History, a: u64, from: int) -> Option<int>
    decreases h.len() - from,
{
    if from < 0 || from >= h.len() {
        None
    } else if writes_addr(h[from], a) {
        Some(from)
    } else {
        next_write_from(h, a, from + 1)
    }
}

/// The greatest version `w <= v` whose batch writes `a`.
pub open spec fn latest_write_at(h: History, a: u64, v: int) -> Option<int>
    decreases v + 1,
{
    if v < 0 {
        None
    } else if v < h.len() && writes_addr(h[v], a) {
        Some(v)
    } else {
        latest_write_at(h, a, v - 1)
    }
}

/// The version at which the leaf written at `(a, v)` is superseded, if any.
pub open spec fn stale_since(h: History, a: u64, v: int) -> Option<int> {
    next_write_from(h, a, v + 1)
}

/// The history commits a write to `a` at version `v`.
pub open spec fn leaf_written(h: History, a: u64, v: int) -> bool {
    0 <= v < h.len() && writes_addr(h[v], a)
}

/// With watermark `p`, the leaf written at `(a, v)` is still stored: it was
/// committed and is either never superseded or superseded only after `p`.
pub open spec fn leaf_live(h: History, p: u64, a: u64, v: int) -> bool {
    leaf_written(h, a, v) && match stale_since(h, a, v) {
        None => true,
        Some(s) => s > p,
    }
}

/// A unit of the authenticated tree: the value a single commit wrote to one
/// address, shared copy-on-write by every later version until superseded.
#[derive(Clone, Debug)]
pub struct LeafNode {
    pub address: u64,
    pub version: u64,
    pub value: Vec<u8>,
}

/// A record that the leaf written at `(node_address, node_version)` was
/// superseded by the commit at `stale_since_version`.
#[derive(Clone, Copy, Debug, PartialEq, Eq, Structural)]
pub struct StaleNodeIndexEntry {
    pub stale_since_version: u64,
    pub node_address: u64,
    pub node_version: u64,
}

/// Handle of the authenticated tree state produced by one commit. The tree
/// construction itself is out of scope here, so the handle identifies a state
/// by the version that produced it.
#[derive(Clone, Copy, Debug, PartialEq, Eq, Structural)]
pub struct RootHash {
    pub version: u64,
}

/// With watermark `p`, the stale index entry `e` is genuine and not yet pruned.
pub open spec fn stale_entry_live(h: History, p: u64, e: StaleNodeIndexEntry) -> bool {
    &&& leaf_written(h, e.node_address, e.node_version as int)
    &&& stale_since(h, e.node_address, e.node_version as int) == Some(
        e.stale_since_version as int,
    )
    &&& e.stale_since_version > p
}

/// A stored leaf is live and carries the committed value.
pub open spec fn leaf_ok(h: History, p: u64, l: LeafNode) -> bool {
    &&& leaf_live(h, p, l.address, l.version as int)
    &&& l.value@ == written_value(h[l.version as int], l.address)
}

/// Some stored leaf is the one written at `(a, v)`.
pub open spec fn leaf_stored(leaves: Seq<LeafNode>, a: u64, v: int) -> bool {
    exists|i: int|
        0 <= i < leaves.len() && leaves[i].address == a && leaves[i].version as int == v
}

/// The concrete collections hold exactly the live part of history `h` at
/// watermark `p`, and `n` versions are committed.
pub open spec fn inv_core(
    leaves: Seq<LeafNode>,
    stale: Seq<StaleNodeIndexEntry>,
    h: History,
    p: u64,
    n: u64,
) -> bool {
    &&& n == h.len()
    &&& wf_history(h)
    &&& (h.len() == 0 ==> p == 0)
    &&& (h.len() > 0 ==> (p as int) < h.len())
    &&& (forall|i: int| 0 <= i < leaves.len() ==> #[trigger] leaf_ok(h, p, leaves[i]))
    &&& (forall|a: u64, v: int| #[trigger] leaf_live(h, p, a, v) ==> leaf_stored(leaves, a, v))
    &&& (forall|i: int| 0 <= i < stale.len() ==> #[trigger] stale_entry_live(h, p, stale[i]))
    &&& (forall|e: StaleNodeIndexEntry| #[trigger] stale_entry_live(h, p, e) ==> stale.contains(e))
}

/// The value address `a` holds as of version `version`: what the latest write
/// at or before `version` put there. A pure function of the commit history,
/// independent of any pruning.
pub open spec fn committed_value(h: History, version: u64, a: u64) -> Option<Seq<u8>> {
    match latest_write_at(h, a, version as int) {
        None => None,
        Some(w) => Some(written_value(h[w], a)),
    }
}

/// What reading address `a` as of the state identified by `root_version`
/// returns: the committed value for any retained version, and `RootNotFound`
/// for any pruned (or never committed) version.
pub open spec fn read_result(h: History, p: u64, root_version: u64, a: u64) -> Result<
    Option<Seq<u8>>,
    Error,
> {
    if p <= root_version && (root_version as int) < h.len() {
        Ok(committed_value(h, root_version, a))
    } else {
        Err(Error::RootNotFound)
    }
}

/// The view of an executable read result.
pub open spec fn read_view(r: Result<Option<Vec<u8>>, Error>) -> Result<Option<Seq<u8>>, Error> {
    match r {
        Ok(None) => Ok(None),
        Ok(Some(v)) => Ok(Some(v@)),
        Err(e) => Err(e),
    }
}

/// The spec-level view of an executable write batch.
pub open spec fn batch_view(ws: Seq<(u64, Vec<u8>)>) -> WriteBatch {
    ws.map_values(|p: (u64, Vec<u8>)| (p.0, p.1@))
}

/// The versioned store: copy-on-write leaves, the stale-node index, and the
/// persisted progress watermark.
pub struct StateStore {
    /// Committed versions are `0 .. num_versions`.
    pub num_versions: u64,
    /// Persisted watermark: every stale index entry with `stale_since_version
    /// <= progress`, and every node such an entry referenced, has been deleted.
    pub progress: u64,
    pub leaf_nodes: Vec<LeafNode>,
    pub stale_index: Vec<StaleNodeIndexEntry>,
    /// The commit history the concrete state was built from.
    pub history: Ghost<History>,
}

impl StateStore {
    /// Well-formedness: the concrete collections are exactly the live part of
    /// the history at the current watermark.
    pub open spec fn inv(self) -> bool {
        inv_core(self.leaf_nodes@, self.stale_index@, self.history@, self.progress, self.num_versions)
    }

    /// An empty store: nothing committed, watermark zero.
    pub fn new() -> (s: StateStore)
        ensures
            s.inv(),
            s.history@ == Seq::<WriteBatch>::empty(),
            s.num_versions == 0,
            s.progress == 0,
    {
        let s = StateStore {
            num_versions: 0,
            progress: 0,
            leaf_nodes: Vec::new(),
            stale_index: Vec::new(),
            history: Ghost(Seq::empty()),
        };
        proof {
            assert forall|a: u64, v: int| #[trigger] leaf_live(s.history@, 0, a, v) implies leaf_stored(
                s.leaf_nodes@,
                a,
                v,
            ) by {
                assert(!leaf_written(s.history@, a, v));
            }
            assert forall|e: StaleNodeIndexEntry| #[trigger] stale_entry_live(
                s.history@,
                0,
                e,
            ) implies s.stale_index@.contains(e) by {
                assert(!leaf_written(s.history@, e.node_address, e.node_version as int));
            }
        }
        s
    }
}

/// What `next_write_from` returns is the first write at or after `from`.
pub proof fn lemma_next_props(h: History, a: u64, from: int)
    requires
        0 <= from,
    ensures
        match next_write_from(h, a, from) {
            Some(x) => from <= x < h.len() && writes_addr(h[x], a) && (forall|u: int|
                from <= u < x ==> !writes_addr(#[trigger] h[u], a)),
            None => forall|u: int| from <= u < h.len() ==> !writes_addr(#[trigger] h[u], a),
        },
    decreases h.len() - from,
{
    if from < h.len() && !writes_addr(h[from], a) {
        lemma_next_props(h, a, from + 1);
    }
}

/// What `latest_write_at` returns is the last write at or before `v`.
pub proof fn lemma_latest_props(h: History, a: u64, v: int)
    ensures
        match latest_write_at(h, a, v) {
            Some(w) => 0 <= w <= v && w < h.len() && writes_addr(h[w], a) && (forall|u: int|
                w < u <= v && u < h.len() ==> !writes_addr(#[trigger] h[u], a)),
            None => forall|u: int| 0 <= u <= v && u < h.len() ==> !writes_addr(#[trigger] h[u], a),
        },
    decreases v + 1,
{
    if v >= 0 && !(v < h.len() && writes_addr(h[v], a)) {
        lemma_latest_props(h, a, v - 1);
    }
}

/// A write at or before `v` forces `latest_write_at` to find one at least as late.
pub proof fn lemma_latest_exists(h: History, a: u64, u: int, v: int)
    requires
        0 <= u <= v,
        u < h.len(),
        writes_addr(h[u], a),
    ensures
        latest_write_at(h, a, v) is Some,
        latest_write_at(h, a, v)->Some_0 >= u,
    decreases v,
{
    if !(v < h.len() && writes_addr(h[v], a)) {
        lemma_latest_exists(h, a, u, v - 1);
    }
}

/// The leaf found by `latest_write_at(h, a, v)` is not superseded at or before `v`.
pub proof fn lemma_latest_next(h: History, a: u64, v: int, w: int)
    requires
        latest_write_at(h, a, v) == Some(w),
    ensures
        match next_write_from(h, a, w + 1) {
            None => true,
            Some(x) => x > v,
        },
{
    lemma_latest_props(h, a, v);
    lemma_next_props(h, a, w + 1);
}

/// Appending a batch leaves earlier next-write lookups intact and adds at most
/// one new supersession point, at the new version.
pub proof fn lemma_next_push(h: History, ws: WriteBatch, a: u64, from: int)
    requires
        0 <= from <= h.len(),
    ensures
        next_write_from(h.push(ws), a, from) == (match next_write_from(h, a, from) {
            Some(x) => Some(x),
            None => if writes_addr(ws, a) {
                Some(h.len() as int)
            } else {
                None::<int>
            },
        }),
    decreases h.len() - from,
{
    assert(h.push(ws)[h.len() as int] == ws);
    if from < h.len() {
        assert(h.push(ws)[from] == h[from]);
        if !writes_addr(h[from], a) {
            lemma_next_push(h, ws, a, from + 1);
        }
    }
}

/// `latest_write_at` depends only on the batches at or below `v`.
pub proof fn lemma_latest_prefix(h1: History, h2: History, a: u64, v: int)
    requires
        v < h1.len(),
        v < h2.len(),
        forall|u: int| 0 <= u <= v ==> h1[u] == h2[u],
    ensures
        latest_write_at(h1, a, v) == latest_write_at(h2, a, v),
    decreases v + 1,
{
    if v >= 0 {
        lemma_latest_prefix(h1, h2, a, v - 1);
    }
}

/// Appending one pair to a batch changes which addresses it writes only at the
/// new pair's address.
pub proof fn lemma_writes_addr_push(ws: WriteBatch, pair: (u64, Seq<u8>), b: u64)
    ensures
        writes_addr(ws.push(pair), b) == (writes_addr(ws, b) || pair.0 == b),
{
    let e = ws.push(pair);
    if writes_addr(ws, b) {
        let i = choose|i: int| 0 <= i < ws.len() && ws[i].0 == b;
        assert(e[i].0 == b);
    }
    if pair.0 == b {
        assert(e[ws.len() as int].0 == b);
    }
    if writes_addr(e, b) && !(writes_addr(ws, b) || pair.0 == b) {
        let i = choose|i: int| 0 <= i < e.len() && e[i].0 == b;
        if i < ws.len() {
            assert(ws[i].0 == b);
        }
    }
}

/// With distinct addresses, appending a pair keeps the values written to the
/// other addresses.
pub proof fn lemma_written_value_push(ws: WriteBatch, pair: (u64, Seq<u8>), b: u64)
    requires
        distinct_addrs(ws.push(pair)),
        writes_addr(ws, b),
    ensures
        written_value(ws.push(pair), b) == written_value(ws, b),
{
    let e = ws.push(pair);
    let i1 = write_index(ws, b);
    assert(0 <= i1 < ws.len() && ws[i1].0 == b);
    assert(e[i1].0 == b);
    let i2 = write_index(e, b);
    assert(0 <= i2 < e.len() && e[i2].0 == b);
    assert(i1 == i2);
    assert(e[i2] == ws[i1]);
}

/// The appended pair's own value is what the extended batch writes to its address.
pub proof fn lemma_written_value_push_new(ws: WriteBatch, pair: (u64, Seq<u8>))
    requires
        !writes_addr(ws, pair.0),
    ensures
        writes_addr(ws.push(pair), pair.0),
        written_value(ws.push(pair), pair.0) == pair.1,
{
    let e = ws.push(pair);
    assert(e[ws.len() as int].0 == pair.0);
    let i = write_index(e, pair.0);
    assert(0 <= i < e.len() && e[i].0 == pair.0);
    if i < ws.len() {
        assert(ws[i].0 == pair.0);
    }
    assert(i == ws.len());
}

/// Opening a new, still-empty write batch changes nothing about which leaves
/// and stale entries are live.
pub proof fn lemma_begin_commit(
    leaves: Seq<LeafNode>,
    stale: Seq<StaleNodeIndexEntry>,
    h0: History,
    ws0: WriteBatch,
    p: u64,
    n: u64,
)
    requires
        inv_core(leaves, stale, h0, p, n),
        n < u64::MAX,
        ws0.len() == 0,
    ensures
        inv_core(leaves, stale, h0.push(ws0), p, (n + 1) as u64),
{
    let hj = h0.push(ws0);
    assert(forall|b: u64| !writes_addr(ws0, b));
    assert forall|b: u64, s: int| 0 <= s <= h0.len() implies next_write_from(hj, b, s)
        == next_write_from(h0, b, s) by {
        lemma_next_push(h0, ws0, b, s);
    }
    assert forall|i: int| 0 <= i < leaves.len() implies #[trigger] leaf_ok(hj, p, leaves[i]) by {
        assert(leaf_ok(h0, p, leaves[i]));
        let b = leaves[i].address;
        let v = leaves[i].version as int;
        assert(hj[v] == h0[v]);
        assert(next_write_from(hj, b, v + 1) == next_write_from(h0, b, v + 1));
    }
    assert forall|a: u64, v: int| #[trigger] leaf_live(hj, p, a, v) implies leaf_stored(
        leaves,
        a,
        v,
    ) by {
        if v < h0.len() {
            assert(hj[v] == h0[v]);
            assert(next_write_from(hj, a, v + 1) == next_write_from(h0, a, v + 1));
            assert(leaf_live(h0, p, a, v));
        } else {
            assert(!writes_addr(hj[v], a));
        }
    }
    assert forall|i: int| 0 <= i < stale.len() implies #[trigger] stale_entry_live(
        hj,
        p,
        stale[i],
    ) by {
        assert(stale_entry_live(h0, p, stale[i]));
        let e = stale[i];
        let v = e.node_version as int;
        assert(hj[v] == h0[v]);
        assert(next_write_from(hj, e.node_address, v + 1) == next_write_from(
            h0,
            e.node_address,
            v + 1,
        ));
    }
    assert forall|e: StaleNodeIndexEntry| #[trigger] stale_entry_live(hj, p, e) implies
        stale.contains(e) by {
        let v = e.node_version as int;
        if v < h0.len() {
            assert(hj[v] == h0[v]);
            assert(next_write_from(hj, e.node_address, v + 1) == next_write_from(
                h0,
                e.node_address,
                v + 1,
            ));
            assert(stale_entry_live(h0, p, e));
        } else {
            assert(!writes_addr(hj[v], e.node_address));
        }
    }
}

/// Applying one write of the current batch: the new leaf becomes live, the
/// superseded leaf (the address's previous latest write, if any) gets its stale
/// index entry, and nothing else changes.
pub proof fn lemma_apply_write(
    h0: History,
    ws: WriteBatch,
    pair: (u64, Seq<u8>),
    p: u64,
    n0: u64,
    leaves: Seq<LeafNode>,
    stale: Seq<StaleNodeIndexEntry>,
    l: LeafNode,
    found: Option<StaleNodeIndexEntry>,
)
    requires
        n0 == h0.len(),
        n0 < u64::MAX,
        (h0.len() == 0 ==> p == 0),
        (h0.len() > 0 ==> (p as int) < h0.len()),
        inv_core(leaves, stale, h0.push(ws), p, (n0 + 1) as u64),
        distinct_addrs(ws.push(pair)),
        !writes_addr(ws, pair.0),
        l.address == pair.0,
        l.version == n0,
        l.value@ == pair.1,
        match found {
            Some(e) => e.node_address == pair.0 && e.stale_since_version == n0
                && latest_write_at(h0.push(ws), pair.0, n0 as int) == Some(e.node_version as int),
            None => latest_write_at(h0.push(ws), pair.0, n0 as int) is None,
        },
    ensures
        inv_core(
            leaves.push(l),
            match found {
                Some(e) => stale.push(e),
                None => stale,
            },
            h0.push(ws.push(pair)),
            p,
            (n0 + 1) as u64,
        ),
{
    let a = pair.0;
    let hj = h0.push(ws);
    let ws1 = ws.push(pair);
    let hj1 = h0.push(ws1);
    let leaves1 = leaves.push(l);
    let stale1 = match found {
        Some(e) => stale.push(e),
        None => stale,
    };
    assert(hj[n0 as int] == ws);
    assert(hj1[n0 as int] == ws1);
    assert(forall|u: int| 0 <= u < n0 ==> hj[u] == h0[u] && hj1[u] == h0[u]);

    // which addresses each version of the batch writes
    assert forall|b: u64| #[trigger] writes_addr(ws1, b) == (writes_addr(ws, b) || b == a) by {
        lemma_writes_addr_push(ws, pair, b);
    }

    // how supersession points move: untouched for other addresses, and the
    // previously-unsuperseded write to `a` is now superseded at `n0`
    assert forall|b: u64, s: int| 0 <= s <= n0 && b != a implies next_write_from(hj1, b, s)
        == next_write_from(hj, b, s) by {
        lemma_next_push(h0, ws, b, s);
        lemma_next_push(h0, ws1, b, s);
    }
    assert forall|s: int| 0 <= s <= n0 implies next_write_from(hj1, a, s) == (
    match next_write_from(hj, a, s) {
        Some(x) => Some(x),
        None => Some(n0 as int),
    }) by {
        lemma_next_push(h0, ws, a, s);
        lemma_next_push(h0, ws1, a, s);
    }

    // the new leaf and its supersession record
    lemma_written_value_push_new(ws, pair);
    if found is Some {
        let e = found->Some_0;
        let lv = e.node_version as int;
        lemma_latest_props(hj, a, n0 as int);
        assert(writes_addr(hj[lv], a));
        assert(lv < n0) by {
            if lv == n0 {
                assert(writes_addr(ws, a));
            }
        }
        assert(n0 > 0 && p < n0);
        lemma_latest_next(hj, a, n0 as int, lv);
        lemma_next_props(hj, a, lv + 1);
        assert(next_write_from(hj, a, lv + 1) is None) by {
            if next_write_from(hj, a, lv + 1) is Some {
                assert(next_write_from(hj, a, lv + 1)->Some_0 < hj.len());
            }
        }
        assert(next_write_from(hj1, a, lv + 1) == Some(n0 as int));
        assert(stale_entry_live(hj1, p, e));
    }

    // every stored leaf is still live and carries its committed value
    assert forall|i: int| 0 <= i < leaves1.len() implies #[trigger] leaf_ok(hj1, p, leaves1[i]) by {
        if i < leaves.len() {
            let lf = leaves[i];
            assert(leaf_ok(hj, p, lf));
            let b = lf.address;
            let v = lf.version as int;
            if v == n0 {
                assert(writes_addr(ws, b));
                assert(b != a);
                lemma_written_value_push(ws, pair, b);
                assert(next_write_from(hj1, b, v + 1) is None);
            } else {
                assert(hj1[v] == hj[v]);
                if b == a {
                    match next_write_from(hj, a, v + 1) {
                        Some(x) => {
                            assert(next_write_from(hj1, a, v + 1) == Some(x));
                        },
                        None => {
                            assert(next_write_from(hj1, a, v + 1) == Some(n0 as int));
                            assert(n0 > 0 ==> p < n0);
                        },
                    }
                } else {
                    assert(next_write_from(hj1, b, v + 1) == next_write_from(hj, b, v + 1));
                }
            }
            assert(leaves1[i] == lf);
        } else {
            assert(leaves1[i] == l);
            assert(writes_addr(ws1, a));
            assert(next_write_from(hj1, a, n0 + 1 as int) is None);
            assert(written_value(ws1, a) == pair.1);
        }
    }

    // every live leaf is stored
    assert forall|b: u64, v: int| #[trigger] leaf_live(hj1, p, b, v) implies leaf_stored(
        leaves1,
        b,
        v,
    ) by {
        if b == a && v == n0 {
            assert(leaves1[leaves.len() as int] == l);
            assert(leaf_stored(leaves1, b, v));
        } else {
            assert(leaf_live(hj, p, b, v)) by {
                if v == n0 {
                    assert(writes_addr(ws1, b) && b != a);
                    assert(writes_addr(ws, b));
                    assert(next_write_from(hj, b, v + 1) is None);
                } else {
                    assert(hj1[v] == hj[v]);
                    if b == a {
                        match next_write_from(hj, a, v + 1) {
                            Some(x) => {
                                assert(next_write_from(hj1, a, v + 1) == Some(x));
                            },
                            None => {},
                        }
                    } else {
                        assert(next_write_from(hj1, b, v + 1) == next_write_from(hj, b, v + 1));
                    }
                }
            }
            assert(leaf_stored(leaves, b, v));
            let i = choose|i: int|
                0 <= i < leaves.len() && leaves[i].address == b && leaves[i].version as int == v;
            assert(leaves1[i] == leaves[i]);
            assert(leaf_stored(leaves1, b, v));
        }
    }

    // every stored stale entry is a genuine, unpruned supersession record
    assert forall|i: int| 0 <= i < stale1.len() implies #[trigger] stale_entry_live(
        hj1,
        p,
        stale1[i],
    ) by {
        if i < stale.len() {
            let e = stale[i];
            assert(stale_entry_live(hj, p, e));
            let b = e.node_address;
            let v = e.node_version as int;
            assert(v < n0) by {
                if v == n0 {
                    assert(next_write_from(hj, b, v + 1) is None);
                }
            }
            assert(hj1[v] == hj[v]);
            if b == a {
                assert(next_write_from(hj1, a, v + 1) == next_write_from(hj, a, v + 1));
            } else {
                assert(next_write_from(hj1, b, v + 1) == next_write_from(hj, b, v + 1));
            }
            assert(stale1[i] == e);
        } else {
            assert(stale1[i] == found->Some_0);
        }
    }

    // every genuine, unpruned supersession record is stored
    assert forall|e: StaleNodeIndexEntry| #[trigger] stale_entry_live(hj1, p, e) implies
        stale1.contains(e) by {
        let b = e.node_address;
        let v = e.node_version as int;
        let s = e.stale_since_version as int;
        assert(v < n0) by {
            if v == n0 {
                assert(next_write_from(hj1, b, v + 1) is None);
            }
        }
        assert(hj1[v] == hj[v]);
        if b != a {
            assert(next_write_from(hj1, b, v + 1) == next_write_from(hj, b, v + 1));
            assert(stale_entry_live(hj, p, e));
            assert(stale.contains(e));
            let i = choose|i: int| 0 <= i < stale.len() && stale[i] == e;
            assert(stale1[i] == e);
        } else {
            match next_write_from(hj, a, v + 1) {
                Some(x) => {
                    assert(next_write_from(hj1, a, v + 1) == Some(x));
                    assert(stale_entry_live(hj, p, e));
                    assert(stale.contains(e));
                    let i = choose|i: int| 0 <= i < stale.len() && stale[i] == e;
                    assert(stale1[i] == e);
                },
                None => {
                    assert(next_write_from(hj1, a, v + 1) == Some(n0 as int));
                    assert(s == n0);
                    // `v` is then the latest write to `a`, i.e. the superseded
                    // leaf recorded by `found`
                    lemma_latest_exists(hj, a, v, n0 as int);
                    let fe = found->Some_0;
                    let lv = fe.node_version as int;
                    assert(lv >= v);
                    lemma_next_props(hj, a, v + 1);
                    assert(lv == v) by {
                        if lv > v {
                            lemma_latest_props(hj, a, n0 as int);
                            assert(writes_addr(hj[lv], a));
                        }
                    }
                    assert(e == fe);
                    assert(stale1[stale.len() as int] == e);
                },
            }
        }
    }
}

/// Finds the stored leaf of address `a` with the greatest version `<= upto`,
/// which exists exactly when the history writes `a` at or before `upto`.
fn find_latest_leaf(
    leaves: &Vec<LeafNode>,
    a: u64,
    upto: u64,
    Ghost(h): Ghost<History>,
    Ghost(p): Ghost<u64>,
) -> (r: Option<usize>)
    requires
        h.len() > 0,
        p <= upto,
        (upto as int) < h.len(),
        forall|i: int| 0 <= i < leaves@.len() ==> #[trigger] leaf_ok(h, p, leaves@[i]),
        forall|aa: u64, v: int| #[trigger] leaf_live(h, p, aa, v) ==> leaf_stored(leaves@, aa, v),
    ensures
        match r {
            Some(i) => i < leaves@.len() && leaves@[i as int].address == a && latest_write_at(
                h,
                a,
                upto as int,
            ) == Some(leaves@[i as int].version as int),
            None => latest_write_at(h, a, upto as int) is None,
        },
{
    let mut best: Option<usize> = None;
    let mut i: usize = 0;
    while i < leaves.len()
        invariant
            i <= leaves@.len(),
            forall|k: int| 0 <= k < leaves@.len() ==> #[trigger] leaf_ok(h, p, leaves@[k]),
            match best {
                None => forall|j: int|
                    0 <= j < i ==> !((#[trigger] leaves@[j]).address == a && leaves@[j].version
                        <= upto),
                Some(b) => (b as int) < i && leaves@[b as int].address == a
                    && leaves@[b as int].version <= upto && (forall|j: int|
                    0 <= j < i && (#[trigger] leaves@[j]).address == a && leaves@[j].version <= upto
                        ==> leaves@[j].version <= leaves@[b as int].version),
            },
        decreases leaves@.len() - i,
    {
        if leaves[i].address == a && leaves[i].version <= upto {
            best = match best {
                None => Some(i),
                Some(b) => if leaves[i].version > leaves[b].version {
                    Some(i)
                } else {
                    Some(b)
                },
            };
        }
        i += 1;
    }
    proof {
        lemma_latest_props(h, a, upto as int);
        match latest_write_at(h, a, upto as int) {
            Some(w) => {
                lemma_latest_next(h, a, upto as int, w);
                assert(leaf_live(h, p, a, w));
                assert(leaf_stored(leaves@, a, w));
                let j = choose|j: int|
                    0 <= j < leaves@.len() && leaves@[j].address == a && leaves@[j].version as int
                        == w;
                assert(leaves@[j].version <= upto);
                match best {
                    None => {
                        assert(false);
                    },
                    Some(b) => {
                        // the found leaf is a committed write at or before `upto`,
                        // so it cannot be later than the latest one
                        assert(leaf_ok(h, p, leaves@[b as int]));
                        assert(leaf_written(h, a, leaves@[b as int].version as int));
                        assert(leaves@[b as int].version as int <= w);
                        assert(leaves@[j].version <= leaves@[b as int].version);
                    },
                }
            },
            None => {
                match best {
                    None => {},
                    Some(b) => {
                        assert(leaf_ok(h, p, leaves@[b as int]));
                        assert(leaf_written(h, a, leaves@[b as int].version as int));
                        assert(false);
                    },
                }
            },
        }
    }
    best
}

/// One of the entries references the node written at `(a, v)`.
pub open spec fn batch_refs(entries: Seq<StaleNodeIndexEntry>, a: u64, v: u64) -> bool {
    exists|x: int| 0 <= x < entries.len() && entries[x].node_address == a && entries[x].node_version == v
}

/// Scans a deletion batch for a reference to the node written at `(a, v)`.
fn batch_references(entries: &Vec<StaleNodeIndexEntry>, a: u64, v: u64) -> (r: bool)
    ensures
        r == batch_refs(entries@, a, v),
{
    let mut i: usize = 0;
    while i < entries.len()
        invariant
            i <= entries@.len(),
            forall|x: int|
                0 <= x < i ==> !((#[trigger] entries@[x]).node_address == a
                    && entries@[x].node_version == v),
        decreases entries@.len() - i,
    {
        if entries[i].node_address == a && entries[i].node_version == v {
            return true;
        }
        i += 1;
    }
    false
}

impl StateStore {
    /// Commits one write batch as version `version` (commits are dense: the
    /// batch must be the next version). Each write creates a leaf node; the
    /// previous write to the same address, if any, is recorded in the stale
    /// index as superseded at `version`. Returns the handle of the new tree
    /// state.
    pub fn put_account_state_set(
        &mut self,
        account_state_set: Vec<(u64, Vec<u8>)>,
        version: u64,
    ) -> (root: RootHash)
        requires
            old(self).inv(),
            version == old(self).num_versions,
            version < u64::MAX,
            distinct_addrs(batch_view(account_state_set@)),
        ensures
            final(self).inv(),
            final(self).history@ == old(self).history@.push(batch_view(account_state_set@)),
            final(self).num_versions == version + 1,
            final(self).progress == old(self).progress,
            root == (RootHash { version }),
    {
        let ghost h0 = self.history@;
        let ghost full = batch_view(account_state_set@);
        let ghost p = self.progress;
        let n = self.num_versions;
        proof {
            assert(full.take(0) =~= Seq::<(u64, Seq<u8>)>::empty());
            lemma_begin_commit(self.leaf_nodes@, self.stale_index@, h0, full.take(0), p, n);
        }
        let mut j: usize = 0;
        while j < account_state_set.len()
            invariant
                j <= account_state_set@.len(),
                self.num_versions == n,
                version == n,
                n == h0.len(),
                n < u64::MAX,
                self.progress == p,
                self.history@ == h0,
                (h0.len() == 0 ==> p == 0),
                (h0.len() > 0 ==> (p as int) < h0.len()),
                full == batch_view(account_state_set@),
                distinct_addrs(full),
                inv_core(
                    self.leaf_nodes@,
                    self.stale_index@,
                    h0.push(full.take(j as int)),
                    p,
                    (n + 1) as u64,
                ),
            decreases account_state_set@.len() - j,
        {
            let a = account_state_set[j].0;
            let val = clone_bytes(&account_state_set[j].1);
            let ghost ws_j = full.take(j as int);
            let ghost pair = full[j as int];
            proof {
                assert(pair == (account_state_set@[j as int].0, account_state_set@[j as int].1@));
                assert(val@ == pair.1);
                assert(full.take(j as int + 1) =~= ws_j.push(pair));
                assert(distinct_addrs(ws_j.push(pair))) by {
                    assert(forall|x: int| 0 <= x < j ==> ws_j.push(pair)[x] == full[x]);
                    assert(ws_j.push(pair)[j as int] == full[j as int]);
                }
                assert(!writes_addr(ws_j, a)) by {
                    if writes_addr(ws_j, a) {
                        let x = choose|x: int| 0 <= x < ws_j.len() && ws_j[x].0 == a;
                        assert(full[x].0 == a && full[j as int].0 == a);
                    }
                }
            }
            let found = find_latest_leaf(
                &self.leaf_nodes,
                a,
                n,
                Ghost(h0.push(ws_j)),
                Ghost(p),
            );
            let newleaf = LeafNode { address: a, version, value: val };
            match found {
                Some(i) => {
                    let lv = self.leaf_nodes[i].version;
                    let entry = StaleNodeIndexEntry {
                        stale_since_version: version,
                        node_address: a,
                        node_version: lv,
                    };
                    proof {
                        lemma_apply_write(
                            h0,
                            ws_j,
                            pair,
                            p,
                            n,
                            self.leaf_nodes@,
                            self.stale_index@,
                            newleaf,
                            Some(entry),
                        );
                    }
                    self.stale_index.push(entry);
                    self.leaf_nodes.push(newleaf);
                },
                None => {
                    proof {
                        lemma_apply_write(
                            h0,
                            ws_j,
                            pair,
                            p,
                            n,
                            self.leaf_nodes@,
                            self.stale_index@,
                            newleaf,
                            None,
                        );
                    }
                    self.leaf_nodes.push(newleaf);
                },
            }
            j += 1;
        }
        proof {
            assert(full.take(account_state_set@.len() as int) =~= full);
        }
        self.num_versions = version + 1;
        self.history = Ghost(h0.push(full));
        RootHash { version }
    }

    /// Lists every stale index entry with `stale_since_version <= version`: the
    /// records whose nodes are only reachable from versions below `version` and
    /// may therefore be deleted once `version` becomes the retention floor.
    pub fn stale_node_entries_up_to(&self, version: u64) -> (r: Vec<StaleNodeIndexEntry>)
        requires
            self.inv(),
        ensures
            forall|i: int|
                0 <= i < r@.len() ==> self.stale_index@.contains(#[trigger] r@[i])
                    && r@[i].stale_since_version <= version,
            forall|i: int|
                0 <= i < self.stale_index@.len() && (#[trigger] self.stale_index@[i]).stale_since_version
                    <= version ==> r@.contains(self.stale_index@[i]),
    {
        let mut r: Vec<StaleNodeIndexEntry> = Vec::new();
        let mut i: usize = 0;
        while i < self.stale_index.len()
            invariant
                i <= self.stale_index@.len(),
                forall|k: int|
                    0 <= k < r@.len() ==> self.stale_index@.contains(#[trigger] r@[k])
                        && r@[k].stale_since_version <= version,
                forall|k: int|
                    0 <= k < i && (#[trigger] self.stale_index@[k]).stale_since_version <= version
                        ==> r@.contains(self.stale_index@[k]),
            decreases self.stale_index@.len() - i,
        {
            let e = self.stale_index[i];
            if e.stale_since_version <= version {
                let ghost r0 = r@;
                r.push(e);
                proof {
                    assert(r@[r0.len() as int] == e);
                    assert(forall|k: int| 0 <= k < r0.len() ==> r@[k] == r0[k]);
                    assert(self.stale_index@.contains(e)) by {
                        assert(self.stale_index@[i as int] == e);
                    }
                }
            }
            i += 1;
        }
        r
    }

    /// Deletes, in one atomic batch, the given stale index entries together
    /// with the nodes they reference, and persists the progress watermark
    /// `target` in the same batch. The caller passes exactly the entries with
    /// `stale_since_version <= target`, as listed by
    /// [`Self::stale_node_entries_up_to`].
    ///
    /// The in-memory engine cannot hit an I/O fault, so the batch always
    /// succeeds; the `Result` is the deletion interface's shape, and a caller
    /// must treat an error as fatal rather than retry.
    pub fn delete_batch(&mut self, entries: Vec<StaleNodeIndexEntry>, target: u64) -> (r: Result<
        (),
        Error,
    >)
        requires
            old(self).inv(),
            old(self).progress <= target,
            (target as int) < old(self).num_versions,
            forall|i: int|
                0 <= i < entries@.len() ==> old(self).stale_index@.contains(#[trigger] entries@[i])
                    && entries@[i].stale_since_version <= target,
            forall|i: int|
                0 <= i < old(self).stale_index@.len() && (#[trigger] old(
                    self,
                ).stale_index@[i]).stale_since_version <= target ==> entries@.contains(
                    old(self).stale_index@[i],
                ),
        ensures
            final(self).inv(),
            final(self).history@ == old(self).history@,
            final(self).num_versions == old(self).num_versions,
            final(self).progress == target,
            r == Ok::<(), Error>(()),
    {
        let ghost h = self.history@;
        let ghost p = self.progress;
        let ghost old_stale = self.stale_index@;
        let ghost old_leaves = self.leaf_nodes@;

        // drop every index entry at or below the new floor
        let mut new_stale: Vec<StaleNodeIndexEntry> = Vec::new();
        let mut i: usize = 0;
        while i < self.stale_index.len()
            invariant
                i <= old_stale.len(),
                self.stale_index@ == old_stale,
                forall|k: int|
                    0 <= k < new_stale@.len() ==> old_stale.contains(#[trigger] new_stale@[k])
                        && new_stale@[k].stale_since_version > target,
                forall|k: int|
                    0 <= k < i && (#[trigger] old_stale[k]).stale_since_version > target
                        ==> new_stale@.contains(old_stale[k]),
            decreases old_stale.len() - i,
        {
            let e = self.stale_index[i];
            if e.stale_since_version > target {
                let ghost r0 = new_stale@;
                new_stale.push(e);
                proof {
                    assert(new_stale@[r0.len() as int] == e);
                    assert(forall|k: int| 0 <= k < r0.len() ==> new_stale@[k] == r0[k]);
                    assert(old_stale.contains(e)) by {
                        assert(old_stale[i as int] == e);
                    }
                }
            }
            i += 1;
        }

        // drop every node one of the entries references
        let mut new_leaves: Vec<LeafNode> = Vec::new();
        let mut i2: usize = 0;
        while i2 < self.leaf_nodes.len()
            invariant
                i2 <= old_leaves.len(),
                self.leaf_nodes@ == old_leaves,
                forall|k: int|
                    0 <= k < new_leaves@.len() ==> #[trigger] leaf_ok(h, p, new_leaves@[k])
                        && !batch_refs(entries@, new_leaves@[k].address, new_leaves@[k].version),
                forall|i: int| 0 <= i < old_leaves.len() ==> #[trigger] leaf_ok(h, p, old_leaves[i]),
                forall|m: int|
                    0 <= m < i2 && !batch_refs(
                        entries@,
                        (#[trigger] old_leaves[m]).address,
                        old_leaves[m].version,
                    ) ==> leaf_stored(new_leaves@, old_leaves[m].address, old_leaves[m].version as int),
            decreases old_leaves.len() - i2,
        {
            let keep = !batch_references(&entries, self.leaf_nodes[i2].address, self.leaf_nodes[i2].version);
            if keep {
                let copy = LeafNode {
                    address: self.leaf_nodes[i2].address,
                    version: self.leaf_nodes[i2].version,
                    value: clone_bytes(&self.leaf_nodes[i2].value),
                };
                let ghost r0 = new_leaves@;
                new_leaves.push(copy);
                proof {
                    assert(forall|k: int| 0 <= k < r0.len() ==> new_leaves@[k] == r0[k]);
                    let nl = new_leaves@[r0.len() as int];
                    assert(leaf_ok(h, p, old_leaves[i2 as int]));
                    assert(leaf_ok(h, p, nl));
                    assert(forall|m: int|
                        0 <= m < i2 && !batch_refs(
                            entries@,
                            (#[trigger] old_leaves[m]).address,
                            old_leaves[m].version,
                        ) ==> leaf_stored(new_leaves@, old_leaves[m].address, old_leaves[m].version as int));
                    assert(leaf_stored(new_leaves@, old_leaves[i2 as int].address, old_leaves[i2 as int].version as int));
                }
            }
            i2 += 1;
        }

        proof {
            // the surviving collections are exactly what is live at floor `target`
            assert forall|k: int| 0 <= k < new_leaves@.len() implies #[trigger] leaf_ok(
                h,
                target,
                new_leaves@[k],
            ) by {
                let l = new_leaves@[k];
                let b = l.address;
                let v = l.version as int;
                assert(leaf_ok(h, p, l));
                match next_write_from(h, b, v + 1) {
                    None => {},
                    Some(s) => {
                        if s <= target {
                            let e = StaleNodeIndexEntry {
                                stale_since_version: s as u64,
                                node_address: b,
                                node_version: l.version,
                            };
                            assert(stale_entry_live(h, p, e));
                            assert(old_stale.contains(e));
                            let x = choose|x: int| 0 <= x < old_stale.len() && old_stale[x] == e;
                            assert(entries@.contains(e));
                            assert(batch_refs(entries@, b, l.version));
                        }
                    },
                }
            }
            assert forall|b: u64, v: int| #[trigger] leaf_live(h, target, b, v) implies leaf_stored(
                new_leaves@,
                b,
                v,
            ) by {
                assert(leaf_live(h, p, b, v));
                assert(leaf_stored(old_leaves, b, v));
                let m = choose|m: int|
                    0 <= m < old_leaves.len() && old_leaves[m].address == b
                        && old_leaves[m].version as int == v;
                assert(!batch_refs(entries@, b, old_leaves[m].version)) by {
                    if batch_refs(entries@, b, old_leaves[m].version) {
                        let x = choose|x: int|
                            0 <= x < entries@.len() && entries@[x].node_address == b
                                && entries@[x].node_version == old_leaves[m].version;
                        let e = entries@[x];
                        assert(old_stale.contains(e));
                        let y = choose|y: int| 0 <= y < old_stale.len() && old_stale[y] == e;
                        assert(stale_entry_live(h, p, e));
                        assert(next_write_from(h, b, v + 1) == Some(e.stale_since_version as int));
                    }
                }
            }
            assert forall|k: int| 0 <= k < new_stale@.len() implies #[trigger] stale_entry_live(
                h,
                target,
                new_stale@[k],
            ) by {
                let e = new_stale@[k];
                let y = choose|y: int| 0 <= y < old_stale.len() && old_stale[y] == e;
                assert(stale_entry_live(h, p, e));
            }
            assert forall|e: StaleNodeIndexEntry| #[trigger] stale_entry_live(h, target, e) implies
                new_stale@.contains(e) by {
                assert(stale_entry_live(h, p, e));
                assert(old_stale.contains(e));
                let y = choose|y: int| 0 <= y < old_stale.len() && old_stale[y] == e;
                assert(new_stale@.contains(old_stale[y]));
            }
        }
        self.stale_index = new_stale;
        self.leaf_nodes = new_leaves;
        self.progress = target;
        Ok(())
    }

    /// Reads address `address` as of the tree state `root`: the committed value
    /// for any retained version, `Ok(None)` if the address was never written at
    /// or before it, and `Err(RootNotFound)` once the version has been pruned
    /// (or was never committed). `Err` here means "data no longer retained",
    /// never "data never existed".
    pub fn get_account_state_by_root(&self, address: u64, root: RootHash) -> (r: Result<
        Option<Vec<u8>>,
        Error,
    >)
        requires
            self.inv(),
        ensures
            read_view(r) == read_result(self.history@, self.progress, root.version, address),
    {
        if !(root.version < self.num_versions && root.version >= self.progress) {
            return Err(Error::RootNotFound);
        }
        match find_latest_leaf(
            &self.leaf_nodes,
            address,
            root.version,
            Ghost(self.history@),
            Ghost(self.progress),
        ) {
            None => Ok(None),
            Some(i) => {
                proof {
                    assert(leaf_ok(self.history@, self.progress, self.leaf_nodes@[i as int]));
                }
                Ok(Some(clone_bytes(&self.leaf_nodes[i].value)))
            },
        }
    }
}

/// Copies a byte vector.
fn clone_bytes(v: &Vec<u8>) -> (r: Vec<u8>)
    ensures
        r@ == v@,
{
    let mut r: Vec<u8> = Vec::new();
    let mut i: usize = 0;
    while i < v.len()
        invariant
            i <= v.len(),
            r@ == v@.take(i as int),
        decreases v.len() - i,
    {
        r.push(v[i]);
        proof {
            assert(r@ =~= v@.take(i + 1 as int));
        }
        i += 1;
    }
    proof {
        assert(r@ =~= v@);
    }
    r
}

} // verus!
