//! The trips that the user joined by hand.
//!
//! Each row says that one trip, the absorbed one, belongs to another, the
//! primary one. The table stays flat: no trip is both absorbed and primary, so
//! that every absorbed trip leads to its primary trip in one step.

use crate::error::AppError;
use crate::ids::id_text;
use crate::text::{concat2, owned};
use vstd::prelude::*;

verus! {

/// One join.
#[derive(Debug, Clone, Copy, PartialEq, Eq, Structural)]
pub struct MergeRow {
    pub absorbed: u128,
    pub primary: u128,
    pub created_ms: i64,
}

/// All joins.
#[derive(Debug)]
pub struct MergeTable {
    pub rows: Vec<MergeRow>,
}

/// No trip is absorbed twice.
pub open spec fn has_unique_absorbed(rows: Seq<MergeRow>) -> bool {
    forall|i: int, j: int|
        0 <= i < j < rows.len() ==> (#[trigger] rows[i]).absorbed != (#[trigger] rows[j]).absorbed
}

/// The trip is absorbed by another.
pub open spec fn is_absorbed(rows: Seq<MergeRow>, id: u128) -> bool {
    exists|i: int| 0 <= i < rows.len() && (#[trigger] rows[i]).absorbed == id
}

/// The primary trip of an absorbed trip.
pub open spec fn parent_of(rows: Seq<MergeRow>, id: u128) -> Option<u128> {
    if is_absorbed(rows, id) {
        Some(
            rows[choose|i: int| 0 <= i < rows.len() && (#[trigger] rows[i]).absorbed == id].primary,
        )
    } else {
        None
    }
}

/// No trip is both absorbed and primary.
pub open spec fn is_flat(rows: Seq<MergeRow>) -> bool {
    forall|i: int, j: int|
        0 <= i < rows.len() && 0 <= j < rows.len() ==> (#[trigger] rows[i]).absorbed != (
        #[trigger] rows[j]).primary
}

/// The trip that `steps` steps from absorbed to primary lead to.
pub open spec fn ancestor(rows: Seq<MergeRow>, start: u128, steps: nat) -> Option<u128>
    decreases steps,
{
    if steps == 0 {
        Some(start)
    } else {
        match ancestor(rows, start, (steps - 1) as nat) {
            Some(id) => parent_of(rows, id),
            None => None,
        }
    }
}

/// The chain from `start` ends at `root`.
pub open spec fn ends_at(rows: Seq<MergeRow>, start: u128, root: u128) -> bool {
    exists|k: nat| #[trigger] ancestor(rows, start, k) == Some(root) && !is_absorbed(rows, root)
}

proof fn lemma_parent(rows: Seq<MergeRow>, i: int)
    requires
        has_unique_absorbed(rows),
        0 <= i < rows.len(),
    ensures
        parent_of(rows, rows[i].absorbed) == Some(rows[i].primary),
{
    let id = rows[i].absorbed;
    assert(is_absorbed(rows, id));
    let k = choose|k: int| 0 <= k < rows.len() && (#[trigger] rows[k]).absorbed == id;
    if k < i {
        assert(rows[k].absorbed != rows[i].absorbed);
    } else if i < k {
        assert(rows[i].absorbed != rows[k].absorbed);
    }
}

/// A chain ends at one trip at most.
proof fn lemma_end_unique(rows: Seq<MergeRow>, start: u128, a: nat, b: nat)
    requires
        a <= b,
        ancestor(rows, start, a) is Some,
        !is_absorbed(rows, ancestor(rows, start, a)->0),
        ancestor(rows, start, b) is Some,
    ensures
        a == b,
    decreases b,
{
    if a < b {
        lemma_chain_prefix(rows, start, (a + 1) as nat, b);
        assert(ancestor(rows, start, (a + 1) as nat) is Some);
        assert(parent_of(rows, ancestor(rows, start, a)->0) is None);
    }
}

/// Every step before a step that exists exists too.
proof fn lemma_chain_prefix(rows: Seq<MergeRow>, start: u128, a: nat, b: nat)
    requires
        a <= b,
        ancestor(rows, start, b) is Some,
    ensures
        ancestor(rows, start, a) is Some,
    decreases b,
{
    if a < b {
        lemma_chain_prefix(rows, start, a, (b - 1) as nat);
    }
}

/// A chain that comes back to a trip it has passed never ends.
proof fn lemma_cycle_never_ends(rows: Seq<MergeRow>, start: u128, j: nat, n: nat, k: nat)
    requires
        j < n,
        ancestor(rows, start, n) is Some,
        ancestor(rows, start, n) == ancestor(rows, start, j),
    ensures
        ancestor(rows, start, k) is Some,
        is_absorbed(rows, ancestor(rows, start, k)->0),
        exists|i: nat| i < n && #[trigger] ancestor(rows, start, i) == ancestor(rows, start, k),
    decreases k,
{
    if k == 0 {
        lemma_chain_prefix(rows, start, 1, n);
        assert(ancestor(rows, start, 1) == parent_of(rows, start)) by {
            reveal_with_fuel(ancestor, 2);
        }
        assert(ancestor(rows, start, 0) == ancestor(rows, start, k));
    } else {
        lemma_cycle_never_ends(rows, start, j, n, (k - 1) as nat);
        let i = choose|i: nat|
            i < n && #[trigger] ancestor(rows, start, i) == ancestor(rows, start, (k - 1) as nat);
        assert(ancestor(rows, start, k) == ancestor(rows, start, (i + 1) as nat));
        lemma_chain_prefix(rows, start, (i + 1) as nat, n);
        let m: nat = if i + 1 == n {
            j
        } else {
            (i + 1) as nat
        };
        assert(ancestor(rows, start, m) == ancestor(rows, start, k));
        lemma_chain_prefix(rows, start, (m + 1) as nat, n);
        assert(parent_of(rows, ancestor(rows, start, m)->0) is Some);
    }
}

/// Different trips that are all absorbed are at most as many as there are rows.
proof fn lemma_absorbed_count(rows: Seq<MergeRow>, ids: Seq<u128>)
    requires
        ids.no_duplicates(),
        forall|i: int| 0 <= i < ids.len() ==> is_absorbed(rows, #[trigger] ids[i]),
    ensures
        ids.len() <= rows.len(),
{
    let keys = rows.map_values(|r: MergeRow| r.absorbed);
    ids.unique_seq_to_set();
    keys.lemma_cardinality_of_set();
    assert(ids.to_set().subset_of(keys.to_set())) by {
        assert forall|x: u128| ids.to_set().contains(x) implies keys.to_set().contains(x) by {
            let i = choose|i: int| 0 <= i < ids.len() && ids[i] == x;
            assert(is_absorbed(rows, ids[i]));
            let k = choose|k: int| 0 <= k < rows.len() && (#[trigger] rows[k]).absorbed == x;
            assert(keys[k] == x);
        }
    }
    vstd::set_lib::lemma_len_subset(ids.to_set(), keys.to_set());
}

impl MergeTable {
    /// A table without joins.
    pub fn new() -> (r: Self)
        ensures
            r.rows@.len() == 0,
            has_unique_absorbed(r.rows@),
            is_flat(r.rows@),
    {
        MergeTable { rows: Vec::new() }
    }

    /// The primary trip of an absorbed trip.
    pub fn parent(&self, id: u128) -> (r: Option<u128>)
        requires
            has_unique_absorbed(self.rows@),
        ensures
            r == parent_of(self.rows@, id),
    {
        let mut i: usize = 0;
        while i < self.rows.len()
            invariant
                has_unique_absorbed(self.rows@),
                i <= self.rows.len(),
                forall|j: int| 0 <= j < i ==> (#[trigger] self.rows@[j]).absorbed != id,
            decreases self.rows.len() - i,
        {
            if self.rows[i].absorbed == id {
                proof {
                    lemma_parent(self.rows@, i as int);
                }
                return Some(self.rows[i].primary);
            }
            i += 1;
        }
        None
    }

    /// The trip that the chain of joins from `start` ends at. A chain that runs
    /// in a circle is an error.
    pub fn resolve_to_root(&self, start: u128) -> (r: Result<u128, AppError>)
        requires
            has_unique_absorbed(self.rows@),
        ensures
            match r {
                Ok(root) => ends_at(self.rows@, start, root),
                Err(e) => (forall|root: u128| !ends_at(self.rows@, start, root))
                    && crate::error::is_internal(
                    e,
                    "cycle detected in manual_trip_merges chain starting at "@
                        + crate::ids::hyphenated(start),
                ),
            },
    {
        let mut current: u128 = start;
        let mut seen: Vec<u128> = Vec::new();
        seen.push(current);
        loop
            invariant
                has_unique_absorbed(self.rows@),
                seen.len() >= 1,
                seen@.no_duplicates(),
                current == seen@.last(),
                forall|i: int|
                    0 <= i < seen.len() ==> ancestor(self.rows@, start, i as nat) == Some(
                        #[trigger] seen@[i],
                    ),
                forall|i: int|
                    0 <= i < seen.len() - 1 ==> is_absorbed(self.rows@, #[trigger] seen@[i]),
                seen.len() - 1 <= self.rows.len(),
            decreases self.rows.len() + 1 - seen.len(),
        {
            let n: usize = seen.len();
            proof {
                assert(ancestor(self.rows@, start, (n - 1) as nat) == Some(seen@[n - 1]));
            }
            let parent = match self.parent(current) {
                Some(p) => p,
                None => {
                    return Ok(current);
                },
            };
            proof {
                assert(ancestor(self.rows@, start, n as nat) == Some(parent));
                assert(is_absorbed(self.rows@, current));
                assert forall|i: int| 0 <= i < seen@.len() implies is_absorbed(
                    self.rows@,
                    #[trigger] seen@[i],
                ) by {}
                lemma_absorbed_count(self.rows@, seen@);
            }
            let mut j: usize = 0;
            while j < seen.len()
                invariant
                    j <= seen.len(),
                    n == seen.len(),
                    forall|i: int| 0 <= i < j ==> seen@[i] != parent,
                    forall|i: int|
                        0 <= i < seen.len() ==> ancestor(self.rows@, start, i as nat) == Some(
                            #[trigger] seen@[i],
                        ),
                    ancestor(self.rows@, start, n as nat) == Some(parent),
                decreases seen.len() - j,
            {
                if seen[j] == parent {
                    proof {
                        assert forall|root: u128| !ends_at(self.rows@, start, root) by {
                            if ends_at(self.rows@, start, root) {
                                let k = choose|k: nat|
                                    #[trigger] ancestor(self.rows@, start, k) == Some(root)
                                        && !is_absorbed(self.rows@, root);
                                lemma_cycle_never_ends(self.rows@, start, j as nat, n as nat, k);
                            }
                        }
                    }
                    return Err(
                        AppError::Internal(
                            concat2(
                                "cycle detected in manual_trip_merges chain starting at ",
                                id_text(start).as_str(),
                            ),
                        ),
                    );
                }
                j += 1;
            }
            seen.push(parent);
            current = parent;
        }
    }

    /// What joining `absorbed` to `primary` does to the primary trips: the
    /// absorbed trip, and every trip that it had absorbed, now belong to
    /// `root`.
    pub open spec fn joined(old_rows: Seq<MergeRow>, absorbed: u128, root: u128, id: u128) -> Option<
        u128,
    > {
        if id == absorbed || parent_of(old_rows, id) == Some(absorbed) {
            Some(root)
        } else {
            parent_of(old_rows, id)
        }
    }

    /// A row after `absorbed` was joined to `root`.
    pub open spec fn rejoined(r: MergeRow, absorbed: u128, root: u128, created_ms: i64) -> MergeRow {
        if r.absorbed == absorbed {
            MergeRow { absorbed, primary: root, created_ms }
        } else if r.primary == absorbed {
            MergeRow { primary: root, ..r }
        } else {
            r
        }
    }

    /// The rows after `absorbed` was joined to `root`.
    pub open spec fn with_join(
        rows: Seq<MergeRow>,
        absorbed: u128,
        root: u128,
        created_ms: i64,
    ) -> Seq<MergeRow> {
        let m = rows.map_values(|r: MergeRow| MergeTable::rejoined(r, absorbed, root, created_ms));
        if is_absorbed(rows, absorbed) {
            m
        } else {
            m.push(MergeRow { absorbed, primary: root, created_ms })
        }
    }

    /// Records that one trip was joined to another. Trips that the absorbed
    /// trip had absorbed before go with it.
    pub fn insert_merge(&mut self, primary: u128, absorbed: u128, created_ms: i64) -> (r: Result<
        (),
        AppError,
    >)
        requires
            has_unique_absorbed(old(self).rows@),
        ensures
            has_unique_absorbed(final(self).rows@),
            match r {
                Ok(_) => primary != absorbed && exists|root: u128|
                    #[trigger] ends_at(old(self).rows@, primary, root) && root != absorbed
                        && final(self).rows@ == MergeTable::with_join(
                        old(self).rows@,
                        absorbed,
                        root,
                        created_ms,
                    ) && (forall|id: u128|
                        parent_of(final(self).rows@, id) == #[trigger] MergeTable::joined(
                            old(self).rows@,
                            absorbed,
                            root,
                            id,
                        )),
                Err(e) => *final(self) == *old(self) && if primary == absorbed {
                    crate::error::is_internal(e, "cannot merge a trip into itself"@)
                } else if ends_at(old(self).rows@, primary, absorbed) {
                    crate::error::is_internal(
                        e,
                        "cannot merge a trip into itself (after resolving primary chain)"@,
                    )
                } else {
                    (forall|root: u128| !ends_at(old(self).rows@, primary, root))
                        && crate::error::is_internal(
                        e,
                        "cycle detected in manual_trip_merges chain starting at "@
                            + crate::ids::hyphenated(primary),
                    )
                },
            },
            r is Ok && is_flat(old(self).rows@) ==> is_flat(final(self).rows@),
    {
        if primary == absorbed {
            return Err(AppError::Internal(owned("cannot merge a trip into itself")));
        }
        let root = match self.resolve_to_root(primary) {
            Ok(id) => id,
            Err(e) => {
                return Err(e);
            },
        };
        if root == absorbed {
            return Err(
                AppError::Internal(
                    owned("cannot merge a trip into itself (after resolving primary chain)"),
                ),
            );
        }
        let ghost rows0 = self.rows@;
        let mut out: Vec<MergeRow> = Vec::new();
        let mut found = false;
        let mut i: usize = 0;
        while i < self.rows.len()
            invariant
                *self == *old(self),
                rows0 == self.rows@,
                i <= self.rows.len(),
                out.len() == i,
                found == exists|j: int| 0 <= j < i && (#[trigger] rows0[j]).absorbed == absorbed,
                forall|j: int|
                    0 <= j < i ==> #[trigger] out@[j] == MergeTable::rejoined(
                        rows0[j],
                        absorbed,
                        root,
                        created_ms,
                    ),
            decreases self.rows.len() - i,
        {
            let row = self.rows[i];
            if row.absorbed == absorbed {
                found = true;
                out.push(MergeRow { absorbed, primary: root, created_ms });
            } else if row.primary == absorbed {
                out.push(
                    MergeRow { absorbed: row.absorbed, primary: root, created_ms: row.created_ms },
                );
            } else {
                out.push(row);
            }
            i += 1;
        }
        let ghost copied = out@;
        if !found {
            out.push(MergeRow { absorbed, primary: root, created_ms });
        }
        self.rows = out;
        proof {
            let rows1 = self.rows@;
            if !found {
                assert(rows1.drop_last() == copied);
            }
            assert(rows1 == MergeTable::with_join(rows0, absorbed, root, created_ms));
            assert forall|a: int, b: int| 0 <= a < b < rows1.len() implies (
            #[trigger] rows1[a]).absorbed != (#[trigger] rows1[b]).absorbed by {
                assert(rows1[a] == copied[a]);
                assert(copied[a].absorbed == rows0[a].absorbed);
                if b < rows0.len() {
                    assert(rows1[b] == copied[b]);
                    assert(copied[b].absorbed == rows0[b].absorbed);
                }
            }
            assert forall|id: u128|
                parent_of(rows1, id) == #[trigger] MergeTable::joined(
                    rows0,
                    absorbed,
                    root,
                    id,
                ) by {
                lemma_joined_parent(rows0, rows1, copied, absorbed, root, found, id);
            }
            assert(ends_at(rows0, primary, root));
            if is_flat(rows0) {
                assert forall|a: int, b: int| 0 <= a < rows1.len() && 0 <= b < rows1.len() implies (
                #[trigger] rows1[a]).absorbed != (#[trigger] rows1[b]).primary by {
                    let k = choose|k: nat|
                        #[trigger] ancestor(rows0, primary, k) == Some(root) && !is_absorbed(
                            rows0,
                            root,
                        );
                    if a < rows0.len() {
                        assert(rows1[a] == copied[a]);
                        assert(rows1[a].absorbed == rows0[a].absorbed);
                        assert(is_absorbed(rows0, rows0[a].absorbed));
                    }
                    if b < rows0.len() {
                        assert(rows1[b] == copied[b]);
                        if rows1[b].primary != root && a < rows0.len() {
                            assert(rows0[a].absorbed != rows0[b].primary);
                        }
                    }
                }
            }
        }
        Ok(())
    }

    /// Forgets that a trip was absorbed.
    pub fn delete_merge(&mut self, absorbed: u128)
        requires
            has_unique_absorbed(old(self).rows@),
        ensures
            final(self).rows@ == old(self).rows@.filter(|r: MergeRow| r.absorbed != absorbed),
    {
        let ghost keep = |r: MergeRow| r.absorbed != absorbed;
        let mut out: Vec<MergeRow> = Vec::new();
        let mut i: usize = 0;
        proof {
            reveal(Seq::filter);
            assert(self.rows@.take(0).filter(keep) == Seq::<MergeRow>::empty());
        }
        while i < self.rows.len()
            invariant
                *self == *old(self),
                i <= self.rows.len(),
                keep == (|r: MergeRow| r.absorbed != absorbed),
                out@ == self.rows@.take(i as int).filter(keep),
            decreases self.rows.len() - i,
        {
            let row = self.rows[i];
            proof {
                reveal(Seq::filter);
                assert(self.rows@.take(i + 1).drop_last() == self.rows@.take(i as int));
                assert(self.rows@.take(i + 1).last() == row);
            }
            if row.absorbed != absorbed {
                out.push(row);
            }
            i += 1;
        }
        proof {
            assert(self.rows@.take(self.rows@.len() as int) == self.rows@);
        }
        self.rows = out;
    }

    /// All joins, as pairs of an absorbed trip and its primary trip.
    pub fn list_merges(&self) -> (r: Vec<(u128, u128)>)
        ensures
            r@ == self.rows@.map_values(|m: MergeRow| (m.absorbed, m.primary)),
    {
        let ghost all = self.rows@.map_values(|m: MergeRow| (m.absorbed, m.primary));
        let mut r: Vec<(u128, u128)> = Vec::new();
        let mut i: usize = 0;
        while i < self.rows.len()
            invariant
                i <= self.rows.len(),
                all == self.rows@.map_values(|m: MergeRow| (m.absorbed, m.primary)),
                r@ == all.take(i as int),
            decreases self.rows.len() - i,
        {
            r.push((self.rows[i].absorbed, self.rows[i].primary));
            i += 1;
            proof {
                assert(all.take(i as int) == all.take(i - 1).push(all[i - 1]));
            }
        }
        proof {
            assert(all.take(all.len() as int) == all);
        }
        r
    }
}

proof fn lemma_joined_parent(
    rows0: Seq<MergeRow>,
    rows1: Seq<MergeRow>,
    copied: Seq<MergeRow>,
    absorbed: u128,
    root: u128,
    found: bool,
    id: u128,
)
    requires
        has_unique_absorbed(rows0),
        has_unique_absorbed(rows1),
        copied.len() == rows0.len(),
        found == exists|j: int|
            0 <= j < rows0.len() && (#[trigger] rows0[j]).absorbed == absorbed,
        forall|j: int|
            0 <= j < rows0.len() ==> (#[trigger] copied[j]).absorbed == rows0[j].absorbed
                && copied[j].primary == if rows0[j].absorbed == absorbed || rows0[j].primary
                == absorbed {
                root
            } else {
                rows0[j].primary
            },
        found ==> rows1 == copied,
        !found ==> rows1.len() == copied.len() + 1 && rows1.drop_last() == copied
            && rows1.last().absorbed == absorbed && rows1.last().primary == root,
    ensures
        parent_of(rows1, id) == MergeTable::joined(rows0, absorbed, root, id),
{
    assert forall|j: int| 0 <= j < copied.len() implies rows1[j] == #[trigger] copied[j] by {
        if !found {
            assert(rows1.drop_last()[j] == rows1[j]);
        }
    }
    if is_absorbed(rows0, id) {
        let j = choose|j: int| 0 <= j < rows0.len() && (#[trigger] rows0[j]).absorbed == id;
        lemma_parent(rows0, j);
        assert(copied[j].absorbed == id);
        assert(rows1[j].absorbed == id);
        lemma_parent(rows1, j);
    } else if id == absorbed {
        assert(!found);
        lemma_parent(rows1, rows1.len() - 1);
    } else {
        assert forall|j: int| 0 <= j < rows1.len() implies (#[trigger] rows1[j]).absorbed != id by {
            if j < copied.len() {
                assert(copied[j].absorbed == rows0[j].absorbed);
                assert(is_absorbed(rows0, rows0[j].absorbed));
            } else {
                assert(rows1[j] == rows1.last());
            }
        }
        assert(!is_absorbed(rows1, id));
    }
}

/// In a flat table every chain ends after one step at most: an absorbed trip
/// leads to its primary trip, any other trip to itself.
pub proof fn flat_chains_end_at_once(rows: Seq<MergeRow>, id: u128)
    requires
        has_unique_absorbed(rows),
        is_flat(rows),
    ensures
        ends_at(
            rows,
            id,
            match parent_of(rows, id) {
                Some(p) => p,
                None => id,
            },
        ),
{
    reveal_with_fuel(ancestor, 3);
    if is_absorbed(rows, id) {
        let j = choose|j: int| 0 <= j < rows.len() && (#[trigger] rows[j]).absorbed == id;
        lemma_parent(rows, j);
        let p = rows[j].primary;
        assert(!is_absorbed(rows, p)) by {
            if is_absorbed(rows, p) {
                let m = choose|m: int| 0 <= m < rows.len() && (#[trigger] rows[m]).absorbed == p;
                assert(rows[m].absorbed != rows[j].primary);
            }
        }
        assert(ancestor(rows, id, 1) == Some(p));
    } else {
        assert(ancestor(rows, id, 0) == Some(id));
    }
}

/// Joining never fails for a circle in a flat table, and what it leaves is flat
/// again: the only joins that are refused are those of a trip with itself or
/// with a trip that it absorbed.
pub proof fn flat_tables_refuse_only_self_joins(rows: Seq<MergeRow>, primary: u128)
    requires
        has_unique_absorbed(rows),
        is_flat(rows),
    ensures
        exists|root: u128| ends_at(rows, primary, root),
{
    flat_chains_end_at_once(rows, primary);
}

/// A chain ends at one trip at most.
pub proof fn chain_ends_are_unique(rows: Seq<MergeRow>, start: u128, a: u128, b: u128)
    requires
        ends_at(rows, start, a),
        ends_at(rows, start, b),
    ensures
        a == b,
{
    let i = choose|k: nat|
        #[trigger] ancestor(rows, start, k) == Some(a) && !is_absorbed(rows, a);
    let j = choose|k: nat|
        #[trigger] ancestor(rows, start, k) == Some(b) && !is_absorbed(rows, b);
    if i <= j {
        lemma_end_unique(rows, start, i, j);
    } else {
        lemma_end_unique(rows, start, j, i);
    }
}

} // verus!
