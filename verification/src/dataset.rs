//! Per-epoch per-satellite records and the dataset-level merge.
//!
//! An [`SP3`] owns one [`Header`](crate::header::Header) and one record
//! collection: a mapping from (epoch, satellite) keys to observational
//! records, one record per key. Merging first reconciles the headers — which
//! may reject the pair and leaves everything untouched in that case — and on
//! success folds the incoming records into the target, field by field.

use vstd::prelude::*;

use crate::errors::MergeError;
use crate::header::{compatible, merged_header, Header, Sv};

verus! {

/// The composite key of one record: an epoch timestamp and a satellite.
#[derive(Clone, Copy, Debug, PartialEq, Eq, Structural)]
pub struct SP3Key {
    /// The observation instant, as nanoseconds since the time scale's origin.
    pub epoch_nanos: u64,
    /// The observed satellite.
    pub sv: Sv,
}

/// The observational fields of one satellite at one epoch.
///
/// Each field is present or absent independently; a record need not carry
/// all three. Merging never fabricates a value for a field neither operand
/// supplied.
#[derive(Clone, Copy, Debug, PartialEq, Eq)]
pub struct SP3Entry {
    /// Clock bias, when supplied.
    pub clock_bias: Option<i64>,
    /// Clock drift, when supplied.
    pub clock_drift: Option<i64>,
    /// Velocity vector (three components), when supplied.
    pub velocity: Option<(i64, i64, i64)>,
}

/// The per-field overlay of `incoming` onto `target`: each field that
/// `incoming` carries wins, each field it lacks keeps the target's value.
pub open spec fn overlay(target: SP3Entry, incoming: SP3Entry) -> SP3Entry {
    SP3Entry {
        clock_bias: if incoming.clock_bias is Some {
            incoming.clock_bias
        } else {
            target.clock_bias
        },
        clock_drift: if incoming.clock_drift is Some {
            incoming.clock_drift
        } else {
            target.clock_drift
        },
        velocity: if incoming.velocity is Some {
            incoming.velocity
        } else {
            target.velocity
        },
    }
}

impl SP3Entry {
    /// Overlays onto `self` each field that `incoming` carries.
    pub fn overlay_from(&mut self, incoming: &SP3Entry)
        ensures
            *final(self) == overlay(*old(self), *incoming),
    {
        if let Some(bias) = incoming.clock_bias {
            self.clock_bias = Some(bias);
        }
        if let Some(drift) = incoming.clock_drift {
            self.clock_drift = Some(drift);
        }
        if let Some(vel) = incoming.velocity {
            self.velocity = Some(vel);
        }
    }
}

/// Whether no key occurs twice in a record list.
pub open spec fn unique_keys(s: Seq<(SP3Key, SP3Entry)>) -> bool {
    forall|i: int, j: int|
        0 <= i < j < s.len() ==> (#[trigger] s[i]).0 != (#[trigger] s[j]).0
}

/// The mapping a record list stands for. With unique keys, each key is bound
/// to the one entry stored beside it.
pub open spec fn kv_map(s: Seq<(SP3Key, SP3Entry)>) -> Map<SP3Key, SP3Entry>
    decreases s.len(),
{
    if s.len() == 0 {
        Map::empty()
    } else {
        kv_map(s.drop_last()).insert(s.last().0, s.last().1)
    }
}

/// A key is in the mapping exactly when some list element carries it.
proof fn lemma_kv_map_dom(s: Seq<(SP3Key, SP3Entry)>)
    ensures
        forall|k: SP3Key| #[trigger] kv_map(s).dom().contains(k) <==> exists|i: int|
            0 <= i < s.len() && (#[trigger] s[i]).0 == k,
    decreases s.len(),
{
    if s.len() == 0 {
    } else {
        let t = s.drop_last();
        lemma_kv_map_dom(t);
        assert(kv_map(s) == kv_map(t).insert(s.last().0, s.last().1));
        assert forall|k: SP3Key| #[trigger] kv_map(s).dom().contains(k) implies exists|i: int|
            0 <= i < s.len() && (#[trigger] s[i]).0 == k by {
            if k == s.last().0 {
                assert(s[s.len() - 1].0 == k);
            } else {
                assert(kv_map(t).dom().contains(k));
                let i = choose|i: int| 0 <= i < t.len() && (#[trigger] t[i]).0 == k;
                assert(t[i] == s[i]);
                assert(s[i].0 == k);
            }
        };
        assert forall|k: SP3Key| (exists|i: int| 0 <= i < s.len() && (#[trigger] s[i]).0 == k)
            implies kv_map(s).dom().contains(k) by {
            let i = choose|i: int| 0 <= i < s.len() && (#[trigger] s[i]).0 == k;
            if i < s.len() - 1 {
                assert(t[i].0 == k);
                assert(kv_map(t).dom().contains(k));
            }
        };
    }
}

/// With unique keys, the mapping binds the key at index `i` to the entry at
/// index `i`.
proof fn lemma_kv_map_index(s: Seq<(SP3Key, SP3Entry)>, i: int)
    requires
        unique_keys(s),
        0 <= i < s.len(),
    ensures
        kv_map(s).dom().contains(s[i].0),
        kv_map(s)[s[i].0] == s[i].1,
    decreases s.len(),
{
    if i == s.len() - 1 {
    } else {
        let t = s.drop_last();
        assert(unique_keys(t)) by {
            assert forall|x: int, y: int| 0 <= x < y < t.len() implies (#[trigger] t[x]).0
                != (#[trigger] t[y]).0 by {
                assert(t[x] == s[x]);
                assert(t[y] == s[y]);
            };
        };
        assert(t[i] == s[i]);
        lemma_kv_map_index(t, i);
        assert(s[i].0 != s.last().0);
    }
}

/// Replacing the entry at index `i` (keeping its key) turns the mapping into
/// an insert of the new entry at that key, and keeps the keys unique.
proof fn lemma_kv_map_update(s: Seq<(SP3Key, SP3Entry)>, i: int, e: SP3Entry)
    requires
        unique_keys(s),
        0 <= i < s.len(),
    ensures
        kv_map(s.update(i, (s[i].0, e))) == kv_map(s).insert(s[i].0, e),
        unique_keys(s.update(i, (s[i].0, e))),
    decreases s.len(),
{
    let k = s[i].0;
    let s2 = s.update(i, (k, e));
    assert(forall|j: int| 0 <= j < s.len() ==> (#[trigger] s2[j]).0 == s[j].0);
    if i == s.len() - 1 {
        assert(s2.drop_last() =~= s.drop_last());
        assert(s2.last() == (k, e));
        assert(kv_map(s.drop_last()).insert(k, s.last().1).insert(k, e) =~= kv_map(
            s.drop_last(),
        ).insert(k, e));
    } else {
        let t = s.drop_last();
        assert(unique_keys(t)) by {
            assert forall|x: int, y: int| 0 <= x < y < t.len() implies (#[trigger] t[x]).0
                != (#[trigger] t[y]).0 by {
                assert(t[x] == s[x]);
                assert(t[y] == s[y]);
            };
        };
        assert(t[i] == s[i]);
        lemma_kv_map_update(t, i, e);
        assert(s2.drop_last() =~= t.update(i, (k, e)));
        assert(s2.last() == s.last());
        assert(k != s.last().0);
        assert(kv_map(t).insert(k, e).insert(s.last().0, s.last().1) =~= kv_map(t).insert(
            s.last().0,
            s.last().1,
        ).insert(k, e));
    }
}

/// Appending a pair turns the mapping into an insert; a fresh key keeps the
/// keys unique.
proof fn lemma_kv_map_push(s: Seq<(SP3Key, SP3Entry)>, k: SP3Key, e: SP3Entry)
    ensures
        kv_map(s.push((k, e))) == kv_map(s).insert(k, e),
        (unique_keys(s) && forall|j: int| 0 <= j < s.len() ==> (#[trigger] s[j]).0 != k)
            ==> unique_keys(s.push((k, e))),
{
    let p = s.push((k, e));
    assert(p.drop_last() =~= s);
    assert(p.last() == (k, e));
    if unique_keys(s) && forall|j: int| 0 <= j < s.len() ==> (#[trigger] s[j]).0 != k {
        assert forall|x: int, y: int| 0 <= x < y < p.len() implies (#[trigger] p[x]).0
            != (#[trigger] p[y]).0 by {
            if y < s.len() {
                assert(p[x] == s[x]);
                assert(p[y] == s[y]);
            } else {
                assert(p[x] == s[x]);
                assert(p[y] == (k, e));
            }
        };
    }
}

/// The index of the record carrying `k`, when there is one.
fn find_record(data: &Vec<(SP3Key, SP3Entry)>, k: SP3Key) -> (r: Option<usize>)
    ensures
        match r {
            Some(i) => i < data@.len() && data@[i as int].0 == k,
            None => forall|j: int| 0 <= j < data@.len() ==> (#[trigger] data@[j]).0 != k,
        },
{
    let mut i: usize = 0;
    while i < data.len()
        invariant
            i <= data.len(),
            forall|j: int| 0 <= j < i ==> (#[trigger] data@[j]).0 != k,
        decreases data.len() - i,
    {
        if data[i].0 == k {
            return Some(i);
        }
        i += 1;
    }
    None
}

/// Folds `incoming` into `data`: an incoming record whose key is already
/// present overlays, field by field, the record stored there; a record under
/// a new key is appended whole.
fn merge_records(data: &mut Vec<(SP3Key, SP3Entry)>, incoming: &Vec<(SP3Key, SP3Entry)>)
    requires
        unique_keys(old(data)@),
        unique_keys(incoming@),
    ensures
        unique_keys(final(data)@),
        forall|k: SP3Key| #[trigger] kv_map(final(data)@).dom().contains(k) <==> kv_map(
            old(data)@,
        ).dom().contains(k) || kv_map(incoming@).dom().contains(k),
        forall|k: SP3Key| kv_map(old(data)@).dom().contains(k) && #[trigger] kv_map(
            incoming@,
        ).dom().contains(k) ==> kv_map(final(data)@)[k] == overlay(
            kv_map(old(data)@)[k],
            kv_map(incoming@)[k],
        ),
        forall|k: SP3Key| #[trigger] kv_map(old(data)@).dom().contains(k) && !kv_map(
            incoming@,
        ).dom().contains(k) ==> kv_map(final(data)@)[k] == kv_map(old(data)@)[k],
        forall|k: SP3Key| !kv_map(old(data)@).dom().contains(k) && #[trigger] kv_map(
            incoming@,
        ).dom().contains(k) ==> kv_map(final(data)@)[k] == kv_map(incoming@)[k],
{
    let ghost m0 = kv_map(old(data)@);
    let ghost inc = incoming@;
    let mut i: usize = 0;
    while i < incoming.len()
        invariant
            i <= incoming.len(),
            unique_keys(data@),
            unique_keys(inc),
            inc == incoming@,
            m0 == kv_map(old(data)@),
            forall|k: SP3Key| #[trigger] kv_map(data@).dom().contains(k) <==> m0.dom().contains(k)
                || exists|j: int| 0 <= j < i && (#[trigger] inc[j]).0 == k,
            forall|j: int| 0 <= j < i ==> #[trigger] kv_map(data@)[inc[j].0] == (
                if m0.dom().contains(inc[j].0) {
                    overlay(m0[inc[j].0], inc[j].1)
                } else {
                    inc[j].1
                }
            ),
            forall|k: SP3Key| m0.dom().contains(k) && !(exists|j: int|
                0 <= j < i && (#[trigger] inc[j]).0 == k) ==> #[trigger] kv_map(data@)[k] == m0[k],
        decreases incoming.len() - i,
    {
        let pair = incoming[i];
        let k = pair.0;
        let ghost pre = data@;
        proof {
            // The incoming keys are unique, so k never occurs before index i.
            assert(forall|j: int| 0 <= j < i ==> (#[trigger] inc[j]).0 != k);
        }
        match find_record(data, k) {
            Some(idx) => {
                let cur = data[idx];
                let mut merged = cur.1;
                merged.overlay_from(&pair.1);
                data[idx] = (cur.0, merged);
                proof {
                    lemma_kv_map_index(pre, idx as int);
                    lemma_kv_map_update(pre, idx as int, merged);
                    assert(kv_map(pre).dom().contains(k));
                    assert(m0.dom().contains(k));
                    assert(kv_map(pre)[k] == m0[k]);
                    assert(merged == overlay(m0[k], inc[i as int].1));
                    assert(kv_map(data@) == kv_map(pre).insert(k, merged));
                }
            },
            None => {
                data.push(pair);
                proof {
                    lemma_kv_map_dom(pre);
                    assert(!kv_map(pre).dom().contains(k));
                    assert(!m0.dom().contains(k));
                    lemma_kv_map_push(pre, pair.0, pair.1);
                    assert(kv_map(data@) == kv_map(pre).insert(k, inc[i as int].1));
                }
            },
        }
        proof {
            let cur_map = kv_map(data@);
            assert forall|k2: SP3Key| #[trigger] cur_map.dom().contains(k2) <==> m0.dom().contains(
                k2,
            ) || exists|j: int| 0 <= j < i + 1 && (#[trigger] inc[j]).0 == k2 by {
                if k2 == k {
                    assert(inc[i as int].0 == k2);
                } else {
                    assert(cur_map.dom().contains(k2) <==> kv_map(pre).dom().contains(k2));
                    if exists|j: int| 0 <= j < i + 1 && (#[trigger] inc[j]).0 == k2 {
                        let j = choose|j: int| 0 <= j < i + 1 && (#[trigger] inc[j]).0 == k2;
                        assert(j < i);
                        assert(0 <= j < i && inc[j].0 == k2);
                    }
                }
            };
            assert forall|j: int| 0 <= j < i + 1 implies #[trigger] cur_map[inc[j].0] == (
                if m0.dom().contains(inc[j].0) {
                    overlay(m0[inc[j].0], inc[j].1)
                } else {
                    inc[j].1
                }
            ) by {
                if j == i {
                } else {
                    assert(inc[j].0 != k);
                    assert(cur_map[inc[j].0] == kv_map(pre)[inc[j].0]);
                }
            };
            assert forall|k2: SP3Key| m0.dom().contains(k2) && !(exists|j: int|
                0 <= j < i + 1 && (#[trigger] inc[j]).0 == k2) implies #[trigger] cur_map[k2]
                == m0[k2] by {
                assert(inc[i as int].0 == k);
                assert(k2 != k);
                assert(!(exists|j: int| 0 <= j < i && (#[trigger] inc[j]).0 == k2));
                assert(cur_map[k2] == kv_map(pre)[k2]);
            };
        }
        i += 1;
    }
    proof {
        lemma_kv_map_dom(inc);
        assert forall|k: SP3Key| kv_map(old(data)@).dom().contains(k) && #[trigger] kv_map(
            inc,
        ).dom().contains(k) implies kv_map(data@)[k] == overlay(
            kv_map(old(data)@)[k],
            kv_map(inc)[k],
        ) by {
            let j = choose|j: int| 0 <= j < inc.len() && (#[trigger] inc[j]).0 == k;
            lemma_kv_map_index(inc, j);
        };
        assert forall|k: SP3Key| !kv_map(old(data)@).dom().contains(k) && #[trigger] kv_map(
            inc,
        ).dom().contains(k) implies kv_map(data@)[k] == kv_map(inc)[k] by {
            let j = choose|j: int| 0 <= j < inc.len() && (#[trigger] inc[j]).0 == k;
            lemma_kv_map_index(inc, j);
        };
    }
}

/// One dataset: its header and its record collection. The record list holds
/// one record per (epoch, satellite) key.
pub struct SP3 {
    /// Dataset-level metadata.
    pub header: Header,
    /// The records, keyed by (epoch, satellite), keys unique.
    pub data: Vec<(SP3Key, SP3Entry)>,
}

/// Copies a record list element by element.
fn copy_records(v: &Vec<(SP3Key, SP3Entry)>) -> (r: Vec<(SP3Key, SP3Entry)>)
    ensures
        r@ == v@,
{
    let mut r: Vec<(SP3Key, SP3Entry)> = Vec::new();
    let mut i: usize = 0;
    while i < v.len()
        invariant
            i <= v.len(),
            r@ == v@.take(i as int),
        decreases v.len() - i,
    {
        r.push(v[i]);
        proof {
            assert(v@.take(i as int).push(v@[i as int]) =~= v@.take(i as int + 1));
        }
        i += 1;
    }
    proof {
        assert(v@.take(i as int) =~= v@);
    }
    r
}

impl Clone for SP3 {
    /// A clone carries the same header value and the same records as the
    /// original.
    fn clone(&self) -> (res: Self)
        ensures
            res.header@ == self.header@,
            res.data@ == self.data@,
    {
        SP3 { header: self.header.clone(), data: copy_records(&self.data) }
    }
}

impl SP3 {
    /// The mapping from (epoch, satellite) keys to records that this dataset
    /// holds.
    pub open spec fn records(&self) -> Map<SP3Key, SP3Entry> {
        kv_map(self.data@)
    }

    /// A dataset is well formed when its header is and no record key occurs
    /// twice.
    pub open spec fn wf(&self) -> bool {
        &&& self.header@.wf()
        &&& unique_keys(self.data@)
    }

    /// Decides [`Self::wf`]: whether the header is well formed and the record
    /// keys are unique.
    pub fn is_well_formed(&self) -> (r: bool)
        ensures
            r == self.wf(),
    {
        if !self.header.is_well_formed() {
            return false;
        }
        let mut i: usize = 0;
        while i < self.data.len()
            invariant
                self.header@.wf(),
                i <= self.data@.len(),
                forall|p: int, q: int|
                    0 <= p < q < i ==> (#[trigger] self.data@[p]).0 != (#[trigger] self.data@[q]).0,
            decreases self.data@.len() - i,
        {
            let mut j: usize = 0;
            while j < i
                invariant
                    j <= i,
                    i < self.data@.len(),
                    forall|p: int, q: int|
                        0 <= p < q < i ==> (#[trigger] self.data@[p]).0 != (
                        #[trigger] self.data@[q]).0,
                    forall|q: int| 0 <= q < j ==> (#[trigger] self.data@[q]).0 != self.data@[
                        i as int
                    ].0,
                decreases i - j,
            {
                if self.data[j].0 == self.data[i].0 {
                    proof {
                        assert(self.data@[j as int].0 == self.data@[i as int].0);
                        assert(!unique_keys(self.data@));
                    }
                    return false;
                }
                j += 1;
            }
            i += 1;
        }
        true
    }

    /// The record stored under `k`, when there is one.
    pub fn record(&self, k: SP3Key) -> (r: Option<SP3Entry>)
        requires
            unique_keys(self.data@),
        ensures
            match r {
                Some(e) => self.records().dom().contains(k) && self.records()[k] == e,
                None => !self.records().dom().contains(k),
            },
    {
        match find_record(&self.data, k) {
            Some(i) => {
                let e = self.data[i].1;
                proof {
                    lemma_kv_map_index(self.data@, i as int);
                }
                Some(e)
            },
            None => {
                proof {
                    lemma_kv_map_dom(self.data@);
                }
                None
            },
        }
    }

    /// Merges `rhs` into `self` in place.
    ///
    /// The headers are reconciled first; a header failure is propagated
    /// unchanged and leaves `self` untouched. On success, each incoming
    /// record overlays, field by field, the record stored under the same key,
    /// and each record under a new key is inserted whole.
    pub fn merge_mut(&mut self, rhs: &SP3) -> (r: Result<(), MergeError>)
        requires
            old(self).wf(),
            rhs.wf(),
        ensures
            match r {
                Ok(()) => {
                    &&& compatible(old(self).header@, rhs.header@)
                    &&& final(self).header@ == merged_header(old(self).header@, rhs.header@)
                    &&& final(self).wf()
                    &&& forall|k: SP3Key| #[trigger] final(self).records().dom().contains(k)
                        <==> old(self).records().dom().contains(k)
                            || rhs.records().dom().contains(k)
                    &&& forall|k: SP3Key| old(self).records().dom().contains(k)
                        && #[trigger] rhs.records().dom().contains(k)
                        ==> final(self).records()[k] == overlay(
                            old(self).records()[k],
                            rhs.records()[k],
                        )
                    &&& forall|k: SP3Key| #[trigger] old(self).records().dom().contains(k)
                        && !rhs.records().dom().contains(k)
                        ==> final(self).records()[k] == old(self).records()[k]
                    &&& forall|k: SP3Key| !old(self).records().dom().contains(k)
                        && #[trigger] rhs.records().dom().contains(k)
                        ==> final(self).records()[k] == rhs.records()[k]
                },
                Err(MergeError::DataProviderMismatch) => {
                    &&& old(self).header.agency@ != rhs.header.agency@
                    &&& *final(self) == *old(self)
                },
                Err(MergeError::TimescaleMismatch) => {
                    &&& old(self).header.agency@ == rhs.header.agency@
                    &&& old(self).header.timescale != rhs.header.timescale
                    &&& *final(self) == *old(self)
                },
                Err(MergeError::ReferenceFrameMismatch) => {
                    &&& old(self).header.agency@ == rhs.header.agency@
                    &&& old(self).header.timescale == rhs.header.timescale
                    &&& old(self).header.coord_system@ != rhs.header.coord_system@
                    &&& *final(self) == *old(self)
                },
            },
    {
        match self.header.merge_mut(&rhs.header) {
            Ok(()) => {},
            Err(e) => {
                return Err(e);
            },
        }
        merge_records(&mut self.data, &rhs.data);
        Ok(())
    }

    /// Merges `rhs` with `self` into a new dataset, leaving both untouched.
    ///
    /// Succeeds exactly when the headers are compatible; the result then
    /// carries the merged header and the per-field overlay of `rhs`'s records
    /// onto `self`'s.
    pub fn merge(&self, rhs: &SP3) -> (r: Result<SP3, MergeError>)
        requires
            self.wf(),
            rhs.wf(),
        ensures
            match r {
                Ok(merged) => {
                    &&& compatible(self.header@, rhs.header@)
                    &&& merged.header@ == merged_header(self.header@, rhs.header@)
                    &&& merged.wf()
                    &&& forall|k: SP3Key| #[trigger] merged.records().dom().contains(k)
                        <==> self.records().dom().contains(k) || rhs.records().dom().contains(k)
                    &&& forall|k: SP3Key| self.records().dom().contains(k)
                        && #[trigger] rhs.records().dom().contains(k) ==> merged.records()[k]
                        == overlay(self.records()[k], rhs.records()[k])
                    &&& forall|k: SP3Key| #[trigger] self.records().dom().contains(k)
                        && !rhs.records().dom().contains(k) ==> merged.records()[k]
                        == self.records()[k]
                    &&& forall|k: SP3Key| !self.records().dom().contains(k)
                        && #[trigger] rhs.records().dom().contains(k) ==> merged.records()[k]
                        == rhs.records()[k]
                },
                Err(MergeError::DataProviderMismatch) => self.header.agency@ != rhs.header.agency@,
                Err(MergeError::TimescaleMismatch) => {
                    &&& self.header.agency@ == rhs.header.agency@
                    &&& self.header.timescale != rhs.header.timescale
                },
                Err(MergeError::ReferenceFrameMismatch) => {
                    &&& self.header.agency@ == rhs.header.agency@
                    &&& self.header.timescale == rhs.header.timescale
                    &&& self.header.coord_system@ != rhs.header.coord_system@
                },
            },
    {
        let mut lhs = self.clone();
        match lhs.merge_mut(rhs) {
            Ok(()) => Ok(lhs),
            Err(e) => Err(e),
        }
    }
}

/// Law: the overlay takes each incoming field that is present and keeps each
/// target field where the incoming record is silent; a field absent from both
/// stays absent.
pub proof fn lemma_overlay_per_field(target: SP3Entry, incoming: SP3Entry)
    ensures
        incoming.clock_bias is Some ==> overlay(target, incoming).clock_bias
            == incoming.clock_bias,
        incoming.clock_bias is None ==> overlay(target, incoming).clock_bias == target.clock_bias,
        incoming.clock_drift is Some ==> overlay(target, incoming).clock_drift
            == incoming.clock_drift,
        incoming.clock_drift is None ==> overlay(target, incoming).clock_drift
            == target.clock_drift,
        incoming.velocity is Some ==> overlay(target, incoming).velocity == incoming.velocity,
        incoming.velocity is None ==> overlay(target, incoming).velocity == target.velocity,
{
}

/// Law: the overlay is not commutative — when both records carry a clock
/// bias, the incoming side wins, so swapping the operands swaps the outcome.
pub proof fn lemma_overlay_not_commutative(target: SP3Entry, incoming: SP3Entry, x: i64, y: i64)
    requires
        target.clock_bias == Some(x),
        incoming.clock_bias == Some(y),
    ensures
        overlay(target, incoming).clock_bias == Some(y),
        overlay(incoming, target).clock_bias == Some(x),
{
}

} // verus!
