//! Dataset-level metadata and its merge rules.
//!
//! A [`Header`] describes one parsed orbit/clock product: who published it,
//! which time scale and reference frame it uses, which satellites it covers,
//! and its time origin and nominal sampling interval. Merging two headers
//! first checks that the operands are compatible (same agency, time scale and
//! reference frame) and only then reconciles the remaining fields.

use vstd::prelude::*;

use crate::errors::MergeError;

verus! {

/// The time reference system epochs are expressed in.
///
/// Merging never converts between time scales: operands must already agree.
#[derive(Clone, Copy, Debug, PartialEq, Eq, Structural)]
pub enum TimeScale {
    /// GPS time.
    GPST,
    /// Galileo system time.
    GST,
    /// BeiDou time.
    BDT,
    /// QZSS time.
    QZSST,
    /// Coordinated universal time.
    UTC,
    /// International atomic time.
    TAI,
    /// Terrestrial time.
    TT,
    /// Barycentric dynamical time.
    TDB,
}

/// Classification of the satellite system(s) a dataset covers.
#[derive(Clone, Copy, Debug, PartialEq, Eq, Structural)]
pub enum Constellation {
    /// The American GPS constellation.
    GPS,
    /// The Russian Glonass constellation.
    Glonass,
    /// The European Galileo constellation.
    Galileo,
    /// The Chinese BeiDou constellation.
    BeiDou,
    /// The Japanese QZSS constellation.
    QZSS,
    /// The Indian NavIC/IRNSS constellation.
    IRNSS,
    /// Geostationary augmentation vehicles.
    SBAS,
    /// Heterogeneous coverage: more than one constellation.
    Mixed,
}

/// One satellite identifier: a constellation and a PRN number within it.
#[derive(Clone, Copy, Debug, PartialEq, Eq, Structural)]
pub struct Sv {
    /// The constellation this vehicle belongs to.
    pub constellation: Constellation,
    /// The PRN number of the vehicle within its constellation.
    pub prn: u8,
}

/// The mathematical value of a [`Header`]: every field as a plain
/// mathematical object, with strings as character sequences and the
/// satellite inventory as a sequence.
#[verifier::ext_equal]
pub struct HeaderView {
    /// Identifier of the publishing organization.
    pub agency: Seq<char>,
    /// The time reference system.
    pub timescale: TimeScale,
    /// Identifier of the spatial reference frame.
    pub coord_system: Seq<char>,
    /// Which satellite system(s) the dataset covers.
    pub constellation: Constellation,
    /// Format revision marker, totally ordered.
    pub version: int,
    /// Modified Julian day of the reference epoch.
    pub mjd: int,
    /// Week number of the reference epoch.
    pub week: int,
    /// Nanoseconds into the week of the reference epoch.
    pub week_nanos: int,
    /// Satellite identifiers present in the dataset, first-seen order.
    pub satellites: Seq<Sv>,
    /// Nominal interval between consecutive epochs, in nanoseconds.
    pub sampling_period: int,
}

impl HeaderView {
    /// A header is well formed when its satellite inventory lists no
    /// identifier twice.
    pub open spec fn wf(self) -> bool {
        self.satellites.no_duplicates()
    }
}

/// Dataset-level metadata of one orbit/clock product.
pub struct Header {
    /// Identifier of the publishing organization.
    pub agency: String,
    /// The time reference system.
    pub timescale: TimeScale,
    /// Identifier of the spatial reference frame.
    pub coord_system: String,
    /// Which satellite system(s) the dataset covers.
    pub constellation: Constellation,
    /// Format revision marker, totally ordered.
    pub version: u16,
    /// Modified Julian day of the reference epoch.
    pub mjd: u32,
    /// Week number of the reference epoch. Updated only together with
    /// [`Self::week_nanos`].
    pub week: u32,
    /// Nanoseconds into the week of the reference epoch.
    pub week_nanos: u64,
    /// Satellite identifiers present in the dataset, first-seen order,
    /// without duplicates.
    pub satellites: Vec<Sv>,
    /// Nominal interval between consecutive epochs, in nanoseconds.
    pub sampling_period: u64,
}

impl View for Header {
    type V = HeaderView;

    open spec fn view(&self) -> HeaderView {
        HeaderView {
            agency: self.agency@,
            timescale: self.timescale,
            coord_system: self.coord_system@,
            constellation: self.constellation,
            version: self.version as int,
            mjd: self.mjd as int,
            week: self.week as int,
            week_nanos: self.week_nanos as int,
            satellites: self.satellites@,
            sampling_period: self.sampling_period as int,
        }
    }
}

/// Two headers may be merged exactly when they come from the same agency and
/// use the same time scale and the same reference frame.
pub open spec fn compatible(a: HeaderView, b: HeaderView) -> bool {
    &&& a.agency == b.agency
    &&& a.timescale == b.timescale
    &&& a.coord_system == b.coord_system
}

/// The merged satellite inventory: `a`, then every element of `b` that is not
/// already present, scanned left to right. Mirrors appending each new
/// incoming identifier in incoming order.
pub open spec fn sat_union(a: Seq<Sv>, b: Seq<Sv>) -> Seq<Sv>
    decreases b.len(),
{
    if b.len() == 0 {
        a
    } else if a.contains(b[0]) {
        sat_union(a, b.skip(1))
    } else {
        sat_union(a.push(b[0]), b.skip(1))
    }
}

/// The elements of `b` that do not occur in `a`, in `b`'s order.
pub open spec fn new_satellites(a: Seq<Sv>, b: Seq<Sv>) -> Seq<Sv>
    decreases b.len(),
{
    if b.len() == 0 {
        Seq::empty()
    } else if a.contains(b[0]) {
        new_satellites(a, b.skip(1))
    } else {
        seq![b[0]] + new_satellites(a, b.skip(1))
    }
}

/// What merging `b` into `a` produces once the operands are compatible:
/// the constellation is upgraded to `Mixed` if the operands disagree, the
/// version is the smaller (most conservative) of the two, the reference epoch
/// becomes no later than either source (the week and its nanoseconds moving
/// as one pair), the satellite inventories are united, and the sampling
/// period is the coarser of the two.
pub open spec fn merged_header(a: HeaderView, b: HeaderView) -> HeaderView {
    HeaderView {
        agency: a.agency,
        timescale: a.timescale,
        coord_system: a.coord_system,
        constellation: if a.constellation == b.constellation {
            a.constellation
        } else {
            Constellation::Mixed
        },
        version: if a.version <= b.version {
            a.version
        } else {
            b.version
        },
        mjd: if b.mjd < a.mjd {
            b.mjd
        } else {
            a.mjd
        },
        week: if b.week < a.week {
            b.week
        } else {
            a.week
        },
        week_nanos: if b.week < a.week {
            b.week_nanos
        } else {
            a.week_nanos
        },
        satellites: sat_union(a.satellites, b.satellites),
        sampling_period: if a.sampling_period < b.sampling_period {
            b.sampling_period
        } else {
            a.sampling_period
        },
    }
}

/// Whether `v` holds `x`.
fn contains_sv(v: &Vec<Sv>, x: Sv) -> (r: bool)
    ensures
        r == v@.contains(x),
{
    let mut i: usize = 0;
    while i < v.len()
        invariant
            i <= v.len(),
            forall|j: int| 0 <= j < i ==> v@[j] != x,
        decreases v.len() - i,
    {
        if v[i] == x {
            proof {
                assert(v@[i as int] == x);
                assert(v@.contains(x));
            }
            return true;
        }
        i += 1;
    }
    proof {
        assert(!v@.contains(x));
    }
    false
}

/// Appends to `sats` every element of `incoming` not already present,
/// in `incoming`'s order.
fn union_into(sats: &mut Vec<Sv>, incoming: &Vec<Sv>)
    ensures
        final(sats)@ == sat_union(old(sats)@, incoming@),
{
    proof {
        assert(incoming@.skip(0) =~= incoming@);
    }
    let mut i: usize = 0;
    while i < incoming.len()
        invariant
            i <= incoming.len(),
            sat_union(old(sats)@, incoming@) == sat_union(sats@, incoming@.skip(i as int)),
        decreases incoming.len() - i,
    {
        let ghost pre = sats@;
        let sv = incoming[i];
        if !contains_sv(sats, sv) {
            sats.push(sv);
        }
        proof {
            let tail = incoming@.skip(i as int);
            assert(tail[0] == incoming@[i as int]);
            assert(tail.skip(1) =~= incoming@.skip(i as int + 1));
            if pre.contains(sv) {
                assert(sat_union(pre, tail) == sat_union(pre, tail.skip(1)));
            } else {
                assert(sat_union(pre, tail) == sat_union(pre.push(sv), tail.skip(1)));
            }
        }
        i += 1;
    }
    proof {
        assert(incoming@.skip(i as int) =~= Seq::<Sv>::empty());
    }
}

impl Clone for Header {
    /// A clone carries the same mathematical value as the original.
    fn clone(&self) -> (res: Self)
        ensures
            res@ == self@,
    {
        let res = Header {
            agency: self.agency.clone(),
            timescale: self.timescale,
            coord_system: self.coord_system.clone(),
            constellation: self.constellation,
            version: self.version,
            mjd: self.mjd,
            week: self.week,
            week_nanos: self.week_nanos,
            satellites: copy_sv_vec(&self.satellites),
            sampling_period: self.sampling_period,
        };
        proof {
            assert(res@ =~= self@);
        }
        res
    }
}

/// Copies a satellite list element by element.
fn copy_sv_vec(v: &Vec<Sv>) -> (r: Vec<Sv>)
    ensures
        r@ == v@,
{
    let mut r: Vec<Sv> = Vec::new();
    let mut i: usize = 0;
    while i < v.len()
        invariant
            i <= v.len(),
            r@ == v@.take(i as int),
        decreases v.len() - i,
    {
        r.push(v[i]);
        proof {
            assert(v@.take(i as int).push(v@[i as int]) =~= v@.take(i as int + 1));
        }
        i += 1;
    }
    proof {
        assert(v@.take(i as int) =~= v@);
    }
    r
}

impl Header {
    /// A header is well formed when its satellite inventory lists no
    /// identifier twice.
    pub open spec fn wf(&self) -> bool {
        self@.wf()
    }

    /// Decides [`Self::wf`]: whether the satellite inventory is
    /// duplicate-free.
    pub fn is_well_formed(&self) -> (r: bool)
        ensures
            r == self.wf(),
    {
        let mut i: usize = 0;
        while i < self.satellites.len()
            invariant
                i <= self.satellites@.len(),
                forall|p: int, q: int| 0 <= p < q < i ==> self.satellites@[p] != self.satellites@[q],
            decreases self.satellites@.len() - i,
        {
            let mut j: usize = 0;
            while j < i
                invariant
                    j <= i,
                    i < self.satellites@.len(),
                    forall|p: int, q: int|
                        0 <= p < q < i ==> self.satellites@[p] != self.satellites@[q],
                    forall|q: int| 0 <= q < j ==> self.satellites@[q] != self.satellites@[i as int],
                decreases i - j,
            {
                if self.satellites[j] == self.satellites[i] {
                    proof {
                        assert(self.satellites@[j as int] == self.satellites@[i as int]);
                        assert(!self.satellites@.no_duplicates());
                    }
                    return false;
                }
                j += 1;
            }
            i += 1;
        }
        proof {
            let v = self.satellites@;
            assert forall|p: int, q: int|
                0 <= p < v.len() && 0 <= q < v.len() && p != q implies v[p] != v[q] by {
                if p < q {
                } else {
                    assert(v[q] != v[p]);
                }
            };
        }
        true
    }

    /// Merges `rhs` into `self` in place.
    ///
    /// The operands must come from the same agency, use the same time scale
    /// and use the same reference frame; the first of these three checks to
    /// fail names the error, and a failure leaves `self` untouched. On
    /// success `self` becomes [`merged_header`] of the two operands.
    pub fn merge_mut(&mut self, rhs: &Header) -> (r: Result<(), MergeError>)
        ensures
            match r {
                Ok(()) => {
                    &&& compatible(old(self)@, rhs@)
                    &&& final(self)@ == merged_header(old(self)@, rhs@)
                    &&& old(self)@.wf() ==> final(self)@.wf()
                },
                Err(MergeError::DataProviderMismatch) => {
                    &&& old(self).agency@ != rhs.agency@
                    &&& *final(self) == *old(self)
                },
                Err(MergeError::TimescaleMismatch) => {
                    &&& old(self).agency@ == rhs.agency@
                    &&& old(self).timescale != rhs.timescale
                    &&& *final(self) == *old(self)
                },
                Err(MergeError::ReferenceFrameMismatch) => {
                    &&& old(self).agency@ == rhs.agency@
                    &&& old(self).timescale == rhs.timescale
                    &&& old(self).coord_system@ != rhs.coord_system@
                    &&& *final(self) == *old(self)
                },
            },
    {
        if self.agency != rhs.agency {
            return Err(MergeError::DataProviderMismatch);
        }
        if self.timescale != rhs.timescale {
            return Err(MergeError::TimescaleMismatch);
        }
        if self.coord_system != rhs.coord_system {
            return Err(MergeError::ReferenceFrameMismatch);
        }

        if self.constellation != rhs.constellation {
            self.constellation = Constellation::Mixed;
        }

        if rhs.version < self.version {
            self.version = rhs.version;
        }

        if rhs.mjd < self.mjd {
            self.mjd = rhs.mjd;
        }

        if rhs.week < self.week {
            self.week = rhs.week;
            self.week_nanos = rhs.week_nanos;
        }

        union_into(&mut self.satellites, &rhs.satellites);

        if self.sampling_period < rhs.sampling_period {
            self.sampling_period = rhs.sampling_period;
        }

        proof {
            if old(self)@.wf() {
                lemma_sat_union_no_duplicates(old(self)@.satellites, rhs@.satellites);
            }
            assert(self@ =~= merged_header(old(self)@, rhs@));
        }
        Ok(())
    }

    /// Merges `rhs` with `self` into a new header, leaving both untouched.
    ///
    /// Succeeds exactly when the operands are compatible; the result is then
    /// [`merged_header`] of the two.
    pub fn merge(&self, rhs: &Header) -> (r: Result<Header, MergeError>)
        ensures
            match r {
                Ok(h) => {
                    &&& compatible(self@, rhs@)
                    &&& h@ == merged_header(self@, rhs@)
                    &&& self@.wf() ==> h@.wf()
                },
                Err(MergeError::DataProviderMismatch) => self.agency@ != rhs.agency@,
                Err(MergeError::TimescaleMismatch) => {
                    &&& self.agency@ == rhs.agency@
                    &&& self.timescale != rhs.timescale
                },
                Err(MergeError::ReferenceFrameMismatch) => {
                    &&& self.agency@ == rhs.agency@
                    &&& self.timescale == rhs.timescale
                    &&& self.coord_system@ != rhs.coord_system@
                },
            },
    {
        let mut lhs = self.clone();
        match lhs.merge_mut(rhs) {
            Ok(()) => Ok(lhs),
            Err(e) => Err(e),
        }
    }
}

/// Law: a merged inventory is still duplicate-free when the target's was.
pub proof fn lemma_sat_union_no_duplicates(a: Seq<Sv>, b: Seq<Sv>)
    requires
        a.no_duplicates(),
    ensures
        sat_union(a, b).no_duplicates(),
    decreases b.len(),
{
    if b.len() == 0 {
    } else if a.contains(b[0]) {
        lemma_sat_union_no_duplicates(a, b.skip(1));
    } else {
        let p = a.push(b[0]);
        assert forall|i: int, j: int|
            0 <= i < p.len() && 0 <= j < p.len() && i != j implies p[i] != p[j] by {
            if i < a.len() && j < a.len() {
            } else if i == a.len() {
                assert(p[j] == a[j]);
                if a[j] == b[0] {
                    assert(a.contains(b[0]));
                }
            } else {
                assert(p[i] == a[i]);
                if a[i] == b[0] {
                    assert(a.contains(b[0]));
                }
            }
        };
        lemma_sat_union_no_duplicates(p, b.skip(1));
    }
}

/// A sequence holds `s` exactly when its head is `s` or its tail holds `s`.
proof fn lemma_head_tail_contains(b: Seq<Sv>)
    requires
        b.len() > 0,
    ensures
        forall|s: Sv| #[trigger] b.contains(s) <==> s == b[0] || b.skip(1).contains(s),
{
    assert forall|s: Sv| #[trigger] b.contains(s) implies s == b[0] || b.skip(1).contains(s) by {
        let i = choose|i: int| 0 <= i < b.len() && b[i] == s;
        if i != 0 {
            assert(b.skip(1)[i - 1] == s);
        }
    };
    assert forall|s: Sv| s == b[0] || b.skip(1).contains(s) implies b.contains(s) by {
        if s == b[0] {
            assert(b[0] == s);
        } else {
            let i = choose|i: int| 0 <= i < b.skip(1).len() && b.skip(1)[i] == s;
            assert(b[i + 1] == s);
        }
    };
}

/// A pushed sequence holds `s` exactly when the base held it or `s` is the
/// pushed element.
proof fn lemma_push_contains(a: Seq<Sv>, x: Sv)
    ensures
        forall|s: Sv| #[trigger] a.push(x).contains(s) <==> a.contains(s) || s == x,
{
    assert forall|s: Sv| #[trigger] a.push(x).contains(s) implies a.contains(s) || s == x by {
        let i = choose|i: int| 0 <= i < a.push(x).len() && a.push(x)[i] == s;
        if i < a.len() {
            assert(a[i] == s);
        }
    };
    assert forall|s: Sv| a.contains(s) || s == x implies a.push(x).contains(s) by {
        if a.contains(s) {
            let i = choose|i: int| 0 <= i < a.len() && a[i] == s;
            assert(a.push(x)[i] == s);
        } else {
            assert(a.push(x)[a.len() as int] == s);
        }
    };
}

/// Law: the merged inventory holds exactly the union of the operands'
/// satellite sets.
pub proof fn lemma_sat_union_contains(a: Seq<Sv>, b: Seq<Sv>)
    ensures
        forall|s: Sv| #[trigger] sat_union(a, b).contains(s) <==> a.contains(s) || b.contains(s),
    decreases b.len(),
{
    if b.len() == 0 {
        assert forall|s: Sv| #[trigger] sat_union(a, b).contains(s) <==> a.contains(s)
            || b.contains(s) by {
            if b.contains(s) {
                let i = choose|i: int| 0 <= i < b.len() && b[i] == s;
            }
        };
    } else {
        let tail = b.skip(1);
        lemma_head_tail_contains(b);
        if a.contains(b[0]) {
            lemma_sat_union_contains(a, tail);
            assert forall|s: Sv| #[trigger] sat_union(a, b).contains(s) <==> a.contains(s)
                || b.contains(s) by {
                assert(sat_union(a, b) == sat_union(a, tail));
                assert(b.contains(s) <==> s == b[0] || tail.contains(s));
            };
        } else {
            lemma_sat_union_contains(a.push(b[0]), tail);
            lemma_push_contains(a, b[0]);
            assert forall|s: Sv| #[trigger] sat_union(a, b).contains(s) <==> a.contains(s)
                || b.contains(s) by {
                assert(sat_union(a, b) == sat_union(a.push(b[0]), tail));
                assert(sat_union(a.push(b[0]), tail).contains(s) <==> a.push(b[0]).contains(s)
                    || tail.contains(s));
                assert(a.push(b[0]).contains(s) <==> a.contains(s) || s == b[0]);
                assert(b.contains(s) <==> s == b[0] || tail.contains(s));
            };
        }
    }
}

/// Growing the target by an element that never occurs in `b` selects the same
/// new elements from `b`.
proof fn lemma_new_satellites_push_absent(a: Seq<Sv>, x: Sv, b: Seq<Sv>)
    requires
        !b.contains(x),
    ensures
        new_satellites(a.push(x), b) == new_satellites(a, b),
    decreases b.len(),
{
    if b.len() == 0 {
    } else {
        let tail = b.skip(1);
        assert(b[0] != x) by {
            if b[0] == x {
                assert(b.contains(x));
            }
        };
        assert(!tail.contains(x)) by {
            if tail.contains(x) {
                let i = choose|i: int| 0 <= i < tail.len() && tail[i] == x;
                assert(b[i + 1] == x);
                assert(b.contains(x));
            }
        };
        lemma_push_contains(a, x);
        assert(a.push(x).contains(b[0]) <==> a.contains(b[0]));
        lemma_new_satellites_push_absent(a, x, tail);
    }
}

/// Law: for a duplicate-free incoming inventory, the merged inventory is the
/// target's list followed by the incoming-only identifiers in incoming order.
pub proof fn lemma_sat_union_ordered(a: Seq<Sv>, b: Seq<Sv>)
    requires
        b.no_duplicates(),
    ensures
        sat_union(a, b) == a + new_satellites(a, b),
    decreases b.len(),
{
    if b.len() == 0 {
        assert(a + new_satellites(a, b) =~= a);
    } else {
        let tail = b.skip(1);
        assert(tail.no_duplicates()) by {
            assert forall|i: int, j: int|
                0 <= i < tail.len() && 0 <= j < tail.len() && i != j implies tail[i] != tail[j] by {
                assert(tail[i] == b[i + 1]);
                assert(tail[j] == b[j + 1]);
            };
        };
        if a.contains(b[0]) {
            lemma_sat_union_ordered(a, tail);
        } else {
            assert(!tail.contains(b[0])) by {
                if tail.contains(b[0]) {
                    let i = choose|i: int| 0 <= i < tail.len() && tail[i] == b[0];
                    assert(b[i + 1] == b[0]);
                }
            };
            lemma_sat_union_ordered(a.push(b[0]), tail);
            lemma_new_satellites_push_absent(a, b[0], tail);
            assert(a.push(b[0]) + new_satellites(a, tail) =~= a + (seq![b[0]]
                + new_satellites(a, tail)));
        }
    }
}

/// Law: for well-formed compatible operands, the merged header's satellite
/// inventory is the set union of the operands' inventories, ordered as the
/// target's list followed by the incoming-only identifiers in incoming
/// order, and is itself duplicate-free.
pub proof fn lemma_merged_header_satellites(a: HeaderView, b: HeaderView)
    requires
        a.wf(),
        b.wf(),
    ensures
        merged_header(a, b).satellites == a.satellites + new_satellites(a.satellites, b.satellites),
        forall|s: Sv| #[trigger] merged_header(a, b).satellites.contains(s) <==> a.satellites.contains(s)
            || b.satellites.contains(s),
        merged_header(a, b).satellites.no_duplicates(),
{
    lemma_sat_union_ordered(a.satellites, b.satellites);
    lemma_sat_union_contains(a.satellites, b.satellites);
    lemma_sat_union_no_duplicates(a.satellites, b.satellites);
}

/// Law: merging a header with itself leaves the constellation classification
/// unchanged — the upgrade to `Mixed` is idempotent.
pub proof fn lemma_merge_self_keeps_constellation(a: HeaderView)
    ensures
        merged_header(a, a).constellation == a.constellation,
{
}

/// Law: the constellation upgrade is one-way — a target already classified
/// as mixed stays mixed through every later merge.
pub proof fn lemma_mixed_constellation_is_absorbing(a: HeaderView, b: HeaderView)
    requires
        a.constellation == Constellation::Mixed,
    ensures
        merged_header(a, b).constellation == Constellation::Mixed,
{
}

/// Law: the merged version is exactly the minimum of the operands' versions.
pub proof fn lemma_merged_version_is_min(a: HeaderView, b: HeaderView)
    ensures
        merged_header(a, b).version == vstd::math::min(a.version, b.version),
{
}

/// Law: the merged sampling period is exactly the maximum of the operands'
/// sampling periods.
pub proof fn lemma_merged_sampling_period_is_max(a: HeaderView, b: HeaderView)
    ensures
        merged_header(a, b).sampling_period == vstd::math::max(a.sampling_period, b.sampling_period),
{
}

} // verus!
