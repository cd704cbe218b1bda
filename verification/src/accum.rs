//! The streaming accumulator: four grids over one shared geometry
//! (upper/lower leaflet, value-sum and sample-count each), fed one
//! marker observation at a time.
//!
//! The mathematical model is [`ThicknessState`]; every mutation is
//! stated as one application of [`obs_step`], and folding a whole frame
//! is [`accumulate_all`]. Accumulation is order-independent: see
//! [`lemma_accumulation_order_independent`].

use vstd::prelude::*;

use crate::classify::Leaflet;
use crate::classify::leaflet_of;
use crate::classify::min_image_z;
use crate::classify::spec_leaflet_of;
use crate::classify::spec_min_image;
use crate::geometry::GridGeometry;
use crate::grid::GridMap;

verus! {

/// One marker observation: planar position and the signed minimum-image
/// offset from the membrane center, all in micro-units.
#[derive(Clone, Copy, Debug, PartialEq, Eq, Structural)]
pub struct Observation {
    /// Planar x coordinate.
    pub x: i64,
    /// Planar y coordinate.
    pub y: i64,
    /// Signed offset along the thickness axis; its sign picks the leaflet.
    pub z: i64,
}

/// A marker atom's raw 3D position, micro-units.
#[derive(Clone, Copy, Debug, PartialEq, Eq, Structural)]
pub struct MarkerPos {
    /// x coordinate.
    pub x: i64,
    /// y coordinate.
    pub y: i64,
    /// Coordinate along the thickness axis.
    pub z: i64,
}

/// The mathematical state of one accumulation run: per-cell sums and
/// counts for both leaflets, and the number of accumulated observations.
#[verifier::ext_equal]
pub ghost struct ThicknessState {
    /// The shared grid geometry.
    pub geom: GridGeometry,
    /// Per-cell sum of upper-leaflet offsets.
    pub upper_sum: Seq<int>,
    /// Per-cell number of upper-leaflet samples.
    pub upper_count: Seq<nat>,
    /// Per-cell sum of lower-leaflet offsets.
    pub lower_sum: Seq<int>,
    /// Per-cell number of lower-leaflet samples.
    pub lower_count: Seq<nat>,
    /// Number of observations accumulated (in-range ones only).
    pub total: nat,
}

/// The state's sequences have exactly one entry per grid cell.
pub open spec fn state_wf(s: ThicknessState) -> bool {
    &&& s.geom.wf()
    &&& s.upper_sum.len() == s.geom.spec_n_cells()
    &&& s.upper_count.len() == s.geom.spec_n_cells()
    &&& s.lower_sum.len() == s.geom.spec_n_cells()
    &&& s.lower_count.len() == s.geom.spec_n_cells()
}

/// The state with every cell empty.
pub open spec fn empty_state(geom: GridGeometry) -> ThicknessState {
    ThicknessState {
        geom,
        upper_sum: Seq::new(geom.spec_n_cells() as nat, |i: int| 0),
        upper_count: Seq::new(geom.spec_n_cells() as nat, |i: int| 0),
        lower_sum: Seq::new(geom.spec_n_cells() as nat, |i: int| 0),
        lower_count: Seq::new(geom.spec_n_cells() as nat, |i: int| 0),
        total: 0,
    }
}

/// Fold one observation into the state: an in-range observation adds its
/// offset to the owning cell's sum and one to its count, in the leaflet
/// its sign selects; an out-of-range observation changes nothing.
pub open spec fn obs_step(s: ThicknessState, o: Observation) -> ThicknessState {
    if state_wf(s) && s.geom.in_range(o.x as int, o.y as int) {
        let i = s.geom.index_of(o.x as int, o.y as int);
        if spec_leaflet_of(o.z as int) == Leaflet::Upper {
            ThicknessState {
                upper_sum: s.upper_sum.update(i, s.upper_sum[i] + o.z),
                upper_count: s.upper_count.update(i, s.upper_count[i] + 1),
                total: s.total + 1,
                ..s
            }
        } else {
            ThicknessState {
                lower_sum: s.lower_sum.update(i, s.lower_sum[i] + o.z),
                lower_count: s.lower_count.update(i, s.lower_count[i] + 1),
                total: s.total + 1,
                ..s
            }
        }
    } else {
        s
    }
}

/// Fold a whole sequence of observations into the state, left to right.
pub open spec fn accumulate_all(s: ThicknessState, obs: Seq<Observation>) -> ThicknessState {
    obs.fold_left(s, |t: ThicknessState, o: Observation| obs_step(t, o))
}

/// The observation a marker yields for a given membrane center and box
/// length along the thickness axis.
pub open spec fn spec_observation_of(m: MarkerPos, center_z: int, box_z: int) -> Observation {
    Observation { x: m.x, y: m.y, z: spec_min_image(m.z - center_z, box_z) as i64 }
}

/// The observations of one frame's markers.
pub open spec fn frame_observations(ms: Seq<MarkerPos>, center_z: int, box_z: int) -> Seq<
    Observation,
> {
    ms.map_values(|m: MarkerPos| spec_observation_of(m, center_z, box_z))
}

/// Folding two observations commutes, so accumulation order is
/// irrelevant cell by cell.
proof fn lemma_obs_step_commutes(s: ThicknessState, a: Observation, b: Observation)
    ensures
        obs_step(obs_step(s, a), b) == obs_step(obs_step(s, b), a),
{
    if state_wf(s) {
        let ina = s.geom.in_range(a.x as int, a.y as int);
        let inb = s.geom.in_range(b.x as int, b.y as int);
        if ina {
            s.geom.lemma_index_in_bounds(a.x as int, a.y as int);
        }
        if inb {
            s.geom.lemma_index_in_bounds(b.x as int, b.y as int);
        }
        if ina && inb {
            assert(state_wf(obs_step(s, a)));
            assert(state_wf(obs_step(s, b)));
            assert(obs_step(obs_step(s, a), b) =~= obs_step(obs_step(s, b), a));
        } else if ina {
            assert(state_wf(obs_step(s, a)));
            assert(obs_step(obs_step(s, a), b) =~= obs_step(obs_step(s, b), a));
        } else if inb {
            assert(state_wf(obs_step(s, b)));
            assert(obs_step(obs_step(s, a), b) =~= obs_step(obs_step(s, b), a));
        }
    }
}

/// Accumulation is order-independent: two observation sequences that
/// hold the same multiset of observations drive a state to the same
/// final sums and counts, cell by cell.
pub proof fn lemma_accumulation_order_independent(
    s: ThicknessState,
    obs1: Seq<Observation>,
    obs2: Seq<Observation>,
)
    requires
        obs1.to_multiset() == obs2.to_multiset(),
    ensures
        accumulate_all(s, obs1) == accumulate_all(s, obs2),
{
    let f = |t: ThicknessState, o: Observation| obs_step(t, o);
    assert forall|x: Observation, y: Observation, v: ThicknessState| #[trigger] f(f(v, x), y) == f(
        f(v, y),
        x,
    ) by {
        lemma_obs_step_commutes(v, x, y);
    }
    assert(vstd::seq_lib::commutative_foldl(f));
    vstd::seq_lib::lemma_fold_left_permutation(obs1, obs2, f, s);
}

/// An observation outside the half-open rectangle, including one on the
/// `max` boundary of either axis, is not accumulated: no cell changes.
pub proof fn lemma_out_of_range_not_accumulated(s: ThicknessState, o: Observation)
    requires
        !s.geom.in_range(o.x as int, o.y as int),
    ensures
        obs_step(s, o) == s,
{
}

/// An observation at the `(xmin, ymin)` corner of a non-empty grid is
/// accumulated, into cell 0 of the leaflet its sign selects.
pub proof fn lemma_min_corner_accumulated(s: ThicknessState, o: Observation)
    requires
        state_wf(s),
        s.geom.xmin < s.geom.xmax,
        s.geom.ymin < s.geom.ymax,
        o.x == s.geom.xmin,
        o.y == s.geom.ymin,
    ensures
        obs_step(s, o).total == s.total + 1,
        o.z > 0 ==> obs_step(s, o).upper_count[0] == s.upper_count[0] + 1,
        o.z <= 0 ==> obs_step(s, o).lower_count[0] == s.lower_count[0] + 1,
{
    s.geom.lemma_half_open_boundaries();
    s.geom.lemma_index_in_bounds(o.x as int, o.y as int);
}

/// The four grids of one run, all over one geometry, plus the number of
/// accumulated observations. The view is the [`ThicknessState`] model.
pub struct ThicknessMap {
    /// The shared geometry.
    pub geom: GridGeometry,
    /// Sum of upper-leaflet offsets per cell.
    pub upper_sum: GridMap<i128>,
    /// Upper-leaflet sample count per cell.
    pub upper_count: GridMap<u64>,
    /// Sum of lower-leaflet offsets per cell.
    pub lower_sum: GridMap<i128>,
    /// Lower-leaflet sample count per cell.
    pub lower_count: GridMap<u64>,
    /// Number of observations accumulated so far.
    pub total: u64,
}

impl View for ThicknessMap {
    type V = ThicknessState;

    open spec fn view(&self) -> ThicknessState {
        ThicknessState {
            geom: self.geom,
            upper_sum: self.upper_sum@.map_values(|v: i128| v as int),
            upper_count: self.upper_count@.map_values(|c: u64| c as nat),
            lower_sum: self.lower_sum@.map_values(|v: i128| v as int),
            lower_count: self.lower_count@.map_values(|c: u64| c as nat),
            total: self.total as nat,
        }
    }
}

impl ThicknessMap {
    /// Well-formed: the grids share the geometry and have one cell per
    /// (row, column) pair; every cell's count is at most the number of
    /// observations, and every cell's sum is a sum of that many values
    /// each within the machine range of a single offset.
    pub open spec fn wf(self) -> bool {
        &&& self.geom.wf()
        &&& self.upper_sum.wf() && self.upper_sum.spec_geom() == self.geom
        &&& self.upper_count.wf() && self.upper_count.spec_geom() == self.geom
        &&& self.lower_sum.wf() && self.lower_sum.spec_geom() == self.geom
        &&& self.lower_count.wf() && self.lower_count.spec_geom() == self.geom
        &&& forall|j: int|
            0 <= j < self.geom.spec_n_cells() ==> {
                &&& #[trigger] self.upper_count@[j] <= self.total
                &&& self.lower_count@[j] <= self.total
                &&& (self.upper_count@[j] as int) * (i64::MIN as int) <= self.upper_sum@[j] as int
                    <= (self.upper_count@[j] as int) * (i64::MAX as int)
                &&& (self.lower_count@[j] as int) * (i64::MIN as int) <= self.lower_sum@[j] as int
                    <= (self.lower_count@[j] as int) * (i64::MAX as int)
            }
    }

    /// Build an empty accumulator over `geom`.
    pub fn new(geom: GridGeometry) -> (r: ThicknessMap)
        requires
            geom.wf(),
        ensures
            r.wf(),
            r@ == empty_state(geom),
    {
        let r = ThicknessMap {
            geom,
            upper_sum: GridMap::new(geom, 0i128),
            upper_count: GridMap::new(geom, 0u64),
            lower_sum: GridMap::new(geom, 0i128),
            lower_count: GridMap::new(geom, 0u64),
            total: 0,
        };
        proof {
            assert(r@ =~= empty_state(geom));
        }
        r
    }

    /// Fold one observation in. The new state is exactly one
    /// [`obs_step`] of the old: an out-of-range observation leaves every
    /// cell unchanged, an in-range one updates the two cells its
    /// position and sign select and nothing else.
    pub fn accumulate(&mut self, obs: Observation)
        requires
            old(self).wf(),
            old(self).total < u64::MAX,
        ensures
            final(self).wf(),
            final(self)@ == obs_step(old(self)@, obs),
            final(self).geom == old(self).geom,
            final(self).total <= old(self).total + 1,
    {
        proof {
            assert(state_wf(self@));
        }
        let leaf = leaflet_of(obs.z);
        match self.geom.cell_index(obs.x, obs.y) {
            None => {
                proof {
                    assert(self@ == obs_step(old(self)@, obs));
                }
            },
            Some(i) => {
                proof {
                    self.geom.lemma_index_in_bounds(obs.x as int, obs.y as int);
                }
                match leaf {
                    Leaflet::Upper => {
                        let s = self.upper_sum.get(i);
                        let c = self.upper_count.get(i);
                        self.upper_sum.set(i, s + obs.z as i128);
                        self.upper_count.set(i, c + 1);
                    },
                    Leaflet::Lower => {
                        let s = self.lower_sum.get(i);
                        let c = self.lower_count.get(i);
                        self.lower_sum.set(i, s + obs.z as i128);
                        self.lower_count.set(i, c + 1);
                    },
                }
                self.total = self.total + 1;
                proof {
                    assert(self@ =~= obs_step(old(self)@, obs));
                }
            },
        }
    }

    /// Fold a whole frame in: classify every marker against this frame's
    /// membrane center and box length, then accumulate each observation.
    /// The result is the left fold of the frame's observations, and the
    /// total grows by at most one per marker.
    pub fn accumulate_frame(&mut self, markers: &Vec<MarkerPos>, center_z: i64, box_z: i64)
        requires
            old(self).wf(),
            box_z > 0,
            old(self).total + markers@.len() <= u64::MAX,
        ensures
            final(self).wf(),
            final(self)@ == accumulate_all(
                old(self)@,
                frame_observations(markers@, center_z as int, box_z as int),
            ),
            final(self).geom == old(self).geom,
    {
        let ghost obs_seq = frame_observations(markers@, center_z as int, box_z as int);
        proof {
            assert(obs_seq.subrange(0, 0) =~= Seq::<Observation>::empty());
            assert(accumulate_all(self@, obs_seq.subrange(0, 0)) == self@);
        }
        let n = markers.len();
        let mut k: usize = 0;
        while k < n
            invariant
                k <= n,
                n == markers@.len(),
                self.wf(),
                box_z > 0,
                self.geom == old(self).geom,
                self.total as int <= old(self).total + k,
                old(self).total + markers@.len() <= u64::MAX,
                obs_seq == frame_observations(markers@, center_z as int, box_z as int),
                self@ == accumulate_all(old(self)@, obs_seq.subrange(0, k as int)),
            decreases n - k,
        {
            let m = markers[k];
            let zd = min_image_z(m.z, center_z, box_z);
            let o = Observation { x: m.x, y: m.y, z: zd };
            proof {
                assert(o == obs_seq[k as int]);
            }
            let ghost pre = self@;
            self.accumulate(o);
            proof {
                let sub1 = obs_seq.subrange(0, k + 1);
                assert(sub1.drop_last() =~= obs_seq.subrange(0, k as int));
                assert(sub1.last() == obs_seq[k as int]);
                assert(accumulate_all(old(self)@, sub1) == obs_step(
                    accumulate_all(old(self)@, obs_seq.subrange(0, k as int)),
                    obs_seq[k as int],
                ));
            }
            k = k + 1;
        }
        proof {
            assert(obs_seq.subrange(0, n as int) =~= obs_seq);
        }
    }
}

} // verus!
