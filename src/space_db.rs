//! The multi-resolution index of one reference space and its queries.

use vstd::prelude::*;

use crate::coordinate::Coordinate;
use crate::ladder::{
    built_level, carries, coarsened_from, counted_ladder, distinct_values, encode_values,
    index_bits, level_bits, level_contents, level_holds, make_level, offset_of, scale_bits,
    scaled_ladder, strictly_ascending,
};
use crate::position::{reduced_position, views, Position};
use crate::seqs::lemma_full_prefix;
use crate::shape::Shape;
use crate::space_index::{in_view, keep_in_view, object_views, SpaceSetIndex, SpaceSetObject};

verus! {

broadcast use vstd::seq_lib::group_seq_properties;

/// Query parameters of the core: a query volume, a viewport and an explicit
/// scale, each optional.
#[derive(Clone, Debug)]
pub struct CoreQueryParameters {
    /// The query volume, as a power-of-two fraction of the reference space's
    /// volume `V`: `Some(e)` stands for a volume in `(V / 2^(e+1), V / 2^e]`;
    /// `None` for no volume, or one larger than `V`.
    pub volume_exponent: Option<u32>,
    /// Results are kept only at grid points that this shape contains.
    pub view_port: Option<Shape>,
    /// The bit count wanted on each axis.
    pub resolution: Option<Vec<u32>>,
}

/// A level of scale `level` is at least as coarse as `wanted` on every axis.
pub open spec fn scale_fits(level: Seq<u32>, wanted: Seq<u32>) -> bool {
    &&& level.len() == wanted.len()
    &&& forall|k: int| 0 <= k < wanted.len() ==> wanted[k] <= #[trigger] level[k]
}

/// The first level from `i` on that satisfies `fits`, or the last level.
pub open spec fn first_fit(n: int, fits: spec_fn(int) -> bool, i: int) -> int
    decreases n - i,
{
    if i >= n - 1 {
        n - 1
    } else if fits(i) {
        i
    } else {
        first_fit(n, fits, i + 1)
    }
}

/// Values of `before` are offsets into `dictionary`; `after` holds the same
/// objects with each offset replaced by the value it stands for.
proof fn lemma_decoded(dictionary: Seq<u64>, before: Seq<(Seq<u64>, u64)>, after: Seq<(Seq<u64>, u64)>)
    requires
        strictly_ascending(dictionary),
        after.len() == before.len(),
        forall|j: int|
            0 <= j < before.len() ==> (#[trigger] before[j]).1 < dictionary.len() && after[j]
                == (before[j].0, dictionary[before[j].1 as int]),
    ensures
        before.no_duplicates() ==> after.no_duplicates(),
        forall|o: (Seq<u64>, u64)|
            #[trigger] after.contains(o) <==> exists|k: u64|
                k < dictionary.len() && dictionary[k as int] == o.1 && #[trigger] before.contains(
                    (o.0, k),
                ),
{
    if before.no_duplicates() {
        assert forall|a: int, b: int| 0 <= a < after.len() && 0 <= b < after.len() && a != b implies after[a] != after[b] by {
            let ka = before[a].1;
            let kb = before[b].1;
            assert(before[a] != before[b]);
            if ka < kb {
                assert(dictionary[ka as int] < dictionary[kb as int]);
            } else if kb < ka {
                assert(dictionary[kb as int] < dictionary[ka as int]);
            }
        }
    }
    assert forall|o: (Seq<u64>, u64)| #[trigger] after.contains(o) <==> exists|k: u64|
        k < dictionary.len() && dictionary[k as int] == o.1 && #[trigger] before.contains((o.0, k)) by {
        if after.contains(o) {
            let j = choose|j: int| 0 <= j < after.len() && after[j] == o;
            let k = before[j].1;
            assert(before[j] == (o.0, k));
            assert(before.contains((o.0, k)));
        }
        if exists|k: u64| k < dictionary.len() && dictionary[k as int] == o.1 && #[trigger] before.contains((o.0, k)) {
            let k = choose|k: u64| k < dictionary.len() && dictionary[k as int] == o.1 && #[trigger] before.contains((o.0, k));
            let j = choose|j: int| 0 <= j < before.len() && before[j] == (o.0, k);
            assert(before[j].1 < dictionary.len());
            assert(after[j] == o);
        }
    }
}

/// The first fitting level lies between `i` and the last level.
proof fn lemma_first_fit_range(n: int, fits: spec_fn(int) -> bool, i: int)
    requires
        0 <= i < n,
    ensures
        i <= first_fit(n, fits, i) < n,
    decreases n - i,
{
    if i < n - 1 && !fits(i) {
        lemma_first_fit_range(n, fits, i + 1);
    }
}

/// One level of the ladder: the index of the points coarsened by `scale`
/// bits on each axis, and its shift, from which its threshold volume follows.
#[derive(Clone, Debug)]
pub struct SpaceIndex {
    pub(crate) shift: u32,
    pub(crate) scale: Vec<u32>,
    pub(crate) index: SpaceSetIndex,
}

impl View for SpaceIndex {
    type V = (u32, Seq<u32>, Seq<(Seq<u64>, u64)>);

    closed spec fn view(&self) -> (u32, Seq<u32>, Seq<(Seq<u64>, u64)>) {
        (self.shift, self.scale@, self.index@)
    }
}

impl SpaceIndex {
    pub fn shift(&self) -> (r: u32)
        ensures
            r == self@.0,
    {
        self.shift
    }

    pub fn scale(&self) -> (r: &Vec<u32>)
        ensures
            r@ == self@.1,
    {
        &self.scale
    }
}

/// A multi-resolution index of the points of one reference space.
#[derive(Clone, Debug)]
pub struct SpaceDB {
    reference_space: String,
    values: Vec<u64>,
    resolutions: Vec<SpaceIndex>,
}

impl SpaceDB {
    /// The name of the reference space.
    pub closed spec fn name_view(&self) -> Seq<char> {
        self.reference_space@
    }

    /// The value dictionary: the distinct values supplied at build time,
    /// ascending; the objects of each level carry offsets into it.
    pub closed spec fn dictionary(&self) -> Seq<u64> {
        self.values@
    }

    /// Shift, scale and objects of each level, finest first.
    pub closed spec fn levels(&self) -> Seq<(u32, Seq<u32>, Seq<(Seq<u64>, u64)>)> {
        self.resolutions@.map_values(|l: SpaceIndex| l@)
    }

    /// The dictionary holds exactly the values of `objects`, ascending, and
    /// each level holds exactly the objects that `level_holds` describes for
    /// its bit count.
    pub open spec fn built_from(&self, objects: Seq<(Seq<u64>, u64)>) -> bool {
        &&& strictly_ascending(self.dictionary())
        &&& forall|v: u64| self.dictionary().contains(v) <==> carries(objects, v)
        &&& forall|i: int, o: (Seq<u64>, u64)|
            0 <= i < self.levels().len() ==> (#[trigger] self.levels()[i].2.contains(o)
                <==> level_holds(objects, self.dictionary(), self.levels()[i].1[0], o))
    }

    /// The threshold volume of level `i` is the reference space's volume
    /// divided by two to the power of this exponent.
    pub open spec fn threshold_exponent(&self, i: int) -> int {
        self.levels().last().0 - self.levels()[i].0
    }

    pub closed spec fn wf(&self) -> bool {
        &&& strictly_ascending(self.values@)
        &&& self.resolutions@.len() >= 1
        &&& forall|i: int, j: int|
            0 <= i < j < self.resolutions@.len() ==> (#[trigger] self.resolutions@[i]).shift
                <= (#[trigger] self.resolutions@[j]).shift
        &&& forall|i: int|
            0 <= i < self.resolutions@.len() ==> (#[trigger] self.resolutions@[i]).index.wf()
        &&& forall|i: int, o: (Seq<u64>, u64)|
            0 <= i < self.resolutions@.len() && #[trigger] self.resolutions@[i].index@.contains(o)
                ==> o.1 < self.values@.len()
    }

    /// Builds the ladder of indices of `space_objects`, whose positions have
    /// `dimensions` axes, in the reference space named `reference_space`.
    ///
    /// Values are first replaced by their offsets in the ascending dictionary
    /// of distinct values. With `scales`, each scale (one bit count repeated
    /// on every axis) gives a level, in ascending order. Without, and with
    /// `max_elements`, the full resolution comes first and each further bit
    /// dropped gives a level only where it at least halves the number of
    /// objects of the previous level, until a level holds no more than
    /// `max_elements` (and never fewer than the distinct values) objects.
    /// With neither, the full resolution alone is built.
    #[verifier::rlimit(40)]
    pub fn new(
        reference_space: &String,
        dimensions: usize,
        space_objects: Vec<SpaceSetObject>,
        scales: Option<Vec<Vec<u32>>>,
        max_elements: Option<usize>,
    ) -> (r: SpaceDB)
        requires
            dimensions >= 1,
            forall|j: int|
                0 <= j < space_objects@.len() ==> (#[trigger] space_objects@[j])@.0.len()
                    == dimensions,
            scales is Some ==> scales->Some_0@.len() >= 1,
            scales is Some ==> forall|j: int|
                0 <= j < scales->Some_0@.len() ==> (#[trigger] scales->Some_0@[j])@.len()
                    == dimensions,
            scales is Some ==> forall|j: int, k: int|
                0 <= j < scales->Some_0@.len() && 0 <= k < dimensions ==> #[trigger] scales->Some_0@[j]@[k]
                    == scales->Some_0@[j]@[0],
            max_elements is Some ==> max_elements->Some_0 >= 1,
        ensures
            r.wf(),
            r.built_from(object_views(space_objects@)),
            r.name_view() == reference_space@,
            r.levels().len() >= 1,
            forall|i: int, j: int|
                0 <= i < j < r.levels().len() ==> r.threshold_exponent(i) >= r.threshold_exponent(j),
            r.threshold_exponent(r.levels().len() - 1) == 0,
            forall|i: int|
                0 <= i < r.levels().len() ==> (#[trigger] r.levels()[i]).1.len() == dimensions,
            forall|i: int, k: int|
                0 <= i < r.levels().len() && 0 <= k < dimensions ==> #[trigger] r.levels()[i].1[k]
                    == r.levels()[i].1[0],
            scales is Some ==> {
                let sc = scales->Some_0@;
                &&& r.levels().len() == sc.len()
                &&& forall|i: int|
                    0 <= i < sc.len() ==> (#[trigger] r.levels()[i]).0 == if i < 31 {
                        i
                    } else {
                        31
                    }
                &&& forall|i: int, j: int|
                    0 <= i < j < sc.len() ==> (#[trigger] r.levels()[i]).1[0] <= (
                    #[trigger] r.levels()[j]).1[0]
                &&& level_bits(r.levels()).to_multiset() == scale_bits(sc).to_multiset()
            },
            scales is None ==> r.levels()[0].1[0] == 0,
            scales is None && max_elements is None ==> r.levels().len() == 1,
            scales is None && max_elements is Some ==> forall|i: int|
                1 <= i < r.levels().len() ==> (#[trigger] r.levels()[i]).2.len() <= r.levels()[i
                    - 1].2.len() / 2 && r.levels()[i - 1].1[0] < r.levels()[i].1[0],
    {
        let ghost input = object_views(space_objects@);
        let values = distinct_values(&space_objects);
        proof {
            assert forall|j: int| 0 <= j < space_objects@.len() implies values@.contains(
                #[trigger] space_objects@[j]@.1,
            ) by {
                assert(input[j].1 == space_objects@[j]@.1);
                assert(carries(input, input[j].1));
            }
        }
        let encoded = encode_values(space_objects, &values);
        proof {
            let ev = object_views(encoded@);
            assert forall|j: int| 0 <= j < ev.len() implies (#[trigger] ev[j]).0 == input[j].0
                && ev[j].1 < values@.len() && values@[ev[j].1 as int] == input[j].1 by {
                assert(encoded@[j]@ == ev[j]);
            }
        }
        let resolutions = match scales {
            Some(sc) => scaled_ladder(&encoded, &values, Ghost(input), &sc, dimensions),
            None => {
                match max_elements {
                    None => {
                        let mut resolutions: Vec<SpaceIndex> = Vec::new();
                        resolutions.push(make_level(&encoded, &values, Ghost(input), 0, 0, dimensions));
                        resolutions
                    },
                    Some(m) => counted_ladder(&encoded, &values, Ghost(input), m, dimensions),
                }
            },
        };
        let r = SpaceDB { reference_space: reference_space.clone(), values, resolutions };
        proof {
            r.lemma_built(input, dimensions as nat);
        }
        r
    }

    proof fn lemma_built(&self, objects: Seq<(Seq<u64>, u64)>, dimensions: nat)
        requires
            forall|j: int|
                0 <= j < self.resolutions@.len() ==> built_level(
                    #[trigger] self.resolutions@[j],
                    objects,
                    self.values@,
                    dimensions,
                ),
        ensures
            self.levels().len() == self.resolutions@.len(),
            forall|i: int| 0 <= i < self.resolutions@.len() ==> (#[trigger] self.levels()[i]) == self.resolutions@[i]@,
            level_bits(self.levels()) == index_bits(self.resolutions@),
            forall|i: int|
                0 <= i < self.resolutions@.len() ==> (#[trigger] self.resolutions@[i]).index.wf(),
            forall|i: int, o: (Seq<u64>, u64)|
                0 <= i < self.resolutions@.len() && #[trigger] self.resolutions@[i].index@.contains(o)
                    ==> o.1 < self.values@.len(),
            forall|i: int|
                0 <= i < self.levels().len() ==> (#[trigger] self.levels()[i]).1.len() == dimensions,
            forall|i: int, k: int|
                0 <= i < self.levels().len() && 0 <= k < dimensions ==> #[trigger] self.levels()[i].1[k]
                    == self.levels()[i].1[0],
            forall|i: int, o: (Seq<u64>, u64)|
                0 <= i < self.levels().len() ==> (#[trigger] self.levels()[i].2.contains(o)
                    <==> level_holds(objects, self.values@, self.levels()[i].1[0], o)),
    {
        reveal(level_contents);
        assert forall|i: int| 0 <= i < self.resolutions@.len() implies (#[trigger] self.levels()[i]) == self.resolutions@[i]@ by {}
        assert(level_bits(self.levels()) =~= index_bits(self.resolutions@));
        assert forall|i: int, o: (Seq<u64>, u64)|
            0 <= i < self.resolutions@.len() && #[trigger] self.resolutions@[i].index@.contains(o)
                implies o.1 < self.values@.len() by {
            assert(built_level(self.resolutions@[i], objects, self.values@, dimensions));
        }
        assert forall|i: int, o: (Seq<u64>, u64)|
            0 <= i < self.levels().len() implies (#[trigger] self.levels()[i].2.contains(o)
                <==> level_holds(objects, self.values@, self.levels()[i].1[0], o)) by {
            assert(built_level(self.resolutions@[i], objects, self.values@, dimensions));
        }
        assert forall|i: int, k: int|
            0 <= i < self.levels().len() && 0 <= k < dimensions implies #[trigger] self.levels()[i].1[k]
                == self.levels()[i].1[0] by {
            assert(built_level(self.resolutions@[i], objects, self.values@, dimensions));
        }
    }

    pub fn name(&self) -> (r: &String)
        ensures
            r@ == self.name_view(),
    {
        &self.reference_space
    }

    /// The level with the smallest threshold volume: the finest.
    pub fn highest_resolution(&self) -> (r: usize)
        ensures
            r == 0,
    {
        0
    }

    /// The level with the largest threshold volume: the coarsest.
    pub fn lowest_resolution(&self) -> (r: usize)
        requires
            self.wf(),
        ensures
            r == self.levels().len() - 1,
    {
        self.resolutions.len() - 1
    }

    /// Whether no value was supplied at build time.
    pub fn is_empty(&self) -> (r: bool)
        ensures
            r == (self.dictionary().len() == 0),
    {
        self.values.len() == 0
    }

    /// The level that a query with these parameters runs on: the first
    /// whose scale fits an explicit scale, else the first whose threshold
    /// volume reaches the query volume, else the coarsest.
    pub open spec fn resolution_for(&self, parameters: CoreQueryParameters) -> int {
        let n = self.levels().len() as int;
        match parameters.resolution {
            Some(wanted) => first_fit(n, |i: int| scale_fits(self.levels()[i].1, wanted@), 0),
            None => match parameters.volume_exponent {
                Some(e) => first_fit(n, |i: int| self.threshold_exponent(i) <= e, 0),
                None => n - 1,
            },
        }
    }

    /// `o`, with its value decoded, is an object of level `lvl`.
    pub open spec fn decoded_in(&self, lvl: int, o: (Seq<u64>, u64)) -> bool {
        exists|k: u64|
            k < self.dictionary().len() && self.dictionary()[k as int] == o.1
                && #[trigger] self.levels()[lvl].2.contains((o.0, k))
    }

    /// The first level whose threshold volume reaches the query volume, or the coarsest.
    fn default_resolution(&self, volume_exponent: u32) -> (r: usize)
        requires
            self.wf(),
        ensures
            r as int == first_fit(
                self.levels().len() as int,
                |i: int| self.threshold_exponent(i) <= volume_exponent,
                0,
            ),
    {
        let ghost fits = |i: int| self.threshold_exponent(i) <= volume_exponent;
        let n = self.resolutions.len();
        let max_shift = self.resolutions[n - 1].shift;
        proof {
            assert(self.levels()[n - 1] == self.resolutions@[n - 1]@);
        }
        let mut i: usize = 0;
        while i < n - 1
            invariant
                self.wf(),
                n == self.levels().len(),
                n == self.resolutions@.len(),
                max_shift == self.levels().last().0,
                fits == (|i: int| self.threshold_exponent(i) <= volume_exponent),
                i <= n - 1,
                first_fit(n as int, fits, 0) == first_fit(n as int, fits, i as int),
            decreases n - 1 - i,
        {
            proof {
                assert(self.levels()[i as int] == self.resolutions@[i as int]@);
                assert(self.resolutions@[i as int].shift <= self.resolutions@[n - 1].shift);
            }
            if max_shift - self.resolutions[i].shift <= volume_exponent {
                return i;
            }
            i += 1;
        }
        n - 1
    }

    /// The first level whose scale fits `scale` on every axis, or the coarsest.
    fn find_resolution(&self, scale: &Vec<u32>) -> (r: usize)
        requires
            self.wf(),
        ensures
            r as int == first_fit(
                self.levels().len() as int,
                |i: int| scale_fits(self.levels()[i].1, scale@),
                0,
            ),
    {
        let ghost fits = |i: int| scale_fits(self.levels()[i].1, scale@);
        let n = self.resolutions.len();
        let mut i: usize = 0;
        while i < n - 1
            invariant
                self.wf(),
                n == self.levels().len(),
                n == self.resolutions@.len(),
                fits == (|i: int| scale_fits(self.levels()[i].1, scale@)),
                i <= n - 1,
                first_fit(n as int, fits, 0) == first_fit(n as int, fits, i as int),
            decreases n - 1 - i,
        {
            proof {
                assert(self.levels()[i as int] == self.resolutions@[i as int]@);
            }
            if Self::fits(&self.resolutions[i].scale, scale) {
                return i;
            }
            i += 1;
        }
        n - 1
    }

    /// Whether `level` is at least `wanted` on every axis.
    fn fits(level: &Vec<u32>, wanted: &Vec<u32>) -> (r: bool)
        ensures
            r == scale_fits(level@, wanted@),
    {
        if level.len() != wanted.len() {
            return false;
        }
        let mut k: usize = 0;
        while k < wanted.len()
            invariant
                level@.len() == wanted@.len(),
                k <= wanted@.len(),
                forall|j: int| 0 <= j < k ==> wanted@[j] <= #[trigger] level@[j],
            decreases wanted@.len() - k,
        {
            if wanted[k] > level[k] {
                return false;
            }
            k += 1;
        }
        true
    }

    /// The level that a query with these parameters runs on.
    pub fn get_resolution(&self, parameters: &CoreQueryParameters) -> (r: usize)
        requires
            self.wf(),
        ensures
            r as int == self.resolution_for(*parameters),
            r < self.levels().len(),
    {
        let r = match &parameters.resolution {
            None => match parameters.volume_exponent {
                Some(e) => self.default_resolution(e),
                None => self.lowest_resolution(),
            },
            Some(v) => self.find_resolution(v),
        };
        proof {
            self.lemma_first_fit_bounded(*parameters);
        }
        r
    }

    proof fn lemma_first_fit_bounded(&self, parameters: CoreQueryParameters)
        requires
            self.wf(),
        ensures
            0 <= self.resolution_for(parameters) < self.levels().len(),
    {
        let n = self.levels().len() as int;
        match parameters.resolution {
            Some(wanted) => lemma_first_fit_range(n, |i: int| scale_fits(self.levels()[i].1, wanted@), 0),
            None => match parameters.volume_exponent {
                Some(e) => lemma_first_fit_range(n, |i: int| self.threshold_exponent(i) <= e, 0),
                None => {},
            },
        }
    }

    proof fn lemma_ordered(&self)
        requires
            self.wf(),
        ensures
            self.levels().len() >= 1,
            forall|i: int, j: int|
                0 <= i < j < self.levels().len() ==> self.threshold_exponent(i) >= self.threshold_exponent(j),
            self.threshold_exponent(self.levels().len() - 1) == 0,
    {
        let n = self.resolutions@.len() as int;
        assert forall|i: int, j: int|
            0 <= i < j < self.levels().len() implies self.threshold_exponent(i) >= self.threshold_exponent(j) by {
            assert(self.levels()[i] == self.resolutions@[i]@);
            assert(self.levels()[j] == self.resolutions@[j]@);
        }
    }


    /// The objects with each offset replaced by the value it stands for.
    fn decode(&self, objects: Vec<SpaceSetObject>) -> (r: Vec<SpaceSetObject>)
        requires
            forall|j: int| 0 <= j < objects@.len() ==> (#[trigger] objects@[j])@.1 < self.dictionary().len(),
        ensures
            r@.len() == objects@.len(),
            forall|j: int|
                0 <= j < objects@.len() ==> (#[trigger] object_views(r@)[j]) == (
                    object_views(objects@)[j].0,
                    self.dictionary()[object_views(objects@)[j].1 as int],
                ),
    {
        let mut out: Vec<SpaceSetObject> = Vec::with_capacity(objects.len());
        let mut i: usize = 0;
        while i < objects.len()
            invariant
                forall|j: int| 0 <= j < objects@.len() ==> (#[trigger] objects@[j])@.1 < self.values@.len(),
                i <= objects@.len(),
                out@.len() == i,
                forall|j: int|
                    0 <= j < i ==> (#[trigger] out@[j])@ == (objects@[j]@.0, self.values@[objects@[j]@.1 as int]),
            decreases objects@.len() - i,
        {
            let mut o = objects[i].duplicate();
            let v = o.value().value;
            let n = self.values.len();
            assert(v == objects@[i as int]@.1);
            assert(v < n);
            let k = v as usize;
            o.set_value(Coordinate::new(self.values[k]));
            out.push(o);
            i += 1;
        }
        out
    }

    /// The objects of the query's level that carry `id`, at the grid points
    /// that the viewport contains, with `id` as their value.
    pub fn get_by_id(&self, id: usize, parameters: &CoreQueryParameters) -> (r: Result<
        Vec<SpaceSetObject>,
        String,
    >)
        requires
            self.wf(),
            parameters.view_port is Some ==> parameters.view_port->Some_0.wf(),
        ensures
            r is Ok,
            r is Ok ==> object_views(r->Ok_0@).no_duplicates(),
            r is Ok ==> forall|o: (Seq<u64>, u64)|
                #[trigger] object_views(r->Ok_0@).contains(o) <==> (o.1 == id as u64
                    && self.decoded_in(self.resolution_for(*parameters), o) && in_view(
                    &parameters.view_port,
                    o.0,
                )),
    {
        let lvl = self.get_resolution(parameters);
        let ghost level = self.levels()[lvl as int].2;
        proof {
            assert(self.levels()[lvl as int] == self.resolutions@[lvl as int]@);
        }
        match offset_of(&self.values, id as u64) {
            None => {
                let out: Vec<SpaceSetObject> = Vec::new();
                assert forall|o: (Seq<u64>, u64)|
                    #[trigger] object_views(out@).contains(o) <==> (o.1 == id as u64
                        && self.decoded_in(lvl as int, o) && in_view(&parameters.view_port, o.0)) by {
                    if o.1 == id as u64 && self.decoded_in(lvl as int, o) {
                        let k = choose|k: u64| k < self.dictionary().len() && self.dictionary()[k as int] == o.1
                            && #[trigger] self.levels()[lvl as int].2.contains((o.0, k));
                        assert(self.values@.contains(self.values@[k as int]));
                    }
                }
                Ok(out)
            },
            Some(k) => {
                let objects = self.resolutions[lvl].index.find_by_value(k as u64);
                let kept = keep_in_view(objects, &parameters.view_port);
                let ghost kv = object_views(kept@);
                let mut out: Vec<SpaceSetObject> = Vec::with_capacity(kept.len());
                let mut i: usize = 0;
                while i < kept.len()
                    invariant
                        kv == object_views(kept@),
                        i <= kv.len(),
                        out@.len() == i,
                        forall|j: int| 0 <= j < i ==> (#[trigger] out@[j])@ == (kv[j].0, id as u64),
                    decreases kv.len() - i,
                {
                    let mut o = kept[i].duplicate();
                    o.set_value(Coordinate::new(id as u64));
                    out.push(o);
                    proof {
                        assert(kv[i as int] == kept@[i as int]@);
                    }
                    i += 1;
                }
                let ghost ov = object_views(out@);
                proof {
                    assert forall|j: int| 0 <= j < ov.len() implies #[trigger] ov[j] == (kv[j].0, id as u64) by {
                        assert(ov[j] == out@[j]@);
                    }
                    assert forall|j: int| 0 <= j < kv.len() implies (#[trigger] kv[j]).1 == k as u64 by {
                        assert(kv.contains(kv[j]));
                    }
                    assert forall|a: int, b: int| 0 <= a < ov.len() && 0 <= b < ov.len() && a != b implies ov[a] != ov[b] by {
                        assert(kv[a] != kv[b]);
                        assert(kv[a].1 == k as u64);
                        assert(kv[b].1 == k as u64);
                    }
                    assert forall|o: (Seq<u64>, u64)|
                        #[trigger] ov.contains(o) <==> (o.1 == id as u64 && self.decoded_in(lvl as int, o)
                            && in_view(&parameters.view_port, o.0)) by {
                        if ov.contains(o) {
                            let j = choose|j: int| 0 <= j < ov.len() && ov[j] == o;
                            assert(kv[j] == (o.0, k as u64));
                            assert(kv.contains((o.0, k as u64)));
                            assert(level.contains((o.0, k as u64)));
                        }
                        if o.1 == id as u64 && self.decoded_in(lvl as int, o) && in_view(&parameters.view_port, o.0) {
                            let k2 = choose|k2: u64| k2 < self.dictionary().len() && self.dictionary()[k2 as int] == o.1
                                && #[trigger] self.levels()[lvl as int].2.contains((o.0, k2));
                            if k2 < k as u64 {
                                assert(self.values@[k2 as int] < self.values@[k as int]);
                            } else if k2 > k as u64 {
                                assert(self.values@[k as int] < self.values@[k2 as int]);
                            }
                            assert(kv.contains((o.0, k as u64)));
                            let j = choose|j: int| 0 <= j < kv.len() && kv[j] == (o.0, k as u64);
                            assert(ov[j] == o);
                        }
                    }
                }
                Ok(out)
            },
        }
    }

    /// The objects of the query's level at the grid points of `shape` that
    /// the viewport contains, each once, with their values decoded.
    pub fn get_by_shape(&self, shape: &Shape, parameters: &CoreQueryParameters) -> (r: Result<
        Vec<SpaceSetObject>,
        String,
    >)
        requires
            self.wf(),
            shape.wf(),
            parameters.view_port is Some ==> parameters.view_port->Some_0.wf(),
        ensures
            r is Ok,
            r is Ok ==> object_views(r->Ok_0@).no_duplicates(),
            r is Ok ==> forall|o: (Seq<u64>, u64)|
                #[trigger] object_views(r->Ok_0@).contains(o) <==> (self.decoded_in(
                    self.resolution_for(*parameters),
                    o,
                ) && shape.covers(o.0) && in_view(&parameters.view_port, o.0)),
    {
        let lvl = self.get_resolution(parameters);
        proof {
            assert(self.levels()[lvl as int] == self.resolutions@[lvl as int]@);
        }
        let found = match self.resolutions[lvl].index.find_by_shape(shape, &parameters.view_port) {
            Ok(found) => found,
            Err(e) => {
                return Err(e);
            },
        };
        let ghost fv = object_views(found@);
        proof {
            assert forall|j: int| 0 <= j < found@.len() implies (#[trigger] found@[j])@.1 < self.dictionary().len() by {
                assert(fv[j] == found@[j]@);
                assert(fv.contains(fv[j]));
            }
        }
        let decoded = self.decode(found);
        proof {
            assert forall|j: int| 0 <= j < fv.len() implies (#[trigger] fv[j]).1 < self.values@.len() && object_views(decoded@)[j]
                == (fv[j].0, self.values@[fv[j].1 as int]) by {
                assert(fv.contains(fv[j]));
            }
            lemma_decoded(self.values@, fv, object_views(decoded@));
            let dv = object_views(decoded@);
            let lv = self.levels()[lvl as int].2;
            assert forall|o: (Seq<u64>, u64)|
                #[trigger] dv.contains(o) <==> (self.decoded_in(lvl as int, o) && shape.covers(o.0)
                    && in_view(&parameters.view_port, o.0)) by {
                if dv.contains(o) {
                    let k = choose|k: u64| k < self.values@.len() && self.values@[k as int] == o.1
                        && #[trigger] fv.contains((o.0, k));
                    assert(lv.contains((o.0, k)));
                }
                if self.decoded_in(lvl as int, o) && shape.covers(o.0) && in_view(&parameters.view_port, o.0) {
                    let k = choose|k: u64| k < self.dictionary().len() && self.dictionary()[k as int] == o.1
                        && #[trigger] self.levels()[lvl as int].2.contains((o.0, k));
                    assert(fv.contains((o.0, k)));
                }
            }
        }
        Ok(decoded)
    }

    /// The objects of the query's level at the given positions, where the
    /// viewport contains them, with their values decoded.
    pub fn get_by_positions(&self, positions: &Vec<Position>, parameters: &CoreQueryParameters) -> (r: Result<
        Vec<SpaceSetObject>,
        String,
    >)
        requires
            self.wf(),
            parameters.view_port is Some ==> parameters.view_port->Some_0.wf(),
        ensures
            r is Ok,
            r is Ok ==> forall|o: (Seq<u64>, u64)|
                #[trigger] object_views(r->Ok_0@).contains(o) <==> (self.decoded_in(
                    self.resolution_for(*parameters),
                    o,
                ) && views(positions@).contains(o.0) && in_view(&parameters.view_port, o.0)),
    {
        let lvl = self.get_resolution(parameters);
        let ghost level = self.levels()[lvl as int].2;
        let ghost pts = views(positions@);
        proof {
            assert(self.levels()[lvl as int] == self.resolutions@[lvl as int]@);
        }
        let mut found: Vec<SpaceSetObject> = Vec::new();
        let mut i: usize = 0;
        while i < positions.len()
            invariant
                self.wf(),
                lvl < self.resolutions@.len(),
                level == self.resolutions@[lvl as int].index@,
                pts == views(positions@),
                parameters.view_port is Some ==> parameters.view_port->Some_0.wf(),
                i <= pts.len(),
                forall|o: (Seq<u64>, u64)|
                    #[trigger] object_views(found@).contains(o) <==> (level.contains(o) && pts.subrange(0, i as int).contains(o.0)
                        && in_view(&parameters.view_port, o.0)),
            decreases pts.len() - i,
        {
            let ghost before = object_views(found@);
            let wanted = match &parameters.view_port {
                Some(v) => v.contains(&positions[i]),
                None => true,
            };
            let ghost s0 = pts.subrange(0, i as int);
            let ghost s1 = pts.subrange(0, i + 1);
            proof {
                assert(pts[i as int] == positions@[i as int]@);
            }
            if wanted {
                let mut more = self.resolutions[lvl].index.find(&positions[i]);
                let ghost extra = object_views(more@);
                found.append(&mut more);
                proof {
                    assert(object_views(found@) =~= before + extra);
                }
            }
            proof {
                assert forall|o: (Seq<u64>, u64)|
                    #[trigger] object_views(found@).contains(o) <==> (level.contains(o) && s1.contains(o.0)
                        && in_view(&parameters.view_port, o.0)) by {
                    if s1.contains(o.0) {
                        let m = choose|m: int| 0 <= m < s1.len() && #[trigger] s1[m] == o.0;
                        if m < i {
                            assert(s0[m] == o.0);
                        }
                    }
                    if s0.contains(o.0) {
                        let m = choose|m: int| 0 <= m < s0.len() && #[trigger] s0[m] == o.0;
                        assert(s1[m] == o.0);
                    }
                    if o.0 == pts[i as int] {
                        assert(s1[i as int] == o.0);
                    }
                }
            }
            i += 1;
        }
        let ghost fv = object_views(found@);
        proof {
            lemma_full_prefix(pts);
            assert forall|j: int| 0 <= j < found@.len() implies (#[trigger] found@[j])@.1 < self.dictionary().len() by {
                assert(fv[j] == found@[j]@);
                assert(fv.contains(fv[j]));
            }
        }
        let decoded = self.decode(found);
        proof {
            assert forall|j: int| 0 <= j < fv.len() implies (#[trigger] fv[j]).1 < self.values@.len() && object_views(decoded@)[j]
                == (fv[j].0, self.values@[fv[j].1 as int]) by {
                assert(fv.contains(fv[j]));
            }
            lemma_decoded(self.values@, fv, object_views(decoded@));
            let dv = object_views(decoded@);
            assert forall|o: (Seq<u64>, u64)|
                #[trigger] dv.contains(o) <==> (self.decoded_in(lvl as int, o) && pts.contains(o.0)
                    && in_view(&parameters.view_port, o.0)) by {
                if dv.contains(o) {
                    let k = choose|k: u64| k < self.values@.len() && self.values@[k as int] == o.1
                        && #[trigger] fv.contains((o.0, k));
                    assert(level.contains((o.0, k)));
                }
                if self.decoded_in(lvl as int, o) && pts.contains(o.0) && in_view(&parameters.view_port, o.0) {
                    let k = choose|k: u64| k < self.dictionary().len() && self.dictionary()[k as int] == o.1
                        && #[trigger] self.levels()[lvl as int].2.contains((o.0, k));
                    assert(fv.contains((o.0, k)));
                }
            }
        }
        Ok(decoded)
    }
}


/// In a strictly ascending sequence each value is at least its index.
proof fn lemma_ascending_at_least_index(s: Seq<u64>, i: int)
    requires
        strictly_ascending(s),
        0 <= i < s.len(),
    ensures
        s[i] >= i,
    decreases i,
{
    if i > 0 {
        lemma_ascending_at_least_index(s, i - 1);
    }
}

/// The ladder is never empty, and its threshold volumes never decrease from
/// the finest level to the coarsest, which covers the whole reference volume.
pub proof fn lemma_ladder_ordered(db: &SpaceDB)
    requires
        db.wf(),
    ensures
        db.levels().len() >= 1,
        forall|i: int, j: int|
            0 <= i < j < db.levels().len() ==> db.threshold_exponent(i) >= db.threshold_exponent(j),
        db.threshold_exponent(db.levels().len() - 1) == 0,
{
    db.lemma_ordered();
}

/// Every object that a query returns carries one of the values supplied at
/// build time: decoding offsets through the dictionary gives them back exactly.
pub proof fn lemma_query_values_supplied(
    db: &SpaceDB,
    objects: Seq<(Seq<u64>, u64)>,
    lvl: int,
    o: (Seq<u64>, u64),
)
    requires
        db.built_from(objects),
        0 <= lvl < db.levels().len(),
        db.decoded_in(lvl, o),
    ensures
        carries(objects, o.1),
{
    let k = choose|k: u64|
        k < db.dictionary().len() && db.dictionary()[k as int] == o.1
            && #[trigger] db.levels()[lvl].2.contains((o.0, k));
    assert(db.dictionary().contains(db.dictionary()[k as int]));
}

/// A lookup by identifier over the whole volume, with no viewport, returns
/// exactly the build-time positions tagged with that identifier, coarsened as
/// the coarsest level coarsens them.
pub proof fn lemma_by_id_full_volume(
    db: &SpaceDB,
    objects: Seq<(Seq<u64>, u64)>,
    id: u64,
    parameters: CoreQueryParameters,
    o: (Seq<u64>, u64),
)
    requires
        db.wf(),
        db.built_from(objects),
        parameters.resolution is None,
        parameters.volume_exponent is None,
        parameters.view_port is None,
    ensures
        (o.1 == id && db.decoded_in(db.resolution_for(parameters), o) && in_view(
            &parameters.view_port,
            o.0,
        )) <==> (o.1 == id && exists|j: int|
            0 <= j < objects.len() && #[trigger] objects[j].1 == id && o.0 == reduced_position(
                objects[j].0,
                db.levels().last().1[0],
            )),
{
    db.lemma_ordered();
    let n = db.levels().len() as int;
    let bits = db.levels().last().1[0];
    let dict = db.dictionary();
    assert(db.resolution_for(parameters) == n - 1);
    if o.1 == id && db.decoded_in(n - 1, o) {
        let k = choose|k: u64|
            k < dict.len() && dict[k as int] == o.1 && #[trigger] db.levels()[n - 1].2.contains((o.0, k));
        assert(level_holds(objects, dict, bits, (o.0, k)));
        let j = choose|j: int|
            0 <= j < objects.len() && (o.0, dict[k as int]) == (reduced_position(#[trigger] objects[j].0, bits), objects[j].1);
        assert(objects[j].1 == id);
    }
    if o.1 == id && exists|j: int|
        0 <= j < objects.len() && #[trigger] objects[j].1 == id && o.0 == reduced_position(objects[j].0, bits) {
        let j = choose|j: int|
            0 <= j < objects.len() && #[trigger] objects[j].1 == id && o.0 == reduced_position(objects[j].0, bits);
        assert(carries(objects, id));
        assert(dict.contains(id));
        let m = choose|m: int| 0 <= m < dict.len() && dict[m] == id;
        let k = m as u64;
        lemma_ascending_at_least_index(dict, m);
        assert(coarsened_from(objects, bits, (o.0, dict[k as int])));
        assert(level_holds(objects, dict, bits, (o.0, k)));
        assert(db.levels()[n - 1].2.contains((o.0, k)));
    }
}

} // verus!
