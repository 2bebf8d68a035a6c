//! Building the ladder: the value dictionary and the coarsened levels.

use vstd::prelude::*;

use crate::coordinate::{Coordinate, COORDINATE_BITS};
use crate::position::reduced_position;
use crate::seqs::lemma_full_prefix;
use crate::space_db::SpaceIndex;
use crate::space_index::{object_views, SpaceSetIndex, SpaceSetObject};

verus! {

broadcast use vstd::seq_lib::group_seq_properties;

/// `s` is in strictly ascending order.
pub open spec fn strictly_ascending(s: Seq<u64>) -> bool {
    forall|i: int, j: int| 0 <= i < j < s.len() ==> s[i] < s[j]
}

/// `s` is in ascending order.
pub open spec fn ascending(s: Seq<u32>) -> bool {
    forall|i: int, j: int| 0 <= i < j < s.len() ==> s[i] <= s[j]
}

/// `v` is the value of one of `objects`.
pub open spec fn carries(objects: Seq<(Seq<u64>, u64)>, v: u64) -> bool {
    exists|j: int| 0 <= j < objects.len() && #[trigger] objects[j].1 == v
}

/// `o` is one of `objects` with its position coarsened by `bits` bits.
pub open spec fn coarsened_from(objects: Seq<(Seq<u64>, u64)>, bits: u32, o: (Seq<u64>, u64)) -> bool {
    exists|j: int|
        0 <= j < objects.len() && o == (reduced_position(#[trigger] objects[j].0, bits), objects[j].1)
}

/// `o` is an object of the level that drops `bits` bits: an offset into
/// `dictionary` and the position of a build-time object carrying the value at
/// that offset, coarsened by `bits` bits.
pub open spec fn level_holds(
    objects: Seq<(Seq<u64>, u64)>,
    dictionary: Seq<u64>,
    bits: u32,
    o: (Seq<u64>, u64),
) -> bool {
    &&& o.1 < dictionary.len()
    &&& coarsened_from(objects, bits, (o.0, dictionary[o.1 as int]))
}

/// `encoded` is `objects` with each value replaced by its offset in `dictionary`.
pub(crate) open spec fn encodes(
    encoded: Seq<(Seq<u64>, u64)>,
    objects: Seq<(Seq<u64>, u64)>,
    dictionary: Seq<u64>,
) -> bool {
    &&& encoded.len() == objects.len()
    &&& forall|j: int|
        0 <= j < encoded.len() ==> (#[trigger] encoded[j]).0 == objects[j].0 && encoded[j].1
            < dictionary.len() && dictionary[encoded[j].1 as int] == objects[j].1
}

pub(crate) proof fn lemma_encoded_level(
    encoded: Seq<(Seq<u64>, u64)>,
    objects: Seq<(Seq<u64>, u64)>,
    dictionary: Seq<u64>,
    bits: u32,
    o: (Seq<u64>, u64),
)
    requires
        encodes(encoded, objects, dictionary),
        strictly_ascending(dictionary),
    ensures
        coarsened_from(encoded, bits, o) <==> level_holds(objects, dictionary, bits, o),
{
    if coarsened_from(encoded, bits, o) {
        let j = choose|j: int|
            0 <= j < encoded.len() && o == (reduced_position(#[trigger] encoded[j].0, bits), encoded[j].1);
        assert(objects[j].0 == encoded[j].0);
        assert((o.0, dictionary[o.1 as int]) == (reduced_position(objects[j].0, bits), objects[j].1));
    }
    if level_holds(objects, dictionary, bits, o) {
        let j = choose|j: int|
            0 <= j < objects.len() && (o.0, dictionary[o.1 as int]) == (reduced_position(#[trigger] objects[j].0, bits), objects[j].1);
        assert(encoded[j].0 == objects[j].0);
        let k = encoded[j].1;
        if o.1 < k {
            assert(dictionary[o.1 as int] < dictionary[k as int]);
        } else if o.1 > k {
            assert(dictionary[k as int] < dictionary[o.1 as int]);
        }
        assert(o == (reduced_position(encoded[j].0, bits), encoded[j].1));
    }
}

/// The objects of level `l` are those that `level_holds` describes.
#[verifier::opaque]
pub(crate) open spec fn level_contents(l: SpaceIndex, objects: Seq<(Seq<u64>, u64)>, dictionary: Seq<u64>) -> bool {
    forall|o: (Seq<u64>, u64)|
        #[trigger] l.index@.contains(o) <==> level_holds(objects, dictionary, l.scale@[0], o)
}

/// A level, as the constructor leaves it, for the build-time `objects`.
pub(crate) open spec fn built_level(
    l: SpaceIndex,
    objects: Seq<(Seq<u64>, u64)>,
    dictionary: Seq<u64>,
    dimensions: nat,
) -> bool {
    &&& dimensions >= 1
    &&& l.scale@.len() == dimensions
    &&& forall|k: int| 0 <= k < dimensions ==> #[trigger] l.scale@[k] == l.scale@[0]
    &&& l.index.wf()
    &&& level_contents(l, objects, dictionary)
}

/// The level that drops `bits` bits, with the given shift.
pub(crate) fn make_level(
    encoded: &Vec<SpaceSetObject>,
    values: &Vec<u64>,
    objects: Ghost<Seq<(Seq<u64>, u64)>>,
    bits: u32,
    shift: u32,
    dimensions: usize,
) -> (r: SpaceIndex)
    requires
        dimensions >= 1,
        encodes(object_views(encoded@), objects@, values@),
        strictly_ascending(values@),
    ensures
        built_level(r, objects@, values@, dimensions as nat),
        r.shift == shift,
        r.scale@[0] == bits,
{
    let found = coarsen(encoded, bits);
    let ghost fv = object_views(found@);
    let index = SpaceSetIndex::new(found);
    let scale = vec![bits; dimensions];
    proof {
        assert forall|o: (Seq<u64>, u64)| #[trigger] index@.contains(o) <==> level_holds(objects@, values@, bits, o) by {
            lemma_encoded_level(object_views(encoded@), objects@, values@, bits, o);
        }
        reveal(level_contents);
    }
    SpaceIndex { shift, scale, index }
}

/// The distinct values carried by `objects`, in ascending order.
pub(crate) fn distinct_values(objects: &Vec<SpaceSetObject>) -> (r: Vec<u64>)
    ensures
        strictly_ascending(r@),
        forall|v: u64| r@.contains(v) <==> carries(object_views(objects@), v),
{
    let ghost all = object_views(objects@);
    let mut out: Vec<u64> = Vec::new();
    let mut i: usize = 0;
    while i < objects.len()
        invariant
            all == object_views(objects@),
            i <= all.len(),
            strictly_ascending(out@),
            forall|v: u64| out@.contains(v) <==> carries(all.subrange(0, i as int), v),
        decreases all.len() - i,
    {
        let v = objects[i].value().value;
        let mut p: usize = 0;
        while p < out.len() && out[p] < v
            invariant
                p <= out@.len(),
                forall|j: int| 0 <= j < p ==> out@[j] < v,
            decreases out@.len() - p,
        {
            p += 1;
        }
        let ghost before = out@;
        if p == out.len() || out[p] != v {
            out.insert(p, v);
            proof {
                assert forall|a: int, b: int| 0 <= a < b < out@.len() implies out@[a] < out@[b] by {
                    if a < p && b > p {
                        assert(out@[b] == before[b - 1]);
                    }
                    if a > p {
                        assert(out@[a] == before[a - 1]);
                        assert(out@[b] == before[b - 1]);
                    }
                    if a == p && b > p {
                        assert(out@[b] == before[b - 1]);
                        assert(before[p as int] >= v);
                    }
                }
            }
        }
        proof {
            let s0 = all.subrange(0, i as int);
            let s1 = all.subrange(0, i + 1);
            assert forall|w: u64| out@.contains(w) <==> carries(s1, w) by {
                if carries(s0, w) {
                    let j = choose|j: int| 0 <= j < s0.len() && #[trigger] s0[j].1 == w;
                    assert(s1[j].1 == w);
                }
                if carries(s1, w) {
                    let j = choose|j: int| 0 <= j < s1.len() && #[trigger] s1[j].1 == w;
                    if j < i {
                        assert(s0[j].1 == w);
                    }
                }
                assert(s1[i as int].1 == v);
                if out@.contains(w) && !before.contains(w) {
                    let m = choose|m: int| 0 <= m < out@.len() && out@[m] == w;
                    if m < p {
                        assert(before[m] == w);
                    } else if m > p {
                        assert(before[m - 1] == w);
                    }
                }
                if before.contains(w) {
                    let m = choose|m: int| 0 <= m < before.len() && before[m] == w;
                    if out@.len() > before.len() {
                        if m < p {
                            assert(out@[m] == w);
                        } else {
                            assert(out@[m + 1] == w);
                        }
                    }
                }
                if w == v && out@.len() == before.len() {
                    assert(out@[p as int] == v);
                }
                if w == v && out@.len() > before.len() {
                    assert(out@[p as int] == v);
                }
            }
        }
        i += 1;
    }
    proof {
        lemma_full_prefix(all);
    }
    out
}

/// The offset of `v` in the strictly ascending `values`, when it is there.
pub(crate) fn offset_of(values: &Vec<u64>, v: u64) -> (r: Option<usize>)
    requires
        strictly_ascending(values@),
    ensures
        r is Some ==> r->Some_0 < values@.len() && values@[r->Some_0 as int] == v,
        r is None ==> !values@.contains(v),
{
    let mut lo: usize = 0;
    let mut hi: usize = values.len();
    while lo < hi
        invariant
            lo <= hi <= values@.len(),
            strictly_ascending(values@),
            forall|j: int| 0 <= j < lo ==> values@[j] < v,
            forall|j: int| hi <= j < values@.len() ==> values@[j] > v,
        decreases hi - lo,
    {
        let mid = lo + (hi - lo) / 2;
        if values[mid] == v {
            return Some(mid);
        } else if values[mid] < v {
            lo = mid + 1;
        } else {
            hi = mid;
        }
    }
    None
}

/// The objects with each value replaced by its offset in `values`.
pub(crate) fn encode_values(objects: Vec<SpaceSetObject>, values: &Vec<u64>) -> (r: Vec<SpaceSetObject>)
    requires
        strictly_ascending(values@),
        forall|j: int| 0 <= j < objects@.len() ==> values@.contains(#[trigger] objects@[j]@.1),
    ensures
        r@.len() == objects@.len(),
        forall|j: int|
            0 <= j < r@.len() ==> (#[trigger] r@[j])@.0 == objects@[j]@.0 && r@[j]@.1 < values@.len()
                && values@[r@[j]@.1 as int] == objects@[j]@.1,
{
    let mut out: Vec<SpaceSetObject> = Vec::with_capacity(objects.len());
    let mut i: usize = 0;
    while i < objects.len()
        invariant
            strictly_ascending(values@),
            forall|j: int| 0 <= j < objects@.len() ==> values@.contains(#[trigger] objects@[j]@.1),
            i <= objects@.len(),
            out@.len() == i,
            forall|j: int|
                0 <= j < i ==> (#[trigger] out@[j])@.0 == objects@[j]@.0 && out@[j]@.1
                    < values@.len() && values@[out@[j]@.1 as int] == objects@[j]@.1,
        decreases objects@.len() - i,
    {
        let mut o = objects[i].duplicate();
        let found = offset_of(values, o.value().value);
        match found {
            Some(k) => {
                o.set_value(Coordinate::new(k as u64));
            },
            None => {
                assert(values@.contains(objects@[i as int]@.1));
            },
        }
        out.push(o);
        i += 1;
    }
    out
}

/// Whether `out` already holds an object equal to `o`.
pub(crate) fn holds(out: &Vec<SpaceSetObject>, o: &SpaceSetObject) -> (r: bool)
    ensures
        r == object_views(out@).contains(o@),
{
    let mut i: usize = 0;
    while i < out.len()
        invariant
            i <= out@.len(),
            forall|j: int| 0 <= j < i ==> out@[j]@ != o@,
        decreases out@.len() - i,
    {
        if out[i].same_as(o) {
            assert(object_views(out@)[i as int] == o@);
            return true;
        }
        i += 1;
    }
    false
}

/// The objects with their positions coarsened by `bits` bits, each distinct
/// result once.
pub(crate) fn coarsen(objects: &Vec<SpaceSetObject>, bits: u32) -> (r: Vec<SpaceSetObject>)
    ensures
        object_views(r@).no_duplicates(),
        forall|o: (Seq<u64>, u64)|
            #![trigger object_views(r@).contains(o)]
            object_views(r@).contains(o) <==> coarsened_from(object_views(objects@), bits, o),
{
    let ghost all = object_views(objects@);
    let mut out: Vec<SpaceSetObject> = Vec::new();
    let mut i: usize = 0;
    while i < objects.len()
        invariant
            all == object_views(objects@),
            i <= all.len(),
            object_views(out@).no_duplicates(),
            forall|o: (Seq<u64>, u64)|
                #![trigger object_views(out@).contains(o)]
                object_views(out@).contains(o) <==> coarsened_from(
                    all.subrange(0, i as int),
                    bits,
                    o,
                ),
        decreases all.len() - i,
    {
        let ghost before = object_views(out@);
        let c = SpaceSetObject::new(
            objects[i].position().reduce_precision(bits),
            objects[i].value(),
        );
        if !holds(&out, &c) {
            out.push(c);
            assert(object_views(out@) =~= before.push(c@));
        }
        proof {
            let s0 = all.subrange(0, i as int);
            let s1 = all.subrange(0, i + 1);
            assert(c@ == (reduced_position(s1[i as int].0, bits), s1[i as int].1));
            assert forall|o: (Seq<u64>, u64)|
                object_views(out@).contains(o) <==> coarsened_from(s1, bits, o) by {
                if coarsened_from(s0, bits, o) {
                    let j = choose|j: int|
                        0 <= j < s0.len() && o == (reduced_position(#[trigger] s0[j].0, bits), s0[j].1);
                    assert(s1[j] == s0[j]);
                }
                if coarsened_from(s1, bits, o) {
                    let j = choose|j: int|
                        0 <= j < s1.len() && o == (reduced_position(#[trigger] s1[j].0, bits), s1[j].1);
                    if j < i {
                        assert(s0[j] == s1[j]);
                        assert(coarsened_from(s0, bits, o));
                    }
                }
                if object_views(out@).contains(o) && !before.contains(o) {
                    assert(o == c@);
                }
            }
        }
        i += 1;
    }
    proof {
        lemma_full_prefix(all);
    }
    out
}

/// The first components of `scales`, in ascending order.
pub(crate) fn sorted_firsts(scales: &Vec<Vec<u32>>) -> (r: Vec<u32>)
    requires
        forall|j: int| 0 <= j < scales@.len() ==> (#[trigger] scales@[j])@.len() >= 1,
    ensures
        r@.len() == scales@.len(),
        ascending(r@),
        r@.to_multiset() == scale_bits(scales@).to_multiset(),
{
    let mut out: Vec<u32> = Vec::new();
    let mut i: usize = 0;
    while i < scales.len()
        invariant
            forall|j: int| 0 <= j < scales@.len() ==> (#[trigger] scales@[j])@.len() >= 1,
            i <= scales@.len(),
            out@.len() == i,
            ascending(out@),
            out@.to_multiset() == scale_bits(scales@).subrange(0, i as int).to_multiset(),
        decreases scales@.len() - i,
    {
        let v = scales[i][0];
        let mut p: usize = 0;
        while p < out.len() && out[p] < v
            invariant
                p <= out@.len(),
                forall|j: int| 0 <= j < p ==> out@[j] < v,
            decreases out@.len() - p,
        {
            p += 1;
        }
        let ghost before = out@;
        out.insert(p, v);
        proof {
            assert forall|a: int, b: int| 0 <= a < b < out@.len() implies out@[a] <= out@[b] by {
                if a < p && b > p {
                    assert(out@[b] == before[b - 1]);
                }
                if a > p {
                    assert(out@[a] == before[a - 1]);
                    assert(out@[b] == before[b - 1]);
                }
                if a == p && b > p {
                    assert(out@[b] == before[b - 1]);
                    assert(before[p as int] >= v);
                }
            }
            vstd::seq_lib::to_multiset_insert(before, p as int, v);
            let bits = scale_bits(scales@);
            assert(bits.subrange(0, i + 1) =~= bits.subrange(0, i as int).push(v));
            vstd::seq_lib::to_multiset_build(bits.subrange(0, i as int), v);
        }
        i += 1;
    }
    proof {
        lemma_full_prefix(scale_bits(scales@));
    }
    out
}

/// The bit count of each scale: its first component.
pub open spec fn scale_bits(sc: Seq<Vec<u32>>) -> Seq<u32> {
    sc.map_values(|v: Vec<u32>| v@[0])
}

/// The bit count of each level: the first component of its scale.
pub open spec fn level_bits(levels: Seq<(u32, Seq<u32>, Seq<(Seq<u64>, u64)>)>) -> Seq<u32> {
    levels.map_values(|l: (u32, Seq<u32>, Seq<(Seq<u64>, u64)>)| l.1[0])
}

pub(crate) open spec fn index_bits(levels: Seq<SpaceIndex>) -> Seq<u32> {
    levels.map_values(|l: SpaceIndex| l.scale@[0])
}

/// One level per scale, each scale being the bit count of its first
/// component, in ascending order of bit count.
pub(crate) fn scaled_ladder(
    encoded: &Vec<SpaceSetObject>,
    values: &Vec<u64>,
    objects: Ghost<Seq<(Seq<u64>, u64)>>,
    sc: &Vec<Vec<u32>>,
    dimensions: usize,
) -> (r: Vec<SpaceIndex>)
    requires
        dimensions >= 1,
        encodes(object_views(encoded@), objects@, values@),
        strictly_ascending(values@),
        sc@.len() >= 1,
        forall|j: int| 0 <= j < sc@.len() ==> (#[trigger] sc@[j])@.len() == dimensions,
    ensures
        r@.len() == sc@.len(),
        forall|j: int| 0 <= j < r@.len() ==> built_level(#[trigger] r@[j], objects@, values@, dimensions as nat),
        forall|j: int| 0 <= j < r@.len() ==> (#[trigger] r@[j]).shift == if j < 31 { j } else { 31 },
        forall|i: int, j: int| 0 <= i < j < r@.len() ==> (#[trigger] r@[i]).shift <= (#[trigger] r@[j]).shift,
        forall|i: int, j: int| 0 <= i < j < r@.len() ==> (#[trigger] r@[i]).scale@[0] <= (#[trigger] r@[j]).scale@[0],
        index_bits(r@).to_multiset() == scale_bits(sc@).to_multiset(),
{
    let firsts = sorted_firsts(sc);
    let mut resolutions: Vec<SpaceIndex> = Vec::new();
    let mut i: usize = 0;
    while i < firsts.len()
        invariant
            dimensions >= 1,
            encodes(object_views(encoded@), objects@, values@),
            strictly_ascending(values@),
            firsts@.len() == sc@.len(),
            ascending(firsts@),
            i <= firsts@.len(),
            resolutions@.len() == i,
            forall|j: int| 0 <= j < i ==> built_level(#[trigger] resolutions@[j], objects@, values@, dimensions as nat),
            forall|j: int| 0 <= j < i ==> (#[trigger] resolutions@[j]).shift == if j < 31 { j } else { 31 },
            forall|j: int| 0 <= j < i ==> (#[trigger] resolutions@[j]).scale@[0] == firsts@[j],
        decreases firsts@.len() - i,
    {
        let shift: u32 = if i >= 31 { 31 } else { i as u32 };
        let level = make_level(encoded, values, objects, firsts[i], shift, dimensions);
        resolutions.push(level);
        i += 1;
    }
    proof {
        lemma_full_prefix(scale_bits(sc@));
        assert(index_bits(resolutions@) =~= firsts@);
    }
    resolutions
}

/// The full resolution first, then each further bit dropped that at least
/// halves the objects of the previous level, until a level holds no more than
/// `max_elements` objects, or as many as there are distinct values.
pub(crate) fn counted_ladder(
    encoded: &Vec<SpaceSetObject>,
    values: &Vec<u64>,
    objects: Ghost<Seq<(Seq<u64>, u64)>>,
    max_elements: usize,
    dimensions: usize,
) -> (r: Vec<SpaceIndex>)
    requires
        dimensions >= 1,
        encodes(object_views(encoded@), objects@, values@),
        strictly_ascending(values@),
    ensures
        r@.len() >= 1,
        r@[0].scale@[0] == 0,
        r@[0].shift == 0,
        forall|j: int| 0 <= j < r@.len() ==> built_level(#[trigger] r@[j], objects@, values@, dimensions as nat),
        forall|j: int, k: int| 0 <= j < k < r@.len() ==> (#[trigger] r@[j]).shift <= (#[trigger] r@[k]).shift,
        forall|j: int| 1 <= j < r@.len() ==> (#[trigger] r@[j]).index@.len() <= r@[j - 1].index@.len() / 2
            && r@[j - 1].scale@[0] < r@[j].scale@[0],
{
    let first = make_level(encoded, values, objects, 0, 0, dimensions);
    let most = if max_elements < values.len() { values.len() } else { max_elements };
    let mut target: usize = first.index.len() / 2;
    let mut resolutions: Vec<SpaceIndex> = Vec::new();
    resolutions.push(first);
    let mut count: u32 = 0;
    loop
        invariant
            dimensions >= 1,
            encodes(object_views(encoded@), objects@, values@),
            strictly_ascending(values@),
            resolutions@.len() >= 1,
            resolutions@[0].scale@[0] == 0,
            resolutions@[0].shift == 0,
            forall|j: int| 0 <= j < resolutions@.len() ==> built_level(#[trigger] resolutions@[j], objects@, values@, dimensions as nat),
            forall|j: int, k: int| 0 <= j < k < resolutions@.len() ==> (#[trigger] resolutions@[j]).shift <= (#[trigger] resolutions@[k]).shift,
            forall|j: int| 1 <= j < resolutions@.len() ==> (#[trigger] resolutions@[j]).index@.len() <= resolutions@[j - 1].index@.len() / 2
                && resolutions@[j - 1].scale@[0] < resolutions@[j].scale@[0],
            resolutions@.last().shift <= if count < 31 { count } else { 31 },
            resolutions@.last().scale@[0] <= count,
            target == resolutions@.last().index@.len() / 2,
        decreases u32::MAX - count,
    {
        if count == u32::MAX {
            break;
        }
        let shift: u32 = if count >= 31 { 31 } else { count };
        count += 1;
        let level = make_level(encoded, values, objects, count, shift, dimensions);
        let size = level.index.len();
        if target < size {
            // Past the last bit every position is zero and nothing would
            // change any more.
            if count >= COORDINATE_BITS {
                break;
            }
            continue;
        }
        target = size / 2;
        resolutions.push(level);
        if size <= most {
            break;
        }
    }
    resolutions
}

} // verus!
