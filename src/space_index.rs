//! The table of objects that each level of the ladder searches.

use vstd::prelude::*;

use crate::coordinate::Coordinate;
use crate::position::Position;
use crate::seqs::{lemma_filter_step, lemma_full_prefix};
use crate::shape::Shape;

verus! {

broadcast use vstd::seq_lib::group_seq_properties;

/// A point of the index: a position and the value it carries.
#[derive(Clone, Debug)]
pub struct SpaceSetObject {
    position: Position,
    value: Coordinate,
}

impl View for SpaceSetObject {
    type V = (Seq<u64>, u64);

    closed spec fn view(&self) -> (Seq<u64>, u64) {
        (self.position@, self.value.value)
    }
}

/// The position and value of each object of `s`, in order.
pub open spec fn object_views(s: Seq<SpaceSetObject>) -> Seq<(Seq<u64>, u64)> {
    s.map_values(|o: SpaceSetObject| o@)
}

impl SpaceSetObject {
    pub fn new(position: Position, value: Coordinate) -> (r: SpaceSetObject)
        ensures
            r@ == (position@, value.value),
    {
        SpaceSetObject { position, value }
    }

    pub fn position(&self) -> (r: &Position)
        ensures
            r@ == self@.0,
    {
        &self.position
    }

    pub fn value(&self) -> (r: Coordinate)
        ensures
            r.value == self@.1,
    {
        self.value
    }

    pub fn set_value(&mut self, value: Coordinate)
        ensures
            final(self)@ == (old(self)@.0, value.value),
    {
        self.value = value;
    }

    pub fn set_position(&mut self, position: Position)
        ensures
            final(self)@ == (position@, old(self)@.1),
    {
        self.position = position;
    }

    /// A copy of the object.
    pub fn duplicate(&self) -> (r: SpaceSetObject)
        ensures
            r@ == self@,
    {
        SpaceSetObject { position: self.position.duplicate(), value: self.value }
    }

    /// Whether both objects have the same position and the same value.
    pub fn same_as(&self, other: &SpaceSetObject) -> (r: bool)
        ensures
            r == (self@ == other@),
    {
        self.value.value == other.value.value && self.position == other.position
    }
}

/// A table of distinct objects, searched by position, by value or by shape.
#[derive(Clone, Debug)]
pub struct SpaceSetIndex {
    objects: Vec<SpaceSetObject>,
}

impl View for SpaceSetIndex {
    type V = Seq<(Seq<u64>, u64)>;

    closed spec fn view(&self) -> Seq<(Seq<u64>, u64)> {
        object_views(self.objects@)
    }
}

impl SpaceSetIndex {
    /// No object appears twice.
    pub open spec fn wf(&self) -> bool {
        self@.no_duplicates()
    }

    pub fn new(objects: Vec<SpaceSetObject>) -> (r: SpaceSetIndex)
        requires
            object_views(objects@).no_duplicates(),
        ensures
            r@ == object_views(objects@),
            r.wf(),
    {
        SpaceSetIndex { objects }
    }

    /// Number of objects held.
    pub fn len(&self) -> (r: usize)
        ensures
            r == self@.len(),
    {
        self.objects.len()
    }

    /// The objects at exactly `position`.
    pub fn find(&self, position: &Position) -> (r: Vec<SpaceSetObject>)
        requires
            self.wf(),
        ensures
            object_views(r@).no_duplicates(),
            forall|o: (Seq<u64>, u64)| #![trigger object_views(r@).contains(o)] #![trigger self@.contains(o)]
                object_views(r@).contains(o) <==> (self@.contains(o) && o.0 == position@),
    {
        let ghost all = self@;
        let ghost pred = |o: (Seq<u64>, u64)| o.0 == position@;
        let mut out: Vec<SpaceSetObject> = Vec::new();
        let mut i: usize = 0;
        while i < self.objects.len()
            invariant
                all == self@,
                all == object_views(self.objects@),
                all.no_duplicates(),
                i <= all.len(),
                pred == (|o: (Seq<u64>, u64)| o.0 == position@),
                object_views(out@).no_duplicates(),
                forall|x: (Seq<u64>, u64)|
                    object_views(out@).contains(x) <==> (all.subrange(0, i as int).contains(x)
                        && pred(x)),
            decreases all.len() - i,
        {
            let ghost before = object_views(out@);
            if self.objects[i].position == *position {
                out.push(self.objects[i].duplicate());
                assert(object_views(out@) =~= before.push(all[i as int]));
            }
            proof {
                lemma_filter_step(all, before, object_views(out@), i as int, pred);
            }
            i += 1;
        }
        proof {
            lemma_full_prefix(all);
        }
        out
    }

    /// The objects carrying `value`.
    pub fn find_by_value(&self, value: u64) -> (r: Vec<SpaceSetObject>)
        requires
            self.wf(),
        ensures
            object_views(r@).no_duplicates(),
            forall|o: (Seq<u64>, u64)| #![trigger object_views(r@).contains(o)] #![trigger self@.contains(o)]
                object_views(r@).contains(o) <==> (self@.contains(o) && o.1 == value),
    {
        let ghost all = self@;
        let ghost pred = |o: (Seq<u64>, u64)| o.1 == value;
        let mut out: Vec<SpaceSetObject> = Vec::new();
        let mut i: usize = 0;
        while i < self.objects.len()
            invariant
                all == self@,
                all == object_views(self.objects@),
                all.no_duplicates(),
                i <= all.len(),
                pred == (|o: (Seq<u64>, u64)| o.1 == value),
                object_views(out@).no_duplicates(),
                forall|x: (Seq<u64>, u64)|
                    object_views(out@).contains(x) <==> (all.subrange(0, i as int).contains(x)
                        && pred(x)),
            decreases all.len() - i,
        {
            let ghost before = object_views(out@);
            if self.objects[i].value.value == value {
                out.push(self.objects[i].duplicate());
                assert(object_views(out@) =~= before.push(all[i as int]));
            }
            proof {
                lemma_filter_step(all, before, object_views(out@), i as int, pred);
            }
            i += 1;
        }
        proof {
            lemma_full_prefix(all);
        }
        out
    }

    /// The objects at the grid points of `shape` that `view_port`, when
    /// given, also contains; each once.
    pub fn find_by_shape(&self, shape: &Shape, view_port: &Option<Shape>) -> (r: Result<
        Vec<SpaceSetObject>,
        String,
    >)
        requires
            self.wf(),
            shape.wf(),
            view_port is Some ==> view_port->Some_0.wf(),
        ensures
            r is Ok,
            r is Ok ==> object_views(r->Ok_0@).no_duplicates(),
            r is Ok ==> forall|o: (Seq<u64>, u64)| #![trigger object_views(r->Ok_0@).contains(o)] #![trigger self@.contains(o)]
                object_views(r->Ok_0@).contains(o) <==> (self@.contains(o) && shape.covers(o.0)
                    && in_view(view_port, o.0)),
    {
        // Testing each object against the shape gives the same set as
        // looking up each rasterised grid point, without enumerating them.
        let ghost all = self@;
        let ghost pred = |o: (Seq<u64>, u64)| shape.covers(o.0) && in_view(view_port, o.0);
        let mut out: Vec<SpaceSetObject> = Vec::new();
        let mut i: usize = 0;
        while i < self.objects.len()
            invariant
                all == self@,
                all == object_views(self.objects@),
                all.no_duplicates(),
                shape.wf(),
                view_port is Some ==> view_port->Some_0.wf(),
                i <= all.len(),
                pred == (|o: (Seq<u64>, u64)| shape.covers(o.0) && in_view(view_port, o.0)),
                object_views(out@).no_duplicates(),
                forall|x: (Seq<u64>, u64)|
                    object_views(out@).contains(x) <==> (all.subrange(0, i as int).contains(x)
                        && pred(x)),
            decreases all.len() - i,
        {
            let ghost before = object_views(out@);
            let position = self.objects[i].position();
            let keep = shape.contains(position) && match view_port {
                Some(v) => v.contains(position),
                None => true,
            };
            if keep {
                out.push(self.objects[i].duplicate());
                assert(object_views(out@) =~= before.push(all[i as int]));
            }
            proof {
                assert(all[i as int] == self.objects@[i as int]@);
                lemma_filter_step(all, before, object_views(out@), i as int, pred);
            }
            i += 1;
        }
        proof {
            lemma_full_prefix(all);
        }
        Ok(out)
    }
}

/// Whether the optional viewport lets the grid point `p` through.
pub open spec fn in_view(view_port: &Option<Shape>, p: Seq<u64>) -> bool {
    match view_port {
        Some(v) => v.covers(p),
        None => true,
    }
}

/// The objects whose position the optional viewport lets through, in order.
pub fn keep_in_view(objects: Vec<SpaceSetObject>, view_port: &Option<Shape>) -> (r: Vec<
    SpaceSetObject,
>)
    requires
        object_views(objects@).no_duplicates(),
        view_port is Some ==> view_port->Some_0.wf(),
    ensures
        object_views(r@).no_duplicates(),
        forall|o: (Seq<u64>, u64)| #![trigger object_views(r@).contains(o)] #![trigger object_views(objects@).contains(o)]
            object_views(r@).contains(o) <==> (object_views(objects@).contains(o) && in_view(
                view_port,
                o.0,
            )),
{
    let ghost all = object_views(objects@);
    let ghost pred = |o: (Seq<u64>, u64)| in_view(view_port, o.0);
    let mut out: Vec<SpaceSetObject> = Vec::new();
    let mut i: usize = 0;
    while i < objects.len()
        invariant
            all == object_views(objects@),
            all.no_duplicates(),
            i <= all.len(),
            view_port is Some ==> view_port->Some_0.wf(),
            pred == (|o: (Seq<u64>, u64)| in_view(view_port, o.0)),
            object_views(out@).no_duplicates(),
            forall|x: (Seq<u64>, u64)|
                object_views(out@).contains(x) <==> (all.subrange(0, i as int).contains(x)
                    && pred(x)),
        decreases all.len() - i,
    {
        let ghost before = object_views(out@);
        let keep = match view_port {
            Some(v) => v.contains(objects[i].position()),
            None => true,
        };
        if keep {
            out.push(objects[i].duplicate());
            assert(object_views(out@) =~= before.push(all[i as int]));
        }
        proof {
            lemma_filter_step(all, before, object_views(out@), i as int, pred);
        }
        i += 1;
    }
    proof {
        lemma_full_prefix(all);
    }
    out
}

} // verus!
