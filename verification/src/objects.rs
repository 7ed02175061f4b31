//! The objects the enrichment works on: transit lines and routes with their
//! annotation codes, OSM entities with their shapes, and geometries.
//!
//! Coordinates are held as plain fixed-point integers (nanodegrees); the pass
//! never computes with them, it only copies shapes and tests for emptiness.

use vstd::prelude::*;

use crate::error::{Error, ErrorModel};

verus! {

/// One point of a polyline, latitude and longitude in nanodegrees.
#[derive(Debug, Clone, Copy, PartialEq, Eq, Structural)]
pub struct Point {
    pub lat: i64,
    pub lon: i64,
}

impl View for Point {
    type V = Point;

    open spec fn view(&self) -> Point {
        *self
    }
}

impl DeepView for Point {
    type V = Point;

    open spec fn deep_view(&self) -> Point {
        *self
    }
}

/// Mathematical mirror of an OSM entity.
pub ghost struct OsmModel {
    pub id: Seq<char>,
    pub shape: Seq<Seq<Point>>,
}

/// An OSM line or route as the parsed extract hands it over: an id and a
/// shape, an ordered collection of polylines.
#[derive(Debug)]
pub struct OsmEntity {
    pub id: String,
    pub shape: Vec<Vec<Point>>,
}

impl View for OsmEntity {
    type V = OsmModel;

    open spec fn view(&self) -> OsmModel {
        OsmModel { id: self.id@, shape: self.shape.deep_view() }
    }
}

impl DeepView for OsmEntity {
    type V = OsmModel;

    open spec fn deep_view(&self) -> OsmModel {
        self.view()
    }
}

/// Mathematical mirror of a geometry.
pub ghost struct GeometryModel {
    pub id: Seq<char>,
    pub geometry: Seq<Seq<Point>>,
}

/// A named multi-polyline, created by the pass by copying an OSM shape.
#[derive(Debug)]
pub struct Geometry {
    pub id: String,
    pub geometry: Vec<Vec<Point>>,
}

impl View for Geometry {
    type V = GeometryModel;

    open spec fn view(&self) -> GeometryModel {
        GeometryModel { id: self.id@, geometry: self.geometry.deep_view() }
    }
}

impl DeepView for Geometry {
    type V = GeometryModel;

    open spec fn deep_view(&self) -> GeometryModel {
        self.view()
    }
}

/// Mathematical mirror of a transit entity.
pub ghost struct EntityModel {
    pub id: Seq<char>,
    pub codes: Seq<(Seq<char>, Seq<char>)>,
    pub geometry_id: Option<Seq<char>>,
}

/// Objects a [`crate::collection::CollectionWithId`] can hold: anything with
/// a string id.
pub trait ObjectId: Sized {
    /// The id, as the contracts see it.
    spec fn spec_id(&self) -> Seq<char>;

    /// The id.
    fn id(&self) -> (r: &String)
        ensures
            r@ == self.spec_id(),
    ;
}

/// Objects carrying annotation codes: an unordered multimap of key/value
/// pairs, duplicate keys allowed.
pub trait Codes: Sized {
    /// The codes, as the contracts see them.
    spec fn spec_codes(&self) -> Seq<(Seq<char>, Seq<char>)>;

    /// The codes.
    fn codes(&self) -> (r: &Vec<(String, String)>)
        ensures
            r.deep_view() == self.spec_codes(),
    ;
}

/// Objects that can carry one geometry reference. Setting it twice is an
/// error and leaves the object unchanged.
pub trait WithGeometry: ObjectId + Codes {
    /// The geometry reference, as the contracts see it.
    spec fn spec_geometry_id(&self) -> Option<Seq<char>>;

    /// Records `geometry_id` on the object. Fails, and changes nothing, when
    /// a geometry reference is already present.
    fn set_geometry_id(&mut self, geometry_id: String) -> (r: Result<(), Error>)
        ensures
            match r {
                Ok(()) => {
                    &&& old(self).spec_geometry_id() is None
                    &&& final(self).spec_geometry_id() == Some(geometry_id@)
                    &&& final(self).spec_id() == old(self).spec_id()
                    &&& final(self).spec_codes() == old(self).spec_codes()
                },
                Err(e) => {
                    &&& old(self).spec_geometry_id() is Some
                    &&& *final(self) == *old(self)
                    &&& e@ == (ErrorModel::DuplicateGeometryAssignment {
                        entity_id: old(self).spec_id(),
                    })
                },
            },
    ;
}

/// The model of a transit entity, read off through its traits.
pub open spec fn entity_model<N: WithGeometry>(e: N) -> EntityModel {
    EntityModel { id: e.spec_id(), codes: e.spec_codes(), geometry_id: e.spec_geometry_id() }
}

/// The models of a whole sequence of transit entities.
pub open spec fn models_of<N: WithGeometry>(s: Seq<N>) -> Seq<EntityModel> {
    s.map(|i: int, e: N| entity_model(e))
}

/// A transit line: an id, annotation codes, and an optional geometry
/// reference, initially unset.
#[derive(Debug)]
pub struct Line {
    pub id: String,
    pub codes: Vec<(String, String)>,
    pub geometry_id: Option<String>,
}

/// A transit route: an id, annotation codes, and an optional geometry
/// reference, initially unset.
#[derive(Debug)]
pub struct Route {
    pub id: String,
    pub codes: Vec<(String, String)>,
    pub geometry_id: Option<String>,
}

impl ObjectId for Line {
    open spec fn spec_id(&self) -> Seq<char> {
        self.id@
    }

    fn id(&self) -> (r: &String) {
        &self.id
    }
}

impl Codes for Line {
    open spec fn spec_codes(&self) -> Seq<(Seq<char>, Seq<char>)> {
        self.codes.deep_view()
    }

    fn codes(&self) -> (r: &Vec<(String, String)>) {
        &self.codes
    }
}

impl WithGeometry for Line {
    open spec fn spec_geometry_id(&self) -> Option<Seq<char>> {
        match self.geometry_id {
            Some(ref id) => Some(id@),
            None => None,
        }
    }

    fn set_geometry_id(&mut self, geometry_id: String) -> (r: Result<(), Error>) {
        if self.geometry_id.is_some() {
            Err(
                Error::DuplicateGeometryAssignment {
                    entity_id: self.id.clone(),
                },
            )
        } else {
            self.geometry_id = Some(geometry_id);
            Ok(())
        }
    }
}

impl ObjectId for Route {
    open spec fn spec_id(&self) -> Seq<char> {
        self.id@
    }

    fn id(&self) -> (r: &String) {
        &self.id
    }
}

impl Codes for Route {
    open spec fn spec_codes(&self) -> Seq<(Seq<char>, Seq<char>)> {
        self.codes.deep_view()
    }

    fn codes(&self) -> (r: &Vec<(String, String)>) {
        &self.codes
    }
}

impl WithGeometry for Route {
    open spec fn spec_geometry_id(&self) -> Option<Seq<char>> {
        match self.geometry_id {
            Some(ref id) => Some(id@),
            None => None,
        }
    }

    fn set_geometry_id(&mut self, geometry_id: String) -> (r: Result<(), Error>) {
        if self.geometry_id.is_some() {
            Err(
                Error::DuplicateGeometryAssignment {
                    entity_id: self.id.clone(),
                },
            )
        } else {
            self.geometry_id = Some(geometry_id);
            Ok(())
        }
    }
}

impl ObjectId for Geometry {
    open spec fn spec_id(&self) -> Seq<char> {
        self.id@
    }

    fn id(&self) -> (r: &String) {
        &self.id
    }
}

/// Copies a shape. Written out because the pass must know the copy holds the
/// same points.
pub fn copy_shape(shape: &Vec<Vec<Point>>) -> (r: Vec<Vec<Point>>)
    ensures
        r.deep_view() == shape.deep_view(),
{
    let mut r: Vec<Vec<Point>> = Vec::new();
    let mut i: usize = 0;
    while i < shape.len()
        invariant
            i <= shape.len(),
            r.deep_view() == shape.deep_view().take(i as int),
        decreases shape.len() - i,
    {
        let mut polyline: Vec<Point> = Vec::new();
        let mut j: usize = 0;
        while j < shape[i].len()
            invariant
                i < shape.len(),
                j <= shape[i as int]@.len(),
                polyline@ == shape[i as int]@.take(j as int),
            decreases shape[i as int]@.len() - j,
        {
            polyline.push(shape[i][j]);
            j += 1;
        }
        proof {
            assert(polyline@ =~= shape[i as int]@);
            assert(polyline.deep_view() =~= shape[i as int].deep_view());
        }
        let ghost r_prev = r.deep_view();
        let ghost poly_model = polyline.deep_view();
        proof {
            assert(r_prev.len() == i);
            assert(r@.len() == i);
        }
        r.push(polyline);
        i += 1;
        proof {
            assert(r@.len() == i);
            assert(r.deep_view().len() == i);
            assert forall|k: int| 0 <= k < i implies r.deep_view()[k] == shape.deep_view().take(
                i as int,
            )[k] by {
                if k < i - 1 {
                    assert(r.deep_view()[k] == r_prev[k]);
                } else {
                    assert(r.deep_view()[k] == poly_model);
                }
            }
            assert(r.deep_view() =~= shape.deep_view().take(i as int));
        }
    }
    proof {
        assert(r.deep_view() =~= shape.deep_view());
    }
    r
}

} // verus!
