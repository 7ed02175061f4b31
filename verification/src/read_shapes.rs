//! The shape correlation pass: resolves each transit entity's annotation code
//! against the OSM index, copies the resolved shape into a freshly numbered
//! geometry, and records the geometry id on the entity.

use vstd::prelude::*;

use crate::collection::{ids_unique, is_first_dup, CollectionWithId};
use crate::error::{Error, ErrorModel};
use crate::objects::{
    copy_shape, entity_model, models_of, Codes, EntityModel, Geometry, GeometryModel, Line,
    ObjectId, OsmEntity, OsmModel, Route, WithGeometry,
};
use crate::text::{code_key, code_key_model, geometry_id, geometry_id_model};

verus! {

/// The value of the first code whose key is `key`, if any.
pub open spec fn find_code(codes: Seq<(Seq<char>, Seq<char>)>, key: Seq<char>) -> Option<Seq<char>>
    decreases codes.len(),
{
    if codes.len() == 0 {
        None
    } else if codes[0].0 == key {
        Some(codes[0].1)
    } else {
        find_code(codes.drop_first(), key)
    }
}

/// What an index lookup returns: the last entry carrying the wanted id.
/// Later entries of one id shadow earlier ones, as repeated insertions into a
/// map would.
pub open spec fn index_lookup(entries: Seq<OsmModel>, id: Seq<char>) -> Option<OsmModel>
    decreases entries.len(),
{
    if entries.len() == 0 {
        None
    } else if entries.last().id == id {
        Some(entries.last())
    } else {
        index_lookup(entries.drop_last(), id)
    }
}

/// A lookup table of OSM entities of one kind, keyed by id.
#[derive(Debug)]
pub struct OsmIndex {
    entries: Vec<OsmEntity>,
}

impl View for OsmIndex {
    type V = Seq<OsmModel>;

    closed spec fn view(&self) -> Seq<OsmModel> {
        self.entries.deep_view()
    }
}

/// Builds the index for one kind of OSM entity. Fails when the extract holds
/// no list of that kind at all (an empty list is fine).
pub fn osm_objects_by_id(osm_objects: Option<Vec<OsmEntity>>, object_type: &str) -> (r: Result<
    OsmIndex,
    Error,
>)
    ensures
        match r {
            Ok(ix) => osm_objects is Some && ix@ == osm_objects->0.deep_view(),
            Err(e) => osm_objects is None && e@ == (ErrorModel::MissingOsmCollection {
                object_type: object_type@,
            }),
        },
{
    match osm_objects {
        Some(entries) => Ok(OsmIndex { entries }),
        None => Err(
            Error::MissingOsmCollection { object_type: String::from_str(object_type) },
        ),
    }
}

impl OsmIndex {
    /// The entry carrying `id`; when several do, the last one.
    pub fn lookup(&self, id: &String) -> (r: Option<&OsmEntity>)
        ensures
            match r {
                Some(o) => index_lookup(self@, id@) == Some(o.deep_view()),
                None => index_lookup(self@, id@) is None,
            },
    {
        let n = self.entries.len();
        let mut i: usize = n;
        proof {
            assert(self@.take(n as int) =~= self@);
        }
        while i > 0
            invariant
                n == self@.len(),
                n == self.entries@.len(),
                i <= n,
                index_lookup(self@, id@) == index_lookup(self@.take(i as int), id@),
            decreases i,
        {
            i -= 1;
            proof {
                assert(self@[i as int] == self.entries@[i as int].deep_view());
                assert(self@.take(i + 1).last() == self@[i as int]);
            }
            if self.entries[i].id == *id {
                return Some(&self.entries[i]);
            }
            proof {
                assert(self@.take(i + 1).drop_last() =~= self@.take(i as int));
            }
        }
        proof {
            assert(self@.take(0) =~= Seq::<OsmModel>::empty());
        }
        None
    }
}

/// The value of the first code of `obj` whose key is `key`, if any.
pub fn find_code_value<'a, N: Codes>(obj: &'a N, key: &String) -> (r: Option<&'a String>)
    ensures
        match r {
            Some(v) => find_code(obj.spec_codes(), key@) == Some(v@),
            None => find_code(obj.spec_codes(), key@) is None,
        },
{
    let codes = obj.codes();
    let n = codes.len();
    let mut i: usize = 0;
    proof {
        assert(obj.spec_codes().skip(0) =~= obj.spec_codes());
    }
    while i < n
        invariant
            n == codes@.len(),
            codes.deep_view() == obj.spec_codes(),
            i <= n,
            find_code(obj.spec_codes(), key@) == find_code(
                obj.spec_codes().skip(i as int),
                key@,
            ),
        decreases n - i,
    {
        proof {
            assert(obj.spec_codes()[i as int] == codes@[i as int].deep_view());
            assert(obj.spec_codes().skip(i as int)[0] == obj.spec_codes()[i as int]);
        }
        if codes[i].0 == *key {
            return Some(&codes[i].1);
        }
        proof {
            assert(obj.spec_codes().skip(i as int).drop_first() =~= obj.spec_codes().skip(
                i + 1,
            ));
        }
        i += 1;
    }
    proof {
        assert(obj.spec_codes().skip(n as int) =~= Seq::<(Seq<char>, Seq<char>)>::empty());
    }
    None
}

/// Mathematical mirror of an [`EmptyShapeWarning`].
pub ghost struct WarningModel {
    pub entity_id: Seq<char>,
    pub osm_id: Seq<char>,
}

/// A recovered data-quality problem: the entity's code resolved, but the OSM
/// entity holds no points. The entity is skipped and the pass continues; the
/// caller decides how to report it.
#[derive(Debug, PartialEq, Eq)]
pub struct EmptyShapeWarning {
    pub entity_id: String,
    pub osm_id: String,
}

impl View for EmptyShapeWarning {
    type V = WarningModel;

    open spec fn view(&self) -> WarningModel {
        WarningModel { entity_id: self.entity_id@, osm_id: self.osm_id@ }
    }
}

impl DeepView for EmptyShapeWarning {
    type V = WarningModel;

    open spec fn deep_view(&self) -> WarningModel {
        self.view()
    }
}

/// Everything one pass produces on success: the entities in their original
/// order, the geometries created for them, and the warnings, both in
/// processing order.
pub ghost struct PassModel {
    pub entities: Seq<EntityModel>,
    pub geometries: Seq<GeometryModel>,
    pub warnings: Seq<WarningModel>,
}

/// Prepends what the first entity contributed to the outcome of the rest of
/// a pass.
pub open spec fn pass_cons(
    e: EntityModel,
    g: Option<GeometryModel>,
    w: Option<WarningModel>,
    rest: Result<PassModel, ErrorModel>,
) -> Result<PassModel, ErrorModel> {
    match rest {
        Ok(p) => Ok(
            PassModel {
                entities: seq![e] + p.entities,
                geometries: (match g {
                    Some(gg) => seq![gg] + p.geometries,
                    None => p.geometries,
                }),
                warnings: (match w {
                    Some(ww) => seq![ww] + p.warnings,
                    None => p.warnings,
                }),
            },
        ),
        Err(er) => Err(er),
    }
}

/// One correlation pass over `entities`, in order, with the match counter
/// already at `counter` (`0` at the start of a kind's pass).
///
/// An entity without the kind's code is kept as it is. A code that the index
/// does not resolve aborts the pass. A resolved but empty shape yields a
/// warning and keeps the entity as it is; the counter still advances. A
/// resolved non-empty shape yields a geometry named after the kind and the
/// 1-based counter, recorded on the entity — unless the entity already
/// carries a geometry reference, which aborts the pass.
pub open spec fn shapes_pass(
    entities: Seq<EntityModel>,
    index: Seq<OsmModel>,
    object_type: Seq<char>,
    counter: nat,
) -> Result<PassModel, ErrorModel>
    decreases entities.len(),
{
    if entities.len() == 0 {
        Ok(
            PassModel {
                entities: Seq::empty(),
                geometries: Seq::empty(),
                warnings: Seq::empty(),
            },
        )
    } else {
        let e = entities[0];
        let rest = entities.drop_first();
        match find_code(e.codes, code_key_model(object_type)) {
            None => pass_cons(e, None, None, shapes_pass(rest, index, object_type, counter)),
            Some(osm_id) => match index_lookup(index, osm_id) {
                None => Err(ErrorModel::UnresolvedReference { osm_id }),
                Some(o) => if o.shape.len() == 0 {
                    pass_cons(
                        e,
                        None,
                        Some(WarningModel { entity_id: e.id, osm_id: o.id }),
                        shapes_pass(rest, index, object_type, counter + 1),
                    )
                } else if e.geometry_id is Some {
                    Err(ErrorModel::DuplicateGeometryAssignment { entity_id: e.id })
                } else {
                    pass_cons(
                        EntityModel {
                            geometry_id: Some(geometry_id_model(object_type, counter + 1)),
                            ..e
                        },
                        Some(
                            GeometryModel {
                                id: geometry_id_model(object_type, counter + 1),
                                geometry: o.shape,
                            },
                        ),
                        None,
                        shapes_pass(rest, index, object_type, counter + 1),
                    )
                },
            },
        }
    }
}

/// On success a pass returns as many entities as it was given, each with its
/// id and codes unchanged.
pub proof fn lemma_shapes_pass_entities(
    entities: Seq<EntityModel>,
    index: Seq<OsmModel>,
    object_type: Seq<char>,
    counter: nat,
)
    ensures
        shapes_pass(entities, index, object_type, counter) matches Ok(p) ==> {
            &&& p.entities.len() == entities.len()
            &&& forall|i: int|
                0 <= i < entities.len() ==> (#[trigger] p.entities[i]).id == entities[i].id
                    && p.entities[i].codes == entities[i].codes
        },
    decreases entities.len(),
{
    if entities.len() > 0 {
        let rest = entities.drop_first();
        lemma_shapes_pass_entities(rest, index, object_type, counter);
        lemma_shapes_pass_entities(rest, index, object_type, counter + 1);
        if shapes_pass(entities, index, object_type, counter) is Ok {
            let p = shapes_pass(entities, index, object_type, counter)->Ok_0;
            assert forall|i: int|
                0 <= i < entities.len() implies (#[trigger] p.entities[i]).id == entities[i].id
                && p.entities[i].codes == entities[i].codes by {
                if i > 0 {
                    assert(entities[i] == rest[i - 1]);
                }
            }
        }
    }
}

/// Runs the pass for one kind: detaches the entities, resolves each coded
/// one, appends new geometries and warnings, and rebuilds the collection,
/// re-validating id uniqueness.
pub fn populate_shapes_for_collection<N: WithGeometry>(
    geometries: &mut Vec<Geometry>,
    ntfs_objects: &mut CollectionWithId<N>,
    osm_objects: &OsmIndex,
    object_type: &str,
    warnings: &mut Vec<EmptyShapeWarning>,
) -> (r: Result<CollectionWithId<N>, Error>)
    requires
        old(ntfs_objects).inv(),
    ensures
        final(ntfs_objects)@ == Seq::<N>::empty(),
        ({
            let pass = shapes_pass(
                models_of(old(ntfs_objects)@),
                osm_objects@,
                object_type@,
                0,
            );
            match r {
                Ok(c) => pass matches Ok(p) && {
                    &&& models_of(c@) == p.entities
                    &&& c.inv()
                    &&& final(geometries).deep_view() == old(geometries).deep_view()
                        + p.geometries
                    &&& final(warnings).deep_view() == old(warnings).deep_view() + p.warnings
                },
                Err(e) => {
                    &&& pass == Err::<PassModel, ErrorModel>(e@)
                    &&& old(geometries).deep_view().is_prefix_of(final(geometries).deep_view())
                    &&& old(warnings).deep_view().is_prefix_of(final(warnings).deep_view())
                },
            }
        }),
{
    let ghost orig = models_of(ntfs_objects@);
    let ghost ix = osm_objects@;
    let ghost ot = object_type@;
    let ghost g0 = geometries.deep_view();
    let ghost w0 = warnings.deep_view();
    let mut objects = ntfs_objects.take();
    let key = code_key(object_type);
    let total = objects.len();
    let mut rebuilt: Vec<N> = Vec::new();
    let mut counter: u64 = 0;
    proof {
        assert(orig.len() == objects@.len());
        assert(total <= usize::MAX);
        assert(models_of(objects@) =~= orig);
        assert(models_of(rebuilt@) =~= Seq::<EntityModel>::empty());
        assert(geometries.deep_view().skip(g0.len() as int) =~= Seq::<GeometryModel>::empty());
        assert(warnings.deep_view().skip(w0.len() as int) =~= Seq::<WarningModel>::empty());
        assert(g0.is_prefix_of(geometries.deep_view()));
        if shapes_pass(models_of(objects@), ix, ot, 0) is Ok {
            let p = shapes_pass(models_of(objects@), ix, ot, 0)->Ok_0;
            assert(Seq::<EntityModel>::empty() + p.entities =~= p.entities);
            assert(Seq::<GeometryModel>::empty() + p.geometries =~= p.geometries);
            assert(Seq::<WarningModel>::empty() + p.warnings =~= p.warnings);
            assert(PassModel {
                entities: models_of(rebuilt@) + p.entities,
                geometries: geometries.deep_view().skip(g0.len() as int) + p.geometries,
                warnings: warnings.deep_view().skip(w0.len() as int) + p.warnings,
            } == p);
        }
    }
    while objects.len() > 0
        invariant
            rebuilt@.len() + objects@.len() == orig.len(),
            orig.len() <= usize::MAX,
            counter <= rebuilt@.len(),
            key@ == code_key_model(ot),
            ix == osm_objects@,
            ot == object_type@,
            orig == models_of(old(ntfs_objects)@),
            ntfs_objects@ == Seq::<N>::empty(),
            g0 == old(geometries).deep_view(),
            w0 == old(warnings).deep_view(),
            g0.is_prefix_of(geometries.deep_view()),
            w0.is_prefix_of(warnings.deep_view()),
            match shapes_pass(models_of(objects@), ix, ot, counter as nat) {
                Ok(p) => shapes_pass(orig, ix, ot, 0) == Ok::<PassModel, ErrorModel>(
                    PassModel {
                        entities: models_of(rebuilt@) + p.entities,
                        geometries: geometries.deep_view().skip(g0.len() as int) + p.geometries,
                        warnings: warnings.deep_view().skip(w0.len() as int) + p.warnings,
                    },
                ),
                Err(e) => shapes_pass(orig, ix, ot, 0) == Err::<PassModel, ErrorModel>(e),
            },
        decreases objects@.len(),
    {
        let ghost pre = models_of(objects@);
        let ghost rebuilt_pre = models_of(rebuilt@);
        let ghost gpre = geometries.deep_view().skip(g0.len() as int);
        let ghost wpre = warnings.deep_view().skip(w0.len() as int);
        let ghost c0 = counter as nat;
        let mut obj = objects.remove(0);
        let ghost em = entity_model(obj);
        proof {
            assert(pre[0] == em);
            assert(models_of(objects@) =~= pre.drop_first());
        }
        match find_code_value(&obj, &key) {
            None => {
                rebuilt.push(obj);
                proof {
                    assert(shapes_pass(pre, ix, ot, c0) == pass_cons(
                        em,
                        None,
                        None,
                        shapes_pass(pre.drop_first(), ix, ot, c0),
                    ));
                    assert(models_of(rebuilt@) =~= rebuilt_pre.push(em));
                    if shapes_pass(pre.drop_first(), ix, ot, c0) is Ok {
                        let p2 = shapes_pass(pre.drop_first(), ix, ot, c0)->Ok_0;
                        assert(rebuilt_pre + (seq![em] + p2.entities) =~= models_of(rebuilt@)
                            + p2.entities);
                    }
                }
            },
            Some(v) => {
                let osm_obj_id = v.clone();
                counter += 1;
                match osm_objects.lookup(&osm_obj_id) {
                    None => {
                        proof {
                            assert(shapes_pass(pre, ix, ot, c0) == Err::<PassModel, ErrorModel>(
                                ErrorModel::UnresolvedReference { osm_id: osm_obj_id@ },
                            ));
                        }
                        return Err(Error::UnresolvedReference { osm_id: osm_obj_id });
                    },
                    Some(osm_object) => {
                        let ghost om = osm_object.deep_view();
                        if osm_object.shape.len() == 0 {
                            let warning = EmptyShapeWarning {
                                entity_id: obj.id().clone(),
                                osm_id: osm_object.id.clone(),
                            };
                            let ghost wm = warning@;
                            warnings.push(warning);
                            rebuilt.push(obj);
                            proof {
                                assert(om.shape.len() == 0);
                                assert(wm == (WarningModel { entity_id: em.id, osm_id: om.id }));
                                assert(shapes_pass(pre, ix, ot, c0) == pass_cons(
                                    em,
                                    None,
                                    Some(wm),
                                    shapes_pass(pre.drop_first(), ix, ot, c0 + 1),
                                ));
                                assert(models_of(rebuilt@) =~= rebuilt_pre.push(em));
                                assert(warnings.deep_view().skip(w0.len() as int) =~= wpre.push(
                                    wm,
                                ));
                                if shapes_pass(pre.drop_first(), ix, ot, c0 + 1) is Ok {
                                    let p2 = shapes_pass(pre.drop_first(), ix, ot, c0 + 1)->Ok_0;
                                    assert(rebuilt_pre + (seq![em] + p2.entities) =~= models_of(
                                        rebuilt@,
                                    ) + p2.entities);
                                    assert(wpre + (seq![wm] + p2.warnings) =~= warnings.deep_view()
                                        .skip(w0.len() as int) + p2.warnings);
                                }
                            }
                        } else {
                            let geo_id = geometry_id(object_type, counter);
                            match obj.set_geometry_id(geo_id.clone()) {
                                Err(err) => {
                                    proof {
                                        assert(em.geometry_id is Some);
                                        assert(shapes_pass(pre, ix, ot, c0) == Err::<
                                            PassModel,
                                            ErrorModel,
                                        >(
                                            ErrorModel::DuplicateGeometryAssignment {
                                                entity_id: em.id,
                                            },
                                        ));
                                    }
                                    return Err(err);
                                },
                                Ok(()) => {
                                    let geometry = Geometry {
                                        id: geo_id,
                                        geometry: copy_shape(&osm_object.shape),
                                    };
                                    let ghost gm = geometry@;
                                    geometries.push(geometry);
                                    rebuilt.push(obj);
                                    proof {
                                        assert(om.shape.len() > 0);
                                        assert(em.geometry_id is None);
                                        let em2 = EntityModel {
                                            geometry_id: Some(geometry_id_model(ot, c0 + 1)),
                                            ..em
                                        };
                                        assert(entity_model(obj) == em2);
                                        assert(gm == (GeometryModel {
                                            id: geometry_id_model(ot, c0 + 1),
                                            geometry: om.shape,
                                        }));
                                        assert(shapes_pass(pre, ix, ot, c0) == pass_cons(
                                            em2,
                                            Some(gm),
                                            None,
                                            shapes_pass(pre.drop_first(), ix, ot, c0 + 1),
                                        ));
                                        assert(models_of(rebuilt@) =~= rebuilt_pre.push(em2));
                                        if shapes_pass(pre.drop_first(), ix, ot, c0 + 1) is Ok {
                                            let p2 = shapes_pass(pre.drop_first(), ix, ot, c0 + 1)->Ok_0;
                                            assert(rebuilt_pre + (seq![em2] + p2.entities)
                                                =~= models_of(rebuilt@) + p2.entities);
                                            assert(gpre + (seq![gm] + p2.geometries)
                                                =~= geometries.deep_view().skip(g0.len() as int)
                                                + p2.geometries);
                                        }
                                    }
                                },
                            }
                        }
                    },
                }
            },
        }
    }
    proof {
        assert(models_of(objects@) =~= Seq::<EntityModel>::empty());
        let p_end = shapes_pass(models_of(objects@), ix, ot, counter as nat)->Ok_0;
        assert(models_of(rebuilt@) + p_end.entities =~= models_of(rebuilt@));
        assert(geometries.deep_view().skip(g0.len() as int) + p_end.geometries
            =~= geometries.deep_view().skip(g0.len() as int));
        assert(warnings.deep_view().skip(w0.len() as int) + p_end.warnings =~= warnings.deep_view()
            .skip(w0.len() as int));
        let p = shapes_pass(orig, ix, ot, 0)->Ok_0;
        assert(p.entities == models_of(rebuilt@));
        lemma_shapes_pass_entities(orig, ix, ot, 0);
        assert forall|a: int, b: int|
            0 <= a < b < rebuilt@.len() implies rebuilt@[a].spec_id() != rebuilt@[b].spec_id() by {
            assert(models_of(rebuilt@)[a].id == rebuilt@[a].spec_id());
            assert(models_of(rebuilt@)[b].id == rebuilt@[b].spec_id());
            assert(orig[a].id == old(ntfs_objects)@[a].spec_id());
            assert(orig[b].id == old(ntfs_objects)@[b].spec_id());
        }
        assert(ids_unique(rebuilt@));
        assert(geometries.deep_view() =~= g0 + geometries.deep_view().skip(g0.len() as int));
        assert(warnings.deep_view() =~= w0 + warnings.deep_view().skip(w0.len() as int));
    }
    match CollectionWithId::new(rebuilt) {
        Ok(c) => Ok(c),
        Err(e) => {
            proof {
                assert(false);
            }
            Err(e)
        },
    }
}

/// The models of a sequence of geometries.
pub open spec fn geometry_models(s: Seq<Geometry>) -> Seq<GeometryModel> {
    s.map(|i: int, g: Geometry| g@)
}

/// All geometry ids of `s` are pairwise distinct.
pub open spec fn geometry_ids_unique(s: Seq<GeometryModel>) -> bool {
    forall|i: int, j: int| 0 <= i < j < s.len() ==> s[i].id != s[j].id
}

/// Some earlier geometry of `s` shares `s[j]`'s id.
pub open spec fn geometry_dup_before(s: Seq<GeometryModel>, j: int) -> bool {
    exists|i: int| 0 <= i < j && s[i].id == s[j].id
}

/// `j` is the first position whose geometry id already appeared.
pub open spec fn geometry_is_first_dup(s: Seq<GeometryModel>, j: int) -> bool {
    &&& 0 <= j < s.len()
    &&& geometry_dup_before(s, j)
    &&& forall|k: int| 0 <= k < j ==> !geometry_dup_before(s, k)
}

/// There is at most one first duplicate position.
pub proof fn lemma_geometry_first_dup_unique(s: Seq<GeometryModel>, j1: int, j2: int)
    requires
        geometry_is_first_dup(s, j1),
        geometry_is_first_dup(s, j2),
    ensures
        j1 == j2,
{
    if j1 < j2 {
        assert(!geometry_dup_before(s, j1));
    }
    if j2 < j1 {
        assert(!geometry_dup_before(s, j2));
    }
}

/// The dataset's collection store, as far as the enrichment touches it.
#[derive(Debug)]
pub struct Collections {
    pub lines: CollectionWithId<Line>,
    pub routes: CollectionWithId<Route>,
    pub geometries: CollectionWithId<Geometry>,
}

/// Mathematical mirror of [`Collections`].
pub ghost struct CollectionsModel {
    pub lines: Seq<EntityModel>,
    pub routes: Seq<EntityModel>,
    pub geometries: Seq<GeometryModel>,
}

impl Collections {
    /// Every container holds pairwise-distinct ids.
    pub open spec fn inv(&self) -> bool {
        self.lines.inv() && self.routes.inv() && self.geometries.inv()
    }

    /// The store, as the contracts see it.
    pub open spec fn model(&self) -> CollectionsModel {
        CollectionsModel {
            lines: models_of(self.lines@),
            routes: models_of(self.routes@),
            geometries: geometry_models(self.geometries@),
        }
    }
}

/// A parsed OSM extract: per kind, an optional list of entities. An absent
/// list means the extract held no collection of that kind at all, which is
/// itself an error; an empty list is fine.
#[derive(Debug)]
pub struct OsmExtract {
    pub lines: Option<Vec<OsmEntity>>,
    pub routes: Option<Vec<OsmEntity>>,
}

impl OsmExtract {
    /// The line list, as the contracts see it.
    pub open spec fn lines_model(&self) -> Option<Seq<OsmModel>> {
        self.lines.deep_view()
    }

    /// The route list, as the contracts see it.
    pub open spec fn routes_model(&self) -> Option<Seq<OsmModel>> {
        self.routes.deep_view()
    }
}

/// The whole enrichment: both indices are built, the line pass runs, then
/// the route pass, and the combined geometry sequence is re-validated for id
/// uniqueness (pre-existing geometries are data of unknown quality).
pub open spec fn enrich_model(
    m: CollectionsModel,
    osm_lines: Option<Seq<OsmModel>>,
    osm_routes: Option<Seq<OsmModel>>,
) -> Result<(CollectionsModel, Seq<WarningModel>), ErrorModel> {
    match osm_lines {
        None => Err(ErrorModel::MissingOsmCollection { object_type: "lines"@ }),
        Some(li) => match osm_routes {
            None => Err(ErrorModel::MissingOsmCollection { object_type: "routes"@ }),
            Some(ri) => match shapes_pass(m.lines, li, "line"@, 0) {
                Err(e) => Err(e),
                Ok(pl) => match shapes_pass(m.routes, ri, "route"@, 0) {
                    Err(e) => Err(e),
                    Ok(pr) => {
                        let geoms = m.geometries + pl.geometries + pr.geometries;
                        if geometry_ids_unique(geoms) {
                            Ok(
                                (
                                    CollectionsModel {
                                        lines: pl.entities,
                                        routes: pr.entities,
                                        geometries: geoms,
                                    },
                                    pl.warnings + pr.warnings,
                                ),
                            )
                        } else {
                            Err(
                                ErrorModel::DuplicateIdentifier {
                                    id: geoms[choose|j: int| geometry_is_first_dup(geoms, j)].id,
                                },
                            )
                        }
                    },
                },
            },
        },
    }
}

/// Enriches the store with the shapes of an already-parsed OSM extract:
/// builds both indices, detaches the geometry collection, runs the pass for
/// lines then for routes, and commits everything back.
///
/// On a hard failure the store keeps whatever partial mutation already
/// landed (a taken collection stays empty); the error itself is exactly the
/// one `enrich_model` gives.
pub fn from_osm(objects: OsmExtract, collections: &mut Collections, warnings: &mut Vec<
    EmptyShapeWarning,
>) -> (r: Result<(), Error>)
    requires
        old(collections).inv(),
    ensures
        ({
            let outcome = enrich_model(
                old(collections).model(),
                objects.lines_model(),
                objects.routes_model(),
            );
            match r {
                Ok(()) => outcome matches Ok(o) && {
                    &&& final(collections).model() == o.0
                    &&& final(collections).inv()
                    &&& final(warnings).deep_view() == old(warnings).deep_view() + o.1
                },
                Err(e) => {
                    &&& outcome == Err::<(CollectionsModel, Seq<WarningModel>), ErrorModel>(e@)
                    &&& old(warnings).deep_view().is_prefix_of(final(warnings).deep_view())
                },
            }
        }),
{
    let ghost m0 = collections.model();
    let ghost w0 = warnings.deep_view();
    let osm_lines_by_id = match osm_objects_by_id(objects.lines, "lines") {
        Ok(ix) => ix,
        Err(e) => {
            return Err(e);
        },
    };
    let osm_routes_by_id = match osm_objects_by_id(objects.routes, "routes") {
        Ok(ix) => ix,
        Err(e) => {
            return Err(e);
        },
    };
    let mut geometries = collections.geometries.take();
    proof {
        assert(geometries.deep_view() =~= m0.geometries);
    }
    let new_lines = match populate_shapes_for_collection(
        &mut geometries,
        &mut collections.lines,
        &osm_lines_by_id,
        "line",
        warnings,
    ) {
        Ok(c) => c,
        Err(e) => {
            return Err(e);
        },
    };
    collections.lines = new_lines;
    let ghost pl = shapes_pass(m0.lines, osm_lines_by_id@, "line"@, 0)->Ok_0;
    let new_routes = match populate_shapes_for_collection(
        &mut geometries,
        &mut collections.routes,
        &osm_routes_by_id,
        "route",
        warnings,
    ) {
        Ok(c) => c,
        Err(e) => {
            return Err(e);
        },
    };
    collections.routes = new_routes;
    let ghost pr = shapes_pass(m0.routes, osm_routes_by_id@, "route"@, 0)->Ok_0;
    let ghost combined = m0.geometries + pl.geometries + pr.geometries;
    proof {
        assert(geometries.deep_view() =~= combined);
        assert(geometry_models(geometries@) =~= geometries.deep_view());
        assert forall|j: int| 0 <= j < geometries@.len() implies geometry_models(
            geometries@,
        )[j].id == geometries@[j].spec_id() by {}
        assert forall|j: int|
            #![trigger geometry_dup_before(combined, j)]
            #![trigger crate::collection::dup_before(geometries@, j)]
            0 <= j < geometries@.len() implies (geometry_dup_before(combined, j)
            <==> crate::collection::dup_before(geometries@, j)) by {
            if geometry_dup_before(combined, j) {
                let i = choose|i: int| 0 <= i < j && combined[i].id == combined[j].id;
                assert(geometries@[i].spec_id() == geometries@[j].spec_id());
                assert(crate::collection::dup_before(geometries@, j));
            }
            if crate::collection::dup_before(geometries@, j) {
                let i = choose|i: int|
                    0 <= i < j && geometries@[i].spec_id() == geometries@[j].spec_id();
                assert(combined[i].id == combined[j].id);
                assert(geometry_dup_before(combined, j));
            }
        }
    }
    match CollectionWithId::new(geometries) {
        Ok(c) => {
            collections.geometries = c;
            proof {
                assert(geometry_ids_unique(combined)) by {
                    assert forall|i: int, j: int|
                        0 <= i < j < combined.len() implies combined[i].id != combined[j].id by {
                        assert(geometries@[i].spec_id() != geometries@[j].spec_id());
                    }
                }
                assert(geometry_models(collections.geometries@) =~= combined);
                assert(final(warnings).deep_view() =~= w0 + (pl.warnings + pr.warnings));
            }
            Ok(())
        },
        Err(e) => {
            proof {
                let jc = choose|j: int| is_first_dup(geometries@, j);
                assert(is_first_dup(geometries@, jc));
                assert(geometry_is_first_dup(combined, jc));
                assert(!geometry_ids_unique(combined)) by {
                    assert(geometry_dup_before(combined, jc));
                }
                let jg = choose|j: int| geometry_is_first_dup(combined, j);
                assert(geometry_is_first_dup(combined, jg));
                lemma_geometry_first_dup_unique(combined, jc, jg);
                assert(combined[jg].id == geometries@[jc].spec_id());
            }
            Err(e)
        },
    }
}

} // verus!
