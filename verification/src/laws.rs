//! What holds of a correlation pass as a whole: entities without a code are
//! untouched, matched entities get exactly one geometry with the expected
//! number, unresolved references and repeated assignments abort, empty
//! shapes only warn, and a second pass over enriched output fails.

use vstd::prelude::*;

use crate::error::ErrorModel;
use crate::objects::{EntityModel, GeometryModel, OsmModel};
use crate::read_shapes::{
    enrich_model, find_code, geometry_ids_unique, index_lookup, shapes_pass, CollectionsModel,
    PassModel, WarningModel,
};
use crate::text::{code_key_model, geometry_id_model, lemma_geometry_id_injective};

verus! {

/// The entity carries the kind's annotation code.
pub open spec fn matched(e: EntityModel, object_type: Seq<char>) -> bool {
    find_code(e.codes, code_key_model(object_type)) is Some
}

/// The OSM entity the entity's code resolves to, unchecked.
pub open spec fn resolved_of(e: EntityModel, index: Seq<OsmModel>, object_type: Seq<char>) -> Option<
    OsmModel,
> {
    index_lookup(index, find_code(e.codes, code_key_model(object_type))->0)
}

/// The entity carries the code, but the index does not resolve it.
pub open spec fn unresolved(e: EntityModel, index: Seq<OsmModel>, object_type: Seq<char>) -> bool {
    matched(e, object_type) && resolved_of(e, index, object_type) is None
}

/// The entity's code resolves to an OSM entity with a non-empty shape.
pub open spec fn resolves_nonempty(
    e: EntityModel,
    index: Seq<OsmModel>,
    object_type: Seq<char>,
) -> bool {
    matched(e, object_type) && match resolved_of(e, index, object_type) {
        Some(o) => o.shape.len() > 0,
        None => false,
    }
}

/// The entity's code resolves to an OSM entity with an empty shape.
pub open spec fn resolves_empty(
    e: EntityModel,
    index: Seq<OsmModel>,
    object_type: Seq<char>,
) -> bool {
    matched(e, object_type) && match resolved_of(e, index, object_type) {
        Some(o) => o.shape.len() == 0,
        None => false,
    }
}

/// Processing this entity aborts the pass.
pub open spec fn hard_fails(e: EntityModel, index: Seq<OsmModel>, object_type: Seq<char>) -> bool {
    unresolved(e, index, object_type) || (resolves_nonempty(e, index, object_type)
        && e.geometry_id is Some)
}

/// How many of the first `n` entities carry the kind's code.
pub open spec fn matched_upto(entities: Seq<EntityModel>, object_type: Seq<char>, n: int) -> nat
    decreases n,
{
    if n <= 0 {
        0
    } else {
        matched_upto(entities, object_type, n - 1) + (if matched(entities[n - 1], object_type) {
            1nat
        } else {
            0nat
        })
    }
}

/// How many of the first `n` entities get a geometry.
pub open spec fn created_upto(
    entities: Seq<EntityModel>,
    index: Seq<OsmModel>,
    object_type: Seq<char>,
    n: int,
) -> nat
    decreases n,
{
    if n <= 0 {
        0
    } else {
        created_upto(entities, index, object_type, n - 1) + (if resolves_nonempty(
            entities[n - 1],
            index,
            object_type,
        ) {
            1nat
        } else {
            0nat
        })
    }
}

/// How many of the first `n` entities only warn.
pub open spec fn warned_upto(
    entities: Seq<EntityModel>,
    index: Seq<OsmModel>,
    object_type: Seq<char>,
    n: int,
) -> nat
    decreases n,
{
    if n <= 0 {
        0
    } else {
        warned_upto(entities, index, object_type, n - 1) + (if resolves_empty(
            entities[n - 1],
            index,
            object_type,
        ) {
            1nat
        } else {
            0nat
        })
    }
}

/// Dropping the first entity shifts each count by that entity's own
/// contribution.
proof fn lemma_counts_shift(
    entities: Seq<EntityModel>,
    index: Seq<OsmModel>,
    object_type: Seq<char>,
    n: int,
)
    requires
        1 <= n <= entities.len(),
    ensures
        matched_upto(entities, object_type, n) == matched_upto(
            entities.drop_first(),
            object_type,
            n - 1,
        ) + (if matched(entities[0], object_type) {
            1nat
        } else {
            0nat
        }),
        created_upto(entities, index, object_type, n) == created_upto(
            entities.drop_first(),
            index,
            object_type,
            n - 1,
        ) + (if resolves_nonempty(entities[0], index, object_type) {
            1nat
        } else {
            0nat
        }),
        warned_upto(entities, index, object_type, n) == warned_upto(
            entities.drop_first(),
            index,
            object_type,
            n - 1,
        ) + (if resolves_empty(entities[0], index, object_type) {
            1nat
        } else {
            0nat
        }),
    decreases n,
{
    if n == 1 {
        assert(matched_upto(entities, object_type, 0) == 0);
        assert(matched_upto(entities.drop_first(), object_type, 0) == 0);
        assert(created_upto(entities, index, object_type, 0) == 0);
        assert(created_upto(entities.drop_first(), index, object_type, 0) == 0);
        assert(warned_upto(entities, index, object_type, 0) == 0);
        assert(warned_upto(entities.drop_first(), index, object_type, 0) == 0);
    } else {
        lemma_counts_shift(entities, index, object_type, n - 1);
        assert(entities.drop_first()[n - 2] == entities[n - 1]);
    }
}

/// Counts over a longer prefix are never smaller.
proof fn lemma_counts_monotone(
    entities: Seq<EntityModel>,
    index: Seq<OsmModel>,
    object_type: Seq<char>,
    a: int,
    b: int,
)
    requires
        a <= b,
    ensures
        matched_upto(entities, object_type, a) <= matched_upto(entities, object_type, b),
        created_upto(entities, index, object_type, a) <= created_upto(
            entities,
            index,
            object_type,
            b,
        ),
        warned_upto(entities, index, object_type, a) <= warned_upto(
            entities,
            index,
            object_type,
            b,
        ),
    decreases b - a,
{
    if a < b {
        lemma_counts_monotone(entities, index, object_type, a, b - 1);
    }
}

/// Full description of a successful pass: as many entities out as in;
/// untouched where no geometry was created; for each matched entity with a
/// non-empty shape, a geometry reference built from the 1-based match count
/// and the geometry itself at the corresponding slot; for each empty-shape
/// match, a warning at the corresponding slot.
#[verifier::rlimit(50)]
pub proof fn lemma_shapes_pass_characterisation(
    entities: Seq<EntityModel>,
    index: Seq<OsmModel>,
    object_type: Seq<char>,
    counter: nat,
)
    ensures
        shapes_pass(entities, index, object_type, counter) is Ok ==> ({
            let p = shapes_pass(entities, index, object_type, counter)->Ok_0;
            &&& p.entities.len() == entities.len()
            &&& p.geometries.len() == created_upto(entities, index, object_type, entities.len() as int)
            &&& p.warnings.len() == warned_upto(entities, index, object_type, entities.len() as int)
            &&& forall|i: int|
                0 <= i < entities.len() && !resolves_nonempty(#[trigger] entities[i], index, object_type)
                    ==> p.entities[i] == entities[i]
            &&& forall|i: int|
                0 <= i < entities.len() && resolves_nonempty(#[trigger] entities[i], index, object_type)
                    ==> {
                    &&& entities[i].geometry_id is None
                    &&& p.entities[i] == (EntityModel {
                        geometry_id: Some(
                            geometry_id_model(
                                object_type,
                                counter + matched_upto(entities, object_type, i + 1),
                            ),
                        ),
                        ..entities[i]
                    })
                    &&& p.geometries[created_upto(entities, index, object_type, i) as int] == (
                    GeometryModel {
                        id: geometry_id_model(
                            object_type,
                            counter + matched_upto(entities, object_type, i + 1),
                        ),
                        geometry: resolved_of(entities[i], index, object_type)->0.shape,
                    })
                }
            &&& forall|i: int|
                0 <= i < entities.len() && resolves_empty(#[trigger] entities[i], index, object_type)
                    ==> p.warnings[warned_upto(entities, index, object_type, i) as int] == (
                WarningModel {
                    entity_id: entities[i].id,
                    osm_id: resolved_of(entities[i], index, object_type)->0.id,
                })
        }),
    decreases entities.len(),
{
    if entities.len() > 0 && shapes_pass(entities, index, object_type, counter) is Ok {
        let e = entities[0];
        let rest = entities.drop_first();
        let p = shapes_pass(entities, index, object_type, counter)->Ok_0;
        let n = entities.len() as int;
        let head_matched = matched(e, object_type);
        let c2: nat = if head_matched {
            counter + 1
        } else {
            counter
        };
        lemma_shapes_pass_characterisation(rest, index, object_type, c2);
        let p2 = shapes_pass(rest, index, object_type, c2)->Ok_0;
        let hm: nat = if head_matched {
            1
        } else {
            0
        };
        let hc: nat = if resolves_nonempty(e, index, object_type) {
            1
        } else {
            0
        };
        let hw: nat = if resolves_empty(e, index, object_type) {
            1
        } else {
            0
        };
        if !head_matched {
            assert(p.entities == seq![e] + p2.entities);
            assert(p.geometries == p2.geometries);
            assert(p.warnings == p2.warnings);
        } else {
            assert(resolved_of(e, index, object_type) is Some);
            let o = resolved_of(e, index, object_type)->0;
            if o.shape.len() == 0 {
                assert(p.entities == seq![e] + p2.entities);
                assert(p.geometries == p2.geometries);
                assert(p.warnings == seq![
                    WarningModel { entity_id: e.id, osm_id: o.id },
                ] + p2.warnings);
            } else {
                assert(e.geometry_id is None);
                let gid = geometry_id_model(object_type, counter + 1);
                assert(p.entities == seq![EntityModel { geometry_id: Some(gid), ..e }]
                    + p2.entities);
                assert(p.geometries == seq![GeometryModel { id: gid, geometry: o.shape }]
                    + p2.geometries);
                assert(p.warnings == p2.warnings);
            }
        }
        assert(p.entities.len() == n);
        assert(p.geometries.len() == hc + p2.geometries.len());
        assert(p.warnings.len() == hw + p2.warnings.len());
        assert forall|k: int| 0 <= k < p2.entities.len() implies p.entities[1 + k]
            == #[trigger] p2.entities[k] by {}
        assert forall|k: int| 0 <= k < p2.geometries.len() implies p.geometries[hc + k]
            == #[trigger] p2.geometries[k] by {}
        assert forall|k: int| 0 <= k < p2.warnings.len() implies p.warnings[hw + k]
            == #[trigger] p2.warnings[k] by {}
        lemma_counts_shift(entities, index, object_type, n);
        assert(p.geometries.len() == created_upto(entities, index, object_type, n));
        assert(p.warnings.len() == warned_upto(entities, index, object_type, n));
        assert(matched_upto(entities, object_type, 0) == 0);
        assert(created_upto(entities, index, object_type, 0) == 0);
        assert(warned_upto(entities, index, object_type, 0) == 0);
        assert forall|i: int|
            0 <= i < n && !resolves_nonempty(#[trigger] entities[i], index, object_type)
            implies p.entities[i] == entities[i] by {
            if i >= 1 {
                assert(entities[i] == rest[i - 1]);
                assert(p.entities[i] == p2.entities[i - 1]);
            }
        }
        assert forall|i: int|
            0 <= i < n && resolves_nonempty(#[trigger] entities[i], index, object_type)
            implies {
            &&& entities[i].geometry_id is None
            &&& p.entities[i] == (EntityModel {
                geometry_id: Some(
                    geometry_id_model(
                        object_type,
                        counter + matched_upto(entities, object_type, i + 1),
                    ),
                ),
                ..entities[i]
            })
            &&& p.geometries[created_upto(entities, index, object_type, i) as int] == (
            GeometryModel {
                id: geometry_id_model(
                    object_type,
                    counter + matched_upto(entities, object_type, i + 1),
                ),
                geometry: resolved_of(entities[i], index, object_type)->0.shape,
            })
        } by {
            if i == 0 {
                assert(matched_upto(entities, object_type, 1) == 1);
                assert(p.geometries[0] == (GeometryModel {
                    id: geometry_id_model(object_type, counter + 1),
                    geometry: resolved_of(e, index, object_type)->0.shape,
                }));
            } else {
                assert(entities[i] == rest[i - 1]);
                assert(p.entities[i] == p2.entities[i - 1]);
                lemma_counts_shift(entities, index, object_type, i + 1);
                lemma_counts_shift(entities, index, object_type, i);
                assert(counter + matched_upto(entities, object_type, i + 1) == c2
                    + matched_upto(rest, object_type, i));
                assert(created_upto(entities, index, object_type, i) == hc + created_upto(
                    rest,
                    index,
                    object_type,
                    i - 1,
                ));
                assert(created_upto(rest, index, object_type, i) == created_upto(
                    rest,
                    index,
                    object_type,
                    i - 1,
                ) + 1);
                lemma_counts_monotone(rest, index, object_type, i, rest.len() as int);
                assert(created_upto(rest, index, object_type, i - 1) < p2.geometries.len());
                assert(p.geometries[created_upto(entities, index, object_type, i) as int]
                    == p2.geometries[created_upto(rest, index, object_type, i - 1) as int]);
            }
        }
        assert forall|i: int|
            0 <= i < n && resolves_empty(#[trigger] entities[i], index, object_type)
            implies p.warnings[warned_upto(entities, index, object_type, i) as int] == (
        WarningModel {
            entity_id: entities[i].id,
            osm_id: resolved_of(entities[i], index, object_type)->0.id,
        }) by {
            if i == 0 {
                assert(p.warnings[0] == (WarningModel {
                    entity_id: e.id,
                    osm_id: resolved_of(e, index, object_type)->0.id,
                }));
            } else {
                assert(entities[i] == rest[i - 1]);
                lemma_counts_shift(entities, index, object_type, i);
                assert(warned_upto(entities, index, object_type, i) == hw + warned_upto(
                    rest,
                    index,
                    object_type,
                    i - 1,
                ));
                assert(warned_upto(rest, index, object_type, i) == warned_upto(
                    rest,
                    index,
                    object_type,
                    i - 1,
                ) + 1);
                lemma_counts_monotone(rest, index, object_type, i, rest.len() as int);
                assert(warned_upto(rest, index, object_type, i - 1) < p2.warnings.len());
                assert(p.warnings[warned_upto(entities, index, object_type, i) as int]
                    == p2.warnings[warned_upto(rest, index, object_type, i - 1) as int]);
            }
        }
    }
}

/// Every geometry slot of a successful pass belongs to some entity whose
/// code resolved to a non-empty shape.
proof fn lemma_geometry_slot_source(
    entities: Seq<EntityModel>,
    index: Seq<OsmModel>,
    object_type: Seq<char>,
    counter: nat,
    k: int,
)
    requires
        shapes_pass(entities, index, object_type, counter) is Ok,
        0 <= k < shapes_pass(entities, index, object_type, counter)->Ok_0.geometries.len(),
    ensures
        exists|i: int|
            0 <= i < entities.len() && #[trigger] created_upto(entities, index, object_type, i)
                == k && resolves_nonempty(entities[i], index, object_type),
    decreases entities.len(),
{
    let e = entities[0];
    let rest = entities.drop_first();
    let c2: nat = if matched(e, object_type) {
        counter + 1
    } else {
        counter
    };
    if resolves_nonempty(e, index, object_type) && k == 0 {
        assert(created_upto(entities, index, object_type, 0) == 0);
    } else {
        let hc: int = if resolves_nonempty(e, index, object_type) {
            1
        } else {
            0
        };
        lemma_geometry_slot_source(rest, index, object_type, c2, k - hc);
        let i2 = choose|i2: int|
            0 <= i2 < rest.len() && #[trigger] created_upto(rest, index, object_type, i2) == k
                - hc && resolves_nonempty(rest[i2], index, object_type);
        lemma_counts_shift(entities, index, object_type, i2 + 1);
        assert(entities[i2 + 1] == rest[i2]);
        assert(created_upto(entities, index, object_type, i2 + 1) == k);
    }
}

/// For all transit entities without the kind's annotation code, the pass
/// returns them unchanged: in particular the geometry reference stays unset
/// if it was unset.
pub proof fn lemma_uncoded_entity_unchanged(
    entities: Seq<EntityModel>,
    index: Seq<OsmModel>,
    object_type: Seq<char>,
    i: int,
)
    requires
        shapes_pass(entities, index, object_type, 0) is Ok,
        0 <= i < entities.len(),
        !matched(entities[i], object_type),
    ensures
        shapes_pass(entities, index, object_type, 0)->Ok_0.entities[i] == entities[i],
{
    lemma_shapes_pass_characterisation(entities, index, object_type, 0);
}

/// For each entity whose code resolves to a non-empty shape, the pass
/// creates exactly one geometry, named `"geo:<kind>:osm:<n>"` with `n` the
/// 1-based count of coded entities seen up to and including it, holding that
/// shape; and the entity's geometry reference is set to exactly that id.
pub proof fn lemma_matched_entity_geometry(
    entities: Seq<EntityModel>,
    index: Seq<OsmModel>,
    object_type: Seq<char>,
    i: int,
)
    requires
        shapes_pass(entities, index, object_type, 0) is Ok,
        0 <= i < entities.len(),
        resolves_nonempty(entities[i], index, object_type),
    ensures
        ({
            let p = shapes_pass(entities, index, object_type, 0)->Ok_0;
            let gid = geometry_id_model(object_type, matched_upto(entities, object_type, i + 1));
            let k = created_upto(entities, index, object_type, i) as int;
            &&& p.entities[i].geometry_id == Some(gid)
            &&& 0 <= k < p.geometries.len()
            &&& p.geometries[k] == (GeometryModel {
                id: gid,
                geometry: resolved_of(entities[i], index, object_type)->0.shape,
            })
            &&& forall|k2: int|
                0 <= k2 < p.geometries.len() && k2 != k ==> (#[trigger] p.geometries[k2]).id
                    != gid
        }),
{
    lemma_shapes_pass_characterisation(entities, index, object_type, 0);
    let p = shapes_pass(entities, index, object_type, 0)->Ok_0;
    let gid = geometry_id_model(object_type, matched_upto(entities, object_type, i + 1));
    let k = created_upto(entities, index, object_type, i) as int;
    assert(created_upto(entities, index, object_type, i + 1) == created_upto(
        entities,
        index,
        object_type,
        i,
    ) + 1);
    lemma_counts_monotone(entities, index, object_type, i + 1, entities.len() as int);
    assert forall|k2: int|
        0 <= k2 < p.geometries.len() && k2 != k implies (#[trigger] p.geometries[k2]).id
        != gid by {
        lemma_geometry_slot_source(entities, index, object_type, 0, k2);
        let i2 = choose|i2: int|
            0 <= i2 < entities.len() && #[trigger] created_upto(entities, index, object_type, i2)
                == k2 && resolves_nonempty(entities[i2], index, object_type);
        assert(i2 != i);
        assert(matched_upto(entities, object_type, i2 + 1) == matched_upto(
            entities,
            object_type,
            i2,
        ) + 1);
        if i2 < i {
            lemma_counts_monotone(entities, index, object_type, i2 + 1, i);
        } else {
            lemma_counts_monotone(entities, index, object_type, i + 1, i2);
        }
        assert(matched_upto(entities, object_type, i2 + 1) != matched_upto(
            entities,
            object_type,
            i + 1,
        ));
        if p.geometries[k2].id == gid {
            lemma_geometry_id_injective(
                object_type,
                matched_upto(entities, object_type, i2 + 1),
                matched_upto(entities, object_type, i + 1),
            );
        }
    }
}

/// The first entity whose processing aborts determines the pass's error: an
/// unresolved reference names the missing OSM id, a repeated assignment
/// names the entity.
pub proof fn lemma_first_hard_failure(
    entities: Seq<EntityModel>,
    index: Seq<OsmModel>,
    object_type: Seq<char>,
    counter: nat,
    i: int,
)
    requires
        0 <= i < entities.len(),
        hard_fails(entities[i], index, object_type),
        forall|j: int| 0 <= j < i ==> !hard_fails(#[trigger] entities[j], index, object_type),
    ensures
        shapes_pass(entities, index, object_type, counter) == Err::<PassModel, ErrorModel>(
            if unresolved(entities[i], index, object_type) {
                ErrorModel::UnresolvedReference {
                    osm_id: find_code(entities[i].codes, code_key_model(object_type))->0,
                }
            } else {
                ErrorModel::DuplicateGeometryAssignment { entity_id: entities[i].id }
            },
        ),
    decreases i,
{
    let e = entities[0];
    let rest = entities.drop_first();
    if i > 0 {
        assert(!hard_fails(e, index, object_type));
        let c2: nat = if matched(e, object_type) {
            counter + 1
        } else {
            counter
        };
        assert(entities[i] == rest[i - 1]);
        assert forall|j: int|
            0 <= j < i - 1 implies !hard_fails(#[trigger] rest[j], index, object_type) by {
            assert(rest[j] == entities[j + 1]);
        }
        lemma_first_hard_failure(rest, index, object_type, c2, i - 1);
    }
}

/// A code referencing an id absent from the OSM index fails the whole pass
/// with an unresolved-reference error naming that id, provided no earlier
/// entity already aborted it.
pub proof fn lemma_unresolved_reference_fails(
    entities: Seq<EntityModel>,
    index: Seq<OsmModel>,
    object_type: Seq<char>,
    counter: nat,
    i: int,
)
    requires
        0 <= i < entities.len(),
        unresolved(entities[i], index, object_type),
        forall|j: int| 0 <= j < i ==> !hard_fails(#[trigger] entities[j], index, object_type),
    ensures
        shapes_pass(entities, index, object_type, counter) == Err::<PassModel, ErrorModel>(
            ErrorModel::UnresolvedReference {
                osm_id: find_code(entities[i].codes, code_key_model(object_type))->0,
            },
        ),
{
    lemma_first_hard_failure(entities, index, object_type, counter, i);
}

/// No entity aborts the pass: every code resolves, and no coded entity with
/// a non-empty shape already carries a geometry reference.
pub open spec fn no_hard_failures(
    entities: Seq<EntityModel>,
    index: Seq<OsmModel>,
    object_type: Seq<char>,
) -> bool {
    forall|i: int|
        0 <= i < entities.len() ==> !hard_fails(#[trigger] entities[i], index, object_type)
}

/// A pass succeeds exactly when no entity aborts it.
pub proof fn lemma_pass_ok_iff(
    entities: Seq<EntityModel>,
    index: Seq<OsmModel>,
    object_type: Seq<char>,
    counter: nat,
)
    ensures
        shapes_pass(entities, index, object_type, counter) is Ok <==> no_hard_failures(
            entities,
            index,
            object_type,
        ),
    decreases entities.len(),
{
    if entities.len() > 0 {
        let e = entities[0];
        let rest = entities.drop_first();
        let c2: nat = if matched(e, object_type) {
            counter + 1
        } else {
            counter
        };
        lemma_pass_ok_iff(rest, index, object_type, c2);
        if no_hard_failures(entities, index, object_type) {
            assert forall|j: int|
                0 <= j < rest.len() implies !hard_fails(
                #[trigger] rest[j],
                index,
                object_type,
            ) by {
                assert(rest[j] == entities[j + 1]);
            }
            assert(shapes_pass(entities, index, object_type, counter) is Ok);
        } else {
            if !hard_fails(e, index, object_type) {
                assert(!no_hard_failures(rest, index, object_type)) by {
                    if no_hard_failures(rest, index, object_type) {
                        assert forall|i: int|
                            0 <= i < entities.len() implies !hard_fails(
                            #[trigger] entities[i],
                            index,
                            object_type,
                        ) by {
                            if i > 0 {
                                assert(entities[i] == rest[i - 1]);
                            }
                        }
                    }
                }
                assert(shapes_pass(rest, index, object_type, c2) is Err);
            }
        }
    }
}

/// An entity whose code resolves to an empty shape is returned unchanged,
/// one warning naming it and the OSM entity is recorded at its slot, and the
/// pass still succeeds on everything else.
pub proof fn lemma_empty_shape_skips(
    entities: Seq<EntityModel>,
    index: Seq<OsmModel>,
    object_type: Seq<char>,
    i: int,
)
    requires
        shapes_pass(entities, index, object_type, 0) is Ok,
        0 <= i < entities.len(),
        resolves_empty(entities[i], index, object_type),
    ensures
        ({
            let p = shapes_pass(entities, index, object_type, 0)->Ok_0;
            let w = warned_upto(entities, index, object_type, i) as int;
            &&& p.entities[i] == entities[i]
            &&& 0 <= w < p.warnings.len()
            &&& p.warnings[w] == (WarningModel {
                entity_id: entities[i].id,
                osm_id: resolved_of(entities[i], index, object_type)->0.id,
            })
        }),
{
    lemma_shapes_pass_characterisation(entities, index, object_type, 0);
    assert(warned_upto(entities, index, object_type, i + 1) == warned_upto(
        entities,
        index,
        object_type,
        i,
    ) + 1);
    lemma_counts_monotone(entities, index, object_type, i + 1, entities.len() as int);
}

/// Running the pass a second time over its own successful output fails with
/// a duplicate-assignment error on the first entity that was enriched.
pub proof fn lemma_second_pass_fails(
    entities: Seq<EntityModel>,
    index: Seq<OsmModel>,
    object_type: Seq<char>,
    i0: int,
)
    requires
        shapes_pass(entities, index, object_type, 0) is Ok,
        0 <= i0 < entities.len(),
        resolves_nonempty(entities[i0], index, object_type),
        forall|j: int|
            0 <= j < i0 ==> !resolves_nonempty(#[trigger] entities[j], index, object_type),
    ensures
        shapes_pass(
            shapes_pass(entities, index, object_type, 0)->Ok_0.entities,
            index,
            object_type,
            0,
        ) == Err::<PassModel, ErrorModel>(
            ErrorModel::DuplicateGeometryAssignment { entity_id: entities[i0].id },
        ),
{
    lemma_shapes_pass_characterisation(entities, index, object_type, 0);
    lemma_pass_ok_iff(entities, index, object_type, 0);
    let p = shapes_pass(entities, index, object_type, 0)->Ok_0;
    let second = p.entities;
    assert(second[i0].codes == entities[i0].codes);
    assert(second[i0].id == entities[i0].id);
    assert(resolves_nonempty(second[i0], index, object_type));
    assert(second[i0].geometry_id is Some);
    assert(hard_fails(second[i0], index, object_type));
    assert(!unresolved(second[i0], index, object_type));
    assert forall|j: int|
        0 <= j < i0 implies !hard_fails(#[trigger] second[j], index, object_type) by {
        assert(second[j] == entities[j]);
        assert(!hard_fails(entities[j], index, object_type));
    }
    lemma_first_hard_failure(second, index, object_type, 0, i0);
}

/// Running the enrichment a second time over an already-enriched store
/// fails with a duplicate-assignment error on the first enriched line.
pub proof fn lemma_second_enrichment_fails_on_line(
    m: CollectionsModel,
    osm_lines: Option<Seq<OsmModel>>,
    osm_routes: Option<Seq<OsmModel>>,
    i0: int,
)
    requires
        enrich_model(m, osm_lines, osm_routes) is Ok,
        0 <= i0 < m.lines.len(),
        resolves_nonempty(m.lines[i0], osm_lines->0, "line"@),
    ensures
        enrich_model(enrich_model(m, osm_lines, osm_routes)->Ok_0.0, osm_lines, osm_routes)
            is Err,
        ({
            forall|j: int|
                0 <= j < i0 ==> !resolves_nonempty(#[trigger] m.lines[j], osm_lines->0, "line"@)
        }) ==> enrich_model(
            enrich_model(m, osm_lines, osm_routes)->Ok_0.0,
            osm_lines,
            osm_routes,
        ) == Err::<(CollectionsModel, Seq<WarningModel>), ErrorModel>(
            ErrorModel::DuplicateGeometryAssignment { entity_id: m.lines[i0].id },
        ),
{
    let li = osm_lines->0;
    let m2 = enrich_model(m, osm_lines, osm_routes)->Ok_0.0;
    let pl = shapes_pass(m.lines, li, "line"@, 0)->Ok_0;
    assert(m2.lines == pl.entities);
    lemma_shapes_pass_characterisation(m.lines, li, "line"@, 0);
    lemma_pass_ok_iff(m.lines, li, "line"@, 0);
    if forall|j: int|
        0 <= j < i0 ==> !resolves_nonempty(#[trigger] m.lines[j], li, "line"@) {
        lemma_second_pass_fails(m.lines, li, "line"@, i0);
    } else {
        let jw = choose|j: int|
            0 <= j < i0 && resolves_nonempty(#[trigger] m.lines[j], li, "line"@);
        let jf = lemma_some_first_enriched(m.lines, li, "line"@, jw);
        lemma_second_pass_fails(m.lines, li, "line"@, jf);
    }
}

/// Among the entities up to a known enriched one there is a first enriched
/// one.
proof fn lemma_some_first_enriched(
    entities: Seq<EntityModel>,
    index: Seq<OsmModel>,
    object_type: Seq<char>,
    j: int,
) -> (r: int)
    requires
        0 <= j < entities.len(),
        resolves_nonempty(entities[j], index, object_type),
    ensures
        0 <= r <= j,
        resolves_nonempty(entities[r], index, object_type),
        forall|k: int| 0 <= k < r ==> !resolves_nonempty(#[trigger] entities[k], index, object_type),
    decreases j,
{
    if exists|k: int| 0 <= k < j && resolves_nonempty(#[trigger] entities[k], index, object_type) {
        let k = choose|k: int|
            0 <= k < j && resolves_nonempty(#[trigger] entities[k], index, object_type);
        lemma_some_first_enriched(entities, index, object_type, k)
    } else {
        j
    }
}

/// Running the enrichment a second time over an already-enriched store in
/// which only routes were enriched fails with a duplicate-assignment error
/// on the first enriched route.
pub proof fn lemma_second_enrichment_fails_on_route(
    m: CollectionsModel,
    osm_lines: Option<Seq<OsmModel>>,
    osm_routes: Option<Seq<OsmModel>>,
    i0: int,
)
    requires
        enrich_model(m, osm_lines, osm_routes) is Ok,
        forall|j: int|
            0 <= j < m.lines.len() ==> !resolves_nonempty(
                #[trigger] m.lines[j],
                osm_lines->0,
                "line"@,
            ),
        0 <= i0 < m.routes.len(),
        resolves_nonempty(m.routes[i0], osm_routes->0, "route"@),
        forall|j: int|
            0 <= j < i0 ==> !resolves_nonempty(#[trigger] m.routes[j], osm_routes->0, "route"@),
    ensures
        enrich_model(enrich_model(m, osm_lines, osm_routes)->Ok_0.0, osm_lines, osm_routes)
            == Err::<(CollectionsModel, Seq<WarningModel>), ErrorModel>(
            ErrorModel::DuplicateGeometryAssignment { entity_id: m.routes[i0].id },
        ),
{
    let li = osm_lines->0;
    let ri = osm_routes->0;
    let m2 = enrich_model(m, osm_lines, osm_routes)->Ok_0.0;
    let pl = shapes_pass(m.lines, li, "line"@, 0)->Ok_0;
    let pr = shapes_pass(m.routes, ri, "route"@, 0)->Ok_0;
    assert(m2.lines == pl.entities);
    assert(m2.routes == pr.entities);
    lemma_shapes_pass_characterisation(m.lines, li, "line"@, 0);
    assert(pl.entities =~= m.lines);
    lemma_second_pass_fails(m.routes, ri, "route"@, i0);
}

/// The enrichment succeeds exactly when both OSM lists are present, no
/// entity of either kind aborts its pass, and the combined geometry ids are
/// pairwise distinct.
pub proof fn lemma_enrichment_ok_iff(
    m: CollectionsModel,
    osm_lines: Option<Seq<OsmModel>>,
    osm_routes: Option<Seq<OsmModel>>,
)
    ensures
        enrich_model(m, osm_lines, osm_routes) is Ok <==> {
            &&& osm_lines is Some
            &&& osm_routes is Some
            &&& no_hard_failures(m.lines, osm_lines->0, "line"@)
            &&& no_hard_failures(m.routes, osm_routes->0, "route"@)
            &&& geometry_ids_unique(
                m.geometries + shapes_pass(m.lines, osm_lines->0, "line"@, 0)->Ok_0.geometries
                    + shapes_pass(m.routes, osm_routes->0, "route"@, 0)->Ok_0.geometries,
            )
        },
{
    if osm_lines is Some && osm_routes is Some {
        lemma_pass_ok_iff(m.lines, osm_lines->0, "line"@, 0);
        lemma_pass_ok_iff(m.routes, osm_routes->0, "route"@, 0);
    }
}

} // verus!
