//! The dynamic object builder's relation field: look up every model
//! attached to an entity through the entity-model join, fetch each
//! model's schema from the registry, and reconstruct one typed object per
//! attached model.

use vstd::prelude::*;

use crate::engine::{model_data_recursive_query, spec_value};
use crate::naming::path_view;
use crate::store::{Model, Store};
use crate::types::{fields_view, mapping_view, SpecValue, Value};
use crate::Error;

verus! {

/// Ids of the models attached to an entity, in join order.
pub open spec fn attached_model_ids(em: Seq<(String, String)>, eid: Seq<char>) -> Seq<Seq<char>>
    decreases em.len(),
{
    if em.len() == 0 {
        Seq::empty()
    } else if em.last().0@ == eid {
        attached_model_ids(em.drop_last(), eid).push(em.last().1@)
    } else {
        attached_model_ids(em.drop_last(), eid)
    }
}

/// The first registered model of that id, if any.
pub open spec fn find_model(models: Seq<Model>, id: Seq<char>) -> Option<Model>
    decreases models.len(),
{
    if models.len() == 0 {
        None
    } else if models[0].id@ == id {
        Some(models[0])
    } else {
        find_model(models.drop_first(), id)
    }
}

/// One (type name, object) pair per attached model whose registration the
/// join resolves, in join order; a reconstruction that yields anything but
/// an object is a schema/storage drift.
pub open spec fn spec_models(store: Store, eid: Seq<char>, ids: Seq<Seq<char>>) -> Result<
    Seq<(Seq<char>, SpecValue)>,
    Error,
>
    decreases ids.len(),
{
    if ids.len() == 0 {
        Ok(Seq::empty())
    } else {
        match spec_models(store, eid, ids.drop_last()) {
            Err(e) => Err(e),
            Ok(pre) => match find_model(store.models@, ids.last()) {
                None => Ok(pre),
                Some(md) => match spec_value(
                    store,
                    seq![md.name@],
                    eid,
                    None,
                    mapping_view(md.mapping@),
                ) {
                    Err(e) => Err(e),
                    Ok(v) => if v is Object {
                        Ok(pre.push((md.name@, v)))
                    } else {
                        Err(Error::DataIntegrity)
                    },
                },
            },
        }
    }
}

proof fn lemma_spec_models_err_extends(store: Store, eid: Seq<char>, ids: Seq<Seq<char>>, k: int, m: int)
    requires
        0 <= k <= m <= ids.len(),
        spec_models(store, eid, ids.take(k)) is Err,
    ensures
        spec_models(store, eid, ids.take(m)) == spec_models(store, eid, ids.take(k)),
    decreases m - k,
{
    if m > k {
        lemma_spec_models_err_extends(store, eid, ids, k, m - 1);
        assert(ids.take(m).drop_last() =~= ids.take(m - 1));
    }
}

/// Index of the first registered model of that id.
#[verifier::loop_isolation(false)]
fn find_model_index(store: &Store, id: &String) -> (r: Option<usize>)
    ensures
        match r {
            Some(k) => k < store.models@.len() && find_model(store.models@, id@) == Some(
                store.models@[k as int],
            ),
            None => find_model(store.models@, id@) is None,
        },
{
    let n = store.models.len();
    let mut j: usize = 0;
    proof {
        assert(store.models@.skip(0) =~= store.models@);
    }
    while j < n
        invariant
            0 <= j <= n,
            find_model(store.models@, id@) == find_model(store.models@.skip(j as int), id@),
        decreases n - j,
    {
        proof {
            assert(store.models@.skip(j as int)[0] == store.models@[j as int]);
        }
        if store.models[j].id.eq(id) {
            return Some(j);
        }
        proof {
            assert(store.models@.skip(j as int).drop_first() =~= store.models@.skip(j + 1));
        }
        j += 1;
    }
    proof {
        assert(store.models@.skip(n as int).len() == 0);
    }
    None
}

/// The model ids attached to `eid` through the entity-model join, in
/// join order.
#[verifier::loop_isolation(false)]
fn attached_ids(store: &Store, eid: &String) -> (r: Vec<String>)
    ensures
        path_view(r@) == attached_model_ids(store.entity_models@, eid@),
{
    let em = &store.entity_models;
    let n = em.len();
    let mut r: Vec<String> = Vec::new();
    proof {
        assert(em@.take(0) =~= Seq::<(String, String)>::empty());
        assert(path_view(r@) =~= attached_model_ids(em@.take(0), eid@));
    }
    let mut j: usize = 0;
    while j < n
        invariant
            0 <= j <= n,
            path_view(r@) == attached_model_ids(em@.take(j as int), eid@),
        decreases n - j,
    {
        proof {
            assert(em@.take(j + 1).drop_last() =~= em@.take(j as int));
            assert(em@.take(j + 1).last() == em@[j as int]);
        }
        if em[j].0.eq(eid) {
            let ghost rb = r@;
            r.push(em[j].1.clone());
            proof {
                assert forall|l: int| 0 <= l < r@.len() implies #[trigger] path_view(r@)[l] == (
                path_view(rb).push(em@[j as int].1@))[l] by {
                    assert(path_view(r@)[l] == r@[l]@);
                    if l < rb.len() {
                        assert(path_view(rb)[l] == rb[l]@);
                    }
                }
                assert(path_view(r@) =~= path_view(rb).push(em@[j as int].1@));
            }
        }
        j += 1;
    }
    proof {
        assert(em@.take(n as int) =~= em@);
    }
    r
}

/// The `models` relation of one entity: every attached model that the
/// id-to-name join resolves, reconstructed from its root table, as an
/// ordered sequence of (type name, object) pairs.
#[verifier::loop_isolation(false)]
pub fn models_for_entity(store: &Store, entity_id: &String) -> (res: Result<
    Vec<(String, Value)>,
    Error,
>)
    ensures
        (match res {
            Ok(ms) => Ok::<Seq<(Seq<char>, SpecValue)>, Error>(fields_view(ms@)),
            Err(e) => Err(e),
        }) == spec_models(
            *store,
            entity_id@,
            attached_model_ids(store.entity_models@, entity_id@),
        ),
{
    let ids = attached_ids(store, entity_id);
    let ghost idsv = path_view(ids@);
    let n = ids.len();
    let mut out: Vec<(String, Value)> = Vec::new();
    proof {
        assert(idsv.take(0) =~= Seq::<Seq<char>>::empty());
        assert(fields_view(out@) =~= Seq::<(Seq<char>, SpecValue)>::empty());
    }
    let mut j: usize = 0;
    while j < n
        invariant
            0 <= j <= n,
            n == ids@.len(),
            spec_models(*store, entity_id@, idsv.take(j as int)) == Ok::<
                Seq<(Seq<char>, SpecValue)>,
                Error,
            >(fields_view(out@)),
        decreases n - j,
    {
        let ghost cur = idsv.take(j + 1);
        proof {
            assert(cur.drop_last() =~= idsv.take(j as int));
            assert(cur.last() == idsv[j as int]);
            assert(idsv[j as int] == ids@[j as int]@);
        }
        match find_model_index(store, &ids[j]) {
            None => {
                proof {
                    assert(spec_models(*store, entity_id@, cur) == Ok::<
                        Seq<(Seq<char>, SpecValue)>,
                        Error,
                    >(fields_view(out@)));
                }
            },
            Some(mi) => {
                let md = &store.models[mi];
                let mut path: Vec<String> = Vec::new();
                path.push(md.name.clone());
                proof {
                    assert(path_view(path@) =~= seq![md.name@]);
                }
                match model_data_recursive_query(store, &path, entity_id, None, &md.mapping) {
                    Err(e) => {
                        proof {
                            assert(spec_models(*store, entity_id@, cur) == Err::<
                                Seq<(Seq<char>, SpecValue)>,
                                Error,
                            >(e));
                            lemma_spec_models_err_extends(
                                *store,
                                entity_id@,
                                idsv,
                                j + 1,
                                n as int,
                            );
                            assert(idsv.take(n as int) =~= idsv);
                        }
                        return Err(e);
                    },
                    Ok(v) => {
                        let is_obj = match &v {
                            Value::Object(_) => true,
                            _ => false,
                        };
                        if !is_obj {
                            proof {
                                assert(spec_models(*store, entity_id@, cur) == Err::<
                                    Seq<(Seq<char>, SpecValue)>,
                                    Error,
                                >(Error::DataIntegrity));
                                lemma_spec_models_err_extends(
                                    *store,
                                    entity_id@,
                                    idsv,
                                    j + 1,
                                    n as int,
                                );
                                assert(idsv.take(n as int) =~= idsv);
                            }
                            return Err(Error::DataIntegrity);
                        }
                        let ghost ob = out@;
                        out.push((md.name.clone(), v));
                        proof {
                            assert(out@.drop_last() =~= ob);
                            assert(fields_view(out@) == fields_view(ob).push(
                                (out@.last().0@, crate::types::value_view(out@.last().1)),
                            ));
                            assert(spec_models(*store, entity_id@, cur) == Ok::<
                                Seq<(Seq<char>, SpecValue)>,
                                Error,
                            >(fields_view(out@)));
                        }
                    },
                }
            },
        }
        j += 1;
    }
    proof {
        assert(idsv.take(n as int) =~= idsv);
    }
    Ok(out)
}

} // verus!
