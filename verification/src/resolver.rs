//! The resolver layer: the generic single-item fetch by key and the
//! paginated multi-item fetch with an optional key-prefix filter and
//! cursor-based pagination over the event-ordering column.

use vstd::prelude::*;

use crate::entity::{
    clone_entity, entity_value_mapping, entity_view, split_keys, split_nonempty, Entity,
    EntityObject, MAX_TIMESTAMP,
};
use crate::naming::path_view;
use crate::store::Store;
use crate::types::{fields_view, ValueMapping};
use crate::Error;

verus! {

/// Page size used when the client requests none.
pub const DEFAULT_PAGE_SIZE: usize = 10;

/// Largest page size honoured; larger requests are clamped.
pub const MAX_PAGE_SIZE: usize = 100;

/// A timestamp the fixed textual format can render.
pub open spec fn entity_ts_ok(e: Entity) -> bool {
    &&& 0 <= e.created_at <= MAX_TIMESTAMP
    &&& 0 <= e.updated_at <= MAX_TIMESTAMP
    &&& 0 <= e.executed_at <= MAX_TIMESTAMP
}

/// Every stored entity row carries renderable timestamps.
pub open spec fn store_entities_ok(s: Store) -> bool {
    forall|k: int| 0 <= k < s.entities@.len() ==> entity_ts_ok(#[trigger] s.entities@[k])
}

/// The first entity row with that id, if any.
pub open spec fn find_entity(es: Seq<Entity>, id: Seq<char>) -> Option<Entity>
    decreases es.len(),
{
    if es.len() == 0 {
        None
    } else if es[0].id@ == id {
        Some(es[0])
    } else {
        find_entity(es.drop_first(), id)
    }
}

/// Whether the filter's components are a prefix of the split keys.
pub open spec fn keys_filter_matches(keys: Seq<char>, filter: Option<Seq<Seq<char>>>) -> bool {
    match filter {
        None => true,
        Some(f) => {
            let parts = split_nonempty(keys, '/');
            f.len() <= parts.len() && forall|i: int| 0 <= i < f.len() ==> parts[i] == #[trigger] f[i]
        },
    }
}

/// The entity rows matching the filter, in stored (event) order.
pub open spec fn matching_entities(es: Seq<Entity>, filter: Option<Seq<Seq<char>>>) -> Seq<Entity>
    decreases es.len(),
{
    if es.len() == 0 {
        Seq::empty()
    } else if keys_filter_matches(es.last().keys@, filter) {
        matching_entities(es.drop_last(), filter).push(es.last())
    } else {
        matching_entities(es.drop_last(), filter)
    }
}

/// Position of the first row whose event id equals the cursor, if any.
pub open spec fn cursor_pos(ms: Seq<Entity>, c: Seq<char>) -> Option<int>
    decreases ms.len(),
{
    if ms.len() == 0 {
        None
    } else if ms[0].event_id@ == c {
        Some(0)
    } else {
        match cursor_pos(ms.drop_first(), c) {
            None => None,
            Some(p) => Some(p + 1),
        }
    }
}

/// The requested page size, defaulted and clamped to the maximum.
pub open spec fn effective_page_size(first: Option<usize>) -> int {
    match first {
        None => DEFAULT_PAGE_SIZE as int,
        Some(f) => if f > MAX_PAGE_SIZE {
            MAX_PAGE_SIZE as int
        } else {
            f as int
        },
    }
}

/// The rows of one page: up to `size` matching rows starting at `start`.
pub open spec fn page_slice(ms: Seq<Entity>, start: int, size: int) -> Seq<Entity> {
    ms.subrange(
        start,
        if start + size <= ms.len() {
            start + size
        } else {
            ms.len() as int
        },
    )
}

/// What the paginated fetch returns: the page's rows, the has-next flag
/// and the end cursor, or an argument error for a cursor that denotes no
/// matching row.
pub open spec fn page_spec(
    es: Seq<Entity>,
    filter: Option<Seq<Seq<char>>>,
    first: Option<usize>,
    after: Option<Seq<char>>,
) -> Result<(Seq<Entity>, bool, Option<Seq<char>>), Error> {
    let ms = matching_entities(es, filter);
    let size = effective_page_size(first);
    match after {
        None => Ok(page_result(ms, 0, size)),
        Some(c) => match cursor_pos(ms, c) {
            None => Err(Error::Argument),
            Some(p) => Ok(page_result(ms, p + 1, size)),
        },
    }
}

pub open spec fn page_result(ms: Seq<Entity>, start: int, size: int) -> (
    Seq<Entity>,
    bool,
    Option<Seq<char>>,
) {
    let items = page_slice(ms, start, size);
    (
        items,
        start + size < ms.len(),
        if items.len() > 0 {
            Some(items.last().event_id@)
        } else {
            None
        },
    )
}

/// View of an optional exec keys filter.
pub open spec fn filter_view(f: Option<Vec<String>>) -> Option<Seq<Seq<char>>> {
    match f {
        None => None,
        Some(v) => Some(path_view(v@)),
    }
}

/// A page of resolved objects plus its pagination metadata.
pub struct Page {
    pub items: Vec<ValueMapping>,
    pub has_next_page: bool,
    pub end_cursor: Option<String>,
}

proof fn lemma_cursor_pos_found(ms: Seq<Entity>, c: Seq<char>, k: int)
    requires
        0 <= k < ms.len(),
        forall|l: int| 0 <= l < k ==> (#[trigger] ms[l]).event_id@ != c,
        ms[k].event_id@ == c,
    ensures
        cursor_pos(ms, c) == Some(k),
    decreases k,
{
    if k > 0 {
        lemma_cursor_pos_found(ms.drop_first(), c, k - 1);
        assert(forall|l: int|
            0 <= l < ms.len() - 1 ==> #[trigger] ms.drop_first()[l] == ms[l + 1]);
    }
}

proof fn lemma_cursor_pos_none(ms: Seq<Entity>, c: Seq<char>)
    requires
        forall|l: int| 0 <= l < ms.len() ==> (#[trigger] ms[l]).event_id@ != c,
    ensures
        cursor_pos(ms, c) is None,
    decreases ms.len(),
{
    if ms.len() > 0 {
        lemma_cursor_pos_none(ms.drop_first(), c);
        assert(forall|l: int|
            0 <= l < ms.len() - 1 ==> #[trigger] ms.drop_first()[l] == ms[l + 1]);
    }
}

/// Fetch exactly one entity row by id and shape it into scalar fields;
/// absent ids resolve to nothing.
#[verifier::loop_isolation(false)]
pub fn resolve_one(store: &Store, id: &String) -> (r: Option<ValueMapping>)
    requires
        store_entities_ok(*store),
    ensures
        match find_entity(store.entities@, id@) {
            Some(e) => r is Some && fields_view(r.unwrap()@) == entity_value_mapping(
                entity_view(e),
            ),
            None => r is None,
        },
{
    let es = &store.entities;
    let n = es.len();
    let mut j: usize = 0;
    proof {
        assert(es@.skip(0) =~= es@);
    }
    while j < n
        invariant
            0 <= j <= n,
            find_entity(es@, id@) == find_entity(es@.skip(j as int), id@),
        decreases n - j,
    {
        proof {
            assert(es@.skip(j as int)[0] == es@[j as int]);
        }
        if es[j].id.eq(id) {
            let e = clone_entity(&es[j]);
            return Some(EntityObject::value_mapping(e));
        }
        proof {
            assert(es@.skip(j as int).drop_first() =~= es@.skip(j + 1));
        }
        j += 1;
    }
    proof {
        assert(es@.skip(n as int).len() == 0);
    }
    None
}

/// Whether an entity's keys match an optional key-prefix filter.
#[verifier::loop_isolation(false)]
fn keys_filter_matches_exec(keys: &String, filter: &Option<Vec<String>>) -> (b: bool)
    ensures
        b == keys_filter_matches(keys@, filter_view(*filter)),
{
    match filter {
        None => true,
        Some(f) => {
            let parts = split_keys(keys.as_str());
            let ghost pv = path_view(parts@);
            let ghost fv = path_view(f@);
            if f.len() > parts.len() {
                return false;
            }
            let n = f.len();
            let mut i: usize = 0;
            while i < n
                invariant
                    0 <= i <= n,
                    forall|l: int| 0 <= l < i ==> pv[l] == #[trigger] fv[l],
                decreases n - i,
            {
                proof {
                    assert(pv[i as int] == parts@[i as int]@);
                    assert(fv[i as int] == f@[i as int]@);
                }
                if !parts[i].eq(&f[i]) {
                    proof {
                        assert(pv[i as int] != fv[i as int]);
                    }
                    return false;
                }
                i += 1;
            }
            true
        },
    }
}

/// Indices of the matching entity rows, in stored order.
#[verifier::loop_isolation(false)]
fn matching_indices(store: &Store, filter: &Option<Vec<String>>) -> (out: Vec<usize>)
    ensures
        out@.len() == matching_entities(store.entities@, filter_view(*filter)).len(),
        forall|k: int| #![trigger out@[k]] 0 <= k < out@.len() ==> out@[k]
            < store.entities@.len(),
        forall|k: int|
            0 <= k < out@.len() ==> store.entities@[out@[k] as int] == #[trigger] matching_entities(
                store.entities@,
                filter_view(*filter),
            )[k],
{
    let es = &store.entities;
    let ghost fv = filter_view(*filter);
    let n = es.len();
    let mut out: Vec<usize> = Vec::new();
    proof {
        assert(es@.take(0) =~= Seq::<Entity>::empty());
    }
    let mut j: usize = 0;
    while j < n
        invariant
            0 <= j <= n,
            out@.len() == matching_entities(es@.take(j as int), fv).len(),
            forall|k: int| #![trigger out@[k]] 0 <= k < out@.len() ==> out@[k] < j,
            forall|k: int|
                0 <= k < out@.len() ==> es@[out@[k] as int] == #[trigger] matching_entities(
                    es@.take(j as int),
                    fv,
                )[k],
        decreases n - j,
    {
        let ghost pre = es@.take(j as int);
        let ghost cur = es@.take(j + 1);
        proof {
            assert(cur.drop_last() =~= pre);
            assert(cur.last() == es@[j as int]);
        }
        let ghost prev = out@;
        if keys_filter_matches_exec(&es[j].keys, filter) {
            out.push(j);
            proof {
                assert(matching_entities(cur, fv) =~= matching_entities(pre, fv).push(
                    es@[j as int],
                ));
                assert forall|k: int| 0 <= k < out@.len() implies es@[out@[k] as int]
                    == #[trigger] matching_entities(cur, fv)[k] by {
                    if k < prev.len() {
                        assert(out@[k] == prev[k]);
                        assert(matching_entities(cur, fv)[k] == matching_entities(pre, fv)[k]);
                    } else {
                        assert(out@[k] == j);
                    }
                }
            }
        } else {
            proof {
                assert(matching_entities(cur, fv) =~= matching_entities(pre, fv));
                assert forall|k: int| 0 <= k < out@.len() implies es@[out@[k] as int]
                    == #[trigger] matching_entities(cur, fv)[k] by {
                    assert(es@[out@[k] as int] == matching_entities(es@.take(j as int), fv)[k]);
                }
            }
        }
        j += 1;
    }
    proof {
        assert(j == n);
        assert(es@.take(n as int) =~= es@);
        assert forall|k: int| 0 <= k < out@.len() implies es@[out@[k] as int]
            == #[trigger] matching_entities(es@, fv)[k] by {
            assert(es@[out@[k] as int] == matching_entities(es@.take(j as int), fv)[k]);
        }
    }
    out
}

/// Position within the matching row set of the row the cursor denotes.
#[verifier::loop_isolation(false)]
fn cursor_index(store: &Store, midx: &Vec<usize>, Ghost(ms): Ghost<Seq<Entity>>, c: &String) -> (r:
    Option<usize>)
    requires
        midx@.len() == ms.len(),
        forall|k: int| #![trigger midx@[k]] 0 <= k < midx@.len() ==> midx@[k]
            < store.entities@.len(),
        forall|k: int|
            0 <= k < midx@.len() ==> store.entities@[midx@[k] as int] == #[trigger] ms[k],
    ensures
        match r {
            Some(p) => p < ms.len() && cursor_pos(ms, c@) == Some(p as int),
            None => cursor_pos(ms, c@) is None,
        },
{
    let m_len = midx.len();
    let mut j: usize = 0;
    while j < m_len
        invariant
            0 <= j <= m_len,
            forall|l: int| 0 <= l < j ==> (#[trigger] ms[l]).event_id@ != c@,
        decreases m_len - j,
    {
        proof {
            assert(store.entities@[midx@[j as int] as int] == ms[j as int]);
        }
        if store.entities[midx[j]].event_id.eq(c) {
            proof {
                lemma_cursor_pos_found(ms, c@, j as int);
            }
            return Some(j);
        }
        j += 1;
    }
    proof {
        lemma_cursor_pos_none(ms, c@);
    }
    None
}

/// Fetch the rows matching an optional key-prefix filter, apply
/// cursor-based pagination ordered by the event column, and shape each
/// row of the page into scalar fields, with has-next flag and end cursor.
#[verifier::loop_isolation(false)]
pub fn resolve_many(
    store: &Store,
    filter: &Option<Vec<String>>,
    first: Option<usize>,
    after: &Option<String>,
) -> (res: Result<Page, Error>)
    requires
        store_entities_ok(*store),
    ensures
        match res {
            Err(e) => page_spec(
                store.entities@,
                filter_view(*filter),
                first,
                match *after {
                    Some(c) => Some(c@),
                    None => None,
                },
            ) is Err && e == Error::Argument,
            Ok(p) => {
                let spec = page_spec(
                    store.entities@,
                    filter_view(*filter),
                    first,
                    match *after {
                        Some(c) => Some(c@),
                        None => None,
                    },
                );
                &&& spec is Ok
                &&& p.has_next_page == spec.unwrap().1
                &&& (match p.end_cursor {
                    Some(c) => spec.unwrap().2 == Some(c@),
                    None => spec.unwrap().2 is None,
                })
                &&& p.items@.len() == spec.unwrap().0.len()
                &&& forall|k: int|
                    0 <= k < p.items@.len() ==> fields_view((#[trigger] p.items@[k])@)
                        == entity_value_mapping(entity_view(spec.unwrap().0[k]))
            },
        },
{
    let ghost fv = filter_view(*filter);
    let ghost ms = matching_entities(store.entities@, fv);
    let midx = matching_indices(store, filter);
    let m_len = midx.len();
    let start: usize = match after {
        None => 0,
        Some(c) => {
            match cursor_index(store, &midx, Ghost(ms), c) {
                None => {
                    return Err(Error::Argument);
                },
                Some(p) => p + 1,
            }
        },
    };
    let size: usize = match first {
        None => DEFAULT_PAGE_SIZE,
        Some(f) => if f > MAX_PAGE_SIZE {
            MAX_PAGE_SIZE
        } else {
            f
        },
    };
    let ghost slice = page_slice(ms, start as int, size as int);
    let mut items: Vec<ValueMapping> = Vec::new();
    let mut k: usize = start;
    while k < m_len && items.len() < size
        invariant
            start <= k <= m_len,
            items@.len() == k - start,
            items@.len() <= size,
            forall|l: int|
                0 <= l < items@.len() ==> fields_view((#[trigger] items@[l])@)
                    == entity_value_mapping(entity_view(ms[start + l])),
        decreases m_len - k,
    {
        proof {
            assert(store.entities@[midx@[k as int] as int] == ms[k as int]);
            assert(entity_ts_ok(store.entities@[midx@[k as int] as int]));
        }
        let e = clone_entity(&store.entities[midx[k]]);
        let vm = EntityObject::value_mapping(e);
        items.push(vm);
        k += 1;
    }
    proof {
        assert(items@.len() == (if start as int + size as int <= ms.len() {
            size as int
        } else if start as int <= ms.len() {
            ms.len() - start
        } else {
            0
        }));
        assert(slice.len() == items@.len());
        assert(forall|l: int| 0 <= l < slice.len() ==> #[trigger] slice[l] == ms[start + l]);
    }
    let has_next = m_len - start > size;
    proof {
        assert(has_next == ((start as int + size as int) < ms.len()));
    }
    let end_cursor: Option<String> = if items.len() > 0 {
        let last_idx = k - 1;
        proof {
            assert(store.entities@[midx@[last_idx as int] as int] == ms[last_idx as int]);
            assert(slice.last() == ms[start + items@.len() - 1]);
        }
        Some(store.entities[midx[last_idx]].event_id.clone())
    } else {
        None
    };
    Ok(Page { items, has_next_page: has_next, end_cursor })
}

} // verus!
