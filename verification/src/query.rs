//! Declarative queries: a data-shape descriptor names the component kinds a
//! system wants (each by shared or exclusive access), and fetching joins the
//! matching storages into the rows of entities that hold every requested
//! kind, in ascending entity order.

use vstd::prelude::*;
use crate::component::BorrowState;
use crate::world::{BorrowError, World};

verus! {

/// One requested component kind together with the requested access: shared
/// (read) or exclusive (write intent).
#[derive(Clone, Copy, PartialEq, Eq, Structural, Debug)]
pub struct ComponentAccess {
    pub key: u64,
    pub exclusive: bool,
}

/// A data-shape descriptor: the ordered list of component accesses a query
/// joins.
pub trait QueryData {
    /// The requested accesses, in declaration order.
    spec fn shape(&self) -> Seq<ComponentAccess>;

    /// The requested accesses as a vector.
    fn accesses(&self) -> (r: Vec<ComponentAccess>)
        ensures
            r@ == self.shape(),
    ;
}

/// A data shape assembled at run time by chaining `read` and `write`.
#[derive(Debug)]
pub struct Shape {
    accesses: Vec<ComponentAccess>,
}

impl Shape {
    /// The empty shape.
    pub fn new() -> (s: Shape)
        ensures
            s.shape() == Seq::<ComponentAccess>::empty(),
    {
        Shape { accesses: Vec::new() }
    }

    /// Appends a shared access of kind `key`.
    pub fn read(self, key: u64) -> (s: Shape)
        ensures
            s.shape() == self.shape().push(ComponentAccess { key, exclusive: false }),
    {
        let mut accesses = self.accesses;
        accesses.push(ComponentAccess { key, exclusive: false });
        Shape { accesses }
    }

    /// Appends an exclusive access of kind `key`.
    pub fn write(self, key: u64) -> (s: Shape)
        ensures
            s.shape() == self.shape().push(ComponentAccess { key, exclusive: true }),
    {
        let mut accesses = self.accesses;
        accesses.push(ComponentAccess { key, exclusive: true });
        Shape { accesses }
    }
}

impl QueryData for Shape {
    closed spec fn shape(&self) -> Seq<ComponentAccess> {
        self.accesses@
    }

    fn accesses(&self) -> (r: Vec<ComponentAccess>) {
        let mut r: Vec<ComponentAccess> = Vec::new();
        let n = self.accesses.len();
        let mut i: usize = 0;
        while i < n
            invariant
                i <= n,
                n == self.accesses@.len(),
                r@ == self.accesses@.subrange(0, i as int),
            decreases n - i,
        {
            let a = self.accesses[i];
            r.push(a);
            proof {
                assert(r@ =~= self.accesses@.subrange(0, i as int + 1));
            }
            i = i + 1;
        }
        proof {
            assert(r@ =~= self.accesses@);
        }
        r
    }
}

/// Entity `i` holds every component kind the shape requests.
pub open spec fn row_matches<V>(w: World<V>, shape: Seq<ComponentAccess>, i: int) -> bool {
    forall|j: int| 0 <= j < shape.len() ==> (#[trigger] w.slot(shape[j].key, i)) is Some
}

/// The components of entity `i`, one per requested access, in shape order.
pub open spec fn row_items<V>(w: World<V>, shape: Seq<ComponentAccess>, i: int) -> Seq<V> {
    Seq::new(shape.len(), |j: int| w.slot(shape[j].key, i)->0)
}

/// The join of the requested storages over entities `0 .. n`: one row per
/// entity holding every requested kind, in ascending entity order.
pub open spec fn join_rows<V>(w: World<V>, shape: Seq<ComponentAccess>, n: int) -> Seq<
    (int, Seq<V>),
>
    decreases n,
{
    if n <= 0 {
        Seq::empty()
    } else {
        let prev = join_rows(w, shape, n - 1);
        if row_matches(w, shape, n - 1) {
            prev.push((n - 1, row_items(w, shape, n - 1)))
        } else {
            prev
        }
    }
}

/// Accesses `a` and `b` of the shape contend for the same kind.
pub open spec fn pair_conflict(shape: Seq<ComponentAccess>, a: int, b: int) -> bool {
    shape[a].key == shape[b].key && (shape[a].exclusive || shape[b].exclusive)
}

/// The shape's own accesses alias: it asks for the same kind twice with at
/// least one exclusive access.
pub open spec fn shape_self_conflicts(shape: Seq<ComponentAccess>) -> bool {
    exists|a: int, b: int| 0 <= a < b < shape.len() && #[trigger] pair_conflict(shape, a, b)
}

/// The world's live borrows admit this access: an exclusive access needs
/// the kind free, a shared access needs it not exclusively borrowed.
pub open spec fn access_compatible<V>(w: World<V>, a: ComponentAccess) -> bool {
    if a.exclusive {
        w.storage_state(a.key).allows_exclusive()
    } else {
        w.storage_state(a.key) != BorrowState::Exclusive
    }
}

/// The shape can be fetched from this world: it does not alias itself and
/// every access is admitted by the live borrows.
pub open spec fn shape_fetchable<V>(w: World<V>, shape: Seq<ComponentAccess>) -> bool {
    &&& !shape_self_conflicts(shape)
    &&& forall|j: int| 0 <= j < shape.len() ==> access_compatible(w, #[trigger] shape[j])
}

/// One emitted row: the entity id and its components in shape order.
#[derive(Debug)]
pub struct QueryRow<V> {
    pub entity: usize,
    pub items: Vec<V>,
}

impl<V> View for QueryRow<V> {
    type V = (int, Seq<V>);

    open spec fn view(&self) -> (int, Seq<V>) {
        (self.entity as int, self.items@)
    }
}

/// The views of a sequence of rows.
pub open spec fn rows_view<V>(rows: Seq<QueryRow<V>>) -> Seq<(int, Seq<V>)> {
    rows.map_values(|r: QueryRow<V>| r@)
}

/// A fetched query: the materialized join, re-walkable any number of times.
#[derive(Debug)]
pub struct Query<V> {
    rows: Vec<QueryRow<V>>,
}

impl<V> View for Query<V> {
    type V = Seq<(int, Seq<V>)>;

    closed spec fn view(&self) -> Seq<(int, Seq<V>)> {
        rows_view(self.rows@)
    }
}

impl<V> Query<V> {
    /// How many rows the join emitted.
    pub fn len(&self) -> (n: usize)
        ensures
            n == self@.len(),
    {
        self.rows.len()
    }

    /// Whether the join emitted no row.
    pub fn is_empty(&self) -> (b: bool)
        ensures
            b == (self@.len() == 0),
    {
        self.rows.len() == 0
    }

    /// The row at `idx`; reading rows never consumes them, so walking the
    /// query again from the start reads the same rows.
    pub fn row(&self, idx: usize) -> (r: &QueryRow<V>)
        requires
            idx < self@.len(),
        ensures
            r@ == self@[idx as int],
    {
        &self.rows[idx]
    }
}

impl<V: Copy> Query<V> {
    /// Fetches the join this shape describes from the world: one row per
    /// entity that has an occupied slot in every requested storage, in
    /// ascending entity order; a kind never inserted reads as an entirely
    /// empty storage, so the join just emits no row for it.
    ///
    /// Fails exactly when the shape aliases itself or a requested kind is
    /// contended by a live borrow; the reported key names a contended kind.
    pub fn fetch<D: QueryData>(world: &World<V>, data: &D) -> (r: Result<Query<V>, BorrowError>)
        requires
            world.wf(),
        ensures
            r is Ok <==> shape_fetchable(*world, data.shape()),
            r matches Ok(q) ==> q@ == join_rows(
                *world,
                data.shape(),
                world.entity_count() as int,
            ),
            r matches Err(e) ==> exists|j: int|
                0 <= j < data.shape().len() && (#[trigger] data.shape()[j]).key == e.key,
    {
        let ghost shape = data.shape();
        let accs = data.accesses();
        let m = accs.len();

        let mut a: usize = 0;
        while a < m
            invariant
                a <= m,
                m == accs@.len(),
                accs@ == shape,
                shape == data.shape(),
                forall|x: int, y: int| 0 <= x < a && x < y < m ==> !pair_conflict(shape, x, y),
            decreases m - a,
        {
            let mut b: usize = a + 1;
            while b < m
                invariant
                    a < b <= m,
                    a < m,
                    m == accs@.len(),
                    accs@ == shape,
                    shape == data.shape(),
                    forall|y: int| a < y < b ==> !pair_conflict(shape, a as int, y),
                decreases m - b,
            {
                if accs[a].key == accs[b].key && (accs[a].exclusive || accs[b].exclusive) {
                    proof {
                        assert(pair_conflict(shape, a as int, b as int));
                        assert(shape_self_conflicts(shape));
                        assert(shape[a as int].key == accs@[a as int].key);
                    }
                    return Err(BorrowError { key: accs[a].key });
                }
                b = b + 1;
            }
            a = a + 1;
        }
        proof {
            assert(!shape_self_conflicts(shape));
        }

        let mut c: usize = 0;
        while c < m
            invariant
                c <= m,
                m == accs@.len(),
                accs@ == shape,
                shape == data.shape(),
                world.wf(),
                forall|j: int| 0 <= j < c ==> access_compatible(*world, #[trigger] shape[j]),
            decreases m - c,
        {
            let state = world.storage_borrow_state(accs[c].key);
            let admitted = if accs[c].exclusive {
                state == BorrowState::Free
            } else {
                !(state == BorrowState::Exclusive)
            };
            if !admitted {
                proof {
                    assert(!access_compatible(*world, shape[c as int]));
                    assert(!shape_fetchable(*world, shape));
                }
                return Err(BorrowError { key: accs[c].key });
            }
            c = c + 1;
        }

        let n = world.num_entities();
        let mut rows: Vec<QueryRow<V>> = Vec::new();
        let mut i: usize = 0;
        while i < n
            invariant
                i <= n,
                n == world.entity_count(),
                m == accs@.len(),
                accs@ == shape,
                shape == data.shape(),
                world.wf(),
                rows_view(rows@) == join_rows(*world, shape, i as int),
            decreases n - i,
        {
            let mut items: Vec<V> = Vec::new();
            let mut all = true;
            let mut j: usize = 0;
            while j < m
                invariant
                    j <= m,
                    i < n,
                    n == world.entity_count(),
                    m == accs@.len(),
                    accs@ == shape,
                    shape == data.shape(),
                    world.wf(),
                    all ==> forall|jj: int|
                        0 <= jj < j ==> (#[trigger] world.slot(shape[jj].key, i as int)) is Some,
                    all ==> items@ == Seq::new(
                        j as nat,
                        |jj: int| world.slot(shape[jj].key, i as int)->0,
                    ),
                    !all ==> !row_matches(*world, shape, i as int),
                decreases m - j,
            {
                if all {
                    match world.component_at(accs[j].key, i) {
                        Some(v) => {
                            items.push(v);
                            proof {
                                assert(items@ =~= Seq::new(
                                    j as nat + 1,
                                    |jj: int| world.slot(shape[jj].key, i as int)->0,
                                ));
                            }
                        },
                        None => {
                            all = false;
                            proof {
                                assert(!(world.slot(shape[j as int].key, i as int) is Some));
                            }
                        },
                    }
                }
                j = j + 1;
            }
            proof {
                if all {
                    assert(row_matches(*world, shape, i as int));
                    assert(items@ =~= row_items(*world, shape, i as int));
                }
            }
            if all {
                let row = QueryRow { entity: i, items };
                rows.push(row);
                proof {
                    assert(rows_view(rows@) =~= join_rows(*world, shape, i as int).push(
                        (i as int, row_items(*world, shape, i as int)),
                    ));
                }
            }
            i = i + 1;
        }
        Ok(Query { rows })
    }
}

/// The emitted row set is exactly the set of entities at which every
/// requested storage has an occupied slot — no more, no fewer — with each
/// row carrying those slots' values, in ascending entity order.
pub proof fn lemma_join_rows_correct<V>(w: World<V>, shape: Seq<ComponentAccess>, n: int)
    ensures
        forall|t: int|
            0 <= t < join_rows(w, shape, n).len() ==> 0 <= (#[trigger] join_rows(w, shape, n)[t]).0
                < n && row_matches(w, shape, join_rows(w, shape, n)[t].0) && join_rows(
                w,
                shape,
                n,
            )[t].1 == row_items(w, shape, join_rows(w, shape, n)[t].0),
        forall|i: int|
            0 <= i < n && row_matches(w, shape, i) ==> exists|t: int|
                0 <= t < join_rows(w, shape, n).len() && (#[trigger] join_rows(w, shape, n)[t]).0
                    == i,
        forall|t1: int, t2: int|
            0 <= t1 < t2 < join_rows(w, shape, n).len() ==> (#[trigger] join_rows(
                w,
                shape,
                n,
            )[t1]).0 < (#[trigger] join_rows(w, shape, n)[t2]).0,
    decreases n,
{
    if n > 0 {
        lemma_join_rows_correct(w, shape, n - 1);
        let prev = join_rows(w, shape, n - 1);
        let cur = join_rows(w, shape, n);
        assert forall|i: int| 0 <= i < n && row_matches(w, shape, i) implies exists|t: int|
            0 <= t < cur.len() && (#[trigger] cur[t]).0 == i by {
            if i < n - 1 {
                let t = choose|t: int| 0 <= t < prev.len() && (#[trigger] prev[t]).0 == i;
                assert(cur[t].0 == i);
            } else {
                assert(cur[cur.len() - 1].0 == i);
            }
        }
    }
}

/// Querying a kind in which no component was ever inserted yields zero
/// rows, not an error: the join over a shape that requests an unregistered
/// kind is empty.
pub proof fn lemma_unregistered_kind_empty<V>(
    w: World<V>,
    shape: Seq<ComponentAccess>,
    n: int,
    j: int,
)
    requires
        0 <= j < shape.len(),
        !w.has_storage(shape[j].key),
    ensures
        join_rows(w, shape, n).len() == 0,
    decreases n,
{
    if n > 0 {
        lemma_unregistered_kind_empty(w, shape, n - 1, j);
        assert(!(w.slot(shape[j].key, n - 1) is Some));
        assert(!row_matches(w, shape, n - 1));
    }
}

/// A fetched query is restartable: the join is a function of the world and
/// the shape alone, so any two queries fetched from the same unmutated
/// world under the same shape — and any two walks over one fetched query —
/// read identical row sequences.
pub proof fn lemma_query_restartable<V>(
    w: World<V>,
    shape: Seq<ComponentAccess>,
    q1: Query<V>,
    q2: Query<V>,
)
    requires
        q1@ == join_rows(w, shape, w.entity_count() as int),
        q2@ == join_rows(w, shape, w.entity_count() as int),
    ensures
        q1@ == q2@,
{
}

} // verus!
