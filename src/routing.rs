use vstd::prelude::*;

verus! {

/// What a routing table holds for one location, in mathematical form.
pub struct PoolView {
    pub location: Seq<char>,
    pub backends: Seq<Seq<char>>,
    pub cursor: nat,
}

/// The strings of a vector, as character sequences.
pub open spec fn names(s: Seq<String>) -> Seq<Seq<char>> {
    s.map_values(|x: String| x@)
}

pub open spec fn has_location(v: Seq<PoolView>, loc: Seq<char>) -> bool {
    exists|i: int| 0 <= i < v.len() && v[i].location == loc
}

pub open spec fn pool_index(v: Seq<PoolView>, loc: Seq<char>) -> int {
    choose|i: int| 0 <= i < v.len() && v[i].location == loc
}

/// The backends registered for `loc`; empty when the location has no entry.
pub open spec fn backends_of(v: Seq<PoolView>, loc: Seq<char>) -> Seq<Seq<char>> {
    if has_location(v, loc) {
        v[pool_index(v, loc)].backends
    } else {
        Seq::empty()
    }
}

/// The round-robin cursor of `loc`; zero when the location has no entry.
pub open spec fn cursor_of(v: Seq<PoolView>, loc: Seq<char>) -> nat {
    if has_location(v, loc) {
        v[pool_index(v, loc)].cursor
    } else {
        0
    }
}

/// Each location has at most one entry, and each cursor points into its
/// location's list, which is therefore never empty.
pub open spec fn table_wf(v: Seq<PoolView>) -> bool {
    &&& forall|i: int, j: int|
        0 <= i < j < v.len() ==> #[trigger] v[i].location != #[trigger] v[j].location
    &&& forall|i: int|
        0 <= i < v.len() ==> #[trigger] v[i].cursor < v[i].backends.len()
}

/// The first location of `order` that has at least one backend.
pub open spec fn nearest_available(v: Seq<PoolView>, order: Seq<Seq<char>>) -> Option<Seq<char>>
    decreases order.len(),
{
    if order.len() == 0 {
        None
    } else if backends_of(v, order[0]).len() > 0 {
        Some(order[0])
    } else {
        nearest_available(v, order.drop_first())
    }
}

/// The backend that a selection from `loc` hands out.
pub open spec fn pick(v: Seq<PoolView>, loc: Seq<char>) -> Seq<char> {
    backends_of(v, loc)[cursor_of(v, loc) as int]
}

/// The table after one selection from `loc`: its cursor moves on by one,
/// wrapping at the end of its list.
pub open spec fn advance(v: Seq<PoolView>, loc: Seq<char>) -> Seq<PoolView> {
    let i = pool_index(v, loc);
    v.update(
        i,
        PoolView {
            location: v[i].location,
            backends: v[i].backends,
            cursor: ((v[i].cursor + 1) % v[i].backends.len()) as nat,
        },
    )
}

/// The table after `backend` is registered under `loc`, appended to its list.
pub open spec fn with_backend(v: Seq<PoolView>, loc: Seq<char>, backend: Seq<char>) -> Seq<PoolView> {
    if has_location(v, loc) {
        let i = pool_index(v, loc);
        v.update(
            i,
            PoolView { location: v[i].location, backends: v[i].backends.push(backend), cursor: v[i].cursor },
        )
    } else {
        v.push(PoolView { location: loc, backends: seq![backend], cursor: 0 })
    }
}

/// The table after one selection against `order`; unchanged when no location
/// of `order` has a backend.
pub open spec fn select_step(v: Seq<PoolView>, order: Seq<Seq<char>>) -> Seq<PoolView> {
    match nearest_available(v, order) {
        Some(loc) => advance(v, loc),
        None => v,
    }
}

/// The table after `m` selections against `order`.
pub open spec fn after_selections(v: Seq<PoolView>, order: Seq<Seq<char>>, m: nat) -> Seq<PoolView>
    decreases m,
{
    if m == 0 {
        v
    } else {
        select_step(after_selections(v, order, (m - 1) as nat), order)
    }
}

/// What the selection numbered `t` (from zero) hands out, when `t` selections
/// against `order` came before it.
pub open spec fn nth_selection(v: Seq<PoolView>, order: Seq<Seq<char>>, t: nat) -> Option<Seq<char>> {
    let w = after_selections(v, order, t);
    match nearest_available(w, order) {
        Some(loc) => Some(pick(w, loc)),
        None => None,
    }
}

proof fn lemma_nearest_has_backends(v: Seq<PoolView>, order: Seq<Seq<char>>)
    ensures
        nearest_available(v, order) matches Some(loc) ==> backends_of(v, loc).len() > 0,
        nearest_available(v, order) is None <==> (forall|j: int|
            0 <= j < order.len() ==> #[trigger] backends_of(v, order[j]).len() == 0),
    decreases order.len(),
{
    if order.len() > 0 {
        let rest = order.drop_first();
        lemma_nearest_has_backends(v, rest);
        if backends_of(v, order[0]).len() == 0 {
            assert forall|j: int| 0 <= j < order.len() && #[trigger] backends_of(v, order[j]).len() != 0
                implies backends_of(v, rest[j - 1]).len() != 0 by {
            }
        }
    }
}

/// Advancing one cursor leaves every backend list where it was, and moves no
/// other cursor.
proof fn lemma_advance(v: Seq<PoolView>, loc: Seq<char>)
    requires
        table_wf(v),
        has_location(v, loc),
    ensures
        table_wf(advance(v, loc)),
        forall|l: Seq<char>| #[trigger] backends_of(advance(v, loc), l) == backends_of(v, l),
        forall|l: Seq<char>| l != loc ==> #[trigger] cursor_of(advance(v, loc), l) == cursor_of(v, l),
        cursor_of(advance(v, loc), loc) == (cursor_of(v, loc) + 1) as int % (backends_of(v, loc).len() as int),
{
    let w = advance(v, loc);
    let k = pool_index(v, loc);
    assert(0 <= k < v.len() && v[k].location == loc);
    assert(table_wf(w)) by {
        assert forall|i: int, j: int| 0 <= i < j < w.len() implies #[trigger] w[i].location
            != #[trigger] w[j].location by {
            assert(v[i].location != v[j].location);
        }
        assert forall|i: int| 0 <= i < w.len() implies #[trigger] w[i].cursor < w[i].backends.len() by {
            if i != k {
                assert(w[i] == v[i]);
            } else {
                assert(v[i].cursor < v[i].backends.len());
            }
        }
    }
    lemma_index_unique(w, loc, k);
    assert forall|l: Seq<char>| #[trigger] backends_of(w, l) == backends_of(v, l) by {
        if has_location(v, l) {
            let i = pool_index(v, l);
            lemma_index_unique(w, l, i);
        } else {
            if has_location(w, l) {
                let i = pool_index(w, l);
                assert(v[i].location == l);
            }
        }
    }
    assert forall|l: Seq<char>| l != loc implies #[trigger] cursor_of(w, l) == cursor_of(v, l) by {
        if has_location(v, l) {
            let i = pool_index(v, l);
            lemma_index_unique(w, l, i);
            assert(i != k);
        } else {
            if has_location(w, l) {
                let i = pool_index(w, l);
                assert(v[i].location == l);
            }
        }
    }
}

proof fn lemma_nearest_same_backends(v: Seq<PoolView>, w: Seq<PoolView>, order: Seq<Seq<char>>)
    requires
        forall|l: Seq<char>| #[trigger] backends_of(w, l) == backends_of(v, l),
    ensures
        nearest_available(w, order) == nearest_available(v, order),
    decreases order.len(),
{
    if order.len() > 0 {
        assert(backends_of(w, order[0]) == backends_of(v, order[0]));
        lemma_nearest_same_backends(v, w, order.drop_first());
    }
}

/// Round robin: while `loc` is the nearest location of `order` with backends,
/// successive selections hand out its backends in list order from its cursor
/// on, wrapping at the end, and after `m` selections its cursor has moved on
/// by exactly `m` places; no backend list changes. Concurrent selections on
/// one table are serialised by the lock that guards it, so this holds for them
/// too.
pub proof fn law_round_robin(v: Seq<PoolView>, order: Seq<Seq<char>>, loc: Seq<char>, m: nat)
    requires
        table_wf(v),
        nearest_available(v, order) == Some(loc),
    ensures
        table_wf(after_selections(v, order, m)),
        forall|l: Seq<char>| #[trigger] backends_of(after_selections(v, order, m), l) == backends_of(v, l),
        nearest_available(after_selections(v, order, m), order) == Some(loc),
        cursor_of(after_selections(v, order, m), loc) == (cursor_of(v, loc) + m) as int % (backends_of(v, loc).len() as int),
        nth_selection(v, order, m) == Some(
            backends_of(v, loc)[(cursor_of(v, loc) + m) as int % (backends_of(v, loc).len() as int)],
        ),
    decreases m,
{
    lemma_nearest_has_backends(v, order);
    let k = backends_of(v, loc).len() as int;
    let c = cursor_of(v, loc) as int;
    if m == 0 {
        assert(has_location(v, loc));
        let i = pool_index(v, loc);
        assert(v[i].cursor < v[i].backends.len());
        assert(c % k == c) by {
            vstd::arithmetic::div_mod::lemma_small_mod(c as nat, k as nat);
        }
    } else {
        law_round_robin(v, order, loc, (m - 1) as nat);
        let w = after_selections(v, order, (m - 1) as nat);
        assert(has_location(w, loc));
        lemma_advance(w, loc);
        let w2 = advance(w, loc);
        assert(after_selections(v, order, m) == w2);
        assert forall|l: Seq<char>| #[trigger] backends_of(w2, l) == backends_of(v, l) by {
            assert(backends_of(w2, l) == backends_of(w, l));
        }
        lemma_nearest_same_backends(v, w2, order);
        assert(cursor_of(w2, loc) == (c + m) % k) by {
            vstd::arithmetic::div_mod::lemma_add_mod_noop(c + m - 1, 1, k);
            vstd::arithmetic::div_mod::lemma_add_mod_noop((c + m - 1) % k, 1, k);
            vstd::arithmetic::div_mod::lemma_mod_twice(c + m - 1, k);
        }
        let i = pool_index(w2, loc);
        assert(0 <= i < w2.len() && w2[i].location == loc);
        assert(w2[i].cursor < w2[i].backends.len());
    }
}

/// A fresh location (cursor at zero) with backends `b[0], ..., b[K-1]` that is
/// the nearest one with backends hands out `b[t mod K]` at selection `t`: each
/// backend once, in list order, in the first `K` selections, and `b[0]` again at
/// selection `K`.
pub proof fn law_fresh_round_robin(v: Seq<PoolView>, order: Seq<Seq<char>>, loc: Seq<char>)
    requires
        table_wf(v),
        nearest_available(v, order) == Some(loc),
        cursor_of(v, loc) == 0,
    ensures
        forall|t: nat|
            #[trigger] nth_selection(v, order, t) == Some(
                backends_of(v, loc)[t as int % (backends_of(v, loc).len() as int)],
            ),
        forall|t: nat|
            t < backends_of(v, loc).len() ==> #[trigger] nth_selection(v, order, t) == Some(
                backends_of(v, loc)[t as int],
            ),
        nth_selection(v, order, backends_of(v, loc).len()) == Some(backends_of(v, loc)[0]),
{
    lemma_nearest_has_backends(v, order);
    let k = backends_of(v, loc).len();
    assert forall|t: nat|
        #[trigger] nth_selection(v, order, t) == Some(backends_of(v, loc)[t as int % (k as int)]) by {
        law_round_robin(v, order, loc, t);
    }
    assert forall|t: nat| t < k implies #[trigger] nth_selection(v, order, t) == Some(
        backends_of(v, loc)[t as int],
    ) by {
        law_round_robin(v, order, loc, t);
        vstd::arithmetic::div_mod::lemma_small_mod(t, k);
    }
    law_round_robin(v, order, loc, k);
    vstd::arithmetic::div_mod::lemma_mod_self_0(k as int);
}

/// Failover: when the first location of `order` has no backend and a later one
/// has, every selection hands out a backend of a later location, the nearest
/// one that has backends.
pub proof fn law_failover(v: Seq<PoolView>, order: Seq<Seq<char>>, j: int, t: nat)
    requires
        table_wf(v),
        order.len() > 0,
        backends_of(v, order[0]).len() == 0,
        0 <= j < order.len(),
        backends_of(v, order[j]).len() > 0,
    ensures
        nearest_available(v, order) is Some,
        nearest_available(v, order)->Some_0 != order[0],
        nth_selection(v, order, t) is Some,
        backends_of(v, nearest_available(v, order)->Some_0).contains(nth_selection(v, order, t)->Some_0),
{
    lemma_nearest_has_backends(v, order);
    let loc = nearest_available(v, order)->Some_0;
    law_round_robin(v, order, loc, t);
    let k = backends_of(v, loc).len() as int;
    vstd::arithmetic::div_mod::lemma_mod_bound((cursor_of(v, loc) + t) as int, k);
    assert(backends_of(v, loc).contains(backends_of(v, loc)[(cursor_of(v, loc) + t) as int % k]));
}

/// Unavailability: when no location of `order` has a backend, every selection
/// fails and the table stays as it is.
pub proof fn law_unavailable(v: Seq<PoolView>, order: Seq<Seq<char>>, t: nat)
    requires
        forall|j: int| 0 <= j < order.len() ==> #[trigger] backends_of(v, order[j]).len() == 0,
    ensures
        nearest_available(v, order) is None,
        after_selections(v, order, t) == v,
        nth_selection(v, order, t) is None,
    decreases t,
{
    lemma_nearest_has_backends(v, order);
    if t > 0 {
        law_unavailable(v, order, (t - 1) as nat);
    }
}

/// Why no backend could be selected.
#[derive(Debug, Clone, Copy, PartialEq, Eq)]
pub enum SelectError {
    /// No location of the order has a registered backend.
    Unavailable,
}

/// The backends of one public endpoint, grouped by location, with one
/// round-robin cursor per location.
#[derive(Debug, Clone)]
pub struct RoutingTable {
    locations: Vec<String>,
    backends: Vec<Vec<String>>,
    cursors: Vec<usize>,
}

impl View for RoutingTable {
    type V = Seq<PoolView>;

    closed spec fn view(&self) -> Seq<PoolView> {
        Seq::new(
            self.locations@.len(),
            |i: int|
                PoolView {
                    location: self.locations@[i]@,
                    backends: names(self.backends@[i]@),
                    cursor: self.cursors@[i] as nat,
                },
        )
    }
}

/// In a well-formed table, the entry of a location is the one that names it.
pub proof fn lemma_index_unique(v: Seq<PoolView>, loc: Seq<char>, k: int)
    requires
        table_wf(v),
        0 <= k < v.len(),
        v[k].location == loc,
    ensures
        has_location(v, loc),
        pool_index(v, loc) == k,
{
    let c = pool_index(v, loc);
    if c != k {
        if c < k {
            assert(v[c].location != v[k].location);
        } else {
            assert(v[k].location != v[c].location);
        }
    }
}

impl RoutingTable {
    pub closed spec fn wf(&self) -> bool {
        &&& self.backends@.len() == self.locations@.len()
        &&& self.cursors@.len() == self.locations@.len()
        &&& table_wf(self@)
    }

    /// A table with no locations.
    pub fn new() -> (r: Self)
        ensures
            r.wf(),
            table_wf(r@),
            r@ == Seq::<PoolView>::empty(),
    {
        let r = RoutingTable { locations: Vec::new(), backends: Vec::new(), cursors: Vec::new() };
        assert(r@ =~= Seq::<PoolView>::empty());
        r
    }

    /// The index of the entry of `loc`, if there is one.
    fn find(&self, loc: &String) -> (r: Option<usize>)
        requires
            self.wf(),
        ensures
            match r {
                Some(k) => k < self@.len() && self@[k as int].location == loc@ && pool_index(
                    self@,
                    loc@,
                ) == k && has_location(self@, loc@),
                None => !has_location(self@, loc@),
            },
    {
        let mut k: usize = 0;
        while k < self.locations.len()
            invariant
                self.wf(),
                k <= self.locations@.len(),
                forall|j: int| 0 <= j < k ==> self@[j].location != loc@,
            decreases self.locations@.len() - k,
        {
            if self.locations[k] == *loc {
                proof {
                    lemma_index_unique(self@, loc@, k as int);
                }
                return Some(k);
            }
            k = k + 1;
        }
        None
    }

    /// Registers `backend` under `location`, after the backends it already has.
    pub fn add_backend(&mut self, location: String, backend: String)
        requires
            old(self).wf(),
        ensures
            final(self).wf(),
            table_wf(final(self)@),
            final(self)@ == with_backend(old(self)@, location@, backend@),
    {
        match self.find(&location) {
            Some(k) => {
                let ghost v0 = self@;
                let ghost b0 = self.backends@[k as int]@;
                self.backends[k].push(backend);
                assert(names(self.backends@[k as int]@) =~= names(b0).push(backend@));
                assert(self@ =~= with_backend(v0, location@, backend@));
                assert(table_wf(self@)) by {
                    assert forall|i: int| 0 <= i < self@.len() implies #[trigger] self@[i].cursor
                        < self@[i].backends.len() by {
                        if i != k {
                            assert(self@[i] == v0[i]);
                        }
                    }
                    assert forall|i: int, j: int| 0 <= i < j < self@.len() implies #[trigger] self@[i].location
                        != #[trigger] self@[j].location by {
                        assert(v0[i].location != v0[j].location);
                    }
                }
            },
            None => {
                let ghost v0 = self@;
                let ghost l = location@;
                let mut list: Vec<String> = Vec::new();
                list.push(backend);
                self.locations.push(location);
                self.backends.push(list);
                self.cursors.push(0);
                assert(names(list@) =~= seq![backend@]);
                assert(self@ =~= with_backend(v0, l, backend@));
                assert(table_wf(self@)) by {
                    assert forall|i: int, j: int| 0 <= i < j < self@.len() implies #[trigger] self@[i].location
                        != #[trigger] self@[j].location by {
                        if j < v0.len() {
                            assert(v0[i].location != v0[j].location);
                        } else {
                            assert(v0[i].location != l);
                        }
                    }
                }
            },
        }
    }

    /// Picks the next backend of the nearest location in `order` that has any:
    /// the one under that location's cursor, whose cursor then moves on by one,
    /// wrapping at the end of the list. Locations without an entry, or with an
    /// empty list, are skipped. Nothing changes when no location in `order` has
    /// a backend.
    pub fn select_backend(&mut self, order: &Vec<String>) -> (r: Result<String, SelectError>)
        requires
            old(self).wf(),
        ensures
            final(self).wf(),
            table_wf(final(self)@),
            final(self)@ == select_step(old(self)@, names(order@)),
            match nearest_available(old(self)@, names(order@)) {
                Some(loc) => r is Ok && r->Ok_0@ == pick(old(self)@, loc) && final(self)@ == advance(
                    old(self)@,
                    loc,
                ),
                None => r == Err::<String, SelectError>(SelectError::Unavailable) && final(self)@ == old(
                    self,
                )@,
            },
    {
        let ghost ord = names(order@);
        assert(ord.subrange(0, ord.len() as int) =~= ord);
        let mut i: usize = 0;
        while i < order.len()
            invariant
                self.wf(),
                *self == *old(self),
                i <= order@.len(),
                ord == names(order@),
                nearest_available(self@, ord) == nearest_available(
                    self@,
                    ord.subrange(i as int, ord.len() as int),
                ),
            decreases order@.len() - i,
        {
            let ghost rest = ord.subrange(i as int, ord.len() as int);
            assert(rest[0] == order@[i as int]@);
            assert(rest.drop_first() =~= ord.subrange(i + 1, ord.len() as int));
            match self.find(&order[i]) {
                Some(k) => {
                    let n = self.backends[k].len();
                    if n > 0 {
                        let ghost v0 = self@;
                        assert(nearest_available(v0, rest) == Some(order@[i as int]@));
                        let c = self.cursors[k];
                        assert(v0[k as int].cursor < v0[k as int].backends.len());
                        let b = self.backends[k][c].clone();
                        self.cursors.set(k, (c + 1) % n);
                        assert(self@ =~= advance(v0, order@[i as int]@));
                        assert(table_wf(self@)) by {
                            assert forall|x: int| 0 <= x < self@.len() implies #[trigger] self@[x].cursor
                                < self@[x].backends.len() by {
                                if x != k {
                                    assert(self@[x] == v0[x]);
                                }
                            }
                            assert forall|x: int, y: int| 0 <= x < y < self@.len() implies #[trigger] self@[x].location
                                != #[trigger] self@[y].location by {
                                assert(v0[x].location != v0[y].location);
                            }
                        }
                        return Ok(b);
                    }
                    assert(nearest_available(self@, rest) == nearest_available(self@, rest.drop_first()));
                },
                None => {
                    assert(nearest_available(self@, rest) == nearest_available(self@, rest.drop_first()));
                },
            }
            i = i + 1;
        }
        assert(ord.subrange(i as int, ord.len() as int).len() == 0);
        Err(SelectError::Unavailable)
    }
}

} // verus!
