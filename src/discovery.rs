use vstd::prelude::*;
use crate::routing::{PoolView, RoutingTable, with_backend};

verus! {

/// The decimal digits of `n`, most significant first.
pub open spec fn digits(n: nat) -> Seq<char>
    decreases n,
{
    let d = seq!['0', '1', '2', '3', '4', '5', '6', '7', '8', '9'];
    if n < 10 {
        seq![d[n as int]]
    } else {
        digits(n / 10).push(d[(n % 10) as int])
    }
}

/// `n` written in decimal, with a leading `-` when negative.
pub open spec fn decimal_text(n: int) -> Seq<char> {
    if n < 0 {
        seq!['-'] + digits((-n) as nat)
    } else {
        digits(n as nat)
    }
}

/// Relies on `i32`'s `Display` (through `to_string`): the number in decimal,
/// `-` before a negative one, no padding.
#[verifier::external_body]
fn decimal(n: i32) -> (r: String)
    ensures
        r@ == decimal_text(n as int),
{
    n.to_string()
}

/// One discovery record: a public endpoint of an app, joined with one of the
/// app's placements, if it has any.
#[derive(Debug, Clone)]
pub struct EndpointRow {
    /// Public address the endpoint listens on.
    pub external_address: String,
    /// Public port the endpoint listens on.
    pub external_port: i32,
    /// Port the app serves on inside the cluster.
    pub endpoint_port: i32,
    pub app_id: String,
    pub project_id: String,
    /// Location the app is placed in, when the record carries a placement.
    pub placement_location: Option<String>,
}

/// A public listener address with its routing table.
#[derive(Debug, Clone)]
pub struct Endpoint {
    pub listener: String,
    pub routing: RoutingTable,
}

/// An endpoint in mathematical form.
pub struct EndpointView {
    pub listener: Seq<char>,
    pub table: Seq<PoolView>,
}

pub open spec fn endpoint_views(eps: Seq<Endpoint>) -> Seq<EndpointView> {
    eps.map_values(|e: Endpoint| EndpointView { listener: e.listener@, table: e.routing@ })
}

/// `host:port` of the public listener of a record.
pub open spec fn listener_text(row: EndpointRow) -> Seq<char> {
    row.external_address@ + ":"@ + decimal_text(row.external_port as int)
}

/// The in-cluster service address of the app of a record, placed in `loc`.
pub open spec fn backend_text(row: EndpointRow, loc: Seq<char>) -> Seq<char> {
    "app-"@ + row.app_id@ + "-"@ + loc + "-svc.proj-"@ + row.project_id@ + ".svc.cluster.local:"@
        + decimal_text(row.endpoint_port as int)
}

pub open spec fn has_listener(eps: Seq<EndpointView>, l: Seq<char>) -> bool {
    exists|i: int| 0 <= i < eps.len() && eps[i].listener == l
}

pub open spec fn listener_index(eps: Seq<EndpointView>, l: Seq<char>) -> int {
    choose|i: int| 0 <= i < eps.len() && eps[i].listener == l
}

/// The endpoints after one more record: its listener is added at the end if it
/// is new, and the record's backend, if it has a placement, is appended under
/// the placement's location in that listener's table.
pub open spec fn add_row(eps: Seq<EndpointView>, row: EndpointRow) -> Seq<EndpointView> {
    let l = listener_text(row);
    let base = if has_listener(eps, l) {
        eps
    } else {
        eps.push(EndpointView { listener: l, table: Seq::empty() })
    };
    let i = listener_index(base, l);
    match row.placement_location {
        Some(loc) => base.update(
            i,
            EndpointView { listener: l, table: with_backend(base[i].table, loc@, backend_text(row, loc@)) },
        ),
        None => base,
    }
}

/// The endpoints that a sequence of records describes, one per distinct
/// listener in order of first appearance.
pub open spec fn endpoints_of(rows: Seq<EndpointRow>) -> Seq<EndpointView>
    decreases rows.len(),
{
    if rows.len() == 0 {
        Seq::empty()
    } else {
        add_row(endpoints_of(rows.drop_last()), rows.last())
    }
}

/// The public listener address of a record.
pub fn listener_address(row: &EndpointRow) -> (r: String)
    ensures
        r@ == listener_text(*row),
{
    let s = row.external_address.clone().concat(":");
    let port = decimal(row.external_port);
    s.concat(port.as_str())
}

/// The in-cluster address of the app of a record, placed in `loc`.
pub fn backend_address(row: &EndpointRow, loc: &String) -> (r: String)
    ensures
        r@ == backend_text(*row, loc@),
{
    let s = String::from_str("app-");
    let s = s.concat(row.app_id.as_str());
    let s = s.concat("-");
    let s = s.concat(loc.as_str());
    let s = s.concat("-svc.proj-");
    let s = s.concat(row.project_id.as_str());
    let s = s.concat(".svc.cluster.local:");
    let port = decimal(row.endpoint_port);
    s.concat(port.as_str())
}

/// No two endpoints share a listener address.
pub open spec fn listeners_unique(eps: Seq<EndpointView>) -> bool {
    forall|i: int, j: int| 0 <= i < j < eps.len() ==> #[trigger] eps[i].listener != #[trigger] eps[j].listener
}

proof fn lemma_listener_index(eps: Seq<EndpointView>, l: Seq<char>, k: int)
    requires
        listeners_unique(eps),
        0 <= k < eps.len(),
        eps[k].listener == l,
    ensures
        has_listener(eps, l),
        listener_index(eps, l) == k,
{
    let c = listener_index(eps, l);
    if c != k {
        if c < k {
            assert(eps[c].listener != eps[k].listener);
        } else {
            assert(eps[k].listener != eps[c].listener);
        }
    }
}

fn find_listener(eps: &Vec<Endpoint>, l: &String) -> (r: Option<usize>)
    requires
        listeners_unique(endpoint_views(eps@)),
    ensures
        match r {
            Some(k) => k < eps@.len() && has_listener(endpoint_views(eps@), l@) && listener_index(
                endpoint_views(eps@),
                l@,
            ) == k,
            None => !has_listener(endpoint_views(eps@), l@),
        },
{
    let ghost ev = endpoint_views(eps@);
    let mut k: usize = 0;
    while k < eps.len()
        invariant
            ev == endpoint_views(eps@),
            listeners_unique(ev),
            k <= eps@.len(),
            forall|j: int| 0 <= j < k ==> ev[j].listener != l@,
        decreases eps@.len() - k,
    {
        if eps[k].listener == *l {
            proof {
                lemma_listener_index(ev, l@, k as int);
            }
            return Some(k);
        }
        k = k + 1;
    }
    None
}

/// Groups discovery records into endpoints: one per distinct listener address,
/// in order of first appearance, each with a routing table that holds, per
/// location, the backends of the records placed there, in record order.
pub fn endpoints_from_rows(rows: &Vec<EndpointRow>) -> (r: Vec<Endpoint>)
    ensures
        endpoint_views(r@) == endpoints_of(rows@),
        listeners_unique(endpoint_views(r@)),
        forall|i: int| 0 <= i < r@.len() ==> (#[trigger] r@[i]).routing.wf(),
{
    let mut eps: Vec<Endpoint> = Vec::new();
    let mut i: usize = 0;
    assert(endpoint_views(eps@) =~= endpoints_of(rows@.take(0)));
    while i < rows.len()
        invariant
            i <= rows@.len(),
            endpoint_views(eps@) == endpoints_of(rows@.take(i as int)),
            listeners_unique(endpoint_views(eps@)),
            forall|j: int| 0 <= j < eps@.len() ==> (#[trigger] eps@[j]).routing.wf(),
        decreases rows@.len() - i,
    {
        let row = &rows[i];
        let ghost e0 = endpoint_views(eps@);
        assert(rows@.take(i + 1).drop_last() =~= rows@.take(i as int));
        assert(rows@.take(i + 1).last() == *row);
        let l = listener_address(row);
        let k = match find_listener(&eps, &l) {
            Some(k) => k,
            None => {
                let ghost lv = l@;
                let t = RoutingTable::new();
                eps.push(Endpoint { listener: l, routing: t });
                assert(endpoint_views(eps@) =~= e0.push(EndpointView { listener: lv, table: Seq::empty() }));
                assert(listeners_unique(endpoint_views(eps@))) by {
                    let ev = endpoint_views(eps@);
                    assert forall|x: int, y: int| 0 <= x < y < ev.len() implies #[trigger] ev[x].listener
                        != #[trigger] ev[y].listener by {
                        if y < e0.len() {
                            assert(e0[x].listener != e0[y].listener);
                        } else {
                            assert(e0[x].listener != lv);
                        }
                    }
                }
                proof {
                    lemma_listener_index(endpoint_views(eps@), lv, e0.len() as int);
                }
                eps.len() - 1
            },
        };
        let ghost base = endpoint_views(eps@);
        assert(listener_index(base, listener_text(*row)) == k);
        match &row.placement_location {
            Some(loc) => {
                let b = backend_address(row, loc);
                let ghost eps0 = eps@;
                eps[k].routing.add_backend(loc.clone(), b);
                assert(endpoint_views(eps@) =~= add_row(e0, *row)) by {
                    assert forall|x: int| 0 <= x < eps@.len() && x != k implies eps@[x] == eps0[x] by {}
                }
                assert(listeners_unique(endpoint_views(eps@))) by {
                    let ev = endpoint_views(eps@);
                    assert forall|x: int, y: int| 0 <= x < y < ev.len() implies #[trigger] ev[x].listener
                        != #[trigger] ev[y].listener by {
                        assert(base[x].listener != base[y].listener);
                    }
                }
                assert forall|j: int| 0 <= j < eps@.len() implies (#[trigger] eps@[j]).routing.wf() by {
                    if j != k {
                        assert(eps@[j] == eps0[j]);
                    }
                }
            },
            None => {
                assert(endpoint_views(eps@) =~= add_row(e0, *row));
            },
        }
        i = i + 1;
    }
    assert(rows@.take(rows@.len() as int) =~= rows@);
    eps
}

} // verus!
