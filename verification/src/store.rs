//! The record store: a mapping from integer bill id to bill data, with
//! add, list, remove and edit operations.

use vstd::prelude::*;

verus! {

/// A bill: a named amount owed. The amount may be negative.
#[derive(Debug)]
pub struct Bill {
    pub name: String,
    pub amount_owed: i32,
}

/// Mathematical image of a bill: the name's characters and the amount as an
/// unbounded integer.
pub ghost struct BillView {
    pub name: Seq<char>,
    pub amount_owed: int,
}

impl View for Bill {
    type V = BillView;

    open spec fn view(&self) -> BillView {
        BillView { name: self.name@, amount_owed: self.amount_owed as int }
    }
}

impl Bill {
    /// Builds a bill from a name and an owed amount.
    pub fn add(name: String, amount_owed: i32) -> (bill: Self)
        ensures
            bill@ == (BillView { name: name@, amount_owed: amount_owed as int }),
    {
        Self { name, amount_owed }
    }

    /// Overwrites exactly the fields that are provided: an absent name keeps
    /// the old name, an absent amount keeps the old amount.
    pub fn edit(&mut self, name: Option<String>, amount_owed: Option<i32>)
        ensures
            final(self)@.name == (match name {
                Some(n) => n@,
                None => old(self)@.name,
            }),
            final(self)@.amount_owed == (match amount_owed {
                Some(a) => a as int,
                None => old(self)@.amount_owed,
            }),
    {
        match name {
            Some(s) => self.name = s,
            None => (),
        }
        match amount_owed {
            Some(a) => self.amount_owed = a,
            None => (),
        }
    }
}

/// The failures the store can report: listing an empty store, or editing an
/// id that is not present.
#[derive(Clone, Copy, Debug, PartialEq, Eq, Structural)]
pub enum StoreError {
    Empty,
    NotFound,
}

/// No id occurs twice among the entries.
pub open spec fn unique_keys(s: Seq<(i32, Bill)>) -> bool {
    forall|i: int, j: int| 0 <= i < j < s.len() ==> s[i].0 != s[j].0
}

/// Some entry carries the id `k`.
pub open spec fn has_key(s: Seq<(i32, Bill)>, k: int) -> bool {
    exists|i: int| 0 <= i < s.len() && s[i].0 as int == k
}

/// Every entry's id is at least 1, as the store's own id assignment makes it.
pub open spec fn positive_keys(s: Seq<(i32, Bill)>) -> bool {
    forall|i: int| 0 <= i < s.len() ==> (#[trigger] s[i].0) >= 1
}

/// The id-to-bill mapping that a sequence of entries represents.
pub open spec fn map_of(s: Seq<(i32, Bill)>) -> Map<int, BillView>
    decreases s.len(),
{
    if s.len() == 0 {
        Map::empty()
    } else {
        map_of(s.drop_last()).insert(s.last().0 as int, s.last().1@)
    }
}

/// The in-memory store: bills keyed by id. Seen from outside as the mapping
/// `map_of` of its entries; no two entries share an id, and every id is at
/// least 1.
pub struct Store {
    entries: Vec<(i32, Bill)>,
}

impl View for Store {
    type V = Map<int, BillView>;

    closed spec fn view(&self) -> Map<int, BillView> {
        map_of(self.entries@)
    }
}

impl Store {
    #[verifier::type_invariant]
    spec fn wf(self) -> bool {
        unique_keys(self.entries@) && positive_keys(self.entries@)
    }

    /// Creates an empty store.
    pub fn new() -> (s: Store)
        ensures
            s@ == Map::<int, BillView>::empty(),
    {
        Store { entries: Vec::new() }
    }
}

/// The ids in `map_of(s)` are exactly the ids of the entries.
proof fn lemma_map_of_dom(s: Seq<(i32, Bill)>)
    ensures
        forall|k: int| #[trigger] map_of(s).dom().contains(k) <==> has_key(s, k),
    decreases s.len(),
{
    if s.len() > 0 {
        lemma_map_of_dom(s.drop_last());
        assert forall|k: int| #[trigger] map_of(s).dom().contains(k) <==> has_key(s, k) by {
            if has_key(s, k) {
                let i = choose|i: int| 0 <= i < s.len() && s[i].0 as int == k;
                if i < s.len() - 1 {
                    assert(s.drop_last()[i].0 as int == k);
                    assert(has_key(s.drop_last(), k));
                    assert(map_of(s.drop_last()).dom().contains(k));
                } else {
                    assert(k == s.last().0 as int);
                }
                assert(map_of(s).dom().contains(k));
            }
            if map_of(s).dom().contains(k) {
                if k != s.last().0 as int {
                    assert(map_of(s.drop_last()).dom().contains(k));
                    assert(has_key(s.drop_last(), k));
                    let i = choose|i: int|
                        0 <= i < s.drop_last().len() && s.drop_last()[i].0 as int == k;
                    assert(s[i].0 as int == k);
                } else {
                    assert(s[s.len() - 1].0 as int == k);
                }
                assert(has_key(s, k));
            }
        }
    }
}

/// With unique ids, `map_of(s)` sends the id of entry `i` to that entry's bill.
proof fn lemma_map_of_index(s: Seq<(i32, Bill)>, i: int)
    requires
        unique_keys(s),
        0 <= i < s.len(),
    ensures
        map_of(s).dom().contains(s[i].0 as int),
        map_of(s)[s[i].0 as int] == s[i].1@,
    decreases s.len(),
{
    if i < s.len() - 1 {
        assert(unique_keys(s.drop_last()));
        lemma_map_of_index(s.drop_last(), i);
        assert(s[i].0 != s.last().0);
    }
}

/// Pushing an entry inserts its id into the mapping.
proof fn lemma_map_of_push(s: Seq<(i32, Bill)>, e: (i32, Bill))
    ensures
        map_of(s.push(e)) == map_of(s).insert(e.0 as int, e.1@),
{
    assert(s.push(e).drop_last() =~= s);
    assert(s.push(e).last() == e);
}

/// With unique ids, removing entry `i` removes exactly its id from the
/// mapping, and the remaining ids stay unique.
proof fn lemma_map_of_remove(s: Seq<(i32, Bill)>, i: int)
    requires
        unique_keys(s),
        0 <= i < s.len(),
    ensures
        unique_keys(s.remove(i)),
        map_of(s.remove(i)) == map_of(s).remove(s[i].0 as int),
    decreases s.len(),
{
    let k = s[i].0 as int;
    let t = s.remove(i);
    assert(unique_keys(t)) by {
        assert forall|a: int, b: int| 0 <= a < b < t.len() implies t[a].0 != t[b].0 by {
            let sa: int = if a < i { a } else { a + 1 };
            let sb: int = if b < i { b } else { b + 1 };
            assert(t[a] == s[sa]);
            assert(t[b] == s[sb]);
        }
    }
    if i == s.len() - 1 {
        assert(t =~= s.drop_last());
        lemma_map_of_dom(s.drop_last());
        assert(!has_key(s.drop_last(), k));
        assert(map_of(s.drop_last()).insert(k, s.last().1@).remove(k) =~= map_of(
            s.drop_last(),
        ));
    } else {
        assert(unique_keys(s.drop_last()));
        assert(t.last() == s.last());
        assert(t.drop_last() =~= s.drop_last().remove(i));
        lemma_map_of_remove(s.drop_last(), i);
        assert(s.last().0 as int != k);
        assert(map_of(s.drop_last()).remove(k).insert(s.last().0 as int, s.last().1@)
            =~= map_of(s.drop_last()).insert(s.last().0 as int, s.last().1@).remove(k));
    }
}

/// Position of the entry that carries `id`, if any.
fn find_index(entries: &Vec<(i32, Bill)>, id: i32) -> (r: Option<usize>)
    ensures
        match r {
            Some(i) => i < entries@.len() && entries@[i as int].0 == id,
            None => !has_key(entries@, id as int),
        },
{
    let n = entries.len();
    let mut i: usize = 0;
    while i < n
        invariant
            i <= n,
            n == entries@.len(),
            forall|j: int| 0 <= j < i ==> entries@[j].0 != id,
        decreases n - i,
    {
        if entries[i].0 == id {
            return Some(i);
        }
        i += 1;
    }
    None
}

/// The highest id present in the store; 0 exactly when the store is empty.
/// One more than the result is the id the next add will assign.
pub fn last_key(bills: &Store) -> (r: i32)
    ensures
        r >= 0,
        (r == 0) <==> (bills@ == Map::<int, BillView>::empty()),
        r == 0 || bills@.dom().contains(r as int),
        forall|k: int| bills@.dom().contains(k) ==> 1 <= k <= r as int,
        is_next_id(bills@, r as int + 1),
{
    proof {
        use_type_invariant(bills);
        lemma_map_of_dom(bills.entries@);
    }
    let n = bills.entries.len();
    let mut last: i32 = 0;
    let mut i: usize = 0;
    while i < n
        invariant
            i <= n,
            n == bills.entries@.len(),
            positive_keys(bills.entries@),
            last >= 0,
            i > 0 ==> last >= 1,
            last == 0 || has_key(bills.entries@, last as int),
            forall|j: int| 0 <= j < i ==> bills.entries@[j].0 <= last,
        decreases n - i,
    {
        let k = bills.entries[i].0;
        if k > last {
            last = k;
            assert(has_key(bills.entries@, last as int));
        }
        i += 1;
    }
    assert forall|k: int| bills@.dom().contains(k) implies 1 <= k <= last as int by {
        let j = choose|j: int| 0 <= j < bills.entries@.len() && bills.entries@[j].0 as int == k;
        assert(bills.entries@[j].0 <= last);
        assert(bills.entries@[j].0 >= 1);
    }
    proof {
        if n == 0 {
            assert(bills@ =~= Map::<int, BillView>::empty());
        } else {
            assert(bills@.dom().contains(bills.entries@[0].0 as int));
        }
    }
    last
}

/// `id` is one more than the highest id of `m`, counting from 1 on an empty
/// mapping: it is fresh, above every present id, and its predecessor is
/// present unless it is 1. These clauses determine `id` uniquely
/// (`lemma_next_id_unique`).
pub open spec fn is_next_id(m: Map<int, BillView>, id: int) -> bool {
    &&& id >= 1
    &&& !m.dom().contains(id)
    &&& forall|k: int| m.dom().contains(k) ==> k < id
    &&& (id == 1 || m.dom().contains(id - 1))
}

/// Law: at most one id is the next id of a given mapping.
pub proof fn lemma_next_id_unique(m: Map<int, BillView>, id1: int, id2: int)
    requires
        is_next_id(m, id1),
        is_next_id(m, id2),
    ensures
        id1 == id2,
{
    if id1 < id2 {
        assert(m.dom().contains(id2 - 1));
        assert(id2 - 1 < id1);
    }
    if id2 < id1 {
        assert(m.dom().contains(id1 - 1));
        assert(id1 - 1 < id2);
    }
}

/// Law: on an empty store the next id is 1.
pub proof fn lemma_next_id_of_empty(id: int)
    requires
        is_next_id(Map::<int, BillView>::empty(), id),
    ensures
        id == 1,
{
}

/// Inserts a new bill under the next id: one more than the highest id present,
/// so 1 on an empty store. Returns the new id.
pub fn add_bill(bills: &mut Store, name: String, amount_owed: i32) -> (id: i32)
    requires
        forall|k: int| old(bills)@.dom().contains(k) ==> k < i32::MAX as int,
    ensures
        is_next_id(old(bills)@, id as int),
        final(bills)@ == old(bills)@.insert(
            id as int,
            BillView { name: name@, amount_owed: amount_owed as int },
        ),
{
    proof {
        use_type_invariant(&*bills);
        lemma_map_of_dom(bills.entries@);
    }
    let prev = last_key(bills);
    let id = prev + 1;
    let mut v: Vec<(i32, Bill)> = Vec::new();
    std::mem::swap(&mut v, &mut bills.entries);
    let bill = Bill::add(name, amount_owed);
    proof {
        lemma_map_of_push(v@, (id, bill));
        assert(!has_key(v@, id as int)) by {
            if has_key(v@, id as int) {
                assert(map_of(v@).dom().contains(id as int));
                assert(id as int <= prev as int);
            }
        }
        assert(unique_keys(v@.push((id, bill)))) by {
            assert forall|a: int, b: int|
                0 <= a < b < v@.push((id, bill)).len() implies v@.push((id, bill))[a].0 != v@.push(
                (id, bill),
            )[b].0 by {
                if b < v@.len() {
                    assert(v@.push((id, bill))[a] == v@[a]);
                    assert(v@.push((id, bill))[b] == v@[b]);
                } else {
                    assert(v@.push((id, bill))[a] == v@[a]);
                    assert(v@[a].0 as int != id as int);
                }
            }
        }
        assert(positive_keys(v@.push((id, bill)))) by {
            assert forall|a: int|
                0 <= a < v@.push((id, bill)).len() implies (#[trigger] v@.push(
                (id, bill),
            )[a].0) >= 1 by {
                if a < v@.len() {
                    assert(v@.push((id, bill))[a] == v@[a]);
                }
            }
        }
    }
    v.push((id, bill));
    bills.entries = v;
    id
}

/// `v` holds exactly the entries of `m`: each id of `m` exactly once, under
/// the bill `m` maps it to, and nothing else. It promises no order.
pub open spec fn snapshot_of(v: Seq<(i32, Bill)>, m: Map<int, BillView>) -> bool {
    &&& unique_keys(v)
    &&& forall|i: int|
        0 <= i < v.len() ==> #[trigger] m.dom().contains(v[i].0 as int) && m[v[i].0 as int]
            == v[i].1@
    &&& forall|k: int| #[trigger] m.dom().contains(k) ==> exists|i: int|
        0 <= i < v.len() && v[i].0 as int == k
}

/// All the entries of the store, each id exactly once, in no promised order;
/// `Empty` exactly when the store has no entries.
pub fn list_bills(bills: &Store) -> (r: Result<Vec<(i32, Bill)>, StoreError>)
    ensures
        match r {
            Ok(v) => v@.len() > 0 && snapshot_of(v@, bills@),
            Err(e) => e == StoreError::Empty && bills@ == Map::<int, BillView>::empty(),
        },
{
    proof {
        use_type_invariant(bills);
        lemma_map_of_dom(bills.entries@);
    }
    let n = bills.entries.len();
    if n == 0 {
        proof {
            assert(bills@ =~= Map::<int, BillView>::empty());
        }
        return Err(StoreError::Empty);
    }
    let mut out: Vec<(i32, Bill)> = Vec::new();
    let mut i: usize = 0;
    while i < n
        invariant
            i <= n,
            n == bills.entries@.len(),
            out@.len() == i as int,
            forall|j: int| 0 <= j < i ==> #[trigger] out@[j].0 == bills.entries@[j].0
                && out@[j].1@ == bills.entries@[j].1@,
        decreases n - i,
    {
        let id = bills.entries[i].0;
        let b = &bills.entries[i].1;
        out.push((id, Bill::add(b.name.clone(), b.amount_owed)));
        i += 1;
    }
    proof {
        assert(unique_keys(out@));
        assert forall|i: int|
            0 <= i < out@.len() implies #[trigger] bills@.dom().contains(out@[i].0 as int)
            && bills@[out@[i].0 as int] == out@[i].1@ by {
            lemma_map_of_index(bills.entries@, i);
        }
        assert forall|k: int| #[trigger] bills@.dom().contains(k) implies exists|i: int|
            0 <= i < out@.len() && out@[i].0 as int == k by {
            let j = choose|j: int|
                0 <= j < bills.entries@.len() && bills.entries@[j].0 as int == k;
            assert(out@[j].0 as int == k);
        }
    }
    Ok(out)
}

/// Deletes the entry for `id` when `confirmed` is true; a declined
/// confirmation, like an absent id, leaves the store unchanged.
pub fn remove_bill(bills: &mut Store, id: i32, confirmed: bool)
    ensures
        confirmed ==> final(bills)@ == old(bills)@.remove(id as int),
        !confirmed ==> final(bills)@ == old(bills)@,
{
    proof {
        use_type_invariant(&*bills);
        lemma_map_of_dom(bills.entries@);
    }
    if !confirmed {
        return ;
    }
    match find_index(&bills.entries, id) {
        Some(i) => {
            proof {
                lemma_map_of_remove(bills.entries@, i as int);
            }
            let mut v: Vec<(i32, Bill)> = Vec::new();
            std::mem::swap(&mut v, &mut bills.entries);
            let ghost s0 = v@;
            v.remove(i);
            proof {
                assert(positive_keys(v@)) by {
                    assert forall|a: int| 0 <= a < v@.len() implies (#[trigger] v@[a].0) >= 1 by {
                        let sa: int = if a < i as int {
                            a
                        } else {
                            a + 1
                        };
                        assert(v@[a] == s0[sa]);
                    }
                }
            }
            bills.entries = v;
        },
        None => {
            proof {
                assert(!bills@.dom().contains(id as int));
                assert(bills@.remove(id as int) =~= bills@);
            }
        },
    }
}

/// The bill view after an edit: provided fields replace the old ones,
/// absent fields keep them.
pub open spec fn edited_view(b: BillView, name: Option<String>, amount_owed: Option<i32>) -> BillView {
    BillView {
        name: match name {
            Some(n) => n@,
            None => b.name,
        },
        amount_owed: match amount_owed {
            Some(a) => a as int,
            None => b.amount_owed,
        },
    }
}

/// Overwrites the provided fields of the bill under `id`: an absent name
/// keeps the old name, an absent amount keeps the old amount. Fails with
/// `NotFound`, changing nothing, exactly when `id` is absent.
pub fn edit_bill(
    bills: &mut Store,
    id: i32,
    name: Option<String>,
    amount_owed: Option<i32>,
) -> (r: Result<(), StoreError>)
    ensures
        match r {
            Ok(()) => old(bills)@.dom().contains(id as int) && final(bills)@ == old(
                bills,
            )@.insert(id as int, edited_view(old(bills)@[id as int], name, amount_owed)),
            Err(e) => {
                &&& e == StoreError::NotFound
                &&& !old(bills)@.dom().contains(id as int)
                &&& final(bills)@ == old(bills)@
            },
        },
{
    proof {
        use_type_invariant(&*bills);
        lemma_map_of_dom(bills.entries@);
    }
    match find_index(&bills.entries, id) {
        Some(i) => {
            proof {
                lemma_map_of_index(bills.entries@, i as int);
                lemma_map_of_remove(bills.entries@, i as int);
            }
            let mut v: Vec<(i32, Bill)> = Vec::new();
            std::mem::swap(&mut v, &mut bills.entries);
            let ghost s0 = v@;
            let ghost removed = v@.remove(i as int);
            let (key, mut bill) = v.remove(i);
            bill.edit(name, amount_owed);
            proof {
                lemma_map_of_dom(removed);
                lemma_map_of_push(removed, (key, bill));
                assert(!has_key(removed, key as int));
                assert(positive_keys(removed)) by {
                    assert forall|a: int|
                        0 <= a < removed.len() implies (#[trigger] removed[a].0) >= 1 by {
                        let sa: int = if a < i as int {
                            a
                        } else {
                            a + 1
                        };
                        assert(removed[a] == s0[sa]);
                    }
                }
                assert(positive_keys(removed.push((key, bill)))) by {
                    assert forall|a: int|
                        0 <= a < removed.push((key, bill)).len() implies (#[trigger] removed.push(
                        (key, bill),
                    )[a].0) >= 1 by {
                        if a < removed.len() {
                            assert(removed.push((key, bill))[a] == removed[a]);
                        }
                    }
                }
                assert(unique_keys(removed.push((key, bill)))) by {
                    assert forall|a: int, b: int|
                        0 <= a < b < removed.push((key, bill)).len() implies removed.push(
                        (key, bill),
                    )[a].0 != removed.push((key, bill))[b].0 by {
                        if b < removed.len() {
                            assert(removed.push((key, bill))[a] == removed[a]);
                            assert(removed.push((key, bill))[b] == removed[b]);
                        } else {
                            assert(removed.push((key, bill))[a] == removed[a]);
                            assert(removed[a].0 as int != key as int);
                        }
                    }
                }
                assert(map_of(removed).insert(key as int, bill@) =~= map_of(
                    old(bills).entries@,
                ).insert(key as int, bill@));
            }
            v.push((key, bill));
            bills.entries = v;
            Ok(())
        },
        None => {
            proof {
                assert(!bills@.dom().contains(id as int));
            }
            Err(StoreError::NotFound)
        },
    }
}

} // verus!
