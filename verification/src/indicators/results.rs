//! The results of the indicators: for each group and identifier, the output of each indicator
//! that raised a flag.
use crate::indicators::{Group, Indicator};
use indexmap::IndexMap;
use vstd::prelude::*;

verus! {

/// The position of an indicator's output among the outputs of one identifier.
pub open spec fn slot(i: Indicator) -> int {
    match i {
        Indicator::R003 => 0,
        Indicator::R018 => 1,
        Indicator::R024 => 2,
        Indicator::R025 => 3,
        Indicator::R028 => 4,
        Indicator::R030 => 5,
        Indicator::R035 => 6,
        Indicator::R036 => 7,
        Indicator::R038 => 8,
        Indicator::R044 => 9,
        Indicator::R048 => 10,
        Indicator::R055 => 11,
        Indicator::R058 => 12,
    }
}

/// The number of indicators.
pub open spec fn slot_count() -> int {
    13
}

fn slot_of(i: Indicator) -> (s: usize)
    ensures
        s == slot(i),
{
    match i {
        Indicator::R003 => 0,
        Indicator::R018 => 1,
        Indicator::R024 => 2,
        Indicator::R025 => 3,
        Indicator::R028 => 4,
        Indicator::R030 => 5,
        Indicator::R035 => 6,
        Indicator::R036 => 7,
        Indicator::R038 => 8,
        Indicator::R044 => 9,
        Indicator::R048 => 10,
        Indicator::R055 => 11,
        Indicator::R058 => 12,
    }
}

/// The indicator at a position.
pub fn indicator_at(s: usize) -> (i: Indicator)
    requires
        s < 13,
    ensures
        slot(i) == s,
{
    match s {
        0 => Indicator::R003,
        1 => Indicator::R018,
        2 => Indicator::R024,
        3 => Indicator::R025,
        4 => Indicator::R028,
        5 => Indicator::R030,
        6 => Indicator::R035,
        7 => Indicator::R036,
        8 => Indicator::R038,
        9 => Indicator::R044,
        10 => Indicator::R048,
        11 => Indicator::R055,
        _ => Indicator::R058,
    }
}

/// The outputs of the indicators for one identifier.
pub struct Scores {
    slots: Vec<Option<u64>>,
}

impl Scores {
    pub closed spec fn wf(&self) -> bool {
        self.slots@.len() == slot_count()
    }

    pub closed spec fn view(&self) -> Map<Indicator, u64> {
        Map::new(
            |i: Indicator| self.slots@[slot(i)] is Some,
            |i: Indicator| self.slots@[slot(i)]->Some_0,
        )
    }

    /// No outputs.
    pub fn new() -> (s: Self)
        ensures
            s.wf(),
            s@ == Map::<Indicator, u64>::empty(),
    {
        let mut slots: Vec<Option<u64>> = Vec::new();
        let mut k: usize = 0;
        while k < 13
            invariant
                k <= 13,
                slots@.len() == k,
                forall|j: int| 0 <= j < k ==> slots@[j] is None,
            decreases 13 - k,
        {
            slots.push(None);
            k += 1;
        }
        let s = Scores { slots };
        assert(s@ =~= Map::<Indicator, u64>::empty());
        s
    }

    /// The output of the indicator at a position, if any.
    pub fn at(&self, s: usize) -> (r: Option<u64>)
        requires
            self.wf(),
            s < 13,
        ensures
            r == self@.get(indicator_at_spec(s)),
    {
        self.slots[s]
    }

    /// Sets the output of an indicator.
    pub fn set(&mut self, i: Indicator, value: u64)
        requires
            old(self).wf(),
        ensures
            final(self).wf(),
            final(self)@ == old(self)@.insert(i, value),
    {
        let s = slot_of(i);
        self.slots.set(s, Some(value));
        assert forall|j: Indicator| slot(j) == slot(i) implies j == i by {}
        assert(self@ =~= old(self)@.insert(i, value));
    }
}

/// The indicator at a position.
pub open spec fn indicator_at_spec(s: usize) -> Indicator {
    match s {
        0 => Indicator::R003,
        1 => Indicator::R018,
        2 => Indicator::R024,
        3 => Indicator::R025,
        4 => Indicator::R028,
        5 => Indicator::R030,
        6 => Indicator::R035,
        7 => Indicator::R036,
        8 => Indicator::R038,
        9 => Indicator::R044,
        10 => Indicator::R048,
        11 => Indicator::R055,
        _ => Indicator::R058,
    }
}

/// `indexmap::IndexMap`: a hash map that keeps its entries in the order in which their keys were
/// first inserted.
#[verifier::external_type_specification]
#[verifier::external_body]
#[verifier::reject_recursive_types(K)]
#[verifier::reject_recursive_types(V)]
#[verifier::reject_recursive_types(S)]
pub struct ExIndexMap<K, V, S>(IndexMap<K, V, S>);

/// What a table of outputs holds: each identifier and its outputs, in the order in which the
/// identifiers were first inserted.
pub uninterp spec fn outputs_entries(m: IndexMap<String, Scores>) -> Seq<(Seq<char>, Scores)>;

/// The identifiers of the entries of a table of outputs, in order.
pub open spec fn outputs_ids(es: Seq<(Seq<char>, Scores)>) -> Seq<Seq<char>> {
    es.map_values(|e: (Seq<char>, Scores)| e.0)
}

/// `IndexMap::new`, which creates a map without entries.
#[verifier::external_body]
fn outputs_new() -> (m: IndexMap<String, Scores>)
    ensures
        outputs_entries(m) == Seq::<(Seq<char>, Scores)>::empty(),
{
    IndexMap::new()
}

/// `IndexMap::len`, the number of entries of a map.
#[verifier::external_body]
fn outputs_len(m: &IndexMap<String, Scores>) -> (n: usize)
    ensures
        n == outputs_entries(*m).len(),
{
    m.len()
}

/// `IndexMap::get`, the value of the entry whose key equals `k`, if there is one.
#[verifier::external_body]
fn outputs_get<'a>(m: &'a IndexMap<String, Scores>, k: &str) -> (r: Option<&'a Scores>)
    ensures
        match r {
            Some(v) => exists|i: int|
                0 <= i < outputs_entries(*m).len() && #[trigger] outputs_entries(*m)[i] == (k@, *v),
            None => forall|i: int|
                0 <= i < outputs_entries(*m).len() ==> #[trigger] outputs_entries(*m)[i].0 != k@,
        },
{
    m.get(k)
}

/// `IndexMap::get_index`, the key and value of the entry at a position, if there is one.
#[verifier::external_body]
fn outputs_entry_at<'a>(m: &'a IndexMap<String, Scores>, i: usize) -> (r: Option<(&'a String, &'a Scores)>)
    ensures
        i < outputs_entries(*m).len() ==> r is Some && r->Some_0.0@ == outputs_entries(*m)[i as int].0
            && *r->Some_0.1 == outputs_entries(*m)[i as int].1,
        i >= outputs_entries(*m).len() ==> r is None,
{
    m.get_index(i)
}

/// `IndexMap::insert`. Its documentation: if an entry's key equals `k`, that entry keeps its place
/// and takes the value `v`, and its former value is handed back; otherwise the entry is added last.
/// The keys of a map are distinct before and after.
#[verifier::external_body]
fn outputs_insert(m: &mut IndexMap<String, Scores>, k: String, v: Scores) -> (r: Option<Scores>)
    requires
        outputs_ids(outputs_entries(*old(m))).no_duplicates(),
    ensures
        outputs_ids(outputs_entries(*final(m))).no_duplicates(),
        forall|i: int|
            0 <= i < outputs_entries(*old(m)).len() && #[trigger] outputs_entries(*old(m))[i].0 == k@
                ==> outputs_entries(*final(m)) == outputs_entries(*old(m)).update(i, (k@, v)) && r
                == Some(outputs_entries(*old(m))[i].1),
        (forall|i: int|
            0 <= i < outputs_entries(*old(m)).len() ==> #[trigger] outputs_entries(*old(m))[i].0 != k@)
            ==> outputs_entries(*final(m)) == outputs_entries(*old(m)).push((k@, v)) && r is None,
{
    m.insert(k, v)
}

/// Whether a table of outputs is well formed: its identifiers are distinct, and each identifier's
/// outputs are well formed.
pub open spec fn outputs_wf(es: Seq<(Seq<char>, Scores)>) -> bool {
    &&& outputs_ids(es).no_duplicates()
    &&& forall|i: int| 0 <= i < es.len() ==> (#[trigger] es[i]).1.wf()
}

/// The outputs of an identifier in a table, if the table holds it.
pub open spec fn outputs_of(es: Seq<(Seq<char>, Scores)>, k: Seq<char>) -> Option<Scores> {
    if outputs_ids(es).contains(k) {
        Some(es[outputs_ids(es).index_of(k)].1)
    } else {
        None
    }
}

/// In a well-formed table, the outputs of the identifier at a position are those at the position.
proof fn lemma_outputs_at(es: Seq<(Seq<char>, Scores)>, i: int)
    requires
        outputs_wf(es),
        0 <= i < es.len(),
    ensures
        outputs_of(es, es[i].0) == Some(es[i].1),
{
    let ids = outputs_ids(es);
    assert(ids[i] == es[i].0);
    assert(ids.contains(es[i].0));
    let j = ids.index_of(es[i].0);
    assert(0 <= j < ids.len() && ids[j] == es[i].0);
}

/// Setting the outputs at a position changes the outputs of that identifier only.
proof fn lemma_outputs_update(es: Seq<(Seq<char>, Scores)>, i: int, s: Scores)
    requires
        outputs_wf(es),
        0 <= i < es.len(),
        s.wf(),
    ensures
        outputs_wf(es.update(i, (es[i].0, s))),
        forall|k: Seq<char>|
            #[trigger] outputs_of(es.update(i, (es[i].0, s)), k) == if k == es[i].0 {
                Some(s)
            } else {
                outputs_of(es, k)
            },
{
    let next = es.update(i, (es[i].0, s));
    assert(outputs_ids(next) =~= outputs_ids(es));
    assert forall|j: int| 0 <= j < next.len() implies (#[trigger] next[j]).1.wf() by {
        if j != i {
            assert(next[j] == es[j]);
        }
    }
    assert forall|k: Seq<char>| #[trigger] outputs_of(next, k) == if k == es[i].0 {
        Some(s)
    } else {
        outputs_of(es, k)
    } by {
        let ids = outputs_ids(es);
        assert(outputs_ids(next) == ids);
        if ids.contains(k) {
            let j = ids.index_of(k);
            assert(0 <= j < ids.len() && ids[j] == k);
            assert(outputs_of(next, k) == Some(next[j].1));
            assert(outputs_of(es, k) == Some(es[j].1));
            if k == es[i].0 {
                assert(ids[i] == k);
                assert(j == i);
            } else {
                assert(ids[i] == es[i].0);
                assert(j != i);
                assert(next[j] == es[j]);
            }
        } else {
            if k == es[i].0 {
                assert(ids[i] == k);
            }
        }
    }
}

/// Adding an entry for a new identifier gives it its outputs and changes no other.
proof fn lemma_outputs_push(es: Seq<(Seq<char>, Scores)>, k: Seq<char>, s: Scores)
    requires
        outputs_wf(es),
        !outputs_ids(es).contains(k),
        s.wf(),
    ensures
        outputs_wf(es.push((k, s))),
        forall|x: Seq<char>|
            #[trigger] outputs_of(es.push((k, s)), x) == if x == k {
                Some(s)
            } else {
                outputs_of(es, x)
            },
{
    let next = es.push((k, s));
    let ids = outputs_ids(es);
    assert(outputs_ids(next) =~= ids.push(k));
    assert forall|a: int, b: int|
        0 <= a < outputs_ids(next).len() && 0 <= b < outputs_ids(next).len() && a != b implies outputs_ids(
        next,
    )[a] != outputs_ids(next)[b] by {
        if a < ids.len() && b < ids.len() {
            assert(outputs_ids(next)[a] == ids[a] && outputs_ids(next)[b] == ids[b]);
        } else if a < ids.len() {
            assert(outputs_ids(next)[a] == ids[a]);
            assert(ids.contains(ids[a]));
        } else if b < ids.len() {
            assert(outputs_ids(next)[b] == ids[b]);
            assert(ids.contains(ids[b]));
        }
    }
    assert forall|j: int| 0 <= j < next.len() implies (#[trigger] next[j]).1.wf() by {
        if j < es.len() {
            assert(next[j] == es[j]);
        }
    }
    assert forall|x: Seq<char>| #[trigger] outputs_of(next, x) == if x == k {
        Some(s)
    } else {
        outputs_of(es, x)
    } by {
        let nids = outputs_ids(next);
        if x == k {
            assert(nids[es.len() as int] == k);
            lemma_outputs_at(next, es.len() as int);
        } else if ids.contains(x) {
            let j = ids.index_of(x);
            assert(ids[j] == x);
            assert(nids[j] == x);
            lemma_outputs_at(next, j);
            lemma_outputs_at(es, j);
        } else {
            if nids.contains(x) {
                let j = choose|j: int| 0 <= j < nids.len() && nids[j] == x;
                if j < ids.len() {
                    assert(ids[j] == x);
                }
            }
        }
    }
}

/// A sequence that begins with another keeps beginning with it when one more element is added,
/// and beginning with is transitive.
pub proof fn lemma_prefix_grows(a: Seq<Seq<char>>, x: Seq<Seq<char>>, y: Seq<Seq<char>>, k: Seq<char>)
    ensures
        a.is_prefix_of(x) ==> a.is_prefix_of(x.push(k)),
        a.is_prefix_of(x) && x.is_prefix_of(y) ==> a.is_prefix_of(y),
        a.is_prefix_of(a),
{
    if a.is_prefix_of(x) {
        assert(x.push(k).subrange(0, a.len() as int) =~= x.subrange(0, a.len() as int));
        if x.is_prefix_of(y) {
            assert(y.subrange(0, a.len() as int) =~= y.subrange(0, x.len() as int).subrange(
                0,
                a.len() as int,
            ));
        }
    }
    assert(a.subrange(0, a.len() as int) =~= a);
}

/// The outputs of the indicators, by group and identifier.
pub struct Results {
    ocid: IndexMap<String, Scores>,
    buyer: IndexMap<String, Scores>,
    procuring_entity: IndexMap<String, Scores>,
    tenderer: IndexMap<String, Scores>,
}

impl Results {
    /// The table of a group.
    pub closed spec fn group(&self, g: Group) -> IndexMap<String, Scores> {
        match g {
            Group::OCID => self.ocid,
            Group::Buyer => self.buyer,
            Group::ProcuringEntity => self.procuring_entity,
            Group::Tenderer => self.tenderer,
        }
    }

    /// The entries of a group, in order.
    pub closed spec fn entries(&self, g: Group) -> Seq<(Seq<char>, Scores)> {
        outputs_entries(self.group(g))
    }

    pub closed spec fn wf(&self) -> bool {
        &&& outputs_wf(self.entries(Group::OCID))
        &&& outputs_wf(self.entries(Group::Buyer))
        &&& outputs_wf(self.entries(Group::ProcuringEntity))
        &&& outputs_wf(self.entries(Group::Tenderer))
    }

    /// The identifiers of a group, in the order in which they were first given an output.
    pub closed spec fn ids(&self, g: Group) -> Seq<Seq<char>> {
        outputs_ids(self.entries(g))
    }

    /// Whether every group lists the identifiers of `earlier` first, in the same order.
    pub open spec fn extends(&self, earlier: Results) -> bool {
        &&& forall|h: Group| #[trigger] self.ids(h).len() >= earlier.ids(h).len()
        &&& forall|h: Group, i: int|
            0 <= i < earlier.ids(h).len() ==> #[trigger] self.ids(h)[i] == earlier.ids(h)[i]
    }

    /// Listing identifiers first is transitive.
    pub proof fn lemma_extends_trans(a: Results, b: Results, c: Results)
        requires
            b.extends(a),
            c.extends(b),
        ensures
            c.extends(a),
    {
        assert forall|h: Group| #[trigger] c.ids(h).len() >= a.ids(h).len() by {
            assert(b.ids(h).len() >= a.ids(h).len());
        }
        assert forall|h: Group, i: int| 0 <= i < a.ids(h).len() implies #[trigger] c.ids(h)[i]
            == a.ids(h)[i] by {
            assert(b.ids(h).len() >= a.ids(h).len());
            assert(b.ids(h)[i] == a.ids(h)[i]);
            assert(c.ids(h)[i] == b.ids(h)[i]);
        }
    }

    /// The output of each indicator, for each group and identifier.
    pub closed spec fn view(&self) -> Map<(Group, Seq<char>, Indicator), u64> {
        Map::new(
            |key: (Group, Seq<char>, Indicator)|
                outputs_of(self.entries(key.0), key.1) matches Some(s) && s@.contains_key(key.2),
            |key: (Group, Seq<char>, Indicator)| outputs_of(self.entries(key.0), key.1)->Some_0@[key.2],
        )
    }

    /// No outputs.
    pub fn new() -> (r: Self)
        ensures
            r.wf(),
            r@ == Map::<(Group, Seq<char>, Indicator), u64>::empty(),
            forall|g: Group| #[trigger] r.ids(g) == Seq::<Seq<char>>::empty(),
    {
        let r = Results {
            ocid: outputs_new(),
            buyer: outputs_new(),
            procuring_entity: outputs_new(),
            tenderer: outputs_new(),
        };
        assert forall|g: Group| #[trigger] r.ids(g) == Seq::<Seq<char>>::empty() by {
            assert(r.ids(g) =~= Seq::<Seq<char>>::empty());
        }
        assert(r@ =~= Map::<(Group, Seq<char>, Indicator), u64>::empty());
        r
    }

    fn table_mut(&mut self, g: Group) -> (t: &mut IndexMap<String, Scores>)
        ensures
            *t == old(self).group(g),
            forall|h: Group| h != g ==> #[trigger] final(self).group(h) == old(self).group(h),
            final(self).group(g) == *final(t),
    {
        match g {
            Group::OCID => &mut self.ocid,
            Group::Buyer => &mut self.buyer,
            Group::ProcuringEntity => &mut self.procuring_entity,
            Group::Tenderer => &mut self.tenderer,
        }
    }

    /// Sets the output of an indicator for an identifier of a group. An identifier that had no
    /// output in the group comes after all others; the others keep their places.
    pub fn set(&mut self, g: Group, id: String, i: Indicator, value: u64)
        requires
            old(self).wf(),
        ensures
            final(self).wf(),
            final(self)@ == old(self)@.insert((g, id@, i), value),
            forall|h: Group|
                #[trigger] final(self).ids(h) == if h == g && !old(self).ids(g).contains(id@) {
                    old(self).ids(g).push(id@)
                } else {
                    old(self).ids(h)
                },
            final(self).extends(*old(self)),
    {
        let ghost k = id@;
        let ghost es = old(self).entries(g);
        let t = self.table_mut(g);
        let empty = Scores::new();
        let key = id.clone();
        let previous = outputs_insert(t, key, empty);
        let ghost es1 = outputs_entries(*t);
        let ghost found = exists|pos: int| 0 <= pos < es.len() && #[trigger] es[pos].0 == k;
        let mut scores = match previous {
            Some(s) => {
                proof {
                    if !found {
                        assert(previous is None);
                    }
                    let pos = choose|pos: int| 0 <= pos < es.len() && #[trigger] es[pos].0 == k;
                    assert(es[pos].1.wf());
                }
                s
            },
            None => Scores::new(),
        };
        let ghost before = scores@;
        scores.set(i, value);
        let ghost s = scores;
        outputs_insert(t, id, scores);
        let ghost es2 = outputs_entries(*t);
        proof {
            if found {
                let pos = choose|pos: int| 0 <= pos < es.len() && #[trigger] es[pos].0 == k;
                assert(es1 == es.update(pos, (k, empty)));
                assert(es1[pos].0 == k);
                assert(es2 == es1.update(pos, (k, s)));
                assert(before == es[pos].1@);
                assert(es2 =~= es.update(pos, (es[pos].0, s)));
                lemma_outputs_update(es, pos, s);
                lemma_outputs_at(es, pos);
                assert(outputs_ids(es2) =~= outputs_ids(es));
                assert(outputs_ids(es).contains(k)) by {
                    assert(outputs_ids(es)[pos] == k);
                }
            } else {
                assert(es1 == es.push((k, empty)));
                assert(es1[es.len() as int].0 == k);
                assert(es2 == es1.update(es.len() as int, (k, s)));
                assert(es2 =~= es.push((k, s)));
                assert(!outputs_ids(es).contains(k)) by {
                    if outputs_ids(es).contains(k) {
                        let j = choose|j: int| 0 <= j < outputs_ids(es).len() && outputs_ids(es)[j] == k;
                        assert(es[j].0 == k);
                    }
                }
                assert(before == Map::<Indicator, u64>::empty());
                lemma_outputs_push(es, k, s);
                assert(outputs_ids(es2) =~= outputs_ids(es).push(k));
            }
        }
        assert(self@ =~= old(self)@.insert((g, k, i), value));
        assert(self.extends(*old(self))) by {
            assert forall|h: Group| #[trigger] self.ids(h).len() >= old(self).ids(h).len() by {
                if h == g && !old(self).ids(g).contains(id@) {
                    assert(self.ids(h) == old(self).ids(g).push(id@));
                }
            }
            assert forall|h: Group, j: int| 0 <= j < old(self).ids(h).len() implies #[trigger] self.ids(
                h,
            )[j] == old(self).ids(h)[j] by {
                if h == g && !old(self).ids(g).contains(id@) {
                    assert(self.ids(h) == old(self).ids(g).push(id@));
                }
            }
        }
    }

    /// The output of an indicator for an identifier of a group, if any.
    pub fn get(&self, g: Group, id: &str, i: Indicator) -> (r: Option<u64>)
        requires
            self.wf(),
        ensures
            match r {
                Some(v) => self@.contains_key((g, id@, i)) && self@[(g, id@, i)] == v,
                None => !self@.contains_key((g, id@, i)),
            },
    {
        let t = match g {
            Group::OCID => &self.ocid,
            Group::Buyer => &self.buyer,
            Group::ProcuringEntity => &self.procuring_entity,
            Group::Tenderer => &self.tenderer,
        };
        let ghost es = self.entries(g);
        match outputs_get(t, id) {
            Some(scores) => {
                proof {
                    let pos = choose|pos: int| 0 <= pos < es.len() && #[trigger] es[pos] == (id@, *scores);
                    lemma_outputs_at(es, pos);
                }
                let s = slot_of(i);
                assert(indicator_at_spec(s) == i);
                scores.at(s)
            },
            None => {
                assert(!outputs_ids(es).contains(id@)) by {
                    if outputs_ids(es).contains(id@) {
                        let j = choose|j: int| 0 <= j < outputs_ids(es).len() && outputs_ids(es)[j] == id@;
                        assert(es[j].0 == id@);
                    }
                }
                None
            },
        }
    }

    /// The number of identifiers in a group.
    pub fn id_count(&self, g: Group) -> (n: usize)
        requires
            self.wf(),
        ensures
            n == self.ids(g).len(),
    {
        match g {
            Group::OCID => outputs_len(&self.ocid),
            Group::Buyer => outputs_len(&self.buyer),
            Group::ProcuringEntity => outputs_len(&self.procuring_entity),
            Group::Tenderer => outputs_len(&self.tenderer),
        }
    }

    /// The identifier at a position in a group, and its outputs; nothing past the last position.
    pub fn entry_at(&self, g: Group, pos: usize) -> (r: Option<(&String, &Scores)>)
        requires
            self.wf(),
        ensures
            pos >= self.ids(g).len() ==> r is None,
            pos < self.ids(g).len() ==> (r matches Some((id, scores)) && {
                &&& id@ == self.ids(g)[pos as int]
                &&& scores.wf()
                &&& forall|i: Indicator| #[trigger] scores@.contains_key(i) <==> self@.contains_key((g, id@, i))
                &&& forall|i: Indicator| #[trigger] scores@.contains_key(i) ==> scores@[i] == self@[(g, id@, i)]
            }),
    {
        let t = match g {
            Group::OCID => &self.ocid,
            Group::Buyer => &self.buyer,
            Group::ProcuringEntity => &self.procuring_entity,
            Group::Tenderer => &self.tenderer,
        };
        let ghost es = self.entries(g);
        let r = outputs_entry_at(t, pos);
        proof {
            if pos < es.len() {
                lemma_outputs_at(es, pos as int);
            }
        }
        r
    }
}

/// The outputs of one identifier of a group, as entries of the results.
pub open spec fn scores_entries(g: Group, id: Seq<char>, m: Map<Indicator, u64>) -> Map<
    (Group, Seq<char>, Indicator),
    u64,
> {
    Map::new(
        |k: (Group, Seq<char>, Indicator)| k.0 == g && k.1 == id && m.contains_key(k.2),
        |k: (Group, Seq<char>, Indicator)| m[k.2],
    )
}

/// The entries of results that belong to a group.
pub open spec fn in_group(m: Map<(Group, Seq<char>, Indicator), u64>, g: Group) -> Map<
    (Group, Seq<char>, Indicator),
    u64,
> {
    Map::new(
        |k: (Group, Seq<char>, Indicator)| m.contains_key(k) && k.0 == g,
        |k: (Group, Seq<char>, Indicator)| m[k],
    )
}

impl Results {
    /// Every identifier with an output in a group is among the identifiers of the group.
    proof fn lemma_ids(&self, g: Group)
        requires
            self.wf(),
        ensures
            forall|k: (Group, Seq<char>, Indicator)|
                #[trigger] self@.contains_key(k) && k.0 == g ==> self.ids(g).contains(k.1),
    {
    }

    /// Sets the outputs of an identifier of a group, over those it had.
    fn set_all(&mut self, g: Group, id: &String, scores: &Scores)
        requires
            old(self).wf(),
            scores.wf(),
        ensures
            final(self).wf(),
            final(self)@ == old(self)@.union_prefer_right(scores_entries(g, id@, scores@)),
            forall|h: Group| #[trigger] old(self).ids(h).is_prefix_of(final(self).ids(h)),
            final(self).extends(*old(self)),
    {
        let mut s: usize = 0;
        proof {
            assert forall|h: Group| #[trigger] old(self).ids(h).is_prefix_of(self.ids(h)) by {
                lemma_prefix_grows(self.ids(h), self.ids(h), self.ids(h), Seq::empty());
            }
        }
        while s < 13
            invariant
                s <= 13,
                self.wf(),
                forall|h: Group| #[trigger] old(self).ids(h).is_prefix_of(self.ids(h)),
                self.extends(*old(self)),
                scores.wf(),
                self@ == old(self)@.union_prefer_right(
                    Map::new(
                        |k: (Group, Seq<char>, Indicator)|
                            k.0 == g && k.1 == id@ && scores@.contains_key(k.2) && slot(k.2) < s,
                        |k: (Group, Seq<char>, Indicator)| scores@[k.2],
                    ),
                ),
            decreases 13 - s,
        {
            let ghost before = self@;
            match scores.at(s) {
                Some(v) => {
                    let ghost prior = *self;
                    self.set(g, id.clone(), indicator_at(s), v);
                    proof {
                        Results::lemma_extends_trans(*old(self), prior, *self);
                        assert forall|h: Group| #[trigger] old(self).ids(h).is_prefix_of(self.ids(h)) by {
                            lemma_prefix_grows(old(self).ids(h), prior.ids(h), prior.ids(h), id@);
                        }
                    }
                },
                None => {},
            }
            assert(self@ =~= old(self)@.union_prefer_right(
                Map::new(
                    |k: (Group, Seq<char>, Indicator)|
                        k.0 == g && k.1 == id@ && scores@.contains_key(k.2) && slot(k.2) < s + 1,
                    |k: (Group, Seq<char>, Indicator)| scores@[k.2],
                ),
            )) by {
                assert forall|i: Indicator| slot(i) == s implies i == indicator_at_spec(s) by {}
            }
            s += 1;
        }
        assert forall|i: Indicator| slot(i) < 13 by {}
        assert(self@ =~= old(self)@.union_prefer_right(scores_entries(g, id@, scores@)));
    }

    /// Sets the outputs of the identifiers of a group in `other`, over those of this group.
    fn merge_group(&mut self, other: &Results, g: Group)
        requires
            old(self).wf(),
            other.wf(),
        ensures
            final(self).wf(),
            final(self)@ == old(self)@.union_prefer_right(in_group(other@, g)),
            forall|h: Group| #[trigger] old(self).ids(h).is_prefix_of(final(self).ids(h)),
            final(self).extends(*old(self)),
    {
        let n = other.id_count(g);
        let mut pos: usize = 0;
        proof {
            assert forall|h: Group| #[trigger] old(self).ids(h).is_prefix_of(self.ids(h)) by {
                lemma_prefix_grows(self.ids(h), self.ids(h), self.ids(h), Seq::empty());
            }
        }
        while pos < n
            invariant
                n == other.ids(g).len(),
                pos <= n,
                self.wf(),
                forall|h: Group| #[trigger] old(self).ids(h).is_prefix_of(self.ids(h)),
                self.extends(*old(self)),
                other.wf(),
                self@ == old(self)@.union_prefer_right(
                    Map::new(
                        |k: (Group, Seq<char>, Indicator)|
                            other@.contains_key(k) && k.0 == g && other.ids(g).take(pos as int).contains(
                                k.1,
                            ),
                        |k: (Group, Seq<char>, Indicator)| other@[k],
                    ),
                ),
            decreases n - pos,
        {
            if let Some((id, scores)) = other.entry_at(g, pos) {
                let ghost prior = *self;
                self.set_all(g, id, scores);
                proof {
                    Results::lemma_extends_trans(*old(self), prior, *self);
                    assert forall|h: Group| #[trigger] old(self).ids(h).is_prefix_of(self.ids(h)) by {
                        lemma_prefix_grows(old(self).ids(h), prior.ids(h), self.ids(h), id@);
                    }
                }
                let ghost ids = other.ids(g);
                assert(ids.take(pos + 1) =~= ids.take(pos as int).push(ids[pos as int]));
                assert forall|k: (Group, Seq<char>, Indicator)|
                    #![trigger ids.take(pos + 1).contains(k.1)]
                    ids.take(pos + 1).contains(k.1) == (ids.take(pos as int).contains(k.1) || k.1
                        == id@) by {
                    if ids.take(pos + 1).contains(k.1) && !ids.take(pos as int).contains(k.1) {
                        let j = choose|j: int| 0 <= j < pos + 1 && #[trigger] ids.take(pos + 1)[j] == k.1;
                        if j < pos {
                            assert(ids.take(pos as int)[j] == k.1);
                        }
                    }
                    if k.1 == id@ {
                        assert(ids.take(pos + 1)[pos as int] == k.1);
                    }
                }
                assert forall|k: (Group, Seq<char>, Indicator)|
                    #![trigger scores_entries(g, id@, scores@).contains_key(k)]
                    scores_entries(g, id@, scores@).contains_key(k) == (other@.contains_key(k) && k.0 == g
                        && k.1 == id@) by {
                    if k.0 == g && k.1 == id@ {
                        assert(k == (g, id@, k.2));
                    }
                }
                assert(self@ =~= old(self)@.union_prefer_right(
                    Map::new(
                        |k: (Group, Seq<char>, Indicator)|
                            other@.contains_key(k) && k.0 == g && ids.take(pos + 1).contains(k.1),
                        |k: (Group, Seq<char>, Indicator)| other@[k],
                    ),
                ));
            }
            pos += 1;
        }
        proof {
            other.lemma_ids(g);
            assert(other.ids(g).take(n as int) =~= other.ids(g));
        }
        assert(self@ =~= old(self)@.union_prefer_right(in_group(other@, g)));
    }

    /// Adds the outputs of `other`; where both have an output for the same group, identifier and
    /// indicator, that of `other` is kept. The identifiers that had outputs keep their places,
    /// first.
    pub fn merge(&mut self, other: &Results)
        requires
            old(self).wf(),
            other.wf(),
        ensures
            final(self).wf(),
            final(self)@ == old(self)@.union_prefer_right(other@),
            forall|h: Group| #[trigger] old(self).ids(h).is_prefix_of(final(self).ids(h)),
            final(self).extends(*old(self)),
    {
        let ghost s0 = *self;
        self.merge_group(other, Group::OCID);
        let ghost s1 = *self;
        self.merge_group(other, Group::Buyer);
        let ghost s2 = *self;
        self.merge_group(other, Group::ProcuringEntity);
        let ghost s3 = *self;
        self.merge_group(other, Group::Tenderer);
        proof {
            assert forall|h: Group| #[trigger] old(self).ids(h).is_prefix_of(self.ids(h)) by {
                lemma_prefix_grows(s0.ids(h), s1.ids(h), s2.ids(h), Seq::empty());
                lemma_prefix_grows(s0.ids(h), s2.ids(h), s3.ids(h), Seq::empty());
                lemma_prefix_grows(s0.ids(h), s3.ids(h), self.ids(h), Seq::empty());
            }
            Results::lemma_extends_trans(s0, s1, s2);
            Results::lemma_extends_trans(s0, s2, s3);
            Results::lemma_extends_trans(s0, s3, *self);
        }
        assert(self@ =~= old(self)@.union_prefer_right(other@));
    }
}

/// Uniting results where no group, identifier and indicator has an output in both does not
/// depend on the order in which they are united; so when each contracting process is on one line,
/// the results do not depend on the order in which workers' results are merged.
pub proof fn lemma_merge_disjoint_commutes(
    a: Map<(Group, Seq<char>, Indicator), u64>,
    b: Map<(Group, Seq<char>, Indicator), u64>,
)
    requires
        a.dom().disjoint(b.dom()),
    ensures
        a.union_prefer_right(b) =~= b.union_prefer_right(a),
{
    assert forall|k: (Group, Seq<char>, Indicator)| a.contains_key(k) implies !b.contains_key(k) by {
        assert(a.dom().contains(k));
    }
}

} // verus!
