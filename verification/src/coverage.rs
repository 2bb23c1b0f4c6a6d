//! Counts how many times each field of line-delimited JSON is non-empty.
//!
//! A path is written as a string: `""` for the line itself, a path ending with `/` for an
//! object, a path ending with `[]` for an array element, and otherwise an object member.
//! Empty nodes are `""`, `[]`, `{}` and `null`, and any nodes that hold only empty nodes.
use crate::error::CountOverflow;
use crate::json::Json;
use crate::table::Table;
use vstd::multiset::Multiset;
use vstd::prelude::*;

verus! {

broadcast use vstd::multiset::group_multiset_axioms;

/// The path segment of an array element.
pub open spec fn element_segment() -> Seq<char> {
    seq!['[', ']']
}

/// The path segment of an object.
pub open spec fn object_segment() -> Seq<char> {
    seq!['/']
}

/// Whether a node is non-empty.
pub open spec fn nonempty(v: Json) -> bool
    decreases v, 1nat,
{
    match v {
        Json::Null => false,
        Json::Bool(_) => true,
        Json::Number(_) => true,
        Json::String(s) => s@.len() > 0,
        Json::Array(vs) => nonempty_elements(vs@),
        Json::Object(ms) => nonempty_members(ms@),
    }
}

/// Whether any element is non-empty.
pub open spec fn nonempty_elements(vs: Seq<Json>) -> bool
    decreases vs, 0nat,
{
    if vs.len() == 0 {
        false
    } else {
        nonempty_elements(vs.drop_last()) || nonempty(vs.last())
    }
}

/// Whether any member's value is non-empty.
pub open spec fn nonempty_members(ms: Seq<(String, Json)>) -> bool
    decreases ms, 0nat,
{
    if ms.len() == 0 {
        false
    } else {
        nonempty_members(ms.drop_last()) || nonempty(ms.last().1)
    }
}

/// The paths that a node at path `p` counts, each as often as it is counted.
pub open spec fn tally(v: Json, p: Seq<char>) -> Multiset<Seq<char>>
    decreases v, 1nat,
{
    match v {
        Json::Null => Multiset::empty(),
        Json::Bool(_) => Multiset::singleton(p),
        Json::Number(_) => Multiset::singleton(p),
        Json::String(s) => if s@.len() > 0 {
            Multiset::singleton(p)
        } else {
            Multiset::empty()
        },
        Json::Array(vs) => if vs@.len() == 0 {
            Multiset::empty()
        } else if nonempty_elements(vs@) {
            tally_elements(vs@, p + element_segment()).add(Multiset::singleton(p))
        } else {
            tally_elements(vs@, p + element_segment())
        },
        Json::Object(ms) => if ms@.len() == 0 {
            Multiset::empty()
        } else if nonempty_members(ms@) {
            tally_members(ms@, p + object_segment()).add(
                Multiset::singleton(p + object_segment()),
            ).add(Multiset::singleton(p))
        } else {
            tally_members(ms@, p + object_segment())
        },
    }
}

/// The paths that the elements of an array count, each element at path `q`.
pub open spec fn tally_elements(vs: Seq<Json>, q: Seq<char>) -> Multiset<Seq<char>>
    decreases vs, 0nat,
{
    if vs.len() == 0 {
        Multiset::empty()
    } else {
        tally_elements(vs.drop_last(), q).add(tally(vs.last(), q))
    }
}

/// The paths that the members of an object count, each member at path `q` followed by its name.
pub open spec fn tally_members(ms: Seq<(String, Json)>, q: Seq<char>) -> Multiset<Seq<char>>
    decreases ms, 0nat,
{
    if ms.len() == 0 {
        Multiset::empty()
    } else {
        tally_members(ms.drop_last(), q).add(tally(ms.last().1, q + ms.last().0@))
    }
}

/// Each prefix of an array counts no more than the whole array.
proof fn lemma_tally_elements_prefix(vs: Seq<Json>, q: Seq<char>, j: int)
    requires
        0 <= j <= vs.len(),
    ensures
        forall|k: Seq<char>|
            #[trigger] tally_elements(vs.take(j), q).count(k) <= tally_elements(vs, q).count(k),
    decreases vs.len(),
{
    if j == vs.len() {
        assert(vs.take(j) =~= vs);
    } else {
        lemma_tally_elements_prefix(vs.drop_last(), q, j);
        assert(vs.drop_last().take(j) =~= vs.take(j));
    }
}

/// Each prefix of an object counts no more than the whole object.
proof fn lemma_tally_members_prefix(ms: Seq<(String, Json)>, q: Seq<char>, j: int)
    requires
        0 <= j <= ms.len(),
    ensures
        forall|k: Seq<char>|
            #[trigger] tally_members(ms.take(j), q).count(k) <= tally_members(ms, q).count(k),
    decreases ms.len(),
{
    if j == ms.len() {
        assert(ms.take(j) =~= ms);
    } else {
        lemma_tally_members_prefix(ms.drop_last(), q, j);
        assert(ms.drop_last().take(j) =~= ms.take(j));
    }
}

/// The parts of a path, joined.
pub open spec fn joined(parts: Seq<String>) -> Seq<char>
    decreases parts.len(),
{
    if parts.len() == 0 {
        Seq::empty()
    } else {
        joined(parts.drop_last()) + parts.last()@
    }
}

/// Joins the parts of a path.
fn join(parts: &Vec<String>) -> (s: String)
    ensures
        s@ == joined(parts@),
{
    let mut s = String::new();
    let mut i: usize = 0;
    while i < parts.len()
        invariant
            i <= parts@.len(),
            s@ == joined(parts@.take(i as int)),
        decreases parts.len() - i,
    {
        assert(parts@.take(i + 1).drop_last() =~= parts@.take(i as int));
        s.append(parts[i].as_str());
        i += 1;
    }
    assert(parts@.take(parts@.len() as int) =~= parts@);
    s
}

/// The number of times each path is non-empty, over the lines read so far.
pub struct Coverage {
    counts: Table<u32>,
}

impl Coverage {
    pub closed spec fn wf(&self) -> bool {
        &&& self.counts.wf()
        &&& forall|k: Seq<char>| #[trigger] self.counts@.contains_key(k) ==> self.counts@[k] > 0
    }

    /// The number of times the path `k` is non-empty.
    pub closed spec fn count(&self, k: Seq<char>) -> nat {
        if self.counts@.contains_key(k) {
            self.counts@[k] as nat
        } else {
            0
        }
    }

    /// Whether adding the counts `t` keeps every count within `u32`.
    pub open spec fn fits(&self, t: Multiset<Seq<char>>) -> bool {
        forall|k: Seq<char>| self.count(k) + #[trigger] t.count(k) <= u32::MAX
    }

    /// A coverage of no lines.
    pub fn new() -> (c: Self)
        ensures
            c.wf(),
            forall|k: Seq<char>| c.count(k) == 0,
    {
        Coverage { counts: Table::new() }
    }

    /// The counts, as a table from paths to counts; it holds exactly the paths with a positive count.
    pub fn results(&self) -> (r: &Table<u32>)
        requires
            self.wf(),
        ensures
            r.wf(),
            forall|k: Seq<char>| #[trigger] r@.contains_key(k) <==> self.count(k) > 0,
            forall|k: Seq<char>| #[trigger] r@.contains_key(k) ==> r@[k] == self.count(k),
    {
        &self.counts
    }

    /// Counts the non-empty nodes of one line. It fails, leaving the counts unspecified, exactly
    /// when a count would exceed `u32::MAX`.
    pub fn add_line(&mut self, value: &Json) -> (r: Result<(), CountOverflow>)
        requires
            old(self).wf(),
        ensures
            final(self).wf(),
            r is Ok <==> old(self).fits(tally(*value, Seq::empty())),
            r is Ok ==> forall|k: Seq<char>|
                #[trigger] final(self).count(k) == old(self).count(k) + tally(
                    *value,
                    Seq::empty(),
                ).count(k),
    {
        let mut path: Vec<String> = Vec::with_capacity(16);
        assert(joined(path@) == Seq::<char>::empty());
        let ghost start = *old(self);
        match self.add(value, &mut path) {
            Ok(_) => {
                assert forall|k: Seq<char>|
                    start.count(k) + #[trigger] tally(*value, Seq::empty()).count(k) <= u32::MAX by {
                    assert(self.count(k) <= u32::MAX);
                }
                Ok(())
            },
            Err(e) => Err(e),
        }
    }

    /// Adds the counts of another coverage to this one. It fails, leaving the counts unspecified,
    /// exactly when a sum would exceed `u32::MAX`.
    pub fn merge(&mut self, other: Coverage) -> (r: Result<(), CountOverflow>)
        requires
            old(self).wf(),
            other.wf(),
        ensures
            final(self).wf(),
            r is Ok <==> forall|k: Seq<char>| old(self).count(k) + #[trigger] other.count(k) <= u32::MAX,
            r is Ok ==> forall|k: Seq<char>|
                #[trigger] final(self).count(k) == old(self).count(k) + other.count(k),
    {
        let n = other.counts.len();
        proof {
            other.counts.lemma_keys();
        }
        let mut i: usize = 0;
        while i < n
            invariant
                n == other.counts.keys().len(),
                i <= n,
                self.wf(),
                other.wf(),
                other.counts.keys().no_duplicates(),
                forall|k: Seq<char>|
                    #[trigger] other.counts@.contains_key(k) <==> other.counts.keys().contains(k),
                forall|k: Seq<char>|
                    #[trigger] self.count(k) == old(self).count(k) + if other.counts.keys().take(
                        i as int,
                    ).contains(k) {
                        other.count(k)
                    } else {
                        0
                    },
            decreases n - i,
        {
            let key = other.counts.key_at(i);
            let delta = *other.counts.value_at(i);
            let ghost ki = other.counts.keys()[i as int];
            assert(other.counts.keys().take(i + 1) =~= other.counts.keys().take(i as int).push(ki));
            assert(!other.counts.keys().take(i as int).contains(ki)) by {
                if other.counts.keys().take(i as int).contains(ki) {
                    let j = choose|j: int| 0 <= j < i && other.counts.keys().take(i as int)[j] == ki;
                    assert(other.counts.keys()[j] == other.counts.keys()[i as int]);
                }
            }
            assert(other.counts.keys().contains(ki));
            assert(other.counts@.contains_key(ki));
            assert(delta as nat == other.count(ki));
            assert(self.count(ki) == old(self).count(ki));
            let ghost before = *self;
            match self.increment(key.clone(), delta) {
                Ok(()) => {},
                Err(e) => {
                    assert(old(self).count(ki) + other.count(ki) > u32::MAX);
                    assert(!(forall|k: Seq<char>| old(self).count(k) + #[trigger] other.count(k) <= u32::MAX));
                    return Err(e);
                },
            }
            assert forall|k: Seq<char>|
                #[trigger] self.count(k) == old(self).count(k) + if other.counts.keys().take(
                    i + 1,
                ).contains(k) {
                    other.count(k)
                } else {
                    0
                } by {
                assert(before.count(k) == old(self).count(k) + if other.counts.keys().take(
                    i as int,
                ).contains(k) {
                    other.count(k)
                } else {
                    0
                });
                let ks = other.counts.keys();
                let t1 = ks.take(i + 1);
                let t0 = ks.take(i as int);
                if t1.contains(k) {
                    let j = choose|j: int| 0 <= j < t1.len() && t1[j] == k;
                    if j < i {
                        assert(t0[j] == k);
                    }
                }
                if t0.contains(k) {
                    let j = choose|j: int| 0 <= j < t0.len() && t0[j] == k;
                    assert(t1[j] == k);
                }
                if k == ki {
                    assert(t1[i as int] == k);
                }
            }
            i += 1;
        }
        assert(other.counts.keys().take(n as int) =~= other.counts.keys());
        assert forall|k: Seq<char>| old(self).count(k) + #[trigger] other.count(k) <= u32::MAX by {
            assert(self.count(k) <= u32::MAX);
            if !other.counts.keys().contains(k) {
                assert(!other.counts@.contains_key(k));
            }
        }
        Ok(())
    }

    /// Adds `delta` to the count of `path`; fails, changing nothing, if the count would exceed `u32::MAX`.
    fn increment(&mut self, path: String, delta: u32) -> (r: Result<(), CountOverflow>)
        requires
            old(self).wf(),
            delta > 0,
        ensures
            final(self).wf(),
            r is Ok <==> old(self).count(path@) + delta <= u32::MAX,
            r is Ok ==> forall|k: Seq<char>|
                #[trigger] final(self).count(k) == old(self).count(k) + if k == path@ {
                    delta as nat
                } else {
                    0nat
                },
            r is Err ==> *final(self) == *old(self),
    {
        let current: u32 = match self.counts.get(path.as_str()) {
            Some(c) => *c,
            None => 0,
        };
        match current.checked_add(delta) {
            Some(sum) => {
                self.counts.insert(path, sum);
                Ok(())
            },
            None => Err(CountOverflow),
        }
    }

    /// Counts the non-empty nodes of `value`, which sits at the path that `path` spells,
    /// and tells whether `value` is non-empty. It fails exactly when a count would exceed `u32::MAX`.
    fn add(&mut self, value: &Json, path: &mut Vec<String>) -> (r: Result<bool, CountOverflow>)
        requires
            old(self).wf(),
        ensures
            final(self).wf(),
            final(path)@ == old(path)@,
            match r {
                Ok(increment) => increment == nonempty(*value) && forall|k: Seq<char>|
                    #[trigger] final(self).count(k) == old(self).count(k) + tally(
                        *value,
                        joined(old(path)@),
                    ).count(k),
                Err(_) => exists|k: Seq<char>|
                    old(self).count(k) + #[trigger] tally(*value, joined(old(path)@)).count(k)
                        > u32::MAX,
            },
        decreases value,
    {
        let ghost p = joined(path@);
        let ghost start = *old(self);
        let mut increment = false;
        match value {
            Json::Null => {},
            Json::Array(vec) => {
                if vec.len() > 0 {
                    proof {
                        reveal_strlit("[]");
                    }
                    path.push("[]".to_owned());
                    let ghost q = p + element_segment();
                    assert(path@.drop_last() =~= old(path)@);
                    assert(joined(path@) == q);
                    let mut i: usize = 0;
                    assert(vec@.take(0) =~= Seq::<Json>::empty());
                    while i < vec.len()
                        invariant
                            *value == Json::Array(*vec),
                            p == joined(old(path)@),
                            q == p + element_segment(),
                            start == *old(self),
                            0 < vec@.len(),
                            i <= vec@.len(),
                            self.wf(),
                            joined(path@) == q,
                            path@.drop_last() == old(path)@,
                            path@.len() == old(path)@.len() + 1,
                            increment == nonempty_elements(vec@.take(i as int)),
                            forall|k: Seq<char>|
                                #[trigger] self.count(k) == start.count(k) + tally_elements(
                                    vec@.take(i as int),
                                    q,
                                ).count(k),
                        decreases vec.len() - i,
                    {
                        assert(vec@.take(i + 1).drop_last() =~= vec@.take(i as int));
                        assert(vec@.take(i + 1).last() == vec@[i as int]);
                        proof {
                            lemma_tally_elements_prefix(vec@, q, i + 1);
                            assert(decreases_to!(*value => (*value)->Array_0));
                            assert(decreases_to!(*vec => vec@));
                            assert(decreases_to!(vec@ => vec@[i as int]));
                        }
                        let ghost before = *self;
                        match self.add(&vec[i], path) {
                            Ok(r) => {
                                increment = increment || r;
                            },
                            Err(e) => {
                                proof {
                                    let k = choose|k: Seq<char>|
                                        before.count(k) + #[trigger] tally(vec@[i as int], q).count(
                                            k,
                                        ) > u32::MAX;
                                    assert(before.count(k) == start.count(k) + tally_elements(
                                        vec@.take(i as int),
                                        q,
                                    ).count(k));
                                    assert(tally_elements(vec@.take(i + 1), q) == tally_elements(
                                        vec@.take(i as int),
                                        q,
                                    ).add(tally(vec@[i as int], q)));
                                    assert(tally_elements(vec@.take(i + 1), q).count(k)
                                        <= tally_elements(vec@, q).count(k));
                                    assert(tally(*value, p).count(k) >= tally_elements(vec@, q).count(k));
                                    assert(start.count(k) + tally(*value, p).count(k) > u32::MAX);
                                }
                                path.pop();
                                assert(path@ =~= old(path)@);
                                return Err(e);
                            },
                        }
                        i += 1;
                    }
                    assert(vec@.take(vec@.len() as int) =~= vec@);
                    path.pop();
                    assert(path@ =~= old(path)@);
                }
            },
            Json::Object(map) => {
                if map.len() > 0 {
                    proof {
                        reveal_strlit("/");
                    }
                    path.push("/".to_owned());
                    let ghost q = p + object_segment();
                    assert(path@.drop_last() =~= old(path)@);
                    assert(joined(path@) == q);
                    let mut i: usize = 0;
                    assert(map@.take(0) =~= Seq::<(String, Json)>::empty());
                    while i < map.len()
                        invariant
                            *value == Json::Object(*map),
                            p == joined(old(path)@),
                            q == p + object_segment(),
                            start == *old(self),
                            0 < map@.len(),
                            i <= map@.len(),
                            self.wf(),
                            joined(path@) == q,
                            path@.drop_last() == old(path)@,
                            path@.len() == old(path)@.len() + 1,
                            increment == nonempty_members(map@.take(i as int)),
                            forall|k: Seq<char>|
                                #[trigger] self.count(k) == start.count(k) + tally_members(
                                    map@.take(i as int),
                                    q,
                                ).count(k),
                        decreases map.len() - i,
                    {
                        assert(map@.take(i + 1).drop_last() =~= map@.take(i as int));
                        assert(map@.take(i + 1).last() == map@[i as int]);
                        proof {
                            lemma_tally_members_prefix(map@, q, i + 1);
                        }
                        let ghost before_path = path@;
                        path.push(map[i].0.clone());
                        assert(path@.drop_last() =~= before_path);
                        assert(joined(path@) == q + map@[i as int].0@);
                        proof {
                            assert(decreases_to!(*value => (*value)->Object_0));
                            assert(decreases_to!(*map => map@));
                            assert(decreases_to!(map@ => map@[i as int]));
                            assert(decreases_to!(map@[i as int] => map@[i as int].1));
                        }
                        let ghost before = *self;
                        let result = self.add(&map[i].1, path);
                        path.pop();
                        assert(path@ =~= before_path);
                        match result {
                            Ok(r) => {
                                increment = increment || r;
                            },
                            Err(e) => {
                                proof {
                                    let k = choose|k: Seq<char>|
                                        before.count(k) + #[trigger] tally(
                                            map@[i as int].1,
                                            q + map@[i as int].0@,
                                        ).count(k) > u32::MAX;
                                    assert(before.count(k) == start.count(k) + tally_members(
                                        map@.take(i as int),
                                        q,
                                    ).count(k));
                                    assert(tally_members(map@.take(i + 1), q) == tally_members(
                                        map@.take(i as int),
                                        q,
                                    ).add(tally(map@[i as int].1, q + map@[i as int].0@)));
                                    assert(tally_members(map@.take(i + 1), q).count(k)
                                        <= tally_members(map@, q).count(k));
                                    assert(tally(*value, p).count(k) >= tally_members(map@, q).count(k));
                                    assert(start.count(k) + tally(*value, p).count(k) > u32::MAX);
                                }
                                path.pop();
                                assert(path@ =~= old(path)@);
                                return Err(e);
                            },
                        }
                        i += 1;
                    }
                    assert(map@.take(map@.len() as int) =~= map@);
                    assert(q.len() == p.len() + 1);
                    if increment {
                        let joined_path = join(path);
                        match self.increment(joined_path, 1) {
                            Ok(()) => {},
                            Err(e) => {
                                assert(start.count(q) + tally(*value, p).count(q) > u32::MAX);
                                path.pop();
                                assert(path@ =~= old(path)@);
                                return Err(e);
                            },
                        }
                    }
                    path.pop();
                    assert(path@ =~= old(path)@);
                }
            },
            Json::String(string) => {
                increment = !string.as_str().is_empty();
            },
            _ => {
                increment = true;
            },
        }
        if increment {
            let joined_path = join(path);
            match self.increment(joined_path, 1) {
                Ok(()) => {},
                Err(e) => {
                    assert(start.count(p) + tally(*value, p).count(p) > u32::MAX);
                    return Err(e);
                },
            }
        }
        Ok(increment)
    }
}

/// The counts of a sequence of lines, each line at the empty path.
pub open spec fn tally_lines(lines: Seq<Json>) -> Multiset<Seq<char>>
    decreases lines.len(),
{
    if lines.len() == 0 {
        Multiset::empty()
    } else {
        tally_lines(lines.drop_last()).add(tally(lines.last(), Seq::empty()))
    }
}

/// Every path that a node at `p` counts is at least as long as `p`.
proof fn lemma_tally_longer(v: Json, p: Seq<char>, k: Seq<char>)
    requires
        tally(v, p).count(k) > 0,
    ensures
        k.len() >= p.len(),
    decreases v, 1nat,
{
    match v {
        Json::Array(vs) => {
            if vs@.len() > 0 && tally_elements(vs@, p + element_segment()).count(k) > 0 {
                lemma_tally_elements_longer(vs@, p + element_segment(), k);
            }
        },
        Json::Object(ms) => {
            if ms@.len() > 0 && tally_members(ms@, p + object_segment()).count(k) > 0 {
                lemma_tally_members_longer(ms@, p + object_segment(), k);
            }
        },
        _ => {},
    }
}

proof fn lemma_tally_elements_longer(vs: Seq<Json>, q: Seq<char>, k: Seq<char>)
    requires
        tally_elements(vs, q).count(k) > 0,
    ensures
        k.len() >= q.len(),
    decreases vs, 0nat,
{
    if vs.len() > 0 {
        if tally_elements(vs.drop_last(), q).count(k) > 0 {
            lemma_tally_elements_longer(vs.drop_last(), q, k);
        } else {
            assert(vs.last() == vs[vs.len() - 1]);
            lemma_tally_longer(vs.last(), q, k);
        }
    }
}

proof fn lemma_tally_members_longer(ms: Seq<(String, Json)>, q: Seq<char>, k: Seq<char>)
    requires
        tally_members(ms, q).count(k) > 0,
    ensures
        k.len() >= q.len(),
    decreases ms, 0nat,
{
    if ms.len() > 0 {
        if tally_members(ms.drop_last(), q).count(k) > 0 {
            lemma_tally_members_longer(ms.drop_last(), q, k);
        } else {
            assert(ms.last() == ms[ms.len() - 1]);
            lemma_tally_longer(ms.last().1, q + ms.last().0@, k);
        }
    }
}

/// An empty node (`""`, `[]`, `{}`, `null`, or a node holding only empty nodes) counts nothing.
pub proof fn lemma_empty_node_counts_nothing(v: Json, p: Seq<char>)
    requires
        !nonempty(v),
    ensures
        tally(v, p) =~= Multiset::empty(),
    decreases v, 1nat,
{
    match v {
        Json::Array(vs) => {
            if vs@.len() > 0 {
                lemma_empty_elements_count_nothing(vs@, p + element_segment());
            }
        },
        Json::Object(ms) => {
            if ms@.len() > 0 {
                lemma_empty_members_count_nothing(ms@, p + object_segment());
            }
        },
        _ => {},
    }
}

proof fn lemma_empty_elements_count_nothing(vs: Seq<Json>, q: Seq<char>)
    requires
        !nonempty_elements(vs),
    ensures
        tally_elements(vs, q) =~= Multiset::empty(),
    decreases vs, 0nat,
{
    if vs.len() > 0 {
        lemma_empty_elements_count_nothing(vs.drop_last(), q);
        assert(vs.last() == vs[vs.len() - 1]);
        lemma_empty_node_counts_nothing(vs.last(), q);
    }
}

proof fn lemma_empty_members_count_nothing(ms: Seq<(String, Json)>, q: Seq<char>)
    requires
        !nonempty_members(ms),
    ensures
        tally_members(ms, q) =~= Multiset::empty(),
    decreases ms, 0nat,
{
    if ms.len() > 0 {
        lemma_empty_members_count_nothing(ms.drop_last(), q);
        assert(ms.last() == ms[ms.len() - 1]);
        lemma_empty_node_counts_nothing(ms.last().1, q + ms.last().0@);
    }
}

/// A non-empty node counts its own path exactly once.
pub proof fn lemma_nonempty_node_counts_its_path_once(v: Json, p: Seq<char>)
    requires
        nonempty(v),
    ensures
        tally(v, p).count(p) == 1,
{
    match v {
        Json::Array(vs) => {
            let q = p + element_segment();
            if tally_elements(vs@, q).count(p) > 0 {
                lemma_tally_elements_longer(vs@, q, p);
            }
        },
        Json::Object(ms) => {
            let q = p + object_segment();
            if tally_members(ms@, q).count(p) > 0 {
                lemma_tally_members_longer(ms@, q, p);
            }
            assert(q.len() == p.len() + 1);
            assert(q != p);
        },
        _ => {},
    }
}

/// The lines of one part of a file followed by those of another count what the two parts count
/// together, so the counts do not depend on how the lines are split.
pub proof fn lemma_tally_lines_split(l1: Seq<Json>, l2: Seq<Json>)
    ensures
        tally_lines(l1 + l2) =~= tally_lines(l1).add(tally_lines(l2)),
    decreases l2.len(),
{
    if l2.len() == 0 {
        assert(l1 + l2 =~= l1);
    } else {
        lemma_tally_lines_split(l1, l2.drop_last());
        assert((l1 + l2).drop_last() =~= l1 + l2.drop_last());
        assert((l1 + l2).last() == l2.last());
    }
}

impl Coverage {
    /// Whether the counts are those of some lines.
    pub open spec fn covers(&self, lines: Seq<Json>) -> bool {
        forall|k: Seq<char>| #[trigger] self.count(k) == tally_lines(lines).count(k)
    }

    /// A coverage without counts covers no lines.
    pub proof fn lemma_empty_covers_no_lines(&self)
        requires
            forall|k: Seq<char>| self.count(k) == 0,
        ensures
            self.covers(Seq::empty()),
    {
        assert forall|k: Seq<char>| #[trigger] self.count(k) == tally_lines(Seq::empty()).count(k) by {}
    }

    /// Adding the counts of a line, as `add_line` does, to a coverage of some lines covers those
    /// lines followed by the line.
    pub proof fn lemma_add_line_covers(before: &Coverage, after: &Coverage, lines: Seq<Json>, line: Json)
        requires
            before.covers(lines),
            forall|k: Seq<char>|
                #[trigger] after.count(k) == before.count(k) + tally(line, Seq::empty()).count(k),
        ensures
            after.covers(lines.push(line)),
    {
        assert(lines.push(line).drop_last() =~= lines);
        assert forall|k: Seq<char>| #[trigger] after.count(k) == tally_lines(lines.push(line)).count(k) by {
            assert(before.count(k) == tally_lines(lines).count(k));
        }
    }

    /// The sum of the coverages of two parts of a file, as `merge` computes it, covers the lines of
    /// the first part followed by those of the second.
    pub proof fn lemma_merge_covers(a: &Coverage, b: &Coverage, merged: &Coverage, l1: Seq<Json>, l2: Seq<Json>)
        requires
            a.covers(l1),
            b.covers(l2),
            forall|k: Seq<char>| #[trigger] merged.count(k) == a.count(k) + b.count(k),
        ensures
            merged.covers(l1 + l2),
    {
        lemma_tally_lines_split(l1, l2);
        assert forall|k: Seq<char>| #[trigger] merged.count(k) == tally_lines(l1 + l2).count(k) by {
            assert(a.count(k) == tally_lines(l1).count(k));
            assert(b.count(k) == tally_lines(l2).count(k));
        }
    }
}

} // verus!
