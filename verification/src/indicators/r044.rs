//! R044: Business similarities between suppliers. Different tenderers bidding for the same
//! contracting process have similar information.
use crate::indicators::{outputs, set_outputs, Group, Indicator, Indicators, IndicatorsView, Settings};
use crate::json::Json;
use crate::sets::StrSet;
use crate::table::Table;
use crate::text::{lowercased, to_lowercase, trim, trimmed};
use vstd::prelude::*;

verus! {

/// R044: two tenderers of a contracting process share an address or a contact point.
pub struct R044 {}

/// A part of an address: a string field, trimmed, lowercased and followed by a space; nothing if
/// the field is not a string.
pub open spec fn address_part(address: Json, field: Seq<char>) -> Seq<char> {
    match address.string_field(field) {
        Some(v) => lowercased(trimmed(v)).push(' '),
        None => Seq::empty(),
    }
}

/// The full address of a party, if its address is an object with a street address.
pub open spec fn address_of(party: Json) -> Option<Seq<char>> {
    match party.field("address"@) {
        Some(address) => if address is Object && address.field("streetAddress"@) is Some {
            Some(
                address_part(address, "streetAddress"@) + address_part(address, "locality"@)
                    + address_part(address, "region"@) + address_part(address, "postalCode"@)
                    + address_part(address, "countryName"@),
            )
        } else {
            None
        },
        None => None,
    }
}

/// The fields of a contact point that are compared, in order.
pub open spec fn contact_fields() -> Seq<Seq<char>> {
    seq!["name"@, "email"@, "telephone"@, "faxNumber"@, "url"@]
}

/// Whether two contact points agree on the first of `fields` that both have as a string.
pub open spec fn first_shared_field_equal(a: Json, b: Json, fields: Seq<Seq<char>>) -> bool
    decreases fields.len(),
{
    if fields.len() == 0 {
        false
    } else {
        match (a.string_field(fields[0]), b.string_field(fields[0])) {
            (Some(x), Some(y)) => x == y,
            _ => first_shared_field_equal(a, b, fields.drop_first()),
        }
    }
}

/// Whether two contact points match: both are objects, and they agree on the first field that
/// both have as a string, among name, email, telephone, fax number and URL.
pub open spec fn contact_points_match(a: Option<Json>, b: Option<Json>) -> bool {
    match (a, b) {
        (Some(x), Some(y)) => x is Object && y is Object && first_shared_field_equal(
            x,
            y,
            contact_fields(),
        ),
        _ => false,
    }
}

/// Whether a party has the role "tenderer".
pub open spec fn is_tenderer_party(party: Json) -> bool {
    match party.array_field("roles"@) {
        Some(roles) => exists|i: int| 0 <= i < roles.len() && #[trigger] roles[i].string() == Some("tenderer"@),
        None => false,
    }
}

/// A party's address and contact point.
pub type Details = (Option<Seq<char>>, Option<Json>);

/// The address and contact point of each tenderer among some parties, by identifier; for a
/// repeated identifier, the last party counts.
pub open spec fn tenderer_parties(parties: Seq<Json>) -> Map<Seq<char>, Details>
    decreases parties.len(),
{
    if parties.len() == 0 {
        Map::empty()
    } else {
        let prev = tenderer_parties(parties.drop_last());
        let p = parties.last();
        match p.string_field("id"@) {
            Some(id) => if is_tenderer_party(p) {
                prev.insert(id, (address_of(p), p.field("contactPoint"@)))
            } else {
                prev
            },
            None => prev,
        }
    }
}

/// Whether the details of two tenderers are similar: the same address, or matching contact points.
pub open spec fn similar(a: Details, b: Details) -> bool {
    (a.0 is Some && b.0 is Some && a.0 == b.0) || contact_points_match(b.1, a.1)
}

/// The tenderers among some whose details are similar to those of another tenderer.
pub open spec fn similar_among(m: Map<Seq<char>, Details>) -> Set<Seq<char>> {
    Set::new(
        |a: Seq<char>|
            m.contains_key(a) && exists|b: Seq<char>|
                #[trigger] m.contains_key(b) && b != a && similar(m[a], m[b]),
    )
}

/// The tenderers that R044 flags in a release: those similar to another tenderer.
pub open spec fn similar_tenderers(release: Json) -> Set<Seq<char>> {
    match release.array_field("parties"@) {
        Some(parties) => similar_among(tenderer_parties(parties)),
        None => Set::empty(),
    }
}

impl R044 {
    /// The state after looking at the contracting process `ocid`: if tenderers share an address
    /// or a contact point, R044 is raised for it and for them.
    pub open spec fn next(&self, v: IndicatorsView, release: Json, ocid: Seq<char>) -> IndicatorsView {
        if similar_tenderers(release).is_empty() {
            v
        } else {
            IndicatorsView {
                results: v.results.insert((Group::OCID, ocid, Indicator::R044), 1).union_prefer_right(
                    outputs(Group::Tenderer, similar_tenderers(release), Indicator::R044, 1),
                ),
                ..v
            }
        }
    }

    /// The full address of a party.
    pub fn get_address(party: &Json) -> (r: Option<String>)
        ensures
            match r {
                Some(a) => address_of(*party) == Some(a@),
                None => address_of(*party) is None,
            },
    {
        match party.get_object("address") {
            Some(address) => {
                if address.get("streetAddress").is_none() {
                    return None;
                }
                let mut full = String::new();
                let a = Self::address_part(address, "streetAddress");
                full.append(a.as_str());
                let a = Self::address_part(address, "locality");
                full.append(a.as_str());
                let a = Self::address_part(address, "region");
                full.append(a.as_str());
                let a = Self::address_part(address, "postalCode");
                full.append(a.as_str());
                let a = Self::address_part(address, "countryName");
                full.append(a.as_str());
                Some(full)
            },
            None => None,
        }
    }

    fn address_part(address: &Json, field: &str) -> (r: String)
        ensures
            r@ == address_part(*address, field@),
    {
        match address.get_string(field) {
            Some(value) => {
                let mut part = to_lowercase(trim(value.as_str()));
                proof {
                    reveal_strlit(" ");
                }
                part.append(" ");
                assert(part@ =~= lowercased(trimmed(value@)).push(' '));
                part
            },
            None => String::new(),
        }
    }

    /// Whether two contact points match.
    pub fn compare_contact_point(party1: Option<&Json>, party2: Option<&Json>) -> (r: bool)
        ensures
            r == contact_points_match(
                match party1 {
                    Some(p) => Some(*p),
                    None => None,
                },
                match party2 {
                    Some(p) => Some(*p),
                    None => None,
                },
            ),
    {
        match (party1, party2) {
            (Some(a), Some(b)) => {
                match (a, b) {
                    (Json::Object(_), Json::Object(_)) => {},
                    _ => {
                        return false;
                    },
                }
                let fields: [&str; 5] = ["name", "email", "telephone", "faxNumber", "url"];
                let ghost spec_fields = contact_fields();
                assert(spec_fields.skip(0) =~= spec_fields);
                let mut i: usize = 0;
                while i < 5
                    invariant
                        i <= 5,
                        party1 == Some(a),
                        party2 == Some(b),
                        *a is Object,
                        *b is Object,
                        spec_fields == contact_fields(),
                        forall|j: int| 0 <= j < 5 ==> #[trigger] fields@[j]@ == spec_fields[j],
                        first_shared_field_equal(*a, *b, spec_fields) == first_shared_field_equal(
                            *a,
                            *b,
                            spec_fields.skip(i as int),
                        ),
                    decreases 5 - i,
                {
                    assert(spec_fields.skip(i as int).drop_first() =~= spec_fields.skip(i + 1));
                    assert(spec_fields.skip(i as int)[0] == spec_fields[i as int]);
                    let field: &str = fields[i];
                    if let (Some(x), Some(y)) = (a.get_string(field), b.get_string(field)) {
                        assert(first_shared_field_equal(*a, *b, spec_fields.skip(i as int)) == (x@ == y@));
                        return *x == *y;
                    }
                    i += 1;
                }
                assert(spec_fields.skip(5) =~= Seq::<Seq<char>>::empty());
                false
            },
            _ => false,
        }
    }

    /// R044 has no settings.
    pub fn new(settings: &mut Settings) -> (r: Self)
        ensures
            *final(settings) == *old(settings),
    {
        R044 {}
    }

    /// Flags the contracting process `ocid` and each tenderer that is similar to another tenderer.
    pub fn fold(&self, item: &mut Indicators, release: &Json, ocid: &str)
        requires
            old(item).wf(),
        ensures
            final(item).wf(),
            final(item).results.extends(old(item).results),
            final(item)@ == self.next(old(item)@, *release, ocid@),
    {
        let parties = match release.get_array("parties") {
            Some(parties) => parties,
            None => {
                assert(similar_tenderers(*release) =~= Set::<Seq<char>>::empty());
                return;
            },
        };
        let mut tenderers: Table<(Option<String>, Option<&Json>)> = Table::new();
        let mut i: usize = 0;
        assert(parties@.take(0) =~= Seq::<Json>::empty());
        assert(tenderers@ =~= Map::empty());
        while i < parties.len()
            invariant
                i <= parties@.len(),
                tenderers.wf(),
                details_view(tenderers@) == tenderer_parties(parties@.take(i as int)),
            decreases parties.len() - i,
        {
            let party = &parties[i];
            assert(parties@.take(i + 1).drop_last() =~= parties@.take(i as int));
            assert(parties@.take(i + 1).last() == *party);
            if let Some(id) = party.get_string("id") {
                if Self::has_tenderer_role(party) {
                    let ghost before = tenderers@;
                    tenderers.insert(id.clone(), (Self::get_address(party), party.get("contactPoint")));
                    assert(details_view(tenderers@) =~= details_view(before).insert(
                        id@,
                        (address_of(*party), party.field("contactPoint"@)),
                    ));
                }
            }
            i += 1;
        }
        assert(parties@.take(parties@.len() as int) =~= parties@);
        let flagged = Self::similar_ids(&tenderers);
        assert(flagged@ =~= similar_tenderers(*release));
        proof {
            flagged.lemma_elements();
        }
        if flagged.len() > 0 {
            item.results.set(Group::OCID, ocid.to_owned(), Indicator::R044, 1);
            set_outputs(&mut item.results, Group::Tenderer, &flagged, Indicator::R044, 1);
        } else {
            assert(flagged@ =~= Set::<Seq<char>>::empty());
        }
    }

    /// The tenderers, among the addresses and contact points of some tenderers by identifier, that
    /// share an address or a contact point with another tenderer.
    pub fn similar_ids(tenderers: &Table<(Option<String>, Option<&Json>)>) -> (flagged: StrSet)
        requires
            tenderers.wf(),
        ensures
            flagged.wf(),
            flagged@ == similar_among(details_view(tenderers@)),
    {
        let ghost m = details_view(tenderers@);
        let n = tenderers.len();
        proof {
            tenderers.lemma_keys();
        }
        let mut flagged = StrSet::new();
        let mut a: usize = 0;
        while a < n
            invariant
                n == tenderers.keys().len(),
                a <= n,
                tenderers.wf(),
                flagged.wf(),
                details_view(tenderers@) == m,
                forall|k: Seq<char>| #[trigger] tenderers@.contains_key(k) <==> tenderers.keys().contains(k),
                flagged@ == Set::new(
                    |x: Seq<char>|
                        tenderers.keys().take(a as int).contains(x) && exists|b: Seq<char>|
                            #[trigger] m.contains_key(b) && b != x && similar(m[x], m[b]),
                ),
            decreases n - a,
        {
            let id_a = tenderers.key_at(a);
            let details_a = tenderers.value_at(a);
            let ghost ka = tenderers.keys()[a as int];
            assert(tenderers.keys().contains(ka));
            let mut found = false;
            let mut b: usize = 0;
            while b < n
                invariant
                    n == tenderers.keys().len(),
                    b <= n,
                    a < n,
                    tenderers.wf(),
                    details_view(tenderers@) == m,
                    ka == tenderers.keys()[a as int],
                    id_a@ == ka,
                    tenderers@.contains_key(ka),
                    *details_a == tenderers@[ka],
                    m.contains_key(ka),
                    forall|k: Seq<char>| #[trigger] tenderers@.contains_key(k) <==> tenderers.keys().contains(k),
                    found == exists|j: int|
                        0 <= j < b && #[trigger] tenderers.keys()[j] != ka && similar(
                            m[ka],
                            m[tenderers.keys()[j]],
                        ),
                decreases n - b,
            {
                let id_b = tenderers.key_at(b);
                let details_b = tenderers.value_at(b);
                let ghost kb = tenderers.keys()[b as int];
                assert(tenderers.keys().contains(kb));
                let ghost old_found = found;
                let ghost hit = kb != ka && similar(m[ka], m[kb]);
                assert(tenderers@.contains_key(ka));
                assert(tenderers@.contains_key(kb));
                assert(m[ka] == (
                    match details_a.0 {
                        Some(x) => Some(x@),
                        None => None,
                    },
                    match details_a.1 {
                        Some(p) => Some(*p),
                        None => None,
                    },
                ));
                assert(m[kb] == (
                    match details_b.0 {
                        Some(x) => Some(x@),
                        None => None,
                    },
                    match details_b.1 {
                        Some(p) => Some(*p),
                        None => None,
                    },
                ));
                assert(id_a@ == ka && id_b@ == kb);
                if *id_a != *id_b {
                    let address_match = match (&details_a.0, &details_b.0) {
                        (Some(x), Some(y)) => *x == *y,
                        _ => false,
                    };
                    let contact_match = Self::compare_contact_point(details_b.1, details_a.1);
                    assert((address_match || contact_match) == similar(m[ka], m[kb]));
                    if address_match || contact_match {
                        found = true;
                    }
                }
                assert(found == (old_found || hit));
                assert(found == exists|j: int|
                    0 <= j < b + 1 && #[trigger] tenderers.keys()[j] != ka && similar(
                        m[ka],
                        m[tenderers.keys()[j]],
                    )) by {
                    if hit {
                        assert(tenderers.keys()[b as int] != ka);
                    }
                    if old_found {
                        let j = choose|j: int|
                            0 <= j < b && #[trigger] tenderers.keys()[j] != ka && similar(
                                m[ka],
                                m[tenderers.keys()[j]],
                            );
                        assert(tenderers.keys()[j] != ka);
                    }
                }
                b += 1;
            }
            assert(found == exists|y: Seq<char>| #[trigger] m.contains_key(y) && y != ka && similar(m[ka], m[y])) by {
                if found {
                    let j = choose|j: int|
                        0 <= j < n && #[trigger] tenderers.keys()[j] != ka && similar(
                            m[ka],
                            m[tenderers.keys()[j]],
                        );
                    assert(tenderers.keys().contains(tenderers.keys()[j]));
                    assert(m.contains_key(tenderers.keys()[j]));
                }
                if exists|y: Seq<char>| #[trigger] m.contains_key(y) && y != ka && similar(m[ka], m[y]) {
                    let y = choose|y: Seq<char>| #[trigger] m.contains_key(y) && y != ka && similar(m[ka], m[y]);
                    assert(tenderers.keys().contains(y));
                    let j = choose|j: int| 0 <= j < n && tenderers.keys()[j] == y;
                    assert(tenderers.keys()[j] != ka && similar(m[ka], m[tenderers.keys()[j]]));
                }
            }
            if found {
                flagged.insert(id_a.clone());
            }
            assert(tenderers.keys().take(a + 1) =~= tenderers.keys().take(a as int).push(ka));
            assert(flagged@ =~= Set::new(
                |x: Seq<char>|
                    tenderers.keys().take(a + 1).contains(x) && exists|b: Seq<char>|
                        #[trigger] m.contains_key(b) && b != x && similar(m[x], m[b]),
            )) by {
                assert forall|x: Seq<char>| #[trigger] tenderers.keys().take(a + 1).contains(x) <==> (
                tenderers.keys().take(a as int).contains(x) || x == ka) by {
                    let t1 = tenderers.keys().take(a + 1);
                    let t0 = tenderers.keys().take(a as int);
                    if t1.contains(x) {
                        let j = choose|j: int| 0 <= j < t1.len() && t1[j] == x;
                        if j < a {
                            assert(t0[j] == x);
                        }
                    }
                    if t0.contains(x) {
                        let j = choose|j: int| 0 <= j < t0.len() && t0[j] == x;
                        assert(t1[j] == x);
                    }
                    if x == ka {
                        assert(t1[a as int] == x);
                    }
                }
            }
            a += 1;
        }
        assert(tenderers.keys().take(n as int) =~= tenderers.keys());
        assert(flagged@ =~= similar_among(m)) by {
            assert forall|x: Seq<char>| #[trigger] m.contains_key(x) <==> tenderers.keys().contains(x) by {
                assert(tenderers@.contains_key(x) == details_view(tenderers@).contains_key(x));
            }
        }
        flagged
    }

    /// Whether a party has the role "tenderer".
    fn has_tenderer_role(party: &Json) -> (r: bool)
        ensures
            r == is_tenderer_party(*party),
    {
        match party.get_array("roles") {
            Some(roles) => {
                let mut i: usize = 0;
                while i < roles.len()
                    invariant
                        i <= roles@.len(),
                        party.array_field("roles"@) == Some(roles@),
                        forall|j: int| 0 <= j < i ==> #[trigger] roles@[j].string() != Some("tenderer"@),
                    decreases roles.len() - i,
                {
                    if let Some(s) = roles[i].as_string() {
                        if crate::json::equals(s.as_str(), "tenderer") {
                            assert(roles@[i as int].string() == Some("tenderer"@));
                            assert(party.array_field("roles"@) == Some(roles@));
                            return true;
                        }
                    }
                    i += 1;
                }
                false
            },
            None => false,
        }
    }
}

/// The details of tenderers, as mathematical values.
pub open spec fn details_view(t: Map<Seq<char>, (Option<String>, Option<&Json>)>) -> Map<Seq<char>, Details> {
    Map::new(
        |k: Seq<char>| t.contains_key(k),
        |k: Seq<char>|
            (
                match t[k].0 {
                    Some(a) => Some(a@),
                    None => None,
                },
                match t[k].1 {
                    Some(p) => Some(*p),
                    None => None,
                },
            ),
    )
}

} // verus!
