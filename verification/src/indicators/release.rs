//! What the indicators read from a compiled release: its awards, its bids and its tender.
use crate::indicators::Indicators;
use crate::json::{equals, Json};
use crate::sets::StrSet;
use crate::text::{ascii_lowercase, to_ascii_lowercase};
use vstd::prelude::*;

verus! {

/// The values of a list of references.
pub open spec fn derefs(v: Seq<&Json>) -> Seq<Json> {
    v.map_values(|r: &Json| *r)
}

/// The array `/bids/details` of a release.
pub open spec fn bid_details(release: Json) -> Option<Seq<Json>> {
    match release.field("bids"@) {
        Some(bids) => bids.array_field("details"@),
        None => None,
    }
}

/// Whether a bid was submitted: its status is a string that is neither "invited" nor "withdrawn",
/// ignoring ASCII case.
pub open spec fn is_submitted(bid: Json) -> bool {
    match bid.string_field("status"@) {
        Some(s) => ascii_lowercase(s) != "invited"@ && ascii_lowercase(s) != "withdrawn"@,
        None => false,
    }
}

/// The submitted bids among some bids, in order.
pub open spec fn only_submitted(ds: Seq<Json>) -> Seq<Json>
    decreases ds.len(),
{
    if ds.len() == 0 {
        Seq::empty()
    } else if is_submitted(ds.last()) {
        only_submitted(ds.drop_last()).push(ds.last())
    } else {
        only_submitted(ds.drop_last())
    }
}

/// The submitted bids of a release, in order.
pub open spec fn submitted_bids(release: Json) -> Seq<Json> {
    match bid_details(release) {
        Some(ds) => only_submitted(ds),
        None => Seq::empty(),
    }
}

/// Whether an award is complete: its status is "active".
pub open spec fn is_active(award: Json) -> bool {
    award.string_field("status"@) == Some("active"@)
}

/// Whether an award is in a final state, or has no status: its status, if a string, is
/// "active", "cancelled" or "unsuccessful".
pub open spec fn is_settled(award: Json) -> bool {
    match award.string_field("status"@) {
        Some(s) => s == "active"@ || s == "cancelled"@ || s == "unsuccessful"@,
        None => true,
    }
}

/// The complete awards among some awards, in order.
pub open spec fn only_active(awards: Seq<Json>) -> Seq<Json>
    decreases awards.len(),
{
    if awards.len() == 0 {
        Seq::empty()
    } else if is_active(awards.last()) {
        only_active(awards.drop_last()).push(awards.last())
    } else {
        only_active(awards.drop_last())
    }
}

/// The complete awards and the bids of a release, if it has an array of awards and an array of
/// bids, and all its awards are in a final state.
pub open spec fn complete_awards_and_bids(release: Json) -> Option<(Seq<Json>, Seq<Json>)> {
    match (release.array_field("awards"@), bid_details(release)) {
        (Some(awards), Some(details)) => if forall|i: int|
            0 <= i < awards.len() ==> #[trigger] is_settled(awards[i]) {
            Some((only_active(awards), details))
        } else {
            None
        },
        _ => None,
    }
}

/// The identifier of the single supplier of an award, if it has exactly one supplier and its
/// identifier is a string.
pub open spec fn single_supplier(award: Json) -> Option<Seq<char>> {
    match award.array_field("suppliers"@) {
        Some(suppliers) => if suppliers.len() == 1 {
            suppliers[0].string_field("id"@)
        } else {
            None
        },
        None => None,
    }
}

/// The bids of a release and the identifier of its winner, if all its awards are final, exactly
/// one award is complete, and that award has a single supplier with an identifier.
pub open spec fn winner_and_bids(release: Json) -> Option<(Seq<char>, Seq<Json>)> {
    match complete_awards_and_bids(release) {
        Some((awards, details)) => if awards.len() == 1 {
            match single_supplier(awards[0]) {
                Some(id) => Some((id, details)),
                None => None,
            }
        } else {
            None
        },
        None => None,
    }
}

/// Whether a tender's procurement method is among `methods`; with no methods, every tender matches.
pub open spec fn matches_method(tender: Json, methods: Set<Seq<char>>) -> bool {
    methods.is_empty() || match tender.string_field("procurementMethod"@) {
        Some(m) => methods.contains(m),
        None => false,
    }
}

/// The procurement method details of a release.
pub open spec fn method_details(release: Json) -> Option<Seq<char>> {
    release.nested_string("tender"@, "procurementMethodDetails"@)
}

/// Whether a release takes part in price comparisons: it is excluded if the details of its
/// procurement method are among `no_price`, or if `price` is given and the details are absent
/// or not among them.
pub open spec fn matches_details(release: Json, price: Set<Seq<char>>, no_price: Set<Seq<char>>) -> bool {
    let details = method_details(release);
    &&& !(!no_price.is_empty() && details is Some && no_price.contains(details->Some_0))
    &&& !(!price.is_empty() && (details is None || !price.contains(details->Some_0)))
}

/// The amount of a monetary value, if it is a number, and its currency, if it is a string.
pub open spec fn amount_and_currency(value: Json) -> Option<(u64, Seq<char>)> {
    match (value.field("amount"@), value.string_field("currency"@)) {
        (Some(Json::Number(n)), Some(c)) => Some((n.key, c)),
        _ => None,
    }
}

/// The monetary value of a bid, if its value is an object with a numeric amount and a currency.
pub open spec fn bid_value(bid: Json) -> Option<(u64, Seq<char>)> {
    match bid.field("value"@) {
        Some(value) => if value is Object {
            amount_and_currency(value)
        } else {
            None
        },
        None => None,
    }
}

/// The tenderer and value of a valid bid: its status is "valid", it has exactly one tenderer, whose
/// identifier is a string, and its value has a numeric amount and a currency.
pub open spec fn valid_bid(bid: Json) -> Option<(Seq<char>, u64, Seq<char>)> {
    match (bid.string_field("status"@), bid.array_field("tenderers"@), bid_value(bid)) {
        (Some(status), Some(tenderers), Some((amount, currency))) => if status == "valid"@
            && tenderers.len() == 1 {
            match tenderers[0].string_field("id"@) {
                Some(id) => Some((id, amount, currency)),
                None => None,
            }
        } else {
            None
        },
        _ => None,
    }
}

/// The tenderers and values of the valid bids among some bids, in order.
pub open spec fn valid_bids(ds: Seq<Json>) -> Seq<(Seq<char>, u64, Seq<char>)>
    decreases ds.len(),
{
    if ds.len() == 0 {
        Seq::empty()
    } else {
        match valid_bid(ds.last()) {
            Some(v) => valid_bids(ds.drop_last()).push(v),
            None => valid_bids(ds.drop_last()),
        }
    }
}

/// The identifiers, where strings, of a list of organization references.
pub open spec fn string_ids(xs: Seq<Json>) -> Set<Seq<char>>
    decreases xs.len(),
{
    if xs.len() == 0 {
        Set::empty()
    } else {
        match xs.last().string_field("id"@) {
            Some(id) => string_ids(xs.drop_last()).insert(id),
            None => string_ids(xs.drop_last()),
        }
    }
}

/// The identifiers of the suppliers of the complete awards among some awards.
pub open spec fn awarded_ids(awards: Seq<Json>) -> Set<Seq<char>>
    decreases awards.len(),
{
    if awards.len() == 0 {
        Set::empty()
    } else {
        let prev = awarded_ids(awards.drop_last());
        match awards.last().array_field("suppliers"@) {
            Some(suppliers) => if is_active(awards.last()) {
                prev.union(string_ids(suppliers))
            } else {
                prev
            },
            None => prev,
        }
    }
}

/// Adds the identifiers of a list of organization references to a set.
pub fn add_string_ids(xs: &Vec<Json>, set: &mut StrSet)
    requires
        old(set).wf(),
    ensures
        final(set).wf(),
        final(set)@ == old(set)@.union(string_ids(xs@)),
{
    let mut i: usize = 0;
    assert(xs@.take(0) =~= Seq::<Json>::empty());
    assert(old(set)@.union(string_ids(xs@.take(0))) =~= old(set)@);
    while i < xs.len()
        invariant
            i <= xs@.len(),
            set.wf(),
            set@ == old(set)@.union(string_ids(xs@.take(i as int))),
        decreases xs.len() - i,
    {
        assert(xs@.take(i + 1).drop_last() =~= xs@.take(i as int));
        assert(xs@.take(i + 1).last() == xs@[i as int]);
        if let Some(id) = xs[i].get_string("id") {
            set.insert(id.clone());
        }
        assert(set@ =~= old(set)@.union(string_ids(xs@.take(i + 1))));
        i += 1;
    }
    assert(xs@.take(xs@.len() as int) =~= xs@);
}

/// The identifiers of the suppliers of the complete awards among some awards.
pub fn get_awarded_ids(awards: &Vec<Json>) -> (r: StrSet)
    ensures
        r.wf(),
        r@ == awarded_ids(awards@),
{
    let mut set = StrSet::new();
    let mut i: usize = 0;
    assert(awards@.take(0) =~= Seq::<Json>::empty());
    while i < awards.len()
        invariant
            i <= awards@.len(),
            set.wf(),
            set@ == awarded_ids(awards@.take(i as int)),
        decreases awards.len() - i,
    {
        assert(awards@.take(i + 1).drop_last() =~= awards@.take(i as int));
        assert(awards@.take(i + 1).last() == awards@[i as int]);
        if let Some(suppliers) = awards[i].get_array("suppliers") {
            if award_is_active(&awards[i]) {
                add_string_ids(suppliers, &mut set);
            }
        }
        i += 1;
    }
    assert(awards@.take(awards@.len() as int) =~= awards@);
    set
}

/// The identifiers of the tenderers of the bids with a given status among some bids.
pub open spec fn ids_with_status(ds: Seq<Json>, status: Seq<char>) -> Set<Seq<char>>
    decreases ds.len(),
{
    if ds.len() == 0 {
        Set::empty()
    } else {
        let prev = ids_with_status(ds.drop_last(), status);
        match (ds.last().string_field("status"@), ds.last().array_field("tenderers"@)) {
            (Some(s), Some(tenderers)) => if s == status {
                prev.union(string_ids(tenderers))
            } else {
                prev
            },
            _ => prev,
        }
    }
}

/// The identifiers of the suppliers of some complete awards.
pub fn get_awarded_ids_of(awards: &Vec<&Json>) -> (r: StrSet)
    ensures
        r.wf(),
        r@ == awarded_ids(derefs(awards@)),
{
    let ghost all = derefs(awards@);
    let mut set = StrSet::new();
    let mut i: usize = 0;
    assert(all.take(0) =~= Seq::<Json>::empty());
    while i < awards.len()
        invariant
            i <= awards@.len(),
            all == derefs(awards@),
            set.wf(),
            set@ == awarded_ids(all.take(i as int)),
        decreases awards.len() - i,
    {
        assert(all.take(i + 1).drop_last() =~= all.take(i as int));
        assert(all.take(i + 1).last() == *awards@[i as int]);
        let award: &Json = awards[i];
        if let Some(suppliers) = award.get_array("suppliers") {
            if award_is_active(award) {
                add_string_ids(suppliers, &mut set);
            }
        }
        i += 1;
    }
    assert(all.take(all.len() as int) =~= all);
    set
}

/// The identifier of the buyer of a release, if `/buyer/id` is a string.
pub open spec fn buyer_id(release: Json) -> Option<Seq<char>> {
    release.nested_string("buyer"@, "id"@)
}

/// The identifier of the procuring entity of a release, if `/tender/procuringEntity/id` is a string.
pub open spec fn procuring_entity_id(release: Json) -> Option<Seq<char>> {
    match release.field("tender"@) {
        Some(tender) => if tender is Object {
            tender.nested_string("procuringEntity"@, "id"@)
        } else {
            None
        },
        None => None,
    }
}

/// The identifier of the buyer of a release.
pub fn get_buyer_id(release: &Json) -> (r: Option<&String>)
    ensures
        match r {
            Some(id) => buyer_id(*release) == Some(id@),
            None => buyer_id(*release) is None,
        },
{
    release.get_nested_string("buyer", "id")
}

/// The identifier of the procuring entity of a release.
pub fn get_procuring_entity_id(release: &Json) -> (r: Option<&String>)
    ensures
        match r {
            Some(id) => procuring_entity_id(*release) == Some(id@),
            None => procuring_entity_id(*release) is None,
        },
{
    match release.get_object("tender") {
        Some(tender) => tender.get_nested_string("procuringEntity", "id"),
        None => None,
    }
}

/// The array `/bids/details` of a release.
pub fn get_bid_details(release: &Json) -> (r: Option<&Vec<Json>>)
    ensures
        match r {
            Some(ds) => bid_details(*release) == Some(ds@),
            None => bid_details(*release) is None,
        },
{
    match release.get("bids") {
        Some(bids) => bids.get_array("details"),
        None => None,
    }
}

/// Whether a bid was submitted.
pub fn bid_is_submitted(bid: &Json) -> (r: bool)
    ensures
        r == is_submitted(*bid),
{
    match bid.get_string("status") {
        Some(status) => {
            let status = to_ascii_lowercase(status.as_str());
            !equals(status.as_str(), "invited") && !equals(status.as_str(), "withdrawn")
        },
        None => false,
    }
}

/// Whether an award is complete.
pub fn award_is_active(award: &Json) -> (r: bool)
    ensures
        r == is_active(*award),
{
    match award.get_string("status") {
        Some(status) => equals(status.as_str(), "active"),
        None => false,
    }
}

/// The identifier of the single supplier of an award.
pub fn get_single_supplier(award: &Json) -> (r: Option<&String>)
    ensures
        match r {
            Some(id) => single_supplier(*award) == Some(id@),
            None => single_supplier(*award) is None,
        },
{
    match award.get_array("suppliers") {
        Some(suppliers) => if suppliers.len() == 1 {
            suppliers[0].get_string("id")
        } else {
            None
        },
        None => None,
    }
}

/// The monetary value of a bid.
pub fn get_bid_value(bid: &Json) -> (r: Option<(u64, &String)>)
    ensures
        match r {
            Some((amount, currency)) => bid_value(*bid) == Some((amount, currency@)),
            None => bid_value(*bid) is None,
        },
{
    match bid.get_object("value") {
        Some(value) => match (value.get("amount"), value.get_string("currency")) {
            (Some(Json::Number(n)), Some(c)) => Some((n.key, c)),
            _ => None,
        },
        None => None,
    }
}

/// The tenderer and value of a valid bid.
pub fn get_valid_bid(bid: &Json) -> (r: Option<(&String, u64, &String)>)
    ensures
        match r {
            Some((id, amount, currency)) => valid_bid(*bid) == Some((id@, amount, currency@)),
            None => valid_bid(*bid) is None,
        },
{
    match (bid.get_string("status"), bid.get_array("tenderers"), get_bid_value(bid)) {
        (Some(status), Some(tenderers), Some((amount, currency))) => {
            if equals(status.as_str(), "valid") && tenderers.len() == 1 {
                match tenderers[0].get_string("id") {
                    Some(id) => Some((id, amount, currency)),
                    None => None,
                }
            } else {
                None
            }
        },
        _ => None,
    }
}

impl Indicators {
    /// The complete awards and the bids of a release, if all its awards are final. Bids are
    /// returned even if there are no awards, because then "all" awards are final.
    pub fn get_complete_awards_and_bids_if_all_awards_final(release: &Json) -> (r: Option<
        (Vec<&Json>, &Vec<Json>),
    >)
        ensures
            match r {
                Some((awards, details)) => complete_awards_and_bids(*release) == Some(
                    (derefs(awards@), details@),
                ),
                None => complete_awards_and_bids(*release) is None,
            },
    {
        match (release.get_array("awards"), get_bid_details(release)) {
            (Some(awards), Some(details)) => {
                let mut complete: Vec<&Json> = Vec::new();
                let mut i: usize = 0;
                assert(awards@.take(0) =~= Seq::<Json>::empty());
                assert(derefs(complete@) =~= Seq::<Json>::empty());
                while i < awards.len()
                    invariant
                        i <= awards@.len(),
                        release.array_field("awards"@) == Some(awards@),
                        bid_details(*release) == Some(details@),
                        derefs(complete@) == only_active(awards@.take(i as int)),
                        forall|j: int| 0 <= j < i ==> #[trigger] is_settled(awards@[j]),
                    decreases awards.len() - i,
                {
                    let award = &awards[i];
                    assert(awards@.take(i + 1).drop_last() =~= awards@.take(i as int));
                    assert(awards@.take(i + 1).last() == awards@[i as int]);
                    match award.get_string("status") {
                        Some(status) => {
                            if equals(status.as_str(), "active") {
                                let ghost before = complete@;
                                complete.push(award);
                                assert(derefs(complete@) =~= derefs(before).push(*award));
                            } else if equals(status.as_str(), "cancelled") || equals(
                                status.as_str(),
                                "unsuccessful",
                            ) {
                            } else {
                                assert(!is_settled(awards@[i as int]));
                                return None;
                            }
                        },
                        None => {},
                    }
                    i += 1;
                }
                assert(awards@.take(awards@.len() as int) =~= awards@);
                Some((complete, details))
            },
            _ => None,
        }
    }

    /// The submitted bids of a release, in order.
    pub fn get_submitted_bids(release: &Json) -> (r: Vec<&Json>)
        ensures
            derefs(r@) == submitted_bids(*release),
    {
        let mut submitted: Vec<&Json> = Vec::new();
        assert(derefs(submitted@) =~= Seq::<Json>::empty());
        match get_bid_details(release) {
            Some(details) => {
                let mut i: usize = 0;
                assert(details@.take(0) =~= Seq::<Json>::empty());
                while i < details.len()
                    invariant
                        i <= details@.len(),
                        bid_details(*release) == Some(details@),
                        derefs(submitted@) == only_submitted(details@.take(i as int)),
                    decreases details.len() - i,
                {
                    let bid = &details[i];
                    assert(details@.take(i + 1).drop_last() =~= details@.take(i as int));
                    assert(details@.take(i + 1).last() == details@[i as int]);
                    if bid_is_submitted(bid) {
                        let ghost before = submitted@;
                        submitted.push(bid);
                        assert(derefs(submitted@) =~= derefs(before).push(*bid));
                    }
                    i += 1;
                }
                assert(details@.take(details@.len() as int) =~= details@);
            },
            None => {},
        }
        submitted
    }

    /// The bids and winner of a release; see `winner_and_bids`.
    pub fn get_winner_and_bids(release: &Json) -> (r: Option<(&String, &Vec<Json>)>)
        ensures
            match r {
                Some((id, details)) => winner_and_bids(*release) == Some((id@, details@)),
                None => winner_and_bids(*release) is None,
            },
    {
        match Self::get_complete_awards_and_bids_if_all_awards_final(release) {
            Some((awards, details)) => {
                if awards.len() == 1 {
                    match get_single_supplier(awards[0]) {
                        Some(id) => Some((id, details)),
                        None => None,
                    }
                } else {
                    None
                }
            },
            None => None,
        }
    }

    /// Whether a tender's procurement method is among `methods`, or `methods` is empty.
    pub fn matches_procurement_method(tender: &Json, methods: &StrSet) -> (r: bool)
        requires
            methods.wf(),
        ensures
            r == matches_method(*tender, methods@),
    {
        proof {
            methods.lemma_elements();
        }
        if methods.len() == 0 {
            assert(methods@ =~= Set::<Seq<char>>::empty());
            return true;
        }
        assert(!methods@.is_empty()) by {
            methods.lemma_elements();
            assert(methods@.contains(methods.elements()[0]));
        }
        match tender.get_string("procurementMethod") {
            Some(m) => methods.contains(m.as_str()),
            None => false,
        }
    }

    /// Whether a release takes part in price comparisons; see `matches_details`.
    pub fn matches_procurement_method_details(
        release: &Json,
        price_comparison_procurement_methods: &StrSet,
        no_price_comparison_procurement_methods: &StrSet,
    ) -> (r: bool)
        requires
            price_comparison_procurement_methods.wf(),
            no_price_comparison_procurement_methods.wf(),
        ensures
            r == matches_details(
                *release,
                price_comparison_procurement_methods@,
                no_price_comparison_procurement_methods@,
            ),
    {
        let details = release.get_nested_string("tender", "procurementMethodDetails");
        proof {
            price_comparison_procurement_methods.lemma_elements();
            no_price_comparison_procurement_methods.lemma_elements();
        }
        let price_set = price_comparison_procurement_methods.len() > 0;
        let no_price_set = no_price_comparison_procurement_methods.len() > 0;
        if price_set {
            assert(price_comparison_procurement_methods@.contains(
                price_comparison_procurement_methods.elements()[0],
            ));
        } else {
            assert(price_comparison_procurement_methods@ =~= Set::<Seq<char>>::empty());
        }
        if no_price_set {
            assert(no_price_comparison_procurement_methods@.contains(
                no_price_comparison_procurement_methods.elements()[0],
            ));
        } else {
            assert(no_price_comparison_procurement_methods@ =~= Set::<Seq<char>>::empty());
        }
        match details {
            Some(d) => {
                !(no_price_set && no_price_comparison_procurement_methods.contains(d.as_str())) && !(
                price_set && !price_comparison_procurement_methods.contains(d.as_str()))
            },
            None => !price_set,
        }
    }

    /// The tenderers and values of the valid bids among some bids, in order.
    pub fn get_tenderer_and_value_of_valid_bids(details: &Vec<Json>) -> (r: Vec<
        (&String, u64, &String),
    >)
        ensures
            r@.map_values(|e: (&String, u64, &String)| (e.0@, e.1, e.2@)) == valid_bids(details@),
    {
        let mut out: Vec<(&String, u64, &String)> = Vec::new();
        let mut i: usize = 0;
        assert(details@.take(0) =~= Seq::<Json>::empty());
        assert(out@.map_values(|e: (&String, u64, &String)| (e.0@, e.1, e.2@)) =~= Seq::<
            (Seq<char>, u64, Seq<char>),
        >::empty());
        while i < details.len()
            invariant
                i <= details@.len(),
                out@.map_values(|e: (&String, u64, &String)| (e.0@, e.1, e.2@)) == valid_bids(
                    details@.take(i as int),
                ),
            decreases details.len() - i,
        {
            assert(details@.take(i + 1).drop_last() =~= details@.take(i as int));
            assert(details@.take(i + 1).last() == details@[i as int]);
            match get_valid_bid(&details[i]) {
                Some(v) => {
                    let ghost before = out@;
                    out.push(v);
                    assert(out@.map_values(|e: (&String, u64, &String)| (e.0@, e.1, e.2@))
                        =~= before.map_values(|e: (&String, u64, &String)| (e.0@, e.1, e.2@)).push(
                        (v.0@, v.1, v.2@),
                    ));
                },
                None => {},
            }
            i += 1;
        }
        assert(details@.take(details@.len() as int) =~= details@);
        out
    }
}

} // verus!
