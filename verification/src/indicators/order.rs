//! The order of contracting processes does not matter: what a release adds to a state depends on
//! the release and the main currency alone, and what two releases with different `ocid`s add
//! can be added in either order.
use crate::indicators::count::{count_plus, count_sum, id_set, lemma_count_sum_order};
use crate::indicators::fraction::{
    lemma_mediants_order, lemma_plus_all_mediants, lemma_plus_mediants, mediants, plus_all,
};
use crate::indicators::r036::lowest_scan;
use crate::indicators::r038::{bid_increments, disqualified_count, tenderer_ids};
use crate::indicators::r048::{
    lemma_supplies_next_sum, lemma_supplies_sum_order, release_supplies, supplies_sum,
};
use crate::indicators::r055::{add_amount, amounts_of, is_direct, R055};
use crate::indicators::release::{buyer_id, procuring_entity_id, submitted_bids};
use crate::indicators::run::Calculators;
use crate::indicators::util::{offer_scan, SecondLowestBidRatio, Tenderers};
use crate::indicators::{
    add_members, observed_currency, r003, r018, r025, r028, r030, r035, r036, r038, r044, r048,
    Group, Indicator, IndicatorsView, MapsView,
};
use crate::json::Json;
use vstd::multiset::Multiset;
use vstd::prelude::*;

verus! {

/// The set of a key, or the empty set.
pub open spec fn sets_of(m: Map<Seq<char>, Set<Seq<char>>>, k: Seq<char>) -> Set<Seq<char>> {
    if m.contains_key(k) {
        m[k]
    } else {
        Set::empty()
    }
}

/// Two tables of sets united key by key.
pub open spec fn set_union_maps(
    a: Map<Seq<char>, Set<Seq<char>>>,
    b: Map<Seq<char>, Set<Seq<char>>>,
) -> Map<Seq<char>, Set<Seq<char>>> {
    Map::new(
        |k: Seq<char>| a.contains_key(k) || b.contains_key(k),
        |k: Seq<char>| sets_of(a, k).union(sets_of(b, k)),
    )
}

/// Two tables of amounts added up pair by pair.
pub open spec fn pair_sum(
    a: Map<(Seq<char>, Seq<char>), Multiset<u64>>,
    b: Map<(Seq<char>, Seq<char>), Multiset<u64>>,
) -> Map<(Seq<char>, Seq<char>), Multiset<u64>> {
    Map::new(
        |k: (Seq<char>, Seq<char>)| a.contains_key(k) || b.contains_key(k),
        |k: (Seq<char>, Seq<char>)| amounts_of(a, k).add(amounts_of(b, k)),
    )
}

/// A state with what another adds to it: results and single values from `d` over those of `v`,
/// sets united, ratios and counts added up; the main currency and mapping switch of `v`.
pub open spec fn combined(v: IndicatorsView, d: IndicatorsView) -> IndicatorsView {
    IndicatorsView {
        results: v.results.union_prefer_right(d.results),
        maps: MapsView {
            ocid_buyer_r038: v.maps.ocid_buyer_r038.union_prefer_right(d.maps.ocid_buyer_r038),
            ocid_procuringentity_r038: v.maps.ocid_procuringentity_r038.union_prefer_right(
                d.maps.ocid_procuringentity_r038,
            ),
            ocid_tenderer: set_union_maps(v.maps.ocid_tenderer, d.maps.ocid_tenderer),
            ocid_tenderer_r024: set_union_maps(v.maps.ocid_tenderer_r024, d.maps.ocid_tenderer_r024),
            ocid_tenderer_r028: set_union_maps(v.maps.ocid_tenderer_r028, d.maps.ocid_tenderer_r028),
            ocid_tenderer_r030: set_union_maps(v.maps.ocid_tenderer_r030, d.maps.ocid_tenderer_r030),
            ocid_tenderer_r035: set_union_maps(v.maps.ocid_tenderer_r035, d.maps.ocid_tenderer_r035),
            ocid_tenderer_r058: set_union_maps(v.maps.ocid_tenderer_r058, d.maps.ocid_tenderer_r058),
        },
        currency: v.currency,
        lowest_bids: v.lowest_bids.union_prefer_right(d.lowest_bids),
        r025_tenderer: mediants(v.r025_tenderer, d.r025_tenderer),
        r038_buyer: mediants(v.r038_buyer, d.r038_buyer),
        r038_procuring_entity: mediants(v.r038_procuring_entity, d.r038_procuring_entity),
        r038_tenderer: mediants(v.r038_tenderer, d.r038_tenderer),
        r038_buyer_processes: count_sum(v.r038_buyer_processes, d.r038_buyer_processes),
        r038_procuring_entity_processes: count_sum(
            v.r038_procuring_entity_processes,
            d.r038_procuring_entity_processes,
        ),
        r038_tenderer_processes: count_sum(v.r038_tenderer_processes, d.r038_tenderer_processes),
        r048_classifications: supplies_sum(v.r048_classifications, d.r048_classifications),
        r055_open_tender_amount: v.r055_open_tender_amount.union_prefer_right(
            d.r055_open_tender_amount,
        ),
        r055_supplier_buyer: pair_sum(v.r055_supplier_buyer, d.r055_supplier_buyer),
        r055_supplier_procuring_entity: pair_sum(
            v.r055_supplier_procuring_entity,
            d.r055_supplier_procuring_entity,
        ),
        map: v.map,
    }
}

/// A state that holds nothing, with the main currency and mapping switch of `v`.
pub open spec fn nothing(v: IndicatorsView) -> IndicatorsView {
    IndicatorsView {
        results: Map::empty(),
        maps: MapsView {
            ocid_buyer_r038: Map::empty(),
            ocid_procuringentity_r038: Map::empty(),
            ocid_tenderer: Map::empty(),
            ocid_tenderer_r024: Map::empty(),
            ocid_tenderer_r028: Map::empty(),
            ocid_tenderer_r030: Map::empty(),
            ocid_tenderer_r035: Map::empty(),
            ocid_tenderer_r058: Map::empty(),
        },
        currency: v.currency,
        lowest_bids: Map::empty(),
        r025_tenderer: Map::empty(),
        r038_buyer: Map::empty(),
        r038_procuring_entity: Map::empty(),
        r038_tenderer: Map::empty(),
        r038_buyer_processes: Map::empty(),
        r038_procuring_entity_processes: Map::empty(),
        r038_tenderer_processes: Map::empty(),
        r048_classifications: Map::empty(),
        r055_open_tender_amount: Map::empty(),
        r055_supplier_buyer: Map::empty(),
        r055_supplier_procuring_entity: Map::empty(),
        map: v.map,
    }
}

/// The output that an indicator gives a tenderer.
pub open spec fn tenderer_output(i: Indicator) -> u64 {
    if i == Indicator::R035 {
        0
    } else {
        1
    }
}

/// Whether a table keyed by contracting processes holds only `ocid`.
pub open spec fn only<V>(m: Map<Seq<char>, V>, ocid: Seq<char>) -> bool {
    forall|k: Seq<char>| #[trigger] m.contains_key(k) ==> k == ocid
}

/// What one contracting process `ocid` can add: results of `ocid` and tenderer outputs, and
/// entries keyed by `ocid`.
pub open spec fn added_by(d: IndicatorsView, ocid: Seq<char>) -> bool {
    &&& forall|k: (Group, Seq<char>, Indicator)|
        #[trigger] d.results.contains_key(k) ==> if k.0 == Group::OCID {
            k.1 == ocid
        } else {
            k.0 == Group::Tenderer && d.results[k] == tenderer_output(k.2)
        }
    &&& only(d.lowest_bids, ocid)
    &&& only(d.maps.ocid_buyer_r038, ocid)
    &&& only(d.maps.ocid_procuringentity_r038, ocid)
    &&& only(d.r055_open_tender_amount, ocid)
}

/// Adding nothing changes nothing.
pub proof fn lemma_combined_nothing(v: IndicatorsView)
    ensures
        combined(v, nothing(v)) == v,
{
    lemma_mediants_order(v.r025_tenderer, Map::empty(), Map::empty());
    lemma_mediants_order(v.r038_buyer, Map::empty(), Map::empty());
    lemma_mediants_order(v.r038_procuring_entity, Map::empty(), Map::empty());
    lemma_mediants_order(v.r038_tenderer, Map::empty(), Map::empty());
    lemma_count_sum_order(v.r038_buyer_processes, Map::empty(), Map::empty(), Set::empty());
    lemma_count_sum_order(v.r038_procuring_entity_processes, Map::empty(), Map::empty(), Set::empty());
    lemma_count_sum_order(v.r038_tenderer_processes, Map::empty(), Map::empty(), Set::empty());
    lemma_supplies_sum_order(v.r048_classifications, Map::empty(), Map::empty());
    lemma_set_union_maps_empty(v.maps.ocid_tenderer);
    lemma_set_union_maps_empty(v.maps.ocid_tenderer_r024);
    lemma_set_union_maps_empty(v.maps.ocid_tenderer_r028);
    lemma_set_union_maps_empty(v.maps.ocid_tenderer_r030);
    lemma_set_union_maps_empty(v.maps.ocid_tenderer_r035);
    lemma_set_union_maps_empty(v.maps.ocid_tenderer_r058);
    lemma_pair_sum_order(v.r055_supplier_buyer, Map::empty());
    lemma_pair_sum_order(v.r055_supplier_procuring_entity, Map::empty());
    assert(v.results.union_prefer_right(Map::empty()) =~= v.results);
    assert(v.lowest_bids.union_prefer_right(Map::empty()) =~= v.lowest_bids);
    assert(v.maps.ocid_buyer_r038.union_prefer_right(Map::empty()) =~= v.maps.ocid_buyer_r038);
    assert(v.maps.ocid_procuringentity_r038.union_prefer_right(Map::empty())
        =~= v.maps.ocid_procuringentity_r038);
    assert(v.r055_open_tender_amount.union_prefer_right(Map::empty()) =~= v.r055_open_tender_amount);
    assert(count_sum(v.r038_buyer_processes, Map::empty()) =~= v.r038_buyer_processes);
    assert(count_sum(v.r038_procuring_entity_processes, Map::empty()) =~= v.r038_procuring_entity_processes);
    assert(count_sum(v.r038_tenderer_processes, Map::empty()) =~= v.r038_tenderer_processes);
    assert(combined(v, nothing(v)).maps == v.maps);
}

proof fn lemma_set_union_maps_empty(m: Map<Seq<char>, Set<Seq<char>>>)
    ensures
        set_union_maps(m, Map::empty()) == m,
{
    assert forall|k: Seq<char>| #[trigger] m.contains_key(k) implies set_union_maps(m, Map::empty())[k]
        == m[k] by {
        assert(m[k].union(Set::empty()) =~= m[k]);
    }
    assert(set_union_maps(m, Map::empty()) =~= m);
}

/// Adding up amounts pair by pair is commutative, and adding none changes nothing.
pub proof fn lemma_pair_sum_order(
    a: Map<(Seq<char>, Seq<char>), Multiset<u64>>,
    b: Map<(Seq<char>, Seq<char>), Multiset<u64>>,
)
    ensures
        pair_sum(a, b) == pair_sum(b, a),
        pair_sum(a, Map::empty()) == a,
{
    assert forall|k: (Seq<char>, Seq<char>)| #[trigger] pair_sum(a, b).contains_key(k) implies pair_sum(
        a,
        b,
    )[k] == pair_sum(b, a)[k] by {
        assert(amounts_of(a, k).add(amounts_of(b, k)) =~= amounts_of(b, k).add(amounts_of(a, k)));
    }
    assert(pair_sum(a, b) =~= pair_sum(b, a));
    assert forall|k: (Seq<char>, Seq<char>)| #[trigger] a.contains_key(k) implies pair_sum(
        a,
        Map::empty(),
    )[k] == a[k] by {
        assert(a[k].add(Multiset::empty()) =~= a[k]);
    }
    assert(pair_sum(a, Map::empty()) =~= a);
}

proof fn lemma_set_union_maps_commutes(a: Map<Seq<char>, Set<Seq<char>>>, b: Map<Seq<char>, Set<Seq<char>>>)
    ensures
        set_union_maps(a, b) == set_union_maps(b, a),
{
    assert forall|k: Seq<char>| #[trigger] set_union_maps(a, b).contains_key(k) implies set_union_maps(
        a,
        b,
    )[k] == set_union_maps(b, a)[k] by {
        assert(sets_of(a, k).union(sets_of(b, k)) =~= sets_of(b, k).union(sets_of(a, k)));
    }
    assert(set_union_maps(a, b) =~= set_union_maps(b, a));
}

/// What two different contracting processes add, added in either order, is the same.
pub proof fn lemma_combined_commutes(d1: IndicatorsView, d2: IndicatorsView, o1: Seq<char>, o2: Seq<char>)
    requires
        added_by(d1, o1),
        added_by(d2, o2),
        o1 != o2,
        d1.currency == d2.currency,
        d1.map == d2.map,
    ensures
        combined(d1, d2) == combined(d2, d1),
{
    assert(d1.results.union_prefer_right(d2.results) =~= d2.results.union_prefer_right(d1.results))
        by {
        assert forall|k: (Group, Seq<char>, Indicator)|
            #[trigger] d1.results.contains_key(k) && d2.results.contains_key(k) implies d1.results[k]
                == d2.results[k] by {
            if k.0 == Group::OCID {
                assert(k.1 == o1 && k.1 == o2);
            }
        }
    }
    assert(d1.lowest_bids.union_prefer_right(d2.lowest_bids) =~= d2.lowest_bids.union_prefer_right(
        d1.lowest_bids,
    )) by {
        assert forall|k: Seq<char>| #[trigger] d1.lowest_bids.contains_key(k) implies !d2.lowest_bids.contains_key(k) by {}
    }
    assert(d1.maps.ocid_buyer_r038.union_prefer_right(d2.maps.ocid_buyer_r038)
        =~= d2.maps.ocid_buyer_r038.union_prefer_right(d1.maps.ocid_buyer_r038)) by {
        assert forall|k: Seq<char>| #[trigger] d1.maps.ocid_buyer_r038.contains_key(k) implies !d2.maps.ocid_buyer_r038.contains_key(k) by {}
    }
    assert(d1.maps.ocid_procuringentity_r038.union_prefer_right(d2.maps.ocid_procuringentity_r038)
        =~= d2.maps.ocid_procuringentity_r038.union_prefer_right(d1.maps.ocid_procuringentity_r038)) by {
        assert forall|k: Seq<char>| #[trigger] d1.maps.ocid_procuringentity_r038.contains_key(k) implies !d2.maps.ocid_procuringentity_r038.contains_key(k) by {}
    }
    assert(d1.r055_open_tender_amount.union_prefer_right(d2.r055_open_tender_amount)
        =~= d2.r055_open_tender_amount.union_prefer_right(d1.r055_open_tender_amount)) by {
        assert forall|k: Seq<char>| #[trigger] d1.r055_open_tender_amount.contains_key(k) implies !d2.r055_open_tender_amount.contains_key(k) by {}
    }
    lemma_set_union_maps_commutes(d1.maps.ocid_tenderer, d2.maps.ocid_tenderer);
    lemma_set_union_maps_commutes(d1.maps.ocid_tenderer_r024, d2.maps.ocid_tenderer_r024);
    lemma_set_union_maps_commutes(d1.maps.ocid_tenderer_r028, d2.maps.ocid_tenderer_r028);
    lemma_set_union_maps_commutes(d1.maps.ocid_tenderer_r030, d2.maps.ocid_tenderer_r030);
    lemma_set_union_maps_commutes(d1.maps.ocid_tenderer_r035, d2.maps.ocid_tenderer_r035);
    lemma_set_union_maps_commutes(d1.maps.ocid_tenderer_r058, d2.maps.ocid_tenderer_r058);
    lemma_mediants_order(d1.r025_tenderer, d2.r025_tenderer, Map::empty());
    lemma_mediants_order(d1.r038_buyer, d2.r038_buyer, Map::empty());
    lemma_mediants_order(d1.r038_procuring_entity, d2.r038_procuring_entity, Map::empty());
    lemma_mediants_order(d1.r038_tenderer, d2.r038_tenderer, Map::empty());
    lemma_count_sum_order(d1.r038_buyer_processes, d2.r038_buyer_processes, Map::empty(), Set::empty());
    lemma_count_sum_order(
        d1.r038_procuring_entity_processes,
        d2.r038_procuring_entity_processes,
        Map::empty(),
        Set::empty(),
    );
    lemma_count_sum_order(d1.r038_tenderer_processes, d2.r038_tenderer_processes, Map::empty(), Set::empty());
    lemma_supplies_sum_order(d1.r048_classifications, d2.r048_classifications, Map::empty());
    lemma_pair_sum_order(d1.r055_supplier_buyer, d2.r055_supplier_buyer);
    lemma_pair_sum_order(d1.r055_supplier_procuring_entity, d2.r055_supplier_procuring_entity);
}

/// Whether looking at a release with `ocid` adds the same to a state with more in it, and keeps
/// the main currency, the mapping switch, and what one contracting process can add.
pub open spec fn steps_alike(
    v: IndicatorsView,
    d: IndicatorsView,
    after_more: IndicatorsView,
    after: IndicatorsView,
    ocid: Seq<char>,
) -> bool {
    &&& after_more == combined(v, after)
    &&& after.currency == d.currency
    &&& after.map == d.map
    &&& added_by(d, ocid) ==> added_by(after, ocid)
}

proof fn lemma_step_r003(c: r003::R003, v: IndicatorsView, d: IndicatorsView, r: Json, o: Seq<char>)
    ensures
        steps_alike(v, d, c.next(combined(v, d), r, o), c.next(d, r, o), o),
{
    assert(c.next(combined(v, d), r, o).results =~= combined(v, c.next(d, r, o)).results);
}

proof fn lemma_step_r018(c: r018::R018, v: IndicatorsView, d: IndicatorsView, r: Json, o: Seq<char>)
    ensures
        steps_alike(v, d, c.next(combined(v, d), r, o), c.next(d, r, o), o),
{
    assert(c.next(combined(v, d), r, o).results =~= combined(v, c.next(d, r, o)).results);
}

proof fn lemma_add_members_union(
    a: Map<Seq<char>, Set<Seq<char>>>,
    b: Map<Seq<char>, Set<Seq<char>>>,
    key: Seq<char>,
    ids: Set<Seq<char>>,
)
    ensures
        add_members(set_union_maps(a, b), key, ids) == set_union_maps(a, add_members(b, key, ids)),
{
    if !ids.is_empty() {
        let l = add_members(set_union_maps(a, b), key, ids);
        let r = set_union_maps(a, add_members(b, key, ids));
        assert forall|k: Seq<char>| #[trigger] l.contains_key(k) implies l[k] == r[k] by {
            if k == key {
                assert(l[k] =~= r[k]);
            }
        }
        assert(l =~= r);
    }
}

proof fn lemma_step_r028(c: r028::R028, v: IndicatorsView, d: IndicatorsView, r: Json, o: Seq<char>)
    requires
        d.map == v.map,
    ensures
        steps_alike(v, d, c.next(combined(v, d), r, o), c.next(d, r, o), o),
{
    lemma_add_members_union(v.maps.ocid_tenderer_r028, d.maps.ocid_tenderer_r028, o, r028::identical_price_tenderers(r));
    assert(c.next(combined(v, d), r, o).results =~= combined(v, c.next(d, r, o)).results);
    assert(c.next(combined(v, d), r, o).maps == combined(v, c.next(d, r, o)).maps);
}

proof fn lemma_step_r030(c: r030::R030, v: IndicatorsView, d: IndicatorsView, r: Json, o: Seq<char>)
    requires
        d.map == v.map,
    ensures
        steps_alike(v, d, c.next(combined(v, d), r, o), c.next(d, r, o), o),
{
    lemma_add_members_union(v.maps.ocid_tenderer_r030, d.maps.ocid_tenderer_r030, o, r030::late_winners(r));
    assert(c.next(combined(v, d), r, o).results =~= combined(v, c.next(d, r, o)).results);
    assert(c.next(combined(v, d), r, o).maps == combined(v, c.next(d, r, o)).maps);
}

proof fn lemma_step_r035(c: r035::R035, v: IndicatorsView, d: IndicatorsView, r: Json, o: Seq<char>)
    requires
        d.map == v.map,
    ensures
        steps_alike(v, d, c.next(combined(v, d), r, o), c.next(d, r, o), o),
{
    if let Some((winner, difference)) = r035::r035_outcome(r, c.threshold()) {
        lemma_add_members_union(v.maps.ocid_tenderer_r035, d.maps.ocid_tenderer_r035, o, set![winner]);
    }
    assert(c.next(combined(v, d), r, o).results =~= combined(v, c.next(d, r, o)).results);
    assert(c.next(combined(v, d), r, o).maps == combined(v, c.next(d, r, o)).maps);
}

proof fn lemma_step_r044(c: r044::R044, v: IndicatorsView, d: IndicatorsView, r: Json, o: Seq<char>)
    ensures
        steps_alike(v, d, c.next(combined(v, d), r, o), c.next(d, r, o), o),
{
    assert(c.next(combined(v, d), r, o).results =~= combined(v, c.next(d, r, o)).results);
}

proof fn lemma_step_tenderers(c: Tenderers, v: IndicatorsView, d: IndicatorsView, r: Json, o: Seq<char>)
    requires
        d.map == v.map,
    ensures
        steps_alike(v, d, c.next(combined(v, d), r, o), c.next(d, r, o), o),
{
    lemma_add_members_union(
        v.maps.ocid_tenderer,
        d.maps.ocid_tenderer,
        o,
        crate::indicators::util::tenderers_of(crate::indicators::release::submitted_bids(r)),
    );
    assert(c.next(combined(v, d), r, o).maps == combined(v, c.next(d, r, o)).maps);
}

proof fn lemma_lowest_scan_keeps(bids: Seq<Json>, main: Seq<char>, default: Option<Seq<char>>)
    ensures
        lowest_scan(bids, Some(main), default).0 == Some(main),
    decreases bids.len(),
{
    if bids.len() > 0 {
        lemma_lowest_scan_keeps(bids.drop_last(), main, default);
    }
}

proof fn lemma_offer_scan_keeps(
    bids: Seq<(Seq<char>, u64, Seq<char>)>,
    main: Seq<char>,
    default: Option<Seq<char>>,
    winner: Seq<char>,
)
    ensures
        offer_scan(bids, Some(main), default, winner).0 == Some(main),
    decreases bids.len(),
{
    if bids.len() > 0 {
        lemma_offer_scan_keeps(bids.drop_last(), main, default, winner);
    }
}

proof fn lemma_step_r036(c: r036::R036, v: IndicatorsView, d: IndicatorsView, r: Json, o: Seq<char>)
    requires
        v.currency is Some,
        d.currency == v.currency,
    ensures
        steps_alike(v, d, c.next(combined(v, d), r, o), c.next(d, r, o), o),
{
    lemma_lowest_scan_keeps(submitted_bids(r), v.currency->Some_0, c.default_currency());
    assert(c.next(combined(v, d), r, o).results =~= combined(v, c.next(d, r, o)).results);
}

proof fn lemma_step_bids(c: SecondLowestBidRatio, v: IndicatorsView, d: IndicatorsView, r: Json, o: Seq<char>)
    requires
        v.currency is Some,
        d.currency == v.currency,
    ensures
        steps_alike(v, d, c.next(combined(v, d), r, o), c.next(d, r, o), o),
{
    if let Some((winner, details)) = crate::indicators::release::winner_and_bids(r) {
        lemma_offer_scan_keeps(
            crate::indicators::release::valid_bids(details),
            v.currency->Some_0,
            c.default_currency(),
            winner,
        );
    }
    assert(c.next(combined(v, d), r, o).lowest_bids =~= combined(v, c.next(d, r, o)).lowest_bids);
}

proof fn lemma_step_r025(c: r025::R025, v: IndicatorsView, d: IndicatorsView, r: Json)
    ensures
        c.next(combined(v, d), r) == combined(v, c.next(d, r)),
{
    if let Some((winner, details)) = crate::indicators::release::winner_and_bids(r) {
        lemma_mediants_order(
            v.r025_tenderer,
            d.r025_tenderer,
            r025::wins(r025::valid_tenderers(details), winner),
        );
    }
}

proof fn lemma_step_r048(c: r048::R048, v: IndicatorsView, d: IndicatorsView, r: Json)
    ensures
        c.next(combined(v, d), r) == combined(v, c.next(d, r)),
{
    let s = release_supplies(r, c.digits());
    let x = crate::indicators::r048::supplies_once(s);
    lemma_supplies_next_sum(supplies_sum(v.r048_classifications, d.r048_classifications), s);
    lemma_supplies_next_sum(d.r048_classifications, s);
    lemma_supplies_sum_order(v.r048_classifications, d.r048_classifications, x);
}

proof fn lemma_step_r038(c: r038::R038, v: IndicatorsView, d: IndicatorsView, r: Json)
    ensures
        c.next(combined(v, d), r) == combined(v, c.next(d, r)),
{
    if c.counted(r) {
        let bids = submitted_bids(r);
        let dq = disqualified_count(bids);
        let n = bids.len();
        let incs = bid_increments(bids);
        lemma_plus_all_mediants(mediants(v.r038_tenderer, d.r038_tenderer), incs);
        lemma_plus_all_mediants(d.r038_tenderer, incs);
        lemma_mediants_order(v.r038_tenderer, d.r038_tenderer, plus_all(Map::empty(), incs));
        if let Some(k) = buyer_id(r) {
            lemma_plus_mediants(mediants(v.r038_buyer, d.r038_buyer), k, dq, n);
            lemma_plus_mediants(d.r038_buyer, k, dq, n);
            lemma_mediants_order(v.r038_buyer, d.r038_buyer, Map::empty().insert(k, (dq, n)));
        }
        if let Some(k) = procuring_entity_id(r) {
            lemma_plus_mediants(mediants(v.r038_procuring_entity, d.r038_procuring_entity), k, dq, n);
            lemma_plus_mediants(d.r038_procuring_entity, k, dq, n);
            lemma_mediants_order(
                v.r038_procuring_entity,
                d.r038_procuring_entity,
                Map::empty().insert(k, (dq, n)),
            );
        }
        lemma_count_plus_sum(v.r038_buyer_processes, d.r038_buyer_processes, id_set(buyer_id(r)));
        lemma_count_plus_sum(
            v.r038_procuring_entity_processes,
            d.r038_procuring_entity_processes,
            id_set(procuring_entity_id(r)),
        );
        lemma_count_plus_sum(v.r038_tenderer_processes, d.r038_tenderer_processes, tenderer_ids(bids));
        assert(c.next(combined(v, d), r).maps == combined(v, c.next(d, r)).maps);
    }
}

proof fn lemma_count_plus_sum(a: Map<Seq<char>, nat>, b: Map<Seq<char>, nat>, ids: Set<Seq<char>>)
    ensures
        count_plus(count_sum(a, b), ids) == count_sum(a, count_plus(b, ids)),
{
    assert(count_plus(count_sum(a, b), ids) =~= count_sum(a, count_plus(b, ids)));
}

proof fn lemma_add_amount_sum(
    a: Map<(Seq<char>, Seq<char>), Multiset<u64>>,
    b: Map<(Seq<char>, Seq<char>), Multiset<u64>>,
    k: (Seq<char>, Seq<char>),
    amount: u64,
)
    ensures
        add_amount(pair_sum(a, b), k, amount) == pair_sum(a, add_amount(b, k, amount)),
{
    let l = add_amount(pair_sum(a, b), k, amount);
    let r = pair_sum(a, add_amount(b, k, amount));
    assert forall|x: (Seq<char>, Seq<char>)| #[trigger] l.contains_key(x) implies l[x] == r[x] by {
        if x == k {
            assert(l[x] =~= r[x]);
        }
    }
    assert(l =~= r);
}

proof fn lemma_awards_alike(
    c: R055,
    awards: Seq<Json>,
    v: IndicatorsView,
    d: IndicatorsView,
    b: Option<Seq<char>>,
    e: Option<Seq<char>>,
)
    requires
        v.currency is Some,
        d.currency == v.currency,
    ensures
        c.awards_next(awards, combined(v, d), b, e) == combined(v, c.awards_next(awards, d, b, e)),
        c.awards_next(awards, d, b, e).currency == d.currency,
    decreases awards.len(),
{
    if awards.len() > 0 {
        lemma_awards_alike(c, awards.drop_last(), v, d, b, e);
        let w = c.awards_next(awards.drop_last(), d, b, e);
        if let Some((supplier, amount, currency)) = c.direct_award(awards.last()) {
            if let Some(bb) = b {
                lemma_add_amount_sum(v.r055_supplier_buyer, w.r055_supplier_buyer, (bb, supplier), amount);
            }
            if let Some(ee) = e {
                lemma_add_amount_sum(
                    v.r055_supplier_procuring_entity,
                    w.r055_supplier_procuring_entity,
                    (ee, supplier),
                    amount,
                );
            }
        }
    }
}

proof fn lemma_step_r055(c: R055, v: IndicatorsView, d: IndicatorsView, r: Json, o: Seq<char>)
    requires
        v.currency is Some,
        d.currency == v.currency,
    ensures
        steps_alike(v, d, c.next(combined(v, d), r, o), c.next(d, r, o), o),
{
    let vd = combined(v, d);
    let (v1, d1) = match c.open_tender(r) {
        Some((amount, currency)) => {
            let settled = observed_currency(vd.currency, c.default_currency(), currency);
            (
                IndicatorsView {
                    currency: Some(settled),
                    r055_open_tender_amount: if currency == settled {
                        vd.r055_open_tender_amount.insert(o, amount)
                    } else {
                        vd.r055_open_tender_amount
                    },
                    ..vd
                },
                IndicatorsView {
                    currency: Some(settled),
                    r055_open_tender_amount: if currency == settled {
                        d.r055_open_tender_amount.insert(o, amount)
                    } else {
                        d.r055_open_tender_amount
                    },
                    ..d
                },
            )
        },
        None => (vd, d),
    };
    assert(v1.r055_open_tender_amount =~= combined(v, d1).r055_open_tender_amount);
    assert(v1 == combined(v, d1));
    assert(d1.currency == d.currency);
    if let Some(awards) = r.array_field("awards"@) {
        if is_direct(r) {
            lemma_awards_alike(c, awards, v, d1, buyer_id(r), procuring_entity_id(r));
            c.lemma_awards_keep_others(awards, d1, buyer_id(r), procuring_entity_id(r));
        }
    }
    assert(c.next(combined(v, d), r, o) == combined(v, c.next(d, r, o)));
    assert(c.next(d, r, o).currency == d.currency);
    assert(added_by(d, o) ==> added_by(c.next(d, r, o), o));
}

/// The state after the enabled indicators, in order, look at a release of the contracting process
/// `ocid`, counts taken as they come.
pub open spec fn looked_at(calculators: Calculators, v: IndicatorsView, release: Json, ocid: Seq<char>) -> IndicatorsView {
    let v = match calculators.r003 {
        Some(c) => c.next(v, release, ocid),
        None => v,
    };
    let v = match calculators.r018 {
        Some(c) => c.next(v, release, ocid),
        None => v,
    };
    let v = match calculators.r025 {
        Some(c) => c.next(v, release),
        None => v,
    };
    let v = match calculators.r028 {
        Some(c) => c.next(v, release, ocid),
        None => v,
    };
    let v = match calculators.r030 {
        Some(c) => c.next(v, release, ocid),
        None => v,
    };
    let v = match calculators.r035 {
        Some(c) => c.next(v, release, ocid),
        None => v,
    };
    let v = match calculators.r036 {
        Some(c) => c.next(v, release, ocid),
        None => v,
    };
    let v = match calculators.r038 {
        Some(c) => c.next(v, release),
        None => v,
    };
    let v = match calculators.r044 {
        Some(c) => c.next(v, release, ocid),
        None => v,
    };
    let v = match calculators.r048 {
        Some(c) => c.next(v, release),
        None => v,
    };
    let v = match calculators.r055 {
        Some(c) => c.next(v, release, ocid),
        None => v,
    };
    let v = match calculators.second_lowest_bid_ratio {
        Some(c) => c.next(v, release, ocid),
        None => v,
    };
    match calculators.tenderers {
        Some(c) => c.next(v, release, ocid),
        None => v,
    }
}

/// Where the counts fit, the enabled indicators look at a release as `looked_at` says.
#[verifier::rlimit(50)]
#[verifier::spinoff_prover]
proof fn lemma_next_looked_at(calculators: Calculators, v: IndicatorsView, release: Json, ocid: Seq<char>)
    ensures
        calculators.next(v, release, ocid) matches Some(n) ==> n == looked_at(calculators, v, release, ocid),
{
}

/// Looking at a release with `ocid` keeps the main currency, the mapping switch, and what one
/// contracting process can add.
pub open spec fn looked_at_part(d: IndicatorsView, o: Seq<char>, dk: IndicatorsView) -> bool {
    &&& dk.currency == d.currency
    &&& dk.map == d.map
    &&& added_by(d, o) ==> added_by(dk, o)
}

/// What a release adds to a state depends on the release and the main currency alone: looking
/// at it in a state with more in it gives that state with the same more in it.
#[verifier::rlimit(60)]
#[verifier::spinoff_prover]
pub proof fn lemma_looked_at_alike(
    calculators: Calculators,
    v: IndicatorsView,
    d: IndicatorsView,
    r: Json,
    o: Seq<char>,
)
    requires
        v.currency is Some,
        d.currency == v.currency,
        d.map == v.map,
    ensures
        looked_at(calculators, combined(v, d), r, o) == combined(v, looked_at(calculators, d, r, o)),
        looked_at(calculators, d, r, o).currency == d.currency,
        looked_at(calculators, d, r, o).map == d.map,
        added_by(d, o) ==> added_by(looked_at(calculators, d, r, o), o),
{
    let d1 = match calculators.r003 {
        Some(c) => c.next(d, r, o),
        None => d,
    };
    if let Some(c) = calculators.r003 {
        lemma_step_r003(c, v, d, r, o);
    }
    assert(looked_at_part(d, o, d1));
    let d2 = match calculators.r018 {
        Some(c) => c.next(d1, r, o),
        None => d1,
    };
    if let Some(c) = calculators.r018 {
        lemma_step_r018(c, v, d1, r, o);
    }
    assert(looked_at_part(d, o, d2));
    let d3 = match calculators.r025 {
        Some(c) => c.next(d2, r),
        None => d2,
    };
    if let Some(c) = calculators.r025 {
        lemma_step_r025(c, v, d2, r);
    }
    assert(looked_at_part(d, o, d3));
    let d4 = match calculators.r028 {
        Some(c) => c.next(d3, r, o),
        None => d3,
    };
    if let Some(c) = calculators.r028 {
        lemma_step_r028(c, v, d3, r, o);
    }
    assert(looked_at_part(d, o, d4));
    let d5 = match calculators.r030 {
        Some(c) => c.next(d4, r, o),
        None => d4,
    };
    if let Some(c) = calculators.r030 {
        lemma_step_r030(c, v, d4, r, o);
    }
    assert(looked_at_part(d, o, d5));
    let d6 = match calculators.r035 {
        Some(c) => c.next(d5, r, o),
        None => d5,
    };
    if let Some(c) = calculators.r035 {
        lemma_step_r035(c, v, d5, r, o);
    }
    assert(looked_at_part(d, o, d6));
    let d7 = match calculators.r036 {
        Some(c) => c.next(d6, r, o),
        None => d6,
    };
    if let Some(c) = calculators.r036 {
        lemma_step_r036(c, v, d6, r, o);
    }
    assert(looked_at_part(d, o, d7));
    let d8 = match calculators.r038 {
        Some(c) => c.next(d7, r),
        None => d7,
    };
    if let Some(c) = calculators.r038 {
        lemma_step_r038(c, v, d7, r);
    }
    assert(looked_at_part(d, o, d8));
    let d9 = match calculators.r044 {
        Some(c) => c.next(d8, r, o),
        None => d8,
    };
    if let Some(c) = calculators.r044 {
        lemma_step_r044(c, v, d8, r, o);
    }
    assert(looked_at_part(d, o, d9));
    let d10 = match calculators.r048 {
        Some(c) => c.next(d9, r),
        None => d9,
    };
    if let Some(c) = calculators.r048 {
        lemma_step_r048(c, v, d9, r);
    }
    assert(looked_at_part(d, o, d10));
    let d11 = match calculators.r055 {
        Some(c) => c.next(d10, r, o),
        None => d10,
    };
    if let Some(c) = calculators.r055 {
        lemma_step_r055(c, v, d10, r, o);
    }
    assert(looked_at_part(d, o, d11));
    let d12 = match calculators.second_lowest_bid_ratio {
        Some(c) => c.next(d11, r, o),
        None => d11,
    };
    if let Some(c) = calculators.second_lowest_bid_ratio {
        lemma_step_bids(c, v, d11, r, o);
    }
    assert(looked_at_part(d, o, d12));
    let d13 = match calculators.tenderers {
        Some(c) => c.next(d12, r, o),
        None => d12,
    };
    if let Some(c) = calculators.tenderers {
        lemma_step_tenderers(c, v, d12, r, o);
    }
    assert(looked_at_part(d, o, d13));
}

/// The state after two contracting processes with different `ocid`s does not depend on the
/// order in which they are looked at, once the main currency is settled (as it is from the start
/// when the settings give one): results, mappings, bids, ratios, counts, supplies and amounts are
/// the same, wherever the counts fit in either order.
pub proof fn lemma_order_does_not_matter(
    calculators: Calculators,
    v: IndicatorsView,
    first: Json,
    first_ocid: Seq<char>,
    second: Json,
    second_ocid: Seq<char>,
)
    requires
        v.currency is Some,
        first_ocid != second_ocid,
    ensures
        calculators.next(v, first, first_ocid) matches Some(v1) ==> calculators.next(
            v1,
            second,
            second_ocid,
        ) matches Some(a) ==> calculators.next(v, second, second_ocid) matches Some(v2)
            ==> calculators.next(v2, first, first_ocid) matches Some(b) ==> a == b,
{
    let z = nothing(v);
    let d1 = looked_at(calculators, z, first, first_ocid);
    let d2 = looked_at(calculators, z, second, second_ocid);
    assert(added_by(z, first_ocid));
    assert(added_by(z, second_ocid));
    lemma_combined_nothing(v);
    lemma_looked_at_alike(calculators, v, z, first, first_ocid);
    lemma_looked_at_alike(calculators, v, z, second, second_ocid);
    let v1 = looked_at(calculators, v, first, first_ocid);
    let v2 = looked_at(calculators, v, second, second_ocid);
    assert(v1 == combined(v, d1));
    assert(v2 == combined(v, d2));
    lemma_looked_at_alike(calculators, v, d1, second, second_ocid);
    lemma_looked_at_alike(calculators, v, d2, first, first_ocid);
    assert(nothing(d1) == z);
    assert(nothing(d2) == z);
    lemma_combined_nothing(d1);
    lemma_combined_nothing(d2);
    lemma_looked_at_alike(calculators, d1, z, second, second_ocid);
    lemma_looked_at_alike(calculators, d2, z, first, first_ocid);
    assert(looked_at(calculators, d1, second, second_ocid) == combined(d1, d2));
    assert(looked_at(calculators, d2, first, first_ocid) == combined(d2, d1));
    lemma_combined_commutes(d1, d2, first_ocid, second_ocid);
    lemma_next_looked_at(calculators, v, first, first_ocid);
    lemma_next_looked_at(calculators, v, second, second_ocid);
    lemma_next_looked_at(calculators, v1, second, second_ocid);
    lemma_next_looked_at(calculators, v2, first, first_ocid);
}

} // verus!
