//! The indicators that the settings enable, run over the contracting processes of a file: each
//! release is folded into a state, and states are reduced into one, from which results are
//! finalized.
use crate::error::CountOverflow;
use crate::indicators::count::{count_sum, counts_bounded};
use crate::indicators::fraction::{bounded, mediants};
use crate::indicators::r025::lemma_r025_order;
use crate::indicators::r038::{lemma_r038_order, r038_state};
use crate::indicators::r048::{lemma_r048_order, supplies_bounded, supplies_sum};
use crate::indicators::util::currencies_agree;
use crate::indicators::{
    currency_view, r003, r018, r025, r028, r030, r035, r036, r038, r044, r048, r055, util, Indicators,
    IndicatorsView, MapsView, Settings,
};
use crate::indicators::results::Results;
use crate::json::{equals, Json};
use crate::sets::StrSet;
use crate::text::{parse_pipe_separated_value, pipe_set};
use vstd::prelude::*;

verus! {

/// Whether a release is left out of all indicators: its tender's status is "cancelled", or its
/// tender's procurement method details are among the exclusions.
pub open spec fn excluded(release: Json, exclusions: Set<Seq<char>>) -> bool {
    match release.field("tender"@) {
        Some(tender) => tender.string_field("status"@) == Some("cancelled"@) || match tender.string_field(
            "procurementMethodDetails"@,
        ) {
            Some(details) => exclusions.contains(details),
            None => false,
        },
        None => false,
    }
}

/// The set of pieces of an optional pipe-separated setting.
pub open spec fn pipe_setting(value: Option<String>) -> Set<Seq<char>> {
    pipe_set(
        match value {
            Some(v) => Some(v@),
            None => None,
        },
    )
}

/// The indicators that the settings enable, each with what it read from the settings.
pub struct Calculators {
    pub r003: Option<r003::R003>,
    pub r018: Option<r018::R018>,
    pub r025: Option<r025::R025>,
    pub r028: Option<r028::R028>,
    pub r030: Option<r030::R030>,
    pub r035: Option<r035::R035>,
    pub r036: Option<r036::R036>,
    pub r038: Option<r038::R038>,
    pub r044: Option<r044::R044>,
    pub r048: Option<r048::R048>,
    pub r055: Option<r055::R055>,
    /// The winning and second-lowest bids, which R024 and R058 compare.
    pub second_lowest_bid_ratio: Option<util::SecondLowestBidRatio>,
    /// The tenderers of each contracting process, when mapping is on.
    pub tenderers: Option<util::Tenderers>,
    /// The procurement method details of the contracting processes to leave out.
    pub exclusions: StrSet,
}

impl Calculators {
    pub open spec fn wf(&self) -> bool {
        &&& self.exclusions.wf()
        &&& self.r003 matches Some(c) ==> c.wf()
        &&& self.r018 matches Some(c) ==> c.wf()
        &&& self.r028 matches Some(c) ==> c.wf()
        &&& self.second_lowest_bid_ratio matches Some(c) ==> c.wf()
    }

    /// The state after the enabled indicators, in order, look at a release of the contracting
    /// process `ocid`; nothing if a count would not fit in `usize`.
    pub open spec fn next(&self, v: IndicatorsView, release: Json, ocid: Seq<char>) -> Option<
        IndicatorsView,
    > {
        let v = match self.r003 {
            Some(c) => c.next(v, release, ocid),
            None => v,
        };
        let v = match self.r018 {
            Some(c) => c.next(v, release, ocid),
            None => v,
        };
        if self.r025 matches Some(c) && !c.fits(v, release) {
            None
        } else {
            let v = match self.r025 {
                Some(c) => c.next(v, release),
                None => v,
            };
            let v = match self.r028 {
                Some(c) => c.next(v, release, ocid),
                None => v,
            };
            let v = match self.r030 {
                Some(c) => c.next(v, release, ocid),
                None => v,
            };
            let v = match self.r035 {
                Some(c) => c.next(v, release, ocid),
                None => v,
            };
            let v = match self.r036 {
                Some(c) => c.next(v, release, ocid),
                None => v,
            };
            if self.r038 matches Some(c) && !c.fits(v, release) {
                None
            } else {
                let v = match self.r038 {
                    Some(c) => c.next(v, release),
                    None => v,
                };
                let v = match self.r044 {
                    Some(c) => c.next(v, release, ocid),
                    None => v,
                };
                if self.r048 matches Some(c) && !c.fits(v, release) {
                    None
                } else {
                    let v = match self.r048 {
                        Some(c) => c.next(v, release),
                        None => v,
                    };
                    let v = match self.r055 {
                        Some(c) => c.next(v, release, ocid),
                        None => v,
                    };
                    let v = match self.second_lowest_bid_ratio {
                        Some(c) => c.next(v, release, ocid),
                        None => v,
                    };
                    let v = match self.tenderers {
                        Some(c) => c.next(v, release, ocid),
                        None => v,
                    };
                    Some(v)
                }
            }
        }
    }

    /// Reads the settings and enables the indicators whose sections are present; the winning and
    /// second-lowest bids are gathered if R024 or R058 is enabled, and the tenderers of each
    /// contracting process if mapping is on. The sections of the indicators that read them here
    /// are taken out of the settings. R055's period ends, unless set, on `today`, counted in days
    /// from the first day of the common era.
    #[verifier::rlimit(50)]
    pub fn new(settings: &mut Settings, map: bool, today: i32) -> (r: Self)
        requires
            today >= i32::MIN + 365,
            old(settings).R003 matches Some(section) ==> section.procurement_method_details matches Some(
                t,
            ) ==> t.wf(),
        ensures
            r.wf(),
            r.r003 is Some <==> old(settings).R003 is Some,
            r.r018 is Some <==> old(settings).R018 is Some,
            r.r025 is Some <==> old(settings).R025 is Some,
            r.r028 is Some <==> old(settings).R028 is Some,
            r.r030 is Some <==> old(settings).R030 is Some,
            r.r035 is Some <==> old(settings).R035 is Some,
            r.r036 is Some <==> old(settings).R036 is Some,
            r.r038 is Some <==> old(settings).R038 is Some,
            r.r044 is Some <==> old(settings).R044 is Some,
            r.r048 is Some <==> old(settings).R048 is Some,
            r.r055 is Some <==> old(settings).R055 is Some,
            r.second_lowest_bid_ratio is Some <==> (old(settings).R024 is Some || old(
                settings,
            ).R058 is Some),
            r.tenderers is Some <==> map,
            r.exclusions@ == match old(settings).exclusions {
                Some(e) => pipe_set(
                    match e.procurement_method_details {
                        Some(d) => Some(d@),
                        None => None,
                    },
                ),
                None => Set::empty(),
            },
            r.r003 matches Some(c) ==> c.threshold() == match old(settings).R003 {
                Some(section) => match section.threshold {
                    Some(t) => t,
                    None => 15,
                },
                None => 15,
            },
            r.r035 matches Some(c) ==> c.threshold() == match old(settings).R035 {
                Some(section) => match section.threshold {
                    Some(t) => if t >= 1 {
                        t as nat
                    } else {
                        1
                    },
                    None => 1,
                },
                None => 1,
            },
            r.r048 matches Some(c) ==> c.digits() == match old(settings).R048 {
                Some(section) => match section.digits {
                    Some(d) => d as nat,
                    None => 2,
                },
                None => 2,
            },
            r.r003 matches Some(c) ==> c.methods() == match old(settings).R003 {
                Some(section) => pipe_setting(section.procurement_methods),
                None => Set::empty(),
            },
            r.r003 matches Some(c) ==> c.thresholds() == match old(settings).R003 {
                Some(section) => match section.procurement_method_details {
                    Some(t) => t@,
                    None => Map::empty(),
                },
                None => Map::empty(),
            },
            r.r018 matches Some(c) ==> c.methods() == pipe_set(
                Some(
                    match old(settings).R018 {
                        Some(section) => match section.procurement_methods {
                            Some(m) => m@,
                            None => "open|selective"@,
                        },
                        None => "open|selective"@,
                    },
                ),
            ),
            r.r028 matches Some(c) ==> c.price() == pipe_setting(
                old(settings).price_comparison_procurement_methods,
            ) && c.no_price() == pipe_setting(old(settings).no_price_comparison_procurement_methods),
            r.r036 matches Some(c) ==> c.default_currency() == currency_view(old(settings).currency),
            r.r038 matches Some(c) ==> c.minimum_bids() == match old(settings).R038 {
                Some(section) => match section.minimum_submitted_bids {
                    Some(m) => m as nat,
                    None => 2,
                },
                None => 2,
            } && c.minimum_processes() == match old(settings).R038 {
                Some(section) => match section.minimum_contracting_processes {
                    Some(m) => m as nat,
                    None => 2,
                },
                None => 2,
            },
            r.r048 matches Some(c) ==> c.threshold() == match old(settings).R048 {
                Some(section) => section.threshold,
                None => None,
            } && c.minimum() == match old(settings).R048 {
                Some(section) => match section.minimum_contracting_processes {
                    Some(m) => m as nat,
                    None => 20,
                },
                None => 20,
            },
            r.r055 matches Some(c) ==> c.default_currency() == currency_view(old(settings).currency)
                && c.start() == match old(settings).R055 {
                Some(section) => match section.start_date {
                    Some(d) => d as int,
                    None => today - 365,
                },
                None => today - 365,
            } && c.end() == match old(settings).R055 {
                Some(section) => match section.end_date {
                    Some(d) => d as int,
                    None => today as int,
                },
                None => today as int,
            },
            r.second_lowest_bid_ratio matches Some(c) ==> c.price() == pipe_setting(
                old(settings).price_comparison_procurement_methods,
            ) && c.no_price() == pipe_setting(old(settings).no_price_comparison_procurement_methods)
                && c.default_currency() == currency_view(old(settings).currency),
            *final(settings) == (Settings {
                R003: None,
                R018: None,
                R025: None,
                R035: None,
                R038: None,
                R048: None,
                R055: None,
                ..*old(settings)
            }),
    {
        let exclusions = match &settings.exclusions {
            Some(e) => parse_pipe_separated_value(
                match &e.procurement_method_details {
                    Some(d) => Some(d.clone()),
                    None => None,
                },
            ),
            None => StrSet::new(),
        };
        let gather_bids = settings.R024.is_some() || settings.R058.is_some();
        let r003 = if settings.R003.is_some() {
            Some(r003::R003::new(settings))
        } else {
            None
        };
        let r018 = if settings.R018.is_some() {
            Some(r018::R018::new(settings))
        } else {
            None
        };
        let r025 = if settings.R025.is_some() {
            Some(r025::R025::new(settings))
        } else {
            None
        };
        let r028 = if settings.R028.is_some() {
            Some(r028::R028::new(settings))
        } else {
            None
        };
        let r030 = if settings.R030.is_some() {
            Some(r030::R030::new(settings))
        } else {
            None
        };
        let r035 = if settings.R035.is_some() {
            Some(r035::R035::new(settings))
        } else {
            None
        };
        let r036 = if settings.R036.is_some() {
            Some(r036::R036::new(settings))
        } else {
            None
        };
        let r038 = if settings.R038.is_some() {
            Some(r038::R038::new(settings))
        } else {
            None
        };
        let r044 = if settings.R044.is_some() {
            Some(r044::R044::new(settings))
        } else {
            None
        };
        let r048 = if settings.R048.is_some() {
            Some(r048::R048::new(settings))
        } else {
            None
        };
        let r055 = if settings.R055.is_some() {
            Some(r055::R055::new(settings, today))
        } else {
            None
        };
        let second_lowest_bid_ratio = if gather_bids {
            Some(util::SecondLowestBidRatio::new(settings))
        } else {
            None
        };
        let tenderers = if map {
            Some(util::Tenderers::new(settings))
        } else {
            None
        };
        Calculators {
            r003,
            r018,
            r025,
            r028,
            r030,
            r035,
            r036,
            r038,
            r044,
            r048,
            r055,
            second_lowest_bid_ratio,
            tenderers,
            exclusions,
        }
    }

    /// Whether a release is left out of all indicators.
    pub fn is_excluded(&self, release: &Json) -> (b: bool)
        requires
            self.wf(),
        ensures
            b == excluded(*release, self.exclusions@),
    {
        match release.get("tender") {
            Some(tender) => {
                let cancelled = match tender.get_string("status") {
                    Some(status) => equals(status.as_str(), "cancelled"),
                    None => false,
                };
                cancelled || match tender.get_string("procurementMethodDetails") {
                    Some(details) => self.exclusions.contains(details.as_str()),
                    None => false,
                }
            },
            None => false,
        }
    }

    /// Folds a release into the state: the enabled indicators look at it in order, unless its
    /// `ocid` is not a string or it is excluded. Identifiers that already had outputs keep their
    /// places, first. Fails, leaving the state unspecified, exactly
    /// when a count would not fit in `usize`.
    #[verifier::rlimit(80)]
    #[verifier::spinoff_prover]
    pub fn fold(&self, item: &mut Indicators, release: &Json) -> (r: Result<(), CountOverflow>)
        requires
            self.wf(),
            old(item).wf(),
        ensures
            final(item).wf(),
            final(item).results.extends(old(item).results),
            match release.string_field("ocid"@) {
                Some(ocid) => if excluded(*release, self.exclusions@) {
                    r is Ok && final(item)@ == old(item)@
                } else {
                    &&& (r is Ok <==> self.next(old(item)@, *release, ocid) is Some)
                    &&& (r is Ok ==> final(item)@ == self.next(old(item)@, *release, ocid)->Some_0)
                },
                None => r is Ok && final(item)@ == old(item)@,
            },
    {
        let ocid = match release.get_string("ocid") {
            Some(ocid) => ocid.as_str(),
            None => {
                return Ok(());
            },
        };
        if self.is_excluded(release) {
            return Ok(());
        }
        if let Some(c) = &self.r003 {
            let ghost prior = item.results;
            c.fold(item, release, ocid);
            proof {
                Results::lemma_extends_trans(old(item).results, prior, item.results);
            }
        }
        if let Some(c) = &self.r018 {
            let ghost prior = item.results;
            c.fold(item, release, ocid);
            proof {
                Results::lemma_extends_trans(old(item).results, prior, item.results);
            }
        }
        if let Some(c) = &self.r025 {
            let ghost prior = item.results;
            let r = c.fold(item, release, ocid);
            proof {
                Results::lemma_extends_trans(old(item).results, prior, item.results);
            }
            r?;
        }
        if let Some(c) = &self.r028 {
            let ghost prior = item.results;
            c.fold(item, release, ocid);
            proof {
                Results::lemma_extends_trans(old(item).results, prior, item.results);
            }
        }
        if let Some(c) = &self.r030 {
            let ghost prior = item.results;
            c.fold(item, release, ocid);
            proof {
                Results::lemma_extends_trans(old(item).results, prior, item.results);
            }
        }
        if let Some(c) = &self.r035 {
            let ghost prior = item.results;
            c.fold(item, release, ocid);
            proof {
                Results::lemma_extends_trans(old(item).results, prior, item.results);
            }
        }
        if let Some(c) = &self.r036 {
            let ghost prior = item.results;
            c.fold(item, release, ocid);
            proof {
                Results::lemma_extends_trans(old(item).results, prior, item.results);
            }
        }
        if let Some(c) = &self.r038 {
            let ghost prior = item.results;
            let r = c.fold(item, release, ocid);
            proof {
                Results::lemma_extends_trans(old(item).results, prior, item.results);
            }
            r?;
        }
        if let Some(c) = &self.r044 {
            let ghost prior = item.results;
            c.fold(item, release, ocid);
            proof {
                Results::lemma_extends_trans(old(item).results, prior, item.results);
            }
        }
        if let Some(c) = &self.r048 {
            let ghost prior = item.results;
            let r = c.fold(item, release, ocid);
            proof {
                Results::lemma_extends_trans(old(item).results, prior, item.results);
            }
            r?;
        }
        if let Some(c) = &self.r055 {
            let ghost prior = item.results;
            c.fold(item, release, ocid);
            proof {
                Results::lemma_extends_trans(old(item).results, prior, item.results);
            }
        }
        if let Some(c) = &self.second_lowest_bid_ratio {
            let ghost prior = item.results;
            c.fold(item, release, ocid);
            proof {
                Results::lemma_extends_trans(old(item).results, prior, item.results);
            }
        }
        if let Some(c) = &self.tenderers {
            let ghost prior = item.results;
            c.fold(item, release, ocid);
            proof {
                Results::lemma_extends_trans(old(item).results, prior, item.results);
            }
        }
        Ok(())
    }

    /// Whether the counts of two states taken together fit in `usize`.
    pub open spec fn reduce_fits(&self, a: IndicatorsView, b: IndicatorsView) -> bool {
        &&& self.r025 is Some ==> bounded(mediants(a.r025_tenderer, b.r025_tenderer))
        &&& self.r038 is Some ==> bounded(mediants(a.r038_buyer, b.r038_buyer)) && bounded(
            mediants(a.r038_procuring_entity, b.r038_procuring_entity),
        ) && bounded(mediants(a.r038_tenderer, b.r038_tenderer)) && counts_bounded(
            count_sum(a.r038_buyer_processes, b.r038_buyer_processes),
        ) && counts_bounded(
            count_sum(a.r038_procuring_entity_processes, b.r038_procuring_entity_processes),
        ) && counts_bounded(count_sum(a.r038_tenderer_processes, b.r038_tenderer_processes))
        &&& self.r048 is Some ==> supplies_bounded(
            supplies_sum(a.r048_classifications, b.r048_classifications),
        )
    }

    /// Two states taken together. Results unite, the other's kept where both have one; the
    /// enabled indicators' ratios add up by mediant, counts and supplies add up, bids unite if the
    /// currencies agree, and mappings unite if mapping is on. The amounts that R055 gathers stay
    /// those of this state: they are summed where results are finalized.
    pub open spec fn reduced(&self, a: IndicatorsView, b: IndicatorsView) -> IndicatorsView {
        IndicatorsView {
            results: a.results.union_prefer_right(b.results),
            maps: MapsView {
                ocid_tenderer: if a.map && self.tenderers is Some {
                    a.maps.ocid_tenderer.union_prefer_right(b.maps.ocid_tenderer)
                } else {
                    a.maps.ocid_tenderer
                },
                ocid_tenderer_r028: if a.map && self.r028 is Some {
                    a.maps.ocid_tenderer_r028.union_prefer_right(b.maps.ocid_tenderer_r028)
                } else {
                    a.maps.ocid_tenderer_r028
                },
                ocid_tenderer_r030: if a.map && self.r030 is Some {
                    a.maps.ocid_tenderer_r030.union_prefer_right(b.maps.ocid_tenderer_r030)
                } else {
                    a.maps.ocid_tenderer_r030
                },
                ocid_tenderer_r035: if a.map && self.r035 is Some {
                    a.maps.ocid_tenderer_r035.union_prefer_right(b.maps.ocid_tenderer_r035)
                } else {
                    a.maps.ocid_tenderer_r035
                },
                ..a.maps
            },
            lowest_bids: if self.second_lowest_bid_ratio is Some && currencies_agree(
                a.currency,
                b.currency,
            ) {
                a.lowest_bids.union_prefer_right(b.lowest_bids)
            } else {
                a.lowest_bids
            },
            r025_tenderer: if self.r025 is Some {
                mediants(a.r025_tenderer, b.r025_tenderer)
            } else {
                a.r025_tenderer
            },
            r038_buyer: if self.r038 is Some {
                mediants(a.r038_buyer, b.r038_buyer)
            } else {
                a.r038_buyer
            },
            r038_procuring_entity: if self.r038 is Some {
                mediants(a.r038_procuring_entity, b.r038_procuring_entity)
            } else {
                a.r038_procuring_entity
            },
            r038_tenderer: if self.r038 is Some {
                mediants(a.r038_tenderer, b.r038_tenderer)
            } else {
                a.r038_tenderer
            },
            r038_buyer_processes: if self.r038 is Some {
                count_sum(a.r038_buyer_processes, b.r038_buyer_processes)
            } else {
                a.r038_buyer_processes
            },
            r038_procuring_entity_processes: if self.r038 is Some {
                count_sum(a.r038_procuring_entity_processes, b.r038_procuring_entity_processes)
            } else {
                a.r038_procuring_entity_processes
            },
            r038_tenderer_processes: if self.r038 is Some {
                count_sum(a.r038_tenderer_processes, b.r038_tenderer_processes)
            } else {
                a.r038_tenderer_processes
            },
            r048_classifications: if self.r048 is Some {
                supplies_sum(a.r048_classifications, b.r048_classifications)
            } else {
                a.r048_classifications
            },
            ..a
        }
    }

    /// Reduces the other state into this one, which the enabled indicators reduce in turn.
    /// Identifiers that already had outputs keep their places, first.
    /// Fails, leaving the state unspecified, exactly when a count would not fit in `usize`.
    #[verifier::rlimit(80)]
    #[verifier::spinoff_prover]
    pub fn reduce(&self, item: &mut Indicators, other: &mut Indicators) -> (r: Result<(), CountOverflow>)
        requires
            self.wf(),
            old(item).wf(),
            old(other).wf(),
        ensures
            final(item).wf(),
            final(item).results.extends(old(item).results),
            r is Ok <==> self.reduce_fits(old(item)@, old(other)@),
            r is Ok ==> final(item)@ == self.reduced(old(item)@, old(other)@),
    {
        item.results.merge(&other.results);
        if let Some(c) = &self.r025 {
            c.reduce(item, other)?;
        }
        if let Some(c) = &self.r038 {
            c.reduce(item, other)?;
        }
        if let Some(c) = &self.r048 {
            c.reduce(item, other)?;
        }
        if let Some(c) = &self.second_lowest_bid_ratio {
            c.reduce(item, other);
        }
        if let Some(c) = &self.r028 {
            c.reduce(item, other);
        }
        if let Some(c) = &self.r030 {
            c.reduce(item, other);
        }
        if let Some(c) = &self.r035 {
            c.reduce(item, other);
        }
        if let Some(c) = &self.tenderers {
            c.reduce(item, other);
        }
        Ok(())
    }
}

/// A raised flag is never lowered: folding a release into a state, and reducing another state
/// into it, keep every result that it holds.
pub proof fn lemma_flags_stay_raised(
    calculators: Calculators,
    v: IndicatorsView,
    w: IndicatorsView,
    release: Json,
    ocid: Seq<char>,
)
    ensures
        calculators.next(v, release, ocid) matches Some(n) ==> v.results.dom().subset_of(
            n.results.dom(),
        ),
        v.results.dom().subset_of(calculators.reduced(v, w).results.dom()),
{
    if let Some(c) = calculators.r055 {
        c.lemma_keeps_others();
    }
}

/// What the enabled R025, R038 and R048 accumulate after a release: each looks at it in turn, and
/// the other indicators leave what they accumulate as it was.
#[verifier::rlimit(100)]
#[verifier::spinoff_prover]
proof fn lemma_next_accumulates(calculators: Calculators, v: IndicatorsView, release: Json, ocid: Seq<char>)
    ensures
        calculators.next(v, release, ocid) matches Some(n) ==> {
            &&& n.r025_tenderer == match calculators.r025 {
                Some(c) => c.next(v, release).r025_tenderer,
                None => v.r025_tenderer,
            }
            &&& r038_state(n) == match calculators.r038 {
                Some(c) => r038_state(c.next(v, release)),
                None => r038_state(v),
            }
            &&& n.r048_classifications == match calculators.r048 {
                Some(c) => c.next(v, release).r048_classifications,
                None => v.r048_classifications,
            }
        },
{
    let r = release;
    let want025 = match calculators.r025 {
        Some(c) => c.next(v, r).r025_tenderer,
        None => v.r025_tenderer,
    };
    let want038 = match calculators.r038 {
        Some(c) => r038_state(c.next(v, r)),
        None => r038_state(v),
    };
    let want048 = match calculators.r048 {
        Some(c) => c.next(v, r).r048_classifications,
        None => v.r048_classifications,
    };
    let s1 = match calculators.r003 {
        Some(c) => c.next(v, r, ocid),
        None => v,
    };
    let s2 = match calculators.r018 {
        Some(c) => c.next(s1, r, ocid),
        None => s1,
    };
    assert(s2.r025_tenderer == v.r025_tenderer && r038_state(s2) == r038_state(v)
        && s2.r048_classifications == v.r048_classifications);
    if calculators.r025 matches Some(c) && !c.fits(s2, r) {
    } else {
        let s3 = match calculators.r025 {
            Some(c) => c.next(s2, r),
            None => s2,
        };
        assert(s3.r025_tenderer == want025 && r038_state(s3) == r038_state(v)
            && s3.r048_classifications == v.r048_classifications);
        let s4 = match calculators.r028 {
            Some(c) => c.next(s3, r, ocid),
            None => s3,
        };
        let s5 = match calculators.r030 {
            Some(c) => c.next(s4, r, ocid),
            None => s4,
        };
        let s6 = match calculators.r035 {
            Some(c) => c.next(s5, r, ocid),
            None => s5,
        };
        let s7 = match calculators.r036 {
            Some(c) => c.next(s6, r, ocid),
            None => s6,
        };
        assert(s7.r025_tenderer == want025 && r038_state(s7) == r038_state(v)
            && s7.r048_classifications == v.r048_classifications);
        if calculators.r038 matches Some(c) && !c.fits(s7, r) {
        } else {
            let s8 = match calculators.r038 {
                Some(c) => c.next(s7, r),
                None => s7,
            };
            assert(s8.r025_tenderer == want025 && r038_state(s8) == want038
                && s8.r048_classifications == v.r048_classifications);
            let s9 = match calculators.r044 {
                Some(c) => c.next(s8, r, ocid),
                None => s8,
            };
            if calculators.r048 matches Some(c) && !c.fits(s9, r) {
            } else {
                let s10 = match calculators.r048 {
                    Some(c) => c.next(s9, r),
                    None => s9,
                };
                assert(s10.r025_tenderer == want025 && r038_state(s10) == want038
                    && s10.r048_classifications == want048);
                if let Some(c) = calculators.r055 {
                    c.lemma_keeps_others();
                    assert(c.next(s10, r, ocid).r025_tenderer == s10.r025_tenderer);
                }
            }
        }
    }
}

/// The ratios of R025 and R038, the counts of R038 and the supplies of R048 do not depend on the
/// order of the contracting processes, nor on how they are split among states: looking at two
/// releases in either order accumulates the same, and so does looking at a release before or
/// after reducing another state, wherever both fit in `usize`.
pub proof fn lemma_accumulations_order(
    calculators: Calculators,
    v: IndicatorsView,
    w: IndicatorsView,
    first: Json,
    first_ocid: Seq<char>,
    second: Json,
    second_ocid: Seq<char>,
)
    ensures
        calculators.next(v, first, first_ocid) matches Some(v1) ==> calculators.next(
            calculators.reduced(v, w),
            first,
            first_ocid,
        ) matches Some(b) ==> {
            let a = calculators.reduced(v1, w);
            &&& a.r025_tenderer == b.r025_tenderer
            &&& r038_state(a) == r038_state(b)
            &&& a.r048_classifications == b.r048_classifications
        },
        calculators.next(v, first, first_ocid) matches Some(v1) ==> calculators.next(
            v1,
            second,
            second_ocid,
        ) matches Some(a) ==> calculators.next(v, second, second_ocid) matches Some(v2)
            ==> calculators.next(v2, first, first_ocid) matches Some(b) ==> {
            &&& a.r025_tenderer == b.r025_tenderer
            &&& r038_state(a) == r038_state(b)
            &&& a.r048_classifications == b.r048_classifications
        },
{
    if let Some(v1) = calculators.next(v, first, first_ocid) {
        lemma_next_accumulates(calculators, v, first, first_ocid);
        lemma_next_accumulates(calculators, calculators.reduced(v, w), first, first_ocid);
        if let Some(c) = calculators.r025 {
            lemma_r025_order(c, v, w.r025_tenderer, first, second);
        }
        if let Some(c) = calculators.r038 {
            lemma_r038_order(c, v, w, first, second);
        }
        if let Some(c) = calculators.r048 {
            lemma_r048_order(c, v, w.r048_classifications, first, second);
        }
        if let Some(v2) = calculators.next(v, second, second_ocid) {
            lemma_next_accumulates(calculators, v, first, first_ocid);
            lemma_next_accumulates(calculators, v, second, second_ocid);
            lemma_next_accumulates(calculators, v1, second, second_ocid);
            lemma_next_accumulates(calculators, v2, first, first_ocid);
            if let Some(c) = calculators.r025 {
                lemma_r025_order(c, v, Map::empty(), first, second);
            }
            if let Some(c) = calculators.r038 {
                lemma_r038_order(c, v, v, first, second);
            }
            if let Some(c) = calculators.r048 {
                lemma_r048_order(c, v, Map::empty(), first, second);
            }
        }
    }
}

} // verus!
