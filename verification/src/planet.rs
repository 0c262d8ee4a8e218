//! The public shape of a catalog body and its physical details, and the
//! conversions from persisted rows.

use vstd::prelude::*;

use crate::codec::{dec_wf, int_wf, CustomBigDecimal, CustomBigInt, DecModel, IntModel};
use crate::persistence::{DetailsEntity, DetailsEntityModel, PlanetEntity, PlanetEntityModel};

verus! {

// ---------------------------------------------------------------------------
// Physical-type classification
// ---------------------------------------------------------------------------

/// Immutable physical classification of a body, from an astronomical point of
/// view.
#[derive(Clone, Copy, Debug, PartialEq, Eq, Structural)]
pub enum PlanetType {
    TerrestrialPlanet,
    GasGiant,
    IceGiant,
    DwarfPlanet,
}

pub open spec fn spec_type_name(t: PlanetType) -> Seq<char> {
    match t {
        PlanetType::TerrestrialPlanet => "TerrestrialPlanet"@,
        PlanetType::GasGiant => "GasGiant"@,
        PlanetType::IceGiant => "IceGiant"@,
        PlanetType::DwarfPlanet => "DwarfPlanet"@,
    }
}

pub open spec fn spec_type_of_name(s: Seq<char>) -> Option<PlanetType> {
    if s == spec_type_name(PlanetType::TerrestrialPlanet) {
        Some(PlanetType::TerrestrialPlanet)
    } else if s == spec_type_name(PlanetType::GasGiant) {
        Some(PlanetType::GasGiant)
    } else if s == spec_type_name(PlanetType::IceGiant) {
        Some(PlanetType::IceGiant)
    } else if s == spec_type_name(PlanetType::DwarfPlanet) {
        Some(PlanetType::DwarfPlanet)
    } else {
        None
    }
}

/// Character-by-character string comparison.
fn str_eq_chars(a: &str, b: &str) -> (r: bool)
    ensures
        r == (a@ == b@),
{
    let n = a.unicode_len();
    let m = b.unicode_len();
    if n != m {
        return false;
    }
    let mut i: usize = 0;
    while i < n
        invariant
            0 <= i <= n,
            n == a@.len(),
            n == b@.len(),
            forall|j: int| 0 <= j < i ==> a@[j] == b@[j],
        decreases n - i,
    {
        if a.get_char(i) != b.get_char(i) {
            return false;
        }
        i += 1;
    }
    proof {
        assert(a@ =~= b@);
    }
    true
}

impl PlanetType {
    /// The storage name of the classification.
    pub fn as_str(&self) -> (r: &'static str)
        ensures
            r@ == spec_type_name(*self),
    {
        match self {
            PlanetType::TerrestrialPlanet => "TerrestrialPlanet",
            PlanetType::GasGiant => "GasGiant",
            PlanetType::IceGiant => "IceGiant",
            PlanetType::DwarfPlanet => "DwarfPlanet",
        }
    }

    /// Recover a classification from its storage name.
    pub fn from_str(s: &str) -> (r: Option<PlanetType>)
        ensures
            r == spec_type_of_name(s@),
    {
        if str_eq_chars(s, "TerrestrialPlanet") {
            Some(PlanetType::TerrestrialPlanet)
        } else if str_eq_chars(s, "GasGiant") {
            Some(PlanetType::GasGiant)
        } else if str_eq_chars(s, "IceGiant") {
            Some(PlanetType::IceGiant)
        } else if str_eq_chars(s, "DwarfPlanet") {
            Some(PlanetType::DwarfPlanet)
        } else {
            None
        }
    }
}

/// Every classification's storage name maps back to that classification.
pub proof fn lemma_planet_type_name_round_trip(t: PlanetType)
    ensures
        spec_type_of_name(spec_type_name(t)) == Some(t),
{
    reveal_strlit("TerrestrialPlanet");
    reveal_strlit("GasGiant");
    reveal_strlit("IceGiant");
    reveal_strlit("DwarfPlanet");
    assert(("TerrestrialPlanet"@).len() == 17);
    assert(("GasGiant"@).len() == 8);
    assert(("IceGiant"@).len() == 8);
    assert(("DwarfPlanet"@).len() == 11);
    assert(("GasGiant"@)[0] == 'G');
    assert(("IceGiant"@)[0] == 'I');
    match t {
        PlanetType::TerrestrialPlanet => {
        },
        PlanetType::GasGiant => {
            assert(spec_type_name(t) != spec_type_name(PlanetType::TerrestrialPlanet));
        },
        PlanetType::IceGiant => {
            assert(spec_type_name(t) != spec_type_name(PlanetType::TerrestrialPlanet));
            assert(spec_type_name(t) != spec_type_name(PlanetType::GasGiant));
        },
        PlanetType::DwarfPlanet => {
            assert(spec_type_name(t) != spec_type_name(PlanetType::TerrestrialPlanet));
            assert(spec_type_name(t) != spec_type_name(PlanetType::GasGiant));
            assert(spec_type_name(t) != spec_type_name(PlanetType::IceGiant));
        },
    }
}

// ---------------------------------------------------------------------------
// Bodies
// ---------------------------------------------------------------------------

/// Mathematical shape of a body.
#[verifier::ext_equal]
pub struct PlanetModel {
    pub id: i32,
    pub name: Seq<char>,
    pub planet_type: PlanetType,
}

/// A catalog body, assembled from a persisted row; immutable once constructed.
#[derive(Debug)]
pub struct Planet {
    pub id: i32,
    pub name: String,
    pub planet_type: PlanetType,
}

impl View for Planet {
    type V = PlanetModel;

    open spec fn view(&self) -> PlanetModel {
        PlanetModel { id: self.id, name: self.name@, planet_type: self.planet_type }
    }
}

pub open spec fn spec_planet_of_entity(e: PlanetEntityModel) -> PlanetModel {
    PlanetModel { id: e.id, name: e.name, planet_type: e.planet_type }
}

impl Planet {
    /// Assemble the public shape of a persisted row.
    pub fn from_entity(e: &PlanetEntity) -> (r: Planet)
        ensures
            r@ == spec_planet_of_entity(e@),
    {
        Planet { id: e.id, name: e.name.clone(), planet_type: e.planet_type }
    }

    /// A structural copy.
    pub fn duplicate(&self) -> (r: Planet)
        ensures
            r@ == self@,
    {
        Planet { id: self.id, name: self.name.clone(), planet_type: self.planet_type }
    }

    pub fn id(&self) -> (r: i32)
        ensures
            r == self@.id,
    {
        self.id
    }

    pub fn name(&self) -> (r: &String)
        ensures
            r@ == self@.name,
    {
        &self.name
    }

    pub fn planet_type(&self) -> (r: PlanetType)
        ensures
            r == self@.planet_type,
    {
        self.planet_type
    }

    /// Deprecated field kept for wire compatibility: now it is not in doubt.
    pub fn is_rotating_around_sun(&self) -> (r: bool)
        ensures
            r,
    {
        true
    }
}

// ---------------------------------------------------------------------------
// Details
// ---------------------------------------------------------------------------

/// Physical attributes of an inhabited body; the population is in billions.
#[derive(Debug)]
pub struct InhabitedPlanetDetails {
    pub mean_radius: CustomBigDecimal,
    pub mass: CustomBigInt,
    pub population: CustomBigDecimal,
}

/// Physical attributes of an uninhabited body.
#[derive(Debug)]
pub struct UninhabitedPlanetDetails {
    pub mean_radius: CustomBigDecimal,
    pub mass: CustomBigInt,
}

/// The physical-attribute record attached to a body: a closed variant over
/// two shapes, selected by whether a population figure exists.
#[derive(Debug)]
pub enum Details {
    InhabitedPlanetDetails(InhabitedPlanetDetails),
    UninhabitedPlanetDetails(UninhabitedPlanetDetails),
}

/// Mathematical shape of a details record.
#[verifier::ext_equal]
pub enum DetailsModel {
    Inhabited { mean_radius: DecModel, mass: IntModel, population: DecModel },
    Uninhabited { mean_radius: DecModel, mass: IntModel },
}

impl View for Details {
    type V = DetailsModel;

    open spec fn view(&self) -> DetailsModel {
        match self {
            Details::InhabitedPlanetDetails(d) => DetailsModel::Inhabited {
                mean_radius: d.mean_radius@,
                mass: d.mass@,
                population: d.population@,
            },
            Details::UninhabitedPlanetDetails(d) => DetailsModel::Uninhabited {
                mean_radius: d.mean_radius@,
                mass: d.mass@,
            },
        }
    }
}

pub open spec fn details_wf(m: DetailsModel) -> bool {
    match m {
        DetailsModel::Inhabited { mean_radius, mass, population } => dec_wf(mean_radius) && int_wf(
            mass,
        ) && dec_wf(population),
        DetailsModel::Uninhabited { mean_radius, mass } => dec_wf(mean_radius) && int_wf(mass),
    }
}

/// The details a persisted row denotes: the presence of a population value is
/// the sole discriminant between the two variants.
pub open spec fn spec_details_of_entity(e: DetailsEntityModel) -> DetailsModel {
    match e.population {
        Some(p) => DetailsModel::Inhabited {
            mean_radius: e.mean_radius,
            mass: e.mass,
            population: p,
        },
        None => DetailsModel::Uninhabited { mean_radius: e.mean_radius, mass: e.mass },
    }
}

impl Details {
    /// Derive the variant from a persisted detail row: a present population
    /// yields the inhabited shape, an absent one the uninhabited shape.
    pub fn from_entity(e: &DetailsEntity) -> (r: Details)
        ensures
            r@ == spec_details_of_entity(e@),
    {
        match &e.population {
            Some(p) => Details::InhabitedPlanetDetails(
                InhabitedPlanetDetails {
                    mean_radius: e.mean_radius.duplicate(),
                    mass: e.mass.duplicate(),
                    population: p.duplicate(),
                },
            ),
            None => Details::UninhabitedPlanetDetails(
                UninhabitedPlanetDetails {
                    mean_radius: e.mean_radius.duplicate(),
                    mass: e.mass.duplicate(),
                },
            ),
        }
    }

    /// A structural copy.
    pub fn duplicate(&self) -> (r: Details)
        ensures
            r@ == self@,
    {
        match self {
            Details::InhabitedPlanetDetails(d) => Details::InhabitedPlanetDetails(
                InhabitedPlanetDetails {
                    mean_radius: d.mean_radius.duplicate(),
                    mass: d.mass.duplicate(),
                    population: d.population.duplicate(),
                },
            ),
            Details::UninhabitedPlanetDetails(d) => Details::UninhabitedPlanetDetails(
                UninhabitedPlanetDetails {
                    mean_radius: d.mean_radius.duplicate(),
                    mass: d.mass.duplicate(),
                },
            ),
        }
    }

    /// The mean radius, common to both variants.
    pub fn mean_radius(&self) -> (r: &CustomBigDecimal)
        ensures
            r@ == (match self@ {
                DetailsModel::Inhabited { mean_radius, .. } => mean_radius,
                DetailsModel::Uninhabited { mean_radius, .. } => mean_radius,
            }),
    {
        match self {
            Details::InhabitedPlanetDetails(d) => &d.mean_radius,
            Details::UninhabitedPlanetDetails(d) => &d.mean_radius,
        }
    }

    /// The mass, common to both variants.
    pub fn mass(&self) -> (r: &CustomBigInt)
        ensures
            r@ == (match self@ {
                DetailsModel::Inhabited { mass, .. } => mass,
                DetailsModel::Uninhabited { mass, .. } => mass,
            }),
    {
        match self {
            Details::InhabitedPlanetDetails(d) => &d.mass,
            Details::UninhabitedPlanetDetails(d) => &d.mass,
        }
    }
}

} // verus!
