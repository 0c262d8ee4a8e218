//! The persistence gateway: row types and an in-memory catalog that serves
//! the row-level contract the resolvers and the batched loader are verified
//! against (`all`, `get`, `get_details`, `batch_get_details`, `create`).

use vstd::prelude::*;

use crate::codec::{dec_wf, int_wf, CustomBigDecimal, CustomBigInt, DecModel, IntModel};
use crate::planet::PlanetType;

verus! {

// ---------------------------------------------------------------------------
// Rows
// ---------------------------------------------------------------------------

/// Mathematical shape of a persisted body row.
#[verifier::ext_equal]
pub struct PlanetEntityModel {
    pub id: i32,
    pub name: Seq<char>,
    pub planet_type: PlanetType,
}

/// A persisted body row.
pub struct PlanetEntity {
    pub id: i32,
    pub name: String,
    pub planet_type: PlanetType,
}

impl View for PlanetEntity {
    type V = PlanetEntityModel;

    open spec fn view(&self) -> PlanetEntityModel {
        PlanetEntityModel { id: self.id, name: self.name@, planet_type: self.planet_type }
    }
}

impl PlanetEntity {
    /// A structural copy.
    pub fn duplicate(&self) -> (r: PlanetEntity)
        ensures
            r@ == self@,
    {
        PlanetEntity { id: self.id, name: self.name.clone(), planet_type: self.planet_type }
    }
}

/// A body row awaiting its assigned identifier.
pub struct NewPlanetEntity {
    pub name: String,
    pub planet_type: PlanetType,
}

/// Mathematical shape of a persisted detail row.
#[verifier::ext_equal]
pub struct DetailsEntityModel {
    pub planet_id: i32,
    pub mean_radius: DecModel,
    pub mass: IntModel,
    pub population: Option<DecModel>,
}

/// A persisted detail row; exactly one exists per body.
pub struct DetailsEntity {
    pub planet_id: i32,
    pub mean_radius: CustomBigDecimal,
    pub mass: CustomBigInt,
    pub population: Option<CustomBigDecimal>,
}

impl View for DetailsEntity {
    type V = DetailsEntityModel;

    open spec fn view(&self) -> DetailsEntityModel {
        DetailsEntityModel {
            planet_id: self.planet_id,
            mean_radius: self.mean_radius@,
            mass: self.mass@,
            population: match self.population {
                Some(p) => Some(p@),
                None => None,
            },
        }
    }
}

impl DetailsEntity {
    /// A structural copy.
    pub fn duplicate(&self) -> (r: DetailsEntity)
        ensures
            r@ == self@,
    {
        DetailsEntity {
            planet_id: self.planet_id,
            mean_radius: self.mean_radius.duplicate(),
            mass: self.mass.duplicate(),
            population: match &self.population {
                Some(p) => Some(p.duplicate()),
                None => None,
            },
        }
    }
}

/// A detail row awaiting its body's assigned identifier.
pub struct NewDetailsEntity {
    pub mean_radius: CustomBigDecimal,
    pub mass: CustomBigInt,
    pub population: Option<CustomBigDecimal>,
}

/// Numeric fields of a detail row are well-formed.
pub open spec fn details_entity_wf(m: DetailsEntityModel) -> bool {
    &&& dec_wf(m.mean_radius)
    &&& int_wf(m.mass)
    &&& match m.population {
        Some(p) => dec_wf(p),
        None => true,
    }
}

// ---------------------------------------------------------------------------
// Row lookup
// ---------------------------------------------------------------------------

/// The first body row with the given identifier.
pub open spec fn find_planet(rows: Seq<PlanetEntityModel>, id: i32) -> Option<PlanetEntityModel>
    decreases rows.len(),
{
    if rows.len() == 0 {
        None
    } else if rows[0].id == id {
        Some(rows[0])
    } else {
        find_planet(rows.skip(1), id)
    }
}

/// The first detail row for the given body.
pub open spec fn find_details(rows: Seq<DetailsEntityModel>, id: i32) -> Option<DetailsEntityModel>
    decreases rows.len(),
{
    if rows.len() == 0 {
        None
    } else if rows[0].planet_id == id {
        Some(rows[0])
    } else {
        find_details(rows.skip(1), id)
    }
}

/// A body row appended under a fresh identifier is found under it: what
/// `create` persists, a later lookup returns.
pub proof fn lemma_find_planet_push(rows: Seq<PlanetEntityModel>, row: PlanetEntityModel)
    requires
        forall|i: int| 0 <= i < rows.len() ==> (#[trigger] rows[i]).id != row.id,
    ensures
        find_planet(rows.push(row), row.id) == Some(row),
    decreases rows.len(),
{
    let ext = rows.push(row);
    if rows.len() == 0 {
        assert(ext[0] == row);
    } else {
        assert(ext[0] == rows[0]);
        assert(ext.skip(1) =~= rows.skip(1).push(row));
        assert forall|i: int|
            0 <= i < rows.skip(1).len() implies (#[trigger] rows.skip(1)[i]).id != row.id by {
            assert(rows.skip(1)[i] == rows[i + 1]);
        }
        lemma_find_planet_push(rows.skip(1), row);
    }
}

/// A detail row appended under a fresh identifier is found under it.
pub proof fn lemma_find_details_push(rows: Seq<DetailsEntityModel>, row: DetailsEntityModel)
    requires
        forall|i: int| 0 <= i < rows.len() ==> (#[trigger] rows[i]).planet_id != row.planet_id,
    ensures
        find_details(rows.push(row), row.planet_id) == Some(row),
    decreases rows.len(),
{
    let ext = rows.push(row);
    if rows.len() == 0 {
        assert(ext[0] == row);
    } else {
        assert(ext[0] == rows[0]);
        assert(ext.skip(1) =~= rows.skip(1).push(row));
        assert forall|i: int|
            0 <= i < rows.skip(1).len() implies (#[trigger] rows.skip(1)[i]).planet_id
            != row.planet_id by {
            assert(rows.skip(1)[i] == rows[i + 1]);
        }
        lemma_find_details_push(rows.skip(1), row);
    }
}

/// A found detail row inherits the table's well-formedness.
pub proof fn lemma_find_details_wf(rows: Seq<DetailsEntityModel>, id: i32)
    requires
        forall|i: int| 0 <= i < rows.len() ==> details_entity_wf(#[trigger] rows[i]),
    ensures
        match find_details(rows, id) {
            Some(e) => details_entity_wf(e),
            None => true,
        },
    decreases rows.len(),
{
    if rows.len() > 0 && rows[0].planet_id != id {
        assert forall|i: int|
            0 <= i < rows.skip(1).len() implies details_entity_wf(#[trigger] rows.skip(1)[i]) by {
            assert(rows.skip(1)[i] == rows[i + 1]);
        }
        lemma_find_details_wf(rows.skip(1), id);
    }
}

/// The gateway response to a batched detail lookup: one entry per requested
/// key that has a detail row, in request order.
pub open spec fn spec_batch(rows: Seq<DetailsEntityModel>, keys: Seq<i32>) -> Seq<
    (i32, DetailsEntityModel),
>
    decreases keys.len(),
{
    if keys.len() == 0 {
        Seq::<(i32, DetailsEntityModel)>::empty()
    } else {
        (match find_details(rows, keys[0]) {
            Some(d) => seq![(keys[0], d)],
            None => Seq::<(i32, DetailsEntityModel)>::empty(),
        }) + spec_batch(rows, keys.skip(1))
    }
}

pub open spec fn pairs_view(v: Seq<(i32, DetailsEntity)>) -> Seq<(i32, DetailsEntityModel)> {
    v.map_values(|p: (i32, DetailsEntity)| (p.0, p.1@))
}

/// Splitting a key sequence splits its batch response.
pub proof fn lemma_spec_batch_append(rows: Seq<DetailsEntityModel>, a: Seq<i32>, b: Seq<i32>)
    ensures
        spec_batch(rows, a + b) == spec_batch(rows, a) + spec_batch(rows, b),
    decreases a.len(),
{
    if a.len() == 0 {
        assert(a + b =~= b);
        assert(spec_batch(rows, a) + spec_batch(rows, b) =~= spec_batch(rows, b));
    } else {
        assert((a + b).skip(1) =~= a.skip(1) + b);
        assert((a + b)[0] == a[0]);
        assert((a + b).len() > 0);
        lemma_spec_batch_append(rows, a.skip(1), b);
        assert((match find_details(rows, a[0]) {
            Some(d) => seq![(a[0], d)],
            None => Seq::<(i32, DetailsEntityModel)>::empty(),
        }) + (spec_batch(rows, a.skip(1)) + spec_batch(rows, b)) =~= spec_batch(rows, a)
            + spec_batch(rows, b));
    }
}

// ---------------------------------------------------------------------------
// The in-memory catalog
// ---------------------------------------------------------------------------

/// Mathematical shape of the catalog: the two row tables, the next free
/// identifier, and a count of batched gateway calls.
#[verifier::ext_equal]
pub struct CatalogModel {
    pub planets: Seq<PlanetEntityModel>,
    pub details: Seq<DetailsEntityModel>,
    pub next_id: i32,
    pub batch_calls: u64,
}

/// An in-memory relational store: body rows, detail rows, and an identifier
/// sequence. It also counts its batched detail lookups, which is what makes
/// the loader's coalescing guarantee a statement rather than a hope.
pub struct Catalog {
    pub planets: Vec<PlanetEntity>,
    pub details: Vec<DetailsEntity>,
    pub next_id: i32,
    pub batch_calls: u64,
}

impl View for Catalog {
    type V = CatalogModel;

    open spec fn view(&self) -> CatalogModel {
        CatalogModel {
            planets: self.planets@.map_values(|e: PlanetEntity| e@),
            details: self.details@.map_values(|e: DetailsEntity| e@),
            next_id: self.next_id,
            batch_calls: self.batch_calls,
        }
    }
}

/// Catalog invariant: identifiers are assigned below `next_id`, at most one
/// body row and one detail row per identifier, and all stored numerics are
/// well-formed.
pub open spec fn catalog_wf(m: CatalogModel) -> bool {
    &&& 1 <= m.next_id
    &&& forall|i: int| 0 <= i < m.planets.len() ==> 1 <= #[trigger] m.planets[i].id < m.next_id
    &&& forall|i: int, j: int|
        0 <= i < j < m.planets.len() ==> #[trigger] m.planets[i].id != #[trigger] m.planets[j].id
    &&& forall|i: int|
        0 <= i < m.details.len() ==> 1 <= #[trigger] m.details[i].planet_id < m.next_id
    &&& forall|i: int, j: int|
        0 <= i < j < m.details.len() ==> #[trigger] m.details[i].planet_id
            != #[trigger] m.details[j].planet_id
    &&& forall|i: int| 0 <= i < m.details.len() ==> details_entity_wf(#[trigger] m.details[i])
}

impl Catalog {
    /// An empty catalog; identifiers start at one.
    pub fn new() -> (r: Catalog)
        ensures
            r@.planets == Seq::<PlanetEntityModel>::empty(),
            r@.details == Seq::<DetailsEntityModel>::empty(),
            r@.next_id == 1,
            r@.batch_calls == 0,
            catalog_wf(r@),
    {
        let r = Catalog { planets: Vec::new(), details: Vec::new(), next_id: 1, batch_calls: 0 };
        proof {
            assert(r@.planets =~= Seq::<PlanetEntityModel>::empty());
            assert(r@.details =~= Seq::<DetailsEntityModel>::empty());
        }
        r
    }

    /// Every body row, in insertion order.
    pub fn all(&self) -> (r: Vec<PlanetEntity>)
        ensures
            r@.len() == self@.planets.len(),
            forall|i: int| 0 <= i < r@.len() ==> #[trigger] r@[i]@ == self@.planets[i],
    {
        let mut out: Vec<PlanetEntity> = Vec::new();
        let mut i: usize = 0;
        while i < self.planets.len()
            invariant
                0 <= i <= self.planets@.len(),
                out@.len() == i,
                forall|j: int| 0 <= j < i ==> #[trigger] out@[j]@ == self@.planets[j],
            decreases self.planets@.len() - i,
        {
            let p = self.planets[i].duplicate();
            out.push(p);
            i += 1;
        }
        out
    }

    /// The body row with the given identifier, if any.
    pub fn get(&self, id: i32) -> (r: Option<PlanetEntity>)
        ensures
            match r {
                Some(p) => find_planet(self@.planets, id) == Some(p@),
                None => find_planet(self@.planets, id) is None,
            },
    {
        let ghost rows = self@.planets;
        proof {
            assert(rows.skip(0) =~= rows);
        }
        let mut i: usize = 0;
        while i < self.planets.len()
            invariant
                0 <= i <= self.planets@.len(),
                rows == self@.planets,
                find_planet(rows, id) == find_planet(rows.skip(i as int), id),
            decreases self.planets@.len() - i,
        {
            proof {
                assert(rows.skip(i as int)[0] == rows[i as int]);
                assert(rows.skip(i as int).skip(1) =~= rows.skip(i + 1));
            }
            if self.planets[i].id == id {
                return Some(self.planets[i].duplicate());
            }
            i += 1;
        }
        proof {
            assert(rows.skip(rows.len() as int) =~= Seq::<PlanetEntityModel>::empty());
        }
        None
    }

    /// The detail row for the given body, if any.
    pub fn get_details(&self, id: i32) -> (r: Option<DetailsEntity>)
        ensures
            match r {
                Some(d) => find_details(self@.details, id) == Some(d@),
                None => find_details(self@.details, id) is None,
            },
    {
        let ghost rows = self@.details;
        proof {
            assert(rows.skip(0) =~= rows);
        }
        let mut i: usize = 0;
        while i < self.details.len()
            invariant
                0 <= i <= self.details@.len(),
                rows == self@.details,
                find_details(rows, id) == find_details(rows.skip(i as int), id),
            decreases self.details@.len() - i,
        {
            proof {
                assert(rows.skip(i as int)[0] == rows[i as int]);
                assert(rows.skip(i as int).skip(1) =~= rows.skip(i + 1));
            }
            if self.details[i].planet_id == id {
                return Some(self.details[i].duplicate());
            }
            i += 1;
        }
        proof {
            assert(rows.skip(rows.len() as int) =~= Seq::<DetailsEntityModel>::empty());
        }
        None
    }

    /// One batched detail lookup: the single gateway round trip a coalesced
    /// batch of detail requests turns into. Keys missing a detail row are
    /// simply absent from the response.
    pub fn batch_get_details(&mut self, keys: &Vec<i32>) -> (r: Vec<(i32, DetailsEntity)>)
        requires
            old(self)@.batch_calls < u64::MAX,
        ensures
            final(self)@.planets == old(self)@.planets,
            final(self)@.details == old(self)@.details,
            final(self)@.next_id == old(self)@.next_id,
            final(self)@.batch_calls == old(self)@.batch_calls + 1,
            pairs_view(r@) == spec_batch(old(self)@.details, keys@),
    {
        self.batch_calls = self.batch_calls + 1;
        let ghost rows = self@.details;
        let mut out: Vec<(i32, DetailsEntity)> = Vec::new();
        let mut i: usize = 0;
        while i < keys.len()
            invariant
                0 <= i <= keys@.len(),
                rows == self@.details,
                pairs_view(out@) == spec_batch(rows, keys@.take(i as int)),
            decreases keys@.len() - i,
        {
            let k = keys[i];
            proof {
                assert(keys@.take(i + 1) =~= keys@.take(i as int) + seq![k]);
                lemma_spec_batch_append(rows, keys@.take(i as int), seq![k]);
                assert(seq![k].len() == 1);
                assert(seq![k][0] == k);
                assert(seq![k].skip(1) =~= Seq::<i32>::empty());
                assert(spec_batch(rows, Seq::<i32>::empty()) == Seq::<
                    (i32, DetailsEntityModel),
                >::empty());
                assert(spec_batch(rows, seq![k]) == (match find_details(rows, k) {
                    Some(d) => seq![(k, d)],
                    None => Seq::<(i32, DetailsEntityModel)>::empty(),
                }) + Seq::<(i32, DetailsEntityModel)>::empty());
                assert(spec_batch(rows, seq![k]) =~= (match find_details(rows, k) {
                    Some(d) => seq![(k, d)],
                    None => Seq::<(i32, DetailsEntityModel)>::empty(),
                }));
            }
            match self.get_details(k) {
                Some(d) => {
                    out.push((k, d));
                    proof {
                        assert(pairs_view(out@) =~= spec_batch(rows, keys@.take(i + 1)));
                    }
                },
                None => {
                    proof {
                        assert(pairs_view(out@) =~= spec_batch(rows, keys@.take(i + 1)));
                    }
                },
            }
            i += 1;
        }
        proof {
            assert(keys@.take(keys@.len() as int) =~= keys@);
        }
        out
    }

    /// Persist a new body with its detail row; the body receives the next
    /// free identifier.
    pub fn create(&mut self, new_planet: NewPlanetEntity, new_details: NewDetailsEntity) -> (r:
        PlanetEntity)
        requires
            catalog_wf(old(self)@),
            old(self)@.next_id < i32::MAX,
        ensures
            r@.id == old(self)@.next_id,
            r@.name == new_planet.name@,
            r@.planet_type == new_planet.planet_type,
            final(self)@.planets == old(self)@.planets.push(r@),
            final(self)@.details == old(self)@.details.push(
                DetailsEntityModel {
                    planet_id: old(self)@.next_id,
                    mean_radius: new_details.mean_radius@,
                    mass: new_details.mass@,
                    population: match new_details.population {
                        Some(p) => Some(p@),
                        None => None,
                    },
                },
            ),
            final(self)@.next_id == old(self)@.next_id + 1,
            final(self)@.batch_calls == old(self)@.batch_calls,
            find_planet(final(self)@.planets, r@.id) == Some(r@),
            find_details(final(self)@.details, r@.id) == Some(
                final(self)@.details.last(),
            ),
            dec_wf(new_details.mean_radius@) && int_wf(new_details.mass@) && (match new_details
                .population {
                Some(p) => dec_wf(p@),
                None => true,
            }) ==> catalog_wf(final(self)@),
    {
        let id = self.next_id;
        let planet = PlanetEntity {
            id,
            name: new_planet.name,
            planet_type: new_planet.planet_type,
        };
        let r = planet.duplicate();
        let detail = DetailsEntity {
            planet_id: id,
            mean_radius: new_details.mean_radius,
            mass: new_details.mass,
            population: new_details.population,
        };
        self.planets.push(planet);
        self.details.push(detail);
        self.next_id = self.next_id + 1;
        proof {
            lemma_find_planet_push(old(self)@.planets, r@);
            lemma_find_details_push(old(self)@.details, self@.details.last());
            assert(self@.planets =~= old(self)@.planets.push(r@));
            assert(self@.details =~= old(self)@.details.push(
                DetailsEntityModel {
                    planet_id: id,
                    mean_radius: new_details.mean_radius@,
                    mass: new_details.mass@,
                    population: match new_details.population {
                        Some(p) => Some(p@),
                        None => None,
                    },
                },
            ));
        }
        r
    }
}

} // verus!
